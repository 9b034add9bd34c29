//! AVL binary search tree: a node-owning tree whose nodes cache their
//! height, kept balanced by rotations on the way back up from each
//! recursive insertion or deletion, and a set wrapper that counts its items.
use vstd::prelude::*;
use crate::order::Ordered;
use vstd::arithmetic::power::lemma_pow0;
use vstd::arithmetic::power2::*;
use vstd::set_lib::lemma_set_disjoint_lens;

verus! {

/// A tree is either empty or a node that owns its two subtrees.
pub enum Bst<T> {
    Empty,
    Node(Box<Cell<T>>),
}

/// The contents of a node: its item, its cached height and its subtrees.
pub struct Cell<T> {
    pub item: T,
    pub height: u8,
    pub left: Bst<T>,
    pub right: Bst<T>,
}

/// The larger of two naturals.
pub open spec fn nat_max(a: nat, b: nat) -> nat {
    if a >= b { a } else { b }
}

impl<T: Ordered> Bst<T> {
    /// The items of the tree, keyed by their rank.
    pub open spec fn as_map(self) -> Map<int, T>
        decreases self,
    {
        match self {
            Bst::Empty => Map::empty(),
            Bst::Node(c) => c.left.as_map().union_prefer_right(c.right.as_map()).insert(
                c.item.rank(),
                c.item,
            ),
        }
    }

    /// The items of the tree in order: left subtree, node, right subtree.
    pub open spec fn in_order(self) -> Seq<T>
        decreases self,
    {
        match self {
            Bst::Empty => Seq::empty(),
            Bst::Node(c) => c.left.in_order() + seq![c.item] + c.right.in_order(),
        }
    }

    /// The height computed from the shape of the tree.
    pub open spec fn true_height(self) -> nat
        decreases self,
    {
        match self {
            Bst::Empty => 0,
            Bst::Node(c) => 1 + nat_max(c.left.true_height(), c.right.true_height()),
        }
    }

    /// The height stored at the root (0 for the empty tree).
    pub open spec fn cached_height(self) -> nat {
        match self {
            Bst::Empty => 0,
            Bst::Node(c) => c.height as nat,
        }
    }

    /// Well-formed AVL tree: at every node the cached height is the true
    /// height, the two subtree heights differ by at most one, and the
    /// ranks of the left subtree lie below the node's and those of the right
    /// subtree above it.
    pub open spec fn wf(self) -> bool
        decreases self,
    {
        match self {
            Bst::Empty => true,
            Bst::Node(c) => {
                &&& c.left.wf()
                &&& c.right.wf()
                &&& c.ordered()
                &&& c.balanced()
                &&& c.height as nat == 1 + nat_max(c.left.true_height(), c.right.true_height())
            },
        }
    }

    /// Whether an item of rank `k` is in the tree.
    pub open spec fn has_rank(self, k: int) -> bool {
        self.as_map().dom().contains(k)
    }
}

impl<T: Ordered> Cell<T> {
    /// The items of the node and its subtrees, keyed by rank.
    pub open spec fn as_map(self) -> Map<int, T> {
        self.left.as_map().union_prefer_right(self.right.as_map()).insert(
            self.item.rank(),
            self.item,
        )
    }

    /// The left subtree's ranks lie below the item's, the right's above.
    pub open spec fn ordered(self) -> bool {
        &&& forall|k: int| #[trigger] self.left.as_map().dom().contains(k) ==> k < self.item.rank()
        &&& forall|k: int| #[trigger] self.right.as_map().dom().contains(k) ==> k > self.item.rank()
    }

    /// The subtree heights differ by at most one.
    pub open spec fn balanced(self) -> bool {
        &&& self.left.true_height() <= self.right.true_height() + 1
        &&& self.right.true_height() <= self.left.true_height() + 1
    }

    /// The node as a well-formed tree.
    pub open spec fn wf(self) -> bool {
        &&& self.left.wf()
        &&& self.right.wf()
        &&& self.ordered()
        &&& self.balanced()
        &&& self.height as nat == 1 + nat_max(self.left.true_height(), self.right.true_height())
    }
}

/// `x` is in `m` under its rank, and no rank of `m` is smaller.
pub open spec fn is_least<T: Ordered>(m: Map<int, T>, x: T) -> bool {
    &&& m.dom().contains(x.rank())
    &&& m[x.rank()] == x
    &&& forall|j: int| #[trigger] m.dom().contains(j) ==> x.rank() <= j
}

/// `x` is in `m` under its rank, and no rank of `m` is larger.
pub open spec fn is_greatest<T: Ordered>(m: Map<int, T>, x: T) -> bool {
    &&& m.dom().contains(x.rank())
    &&& m[x.rank()] == x
    &&& forall|j: int| #[trigger] m.dom().contains(j) ==> j <= x.rank()
}

/// `x` is the item of `m` with the smallest rank above `k`.
pub open spec fn is_next_above<T: Ordered>(m: Map<int, T>, k: int, x: T) -> bool {
    &&& m.dom().contains(x.rank())
    &&& m[x.rank()] == x
    &&& k < x.rank()
    &&& forall|j: int| #[trigger] m.dom().contains(j) && k < j ==> x.rank() <= j
}

/// `x` is the item of `m` with the largest rank below `k`.
pub open spec fn is_next_below<T: Ordered>(m: Map<int, T>, k: int, x: T) -> bool {
    &&& m.dom().contains(x.rank())
    &&& m[x.rank()] == x
    &&& x.rank() < k
    &&& forall|j: int| #[trigger] m.dom().contains(j) && j < k ==> j <= x.rank()
}

/// Every item of `small` is in `big` under the same rank.
pub open spec fn is_part_of<T>(small: Map<int, T>, big: Map<int, T>) -> bool {
    forall|j: int| #[trigger]
        small.dom().contains(j) ==> big.dom().contains(j) && big[j] == small[j]
}

/// The items of a node and its subtrees.
pub proof fn lemma_node_items<T: Ordered>(t: Bst<T>)
    requires
        t.wf(),
        t is Node,
    ensures
        is_part_of(t->Node_0.left.as_map(), t.as_map()),
        is_part_of(t->Node_0.right.as_map(), t.as_map()),
        t.as_map().dom().contains(t->Node_0.item.rank()),
        t.as_map()[t->Node_0.item.rank()] == t->Node_0.item,
        forall|j: int| #[trigger]
            t.as_map().dom().contains(j) ==> t->Node_0.left.as_map().dom().contains(j)
                || t->Node_0.right.as_map().dom().contains(j) || j == t->Node_0.item.rank(),
{
    let c = t->Node_0;
    assert forall|j: int| #[trigger] c.left.as_map().dom().contains(j) implies t.as_map().dom().contains(j)
        && t.as_map()[j] == c.left.as_map()[j] by {
        assert(!c.right.as_map().dom().contains(j));
    }
}

/// The empty tree is the one without items.
pub proof fn lemma_empty_items<T: Ordered>(t: Bst<T>)
    ensures
        t is Empty <==> t.as_map().dom() =~= Set::<int>::empty(),
{
    if let Bst::Node(c) = t {
        assert(t.as_map().dom().contains(c.item.rank()));
    }
}

/// A well-formed tree caches its true height at the root.
pub proof fn lemma_cached_height<T: Ordered>(t: Bst<T>)
    requires
        t.wf(),
    ensures
        t.cached_height() == t.true_height(),
{
}

/// The default tree is the empty one.
impl<T> Default for Bst<T> {
    fn default() -> (r: Self)
        ensures
            r is Empty,
    {
        Bst::Empty
    }
}

impl<T: Ordered> Bst<T> {
    /// Moves the tree out, leaving the empty tree in its place.
    pub(crate) fn take(&mut self) -> (r: Bst<T>)
        ensures
            r == *old(self),
            *final(self) == Bst::<T>::Empty,
    {
        let mut r = Bst::Empty;
        std::mem::swap(self, &mut r);
        r
    }

    /// Creates a tree of one node that holds `val`.
    pub fn new_leaf(val: T) -> (r: Bst<T>)
        ensures
            r.wf(),
            r.as_map() == Map::<int, T>::empty().insert(val.rank(), val),
            r.in_order() == seq![val],
            r.true_height() == 1,
            r matches Bst::Node(c) && c.item == val && c.left is Empty && c.right is Empty,
    {
        let r = Bst::Node(Box::new(Cell { item: val, height: 1, left: Bst::Empty, right: Bst::Empty }));
        assert(Bst::<T>::Empty.as_map() =~= Map::empty());
        assert(Bst::<T>::Empty.in_order() =~= Seq::empty());
        assert(Bst::<T>::Empty.true_height() == 0);
        assert(Bst::<T>::Empty.wf());
        assert(r.as_map() =~= Map::<int, T>::empty().insert(val.rank(), val));
        assert(r.in_order() =~= seq![val]);
        r
    }

    /// The height stored at the root of the tree, 0 if it is empty.
    pub fn height(&self) -> (r: u8)
        ensures
            r as nat == self.cached_height(),
            self.wf() ==> r as nat == self.true_height(),
    {
        match self {
            Bst::Empty => 0,
            Bst::Node(c) => c.height,
        }
    }
}

impl<T: Ordered> Cell<T> {
    /// Stores one more than the larger subtree height as the node's height
    /// and returns the balance: right subtree height minus left.
    pub fn set_height(&mut self) -> (r: i16)
        requires
            old(self).left.cached_height() < 255,
            old(self).right.cached_height() < 255,
        ensures
            final(self).height as nat == 1 + nat_max(
                old(self).left.cached_height(),
                old(self).right.cached_height(),
            ),
            final(self).item == old(self).item,
            final(self).left == old(self).left,
            final(self).right == old(self).right,
            r == old(self).right.cached_height() - old(self).left.cached_height(),
    {
        let hl = self.left.height();
        let hr = self.right.height();
        self.height = if hl > hr { hl + 1 } else { hr + 1 };
        (hr as i16) - (hl as i16)
    }

    /// Rotation to the right: the left child takes the node's place, its
    /// right subtree becomes the left subtree of the demoted node.
    #[allow(non_snake_case)]
    fn LL(&mut self)
        requires
            old(self).left matches Bst::Node(l) && l.left.cached_height() < 255
                && l.right.cached_height() < 254 && old(self).right.cached_height() < 254,
        ensures
            old(self).left matches Bst::Node(l) && {
                &&& final(self).item == l.item
                &&& final(self).left == l.left
                &&& final(self).right matches Bst::Node(r) && {
                    &&& r.item == old(self).item
                    &&& r.left == l.right
                    &&& r.right == old(self).right
                    &&& r.height as nat == 1 + nat_max(
                        l.right.cached_height(),
                        old(self).right.cached_height(),
                    )
                    &&& final(self).height as nat == 1 + nat_max(
                        l.left.cached_height(),
                        r.height as nat,
                    )
                }
            },
    {
        let l = self.left.take();
        if let Bst::Node(mut lnode) = l {
            std::mem::swap(&mut self.item, &mut lnode.item);
            std::mem::swap(&mut lnode.left, &mut lnode.right);
            std::mem::swap(&mut lnode.right, &mut self.right);
            lnode.set_height();
            self.left = self.right.take();
            self.right = Bst::Node(lnode);
        }
        self.set_height();
    }

    /// Rotation to the left: the mirror image of [`Cell::LL`].
    #[allow(non_snake_case)]
    fn RR(&mut self)
        requires
            old(self).right matches Bst::Node(r) && r.right.cached_height() < 255
                && r.left.cached_height() < 254 && old(self).left.cached_height() < 254,
        ensures
            old(self).right matches Bst::Node(r) && {
                &&& final(self).item == r.item
                &&& final(self).right == r.right
                &&& final(self).left matches Bst::Node(l) && {
                    &&& l.item == old(self).item
                    &&& l.right == r.left
                    &&& l.left == old(self).left
                    &&& l.height as nat == 1 + nat_max(
                        old(self).left.cached_height(),
                        r.left.cached_height(),
                    )
                    &&& final(self).height as nat == 1 + nat_max(
                        l.height as nat,
                        r.right.cached_height(),
                    )
                }
            },
    {
        let r = self.right.take();
        if let Bst::Node(mut rnode) = r {
            std::mem::swap(&mut rnode.item, &mut self.item);
            std::mem::swap(&mut rnode.left, &mut rnode.right);
            std::mem::swap(&mut rnode.left, &mut self.left);
            rnode.set_height();
            self.right = self.left.take();
            self.left = Bst::Node(rnode);
        }
        self.set_height();
    }

    /// Restores the balance of a node whose subtrees are well-formed and
    /// differ in height by at most two: recomputes the height and, where the
    /// node leans by two, applies a single or double rotation.
    pub fn balance(&mut self)
        requires
            old(self).left.wf(),
            old(self).right.wf(),
            old(self).ordered(),
            old(self).left.true_height() <= old(self).right.true_height() + 2,
            old(self).right.true_height() <= old(self).left.true_height() + 2,
            old(self).left.true_height() < 255,
            old(self).right.true_height() < 255,
        ensures
            final(self).wf(),
            final(self).as_map() == old(self).as_map(),
            old(self).balanced() ==> final(self).height as nat == 1 + nat_max(
                old(self).left.true_height(),
                old(self).right.true_height(),
            ),
            nat_max(old(self).left.true_height(), old(self).right.true_height())
                <= final(self).height as nat,
            final(self).height as nat <= 1 + nat_max(
                old(self).left.true_height(),
                old(self).right.true_height(),
            ),
    {
        let ghost s0 = *self;
        proof {
            lemma_cached_height(s0.left);
            lemma_cached_height(s0.right);
        }
        let hd = self.set_height();
        if hd < -1 {
            let ghost s1 = *self;
            if let Bst::Node(lnode) = &mut self.left {
                let ghost l0 = **lnode;
                proof {
                    lemma_cached_height(l0.left);
                    lemma_cached_height(l0.right);
                }
                let hll = lnode.left.height();
                let hlr = lnode.right.height();
                if hlr > hll {
                    proof {
                        assert(l0.right.wf());
                        if let Bst::Node(lr) = l0.right {
                            lemma_cached_height(lr.left);
                            lemma_cached_height(lr.right);
                        }
                    }
                    lnode.RR();
                    proof { lemma_rotated_left(l0, **lnode); }
                }
            }
            let ghost s2 = *self;
            assert(s2.left.as_map() =~= s0.left.as_map());
            assert(s2.ordered());
            self.LL();
            proof { lemma_rotated_right(s2, *self); }
        } else if hd > 1 {
            if let Bst::Node(rnode) = &mut self.right {
                let ghost r0 = **rnode;
                proof {
                    lemma_cached_height(r0.left);
                    lemma_cached_height(r0.right);
                }
                let hrl = rnode.left.height();
                let hrr = rnode.right.height();
                if hrl > hrr {
                    proof {
                        assert(r0.left.wf());
                        if let Bst::Node(rl) = r0.left {
                            lemma_cached_height(rl.left);
                            lemma_cached_height(rl.right);
                        }
                    }
                    rnode.LL();
                    proof { lemma_rotated_right(r0, **rnode); }
                }
            }
            let ghost s2 = *self;
            assert(s2.right.as_map() =~= s0.right.as_map());
            assert(s2.ordered());
            self.RR();
            proof { lemma_rotated_left(s2, *self); }
        }
    }
}

impl<T: Ordered> Bst<T> {
    /// Whether an item of the same rank as `v` is in the tree; an iterative
    /// descent that goes left on smaller and right on larger ranks.
    pub fn search(&self, v: &T) -> (r: bool)
        requires
            self.wf(),
        ensures
            r == self.has_rank(v.rank()),
    {
        let mut current = self;
        loop
            invariant
                current.wf(),
                self.has_rank(v.rank()) == current.has_rank(v.rank()),
            decreases current.true_height(),
        {
            match current {
                Bst::Empty => {
                    return false;
                },
                Bst::Node(cell) => {
                    if v.is_same(&cell.item) {
                        return true;
                    } else if v.is_less(&cell.item) {
                        assert(!cell.right.as_map().dom().contains(v.rank()));
                        current = &cell.left;
                    } else {
                        assert(!cell.left.as_map().dom().contains(v.rank()));
                        current = &cell.right;
                    }
                },
            }
        }
    }

    /// Inserts `v` unless an item of the same rank is present; returns
    /// whether it was inserted.  Every node on the way back up recomputes
    /// its height and is rebalanced.
    pub fn insert(&mut self, v: T) -> (r: bool)
        requires
            old(self).wf(),
            old(self).true_height() < 255,
        ensures
            final(self).wf(),
            r == !old(self).has_rank(v.rank()),
            r ==> final(self).as_map() == old(self).as_map().insert(v.rank(), v),
            !r ==> *final(self) == *old(self),
            old(self).true_height() <= final(self).true_height(),
            final(self).true_height() <= old(self).true_height() + 1,
        decreases old(self).true_height(),
    {
        match self {
            Bst::Empty => {
                *self = Bst::new_leaf(v);
                assert(Bst::<T>::Empty.as_map() =~= Map::empty());
                true
            },
            Bst::Node(cell) => {
                let ghost c0 = **cell;
                let ghost k = v.rank();
                if v.is_same(&cell.item) {
                    false
                } else if v.is_less(&cell.item) {
                    let answer = cell.left.insert(v);
                    if answer {
                        proof {
                            assert(!c0.right.as_map().dom().contains(k));
                        }
                        cell.balance();
                        proof {
                            assert(cell.as_map() =~= c0.as_map().insert(k, v));
                        }
                    }
                    answer
                } else {
                    let answer = cell.right.insert(v);
                    if answer {
                        proof {
                            assert(!c0.left.as_map().dom().contains(k));
                        }
                        cell.balance();
                        proof {
                            assert(cell.as_map() =~= c0.as_map().insert(k, v));
                        }
                    }
                    answer
                }
            },
        }
    }

    /// Removes the item of the same rank as `v`, if there is one; returns
    /// whether something was removed.  A node whose left subtree is empty
    /// is replaced by its right subtree; otherwise its item is replaced by
    /// the largest item of its left subtree, which leaves that subtree.
    pub fn delete(&mut self, v: &T) -> (r: bool)
        requires
            old(self).wf(),
        ensures
            final(self).wf(),
            r == old(self).has_rank(v.rank()),
            final(self).as_map() == old(self).as_map().remove(v.rank()),
            !r ==> *final(self) == *old(self),
            final(self).true_height() <= old(self).true_height(),
            old(self).true_height() <= final(self).true_height() + 1,
        decreases old(self).true_height(),
    {
        let ghost k = v.rank();
        let t = self.take();
        match t {
            Bst::Empty => {
                assert(t.as_map() =~= t.as_map().remove(k));
                false
            },
            Bst::Node(mut cell) => {
                let ghost c0 = *cell;
                proof {
                    lemma_cached_height(c0.left);
                    lemma_cached_height(c0.right);
                }
                if v.is_same(&cell.item) {
                    if let Bst::Empty = &cell.left {
                        let c = *cell;
                        assert(c.left.as_map() =~= Map::empty());
                        *self = c.right;
                        assert(self.as_map() =~= t.as_map().remove(k));
                    } else {
                        let m = cell.left.delmax();
                        cell.item = m;
                        proof {
                            assert forall|j: int| #[trigger]
                                cell.right.as_map().dom().contains(j) implies j > m.rank() by {
                                assert(c0.left.as_map().dom().contains(m.rank()));
                            }
                        }
                        cell.balance();
                        *self = Bst::Node(cell);
                        assert(self.as_map() =~= t.as_map().remove(k));
                    }
                    true
                } else if v.is_less(&cell.item) {
                    assert(!c0.right.as_map().dom().contains(k));
                    let answer = cell.left.delete(v);
                    if answer {
                        cell.balance();
                    }
                    *self = Bst::Node(cell);
                    assert(self.as_map() =~= t.as_map().remove(k));
                    answer
                } else {
                    assert(!c0.left.as_map().dom().contains(k));
                    let answer = cell.right.delete(v);
                    if answer {
                        cell.balance();
                    }
                    *self = Bst::Node(cell);
                    assert(self.as_map() =~= t.as_map().remove(k));
                    answer
                }
            },
        }
    }

    /// Removes and returns the largest item of a non-empty tree.
    pub(crate) fn delmax(&mut self) -> (r: T)
        requires
            old(self).wf(),
            *old(self) is Node,
        ensures
            final(self).wf(),
            old(self).as_map().dom().contains(r.rank()),
            old(self).as_map()[r.rank()] == r,
            forall|j: int| #[trigger] old(self).as_map().dom().contains(j) ==> j <= r.rank(),
            final(self).as_map() == old(self).as_map().remove(r.rank()),
            final(self).true_height() <= old(self).true_height(),
            old(self).true_height() <= final(self).true_height() + 1,
        decreases old(self).true_height(),
    {
        let t = self.take();
        match t {
            Bst::Node(mut cell) => {
                let ghost c0 = *cell;
                proof {
                    lemma_cached_height(c0.left);
                    lemma_cached_height(c0.right);
                }
                if let Bst::Empty = &cell.right {
                    let c = *cell;
                    assert(c.right.as_map() =~= Map::empty());
                    *self = c.left;
                    assert(self.as_map() =~= t.as_map().remove(c.item.rank()));
                    c.item
                } else {
                    let answer = cell.right.delmax();
                    cell.balance();
                    *self = Bst::Node(cell);
                    assert(self.as_map() =~= t.as_map().remove(answer.rank()));
                    answer
                }
            },
            Bst::Empty => vstd::pervasive::unreached(),
        }
    }
}

impl<T: Ordered> Bst<T> {
    /// The subtree of the node with the smallest item: the leftmost node.
    /// The empty tree gives itself.
    pub fn min_node(&self) -> (r: &Bst<T>)
        requires
            self.wf(),
        ensures
            r.wf(),
            r is Empty <==> self is Empty,
            r matches Bst::Node(c) ==> c.left is Empty && is_least(self.as_map(), c.item),
            is_part_of(r.as_map(), self.as_map()),
    {
        let mut current = self;
        loop
            invariant
                current.wf(),
                current is Empty <==> self is Empty,
                is_part_of(current.as_map(), self.as_map()),
                forall|i: int, j: int|
                    #[trigger] current.as_map().dom().contains(i) && #[trigger] self.as_map().dom().contains(j)
                        && !current.as_map().dom().contains(j) ==> i < j,
            decreases current.true_height(),
        {
            match current {
                Bst::Empty => {
                    return current;
                },
                Bst::Node(cell) => {
                    proof { lemma_node_items(*current); }
                    if let Bst::Empty = &cell.left {
                        assert(cell.left.as_map() =~= Map::empty());
                        return current;
                    } else {
                        proof { lemma_empty_items(cell.left); }
                        current = &cell.left;
                    }
                },
            }
        }
    }

    /// The subtree of the node with the largest item: the rightmost node.
    /// The empty tree gives itself.
    pub fn max_node(&self) -> (r: &Bst<T>)
        requires
            self.wf(),
        ensures
            r.wf(),
            r is Empty <==> self is Empty,
            r matches Bst::Node(c) ==> c.right is Empty && is_greatest(self.as_map(), c.item),
            is_part_of(r.as_map(), self.as_map()),
    {
        let mut current = self;
        loop
            invariant
                current.wf(),
                current is Empty <==> self is Empty,
                is_part_of(current.as_map(), self.as_map()),
                forall|i: int, j: int|
                    #[trigger] current.as_map().dom().contains(i) && #[trigger] self.as_map().dom().contains(j)
                        && !current.as_map().dom().contains(j) ==> j < i,
            decreases current.true_height(),
        {
            match current {
                Bst::Empty => {
                    return current;
                },
                Bst::Node(cell) => {
                    proof { lemma_node_items(*current); }
                    if let Bst::Empty = &cell.right {
                        assert(cell.right.as_map() =~= Map::empty());
                        return current;
                    } else {
                        proof { lemma_empty_items(cell.right); }
                        current = &cell.right;
                    }
                },
            }
        }
    }

    /// The smallest item, if the tree has any.
    pub fn min(&self) -> (r: Option<&T>)
        requires
            self.wf(),
        ensures
            r is None <==> self is Empty,
            r matches Some(x) ==> is_least(self.as_map(), *x),
    {
        self.min_node().get_item()
    }

    /// The largest item, if the tree has any.
    pub fn max(&self) -> (r: Option<&T>)
        requires
            self.wf(),
        ensures
            r is None <==> self is Empty,
            r matches Some(x) ==> is_greatest(self.as_map(), *x),
    {
        self.max_node().get_item()
    }

    /// The left subtree; the empty tree gives itself.
    pub fn get_left(&self) -> (r: &Bst<T>)
        ensures
            r == (match self {
                Bst::Empty => self,
                Bst::Node(c) => &c.left,
            }),
    {
        match self {
            Bst::Empty => self,
            Bst::Node(c) => &c.left,
        }
    }

    /// The right subtree; the empty tree gives itself.
    pub fn get_right(&self) -> (r: &Bst<T>)
        ensures
            r == (match self {
                Bst::Empty => self,
                Bst::Node(c) => &c.right,
            }),
    {
        match self {
            Bst::Empty => self,
            Bst::Node(c) => &c.right,
        }
    }

    /// The item at the root, if the tree is not empty.
    pub fn get_item(&self) -> (r: Option<&T>)
        ensures
            r == (match self {
                Bst::Empty => None,
                Bst::Node(c) => Some(&c.item),
            }),
    {
        match self {
            Bst::Empty => None,
            Bst::Node(c) => Some(&c.item),
        }
    }
}

impl<T: Ordered> Bst<T> {
    /// The subtree whose root holds the item that follows `x`, or the
    /// empty tree if `x` is absent or the largest.  Descends from the root,
    /// remembering the last node where the search went left.
    pub fn successor(&self, x: &T) -> (r: &Bst<T>)
        requires
            self.wf(),
        ensures
            r.wf(),
            r matches Bst::Node(c) ==> self.has_rank(x.rank())
                && is_next_above(self.as_map(), x.rank(), c.item),
            r is Empty ==> !self.has_rank(x.rank())
                || forall|j: int| #[trigger] self.as_map().dom().contains(j) ==> j <= x.rank(),
    {
        let ghost k = x.rank();
        let mut ancestor: &Bst<T> = &Bst::Empty;
        let mut current = self;
        loop
            invariant
                k == x.rank(),
                current.wf(),
                ancestor.wf(),
                self.has_rank(k) == current.has_rank(k),
                is_part_of(current.as_map(), self.as_map()),
                ancestor matches Bst::Node(a) ==> {
                    &&& self.as_map().dom().contains(a.item.rank())
                    &&& self.as_map()[a.item.rank()] == a.item
                    &&& k < a.item.rank()
                    &&& forall|i: int| #[trigger]
                        current.as_map().dom().contains(i) ==> i < a.item.rank()
                },
                forall|j: int| #[trigger] self.as_map().dom().contains(j) && k < j
                    && !current.as_map().dom().contains(j) ==> (ancestor matches Bst::Node(a)
                    && a.item.rank() <= j),
            decreases current.true_height(),
        {
            match current {
                Bst::Empty => {
                    proof {
                        lemma_empty_items(*current);
                    }
                    return current;
                },
                Bst::Node(cell) => {
                    proof {
                        lemma_node_items(*current);
                        assert(cell.ordered());
                    }
                    if x.is_less(&cell.item) {
                        assert(!cell.right.as_map().dom().contains(k));
                        ancestor = current;
                        current = &cell.left;
                    } else if !x.is_same(&cell.item) {
                        assert(!cell.left.as_map().dom().contains(k));
                        current = &cell.right;
                    } else {
                        if let Bst::Empty = &cell.right {
                            assert(cell.right.as_map() =~= Map::empty());
                            assert forall|j: int| #[trigger] self.as_map().dom().contains(j) && k < j
                                implies !current.as_map().dom().contains(j) by {
                                if current.as_map().dom().contains(j) {
                                    assert(!cell.left.as_map().dom().contains(j));
                                }
                            }
                            return ancestor;
                        } else {
                            let m = cell.right.min_node();
                            proof {
                                lemma_node_items(*m);
                                assert forall|j: int| #[trigger] self.as_map().dom().contains(j) && k < j
                                    && current.as_map().dom().contains(j)
                                    implies cell.right.as_map().dom().contains(j) by {
                                    assert(!cell.left.as_map().dom().contains(j));
                                }
                            }
                            return m;
                        }
                    }
                },
            }
        }
    }

    /// The subtree whose root holds the item that precedes `x`, or the
    /// empty tree if `x` is absent or the smallest: the mirror image of
    /// [`Bst::successor`].
    pub fn predecessor(&self, x: &T) -> (r: &Bst<T>)
        requires
            self.wf(),
        ensures
            r.wf(),
            r matches Bst::Node(c) ==> self.has_rank(x.rank())
                && is_next_below(self.as_map(), x.rank(), c.item),
            r is Empty ==> !self.has_rank(x.rank())
                || forall|j: int| #[trigger] self.as_map().dom().contains(j) ==> x.rank() <= j,
    {
        let ghost k = x.rank();
        let mut ancestor: &Bst<T> = &Bst::Empty;
        let mut current = self;
        loop
            invariant
                k == x.rank(),
                current.wf(),
                ancestor.wf(),
                self.has_rank(k) == current.has_rank(k),
                is_part_of(current.as_map(), self.as_map()),
                ancestor matches Bst::Node(a) ==> {
                    &&& self.as_map().dom().contains(a.item.rank())
                    &&& self.as_map()[a.item.rank()] == a.item
                    &&& a.item.rank() < k
                    &&& forall|i: int| #[trigger]
                        current.as_map().dom().contains(i) ==> a.item.rank() < i
                },
                forall|j: int| #[trigger] self.as_map().dom().contains(j) && j < k
                    && !current.as_map().dom().contains(j) ==> (ancestor matches Bst::Node(a)
                    && j <= a.item.rank()),
            decreases current.true_height(),
        {
            match current {
                Bst::Empty => {
                    proof {
                        lemma_empty_items(*current);
                    }
                    return current;
                },
                Bst::Node(cell) => {
                    proof {
                        lemma_node_items(*current);
                        assert(cell.ordered());
                    }
                    if cell.item.is_less(x) {
                        assert(!cell.left.as_map().dom().contains(k));
                        ancestor = current;
                        current = &cell.right;
                    } else if !x.is_same(&cell.item) {
                        assert(!cell.right.as_map().dom().contains(k));
                        current = &cell.left;
                    } else {
                        if let Bst::Empty = &cell.left {
                            assert(cell.left.as_map() =~= Map::empty());
                            assert forall|j: int| #[trigger] self.as_map().dom().contains(j) && j < k
                                implies !current.as_map().dom().contains(j) by {
                                if current.as_map().dom().contains(j) {
                                    assert(!cell.right.as_map().dom().contains(j));
                                }
                            }
                            return ancestor;
                        } else {
                            let m = cell.left.max_node();
                            proof {
                                lemma_node_items(*m);
                                assert forall|j: int| #[trigger] self.as_map().dom().contains(j) && j < k
                                    && current.as_map().dom().contains(j)
                                    implies cell.left.as_map().dom().contains(j) by {
                                    assert(!cell.right.as_map().dom().contains(j));
                                }
                            }
                            return m;
                        }
                    }
                },
            }
        }
    }
}

/// The ranks of `s` strictly increase from first to last.
pub open spec fn strictly_ascending<T: Ordered>(s: Seq<T>) -> bool {
    forall|i: int, j: int| 0 <= i < j < s.len() ==> #[trigger] s[i].rank() < #[trigger] s[j].rank()
}

/// The items of a node: those of its subtrees and its own, all distinct.
pub proof fn lemma_node_count<T: Ordered>(t: Bst<T>)
    requires
        t.wf(),
        t is Node,
        t->Node_0.left.as_map().dom().finite(),
        t->Node_0.right.as_map().dom().finite(),
    ensures
        t.as_map().dom().finite(),
        t.as_map().dom().len() == t->Node_0.left.as_map().dom().len()
            + t->Node_0.right.as_map().dom().len() + 1,
{
    let c = t->Node_0;
    let dl = c.left.as_map().dom();
    let dr = c.right.as_map().dom();
    assert(dl.disjoint(dr)) by {
        assert forall|j: int| dl.contains(j) implies !dr.contains(j) by {}
    }
    lemma_set_disjoint_lens(dl, dr);
    assert(!(dl + dr).contains(c.item.rank()));
    assert(t.as_map().dom() =~= (dl + dr).insert(c.item.rank()));
}

/// In-order traversal of a well-formed tree yields its items in strictly
/// ascending order, each once: every item it yields is in the tree under
/// its rank, and it yields as many items as the tree holds.
pub proof fn lemma_in_order<T: Ordered>(t: Bst<T>)
    requires
        t.wf(),
    ensures
        strictly_ascending(t.in_order()),
        forall|i: int| #![trigger t.in_order()[i]] 0 <= i < t.in_order().len() ==> {
            &&& t.as_map().dom().contains(t.in_order()[i].rank())
            &&& t.as_map()[t.in_order()[i].rank()] == t.in_order()[i]
        },
        t.as_map().dom().finite(),
        t.in_order().len() == t.as_map().dom().len(),
    decreases t,
{
    match t {
        Bst::Empty => {
            lemma_empty_items(t);
        },
        Bst::Node(c) => {
            lemma_in_order(c.left);
            lemma_in_order(c.right);
            lemma_node_count(t);
            lemma_node_items(t);
            let l = c.left.in_order();
            let r = c.right.in_order();
            let s = t.in_order();
            assert(s =~= l + seq![c.item] + r);
            assert forall|i: int| #![trigger s[i]] 0 <= i < s.len() implies {
                &&& t.as_map().dom().contains(s[i].rank())
                &&& t.as_map()[s[i].rank()] == s[i]
                &&& (i < l.len() ==> s[i].rank() < c.item.rank())
                &&& (i > l.len() ==> s[i].rank() > c.item.rank())
            } by {
                if i < l.len() {
                    assert(s[i] == l[i]);
                } else if i > l.len() {
                    assert(s[i] == r[i - l.len() - 1]);
                }
            }
            assert forall|i: int, j: int| 0 <= i < j < s.len() implies #[trigger] s[i].rank()
                < #[trigger] s[j].rank() by {
                if j < l.len() {
                    assert(s[i] == l[i] && s[j] == l[j]);
                } else if i > l.len() {
                    assert(s[i] == r[i - l.len() - 1] && s[j] == r[j - l.len() - 1]);
                }
            }
        },
    }
}

impl<T: Ordered> Bst<T> {
    /// Applies `f` to each item in preorder, together with the item's right
    /// ancestor (the nearest ancestor whose left subtree holds it) and left
    /// ancestor (the nearest whose right subtree holds it), each the empty
    /// tree where there is none.  `f` may be called on any arguments.
    pub fn map_preorder<'t, F>(&'t self, right_ancestor: &'t Bst<T>, left_ancestor: &'t Bst<T>, f: &F)
        where
            F: Fn(&T, &Bst<T>, &Bst<T>),
        requires
            forall|x: &T, a: &Bst<T>, b: &Bst<T>| #[trigger] f.requires((x, a, b)),
        decreases self,
    {
        match self {
            Bst::Empty => {},
            Bst::Node(cell) => {
                f(&cell.item, right_ancestor, left_ancestor);
                cell.left.map_preorder(self, left_ancestor, f);
                cell.right.map_preorder(right_ancestor, self, f);
            },
        }
    }
}

/// A well-formed tree holds finitely many items, and at least
/// `2^(h/2) - 1` of them where `h` is its height.
pub proof fn lemma_size_height<T: Ordered>(t: Bst<T>)
    requires
        t.wf(),
    ensures
        t.as_map().dom().finite(),
        pow2(t.true_height() / 2) <= t.as_map().dom().len() + 1,
    decreases t,
{
    match t {
        Bst::Empty => {
            lemma_empty_items(t);
            lemma_pow0(2);
        },
        Bst::Node(c) => {
            lemma_size_height(c.left);
            lemma_size_height(c.right);
            let dl = c.left.as_map().dom();
            let dr = c.right.as_map().dom();
            assert(dl.disjoint(dr)) by {
                assert forall|j: int| dl.contains(j) implies !dr.contains(j) by {}
            }
            lemma_set_disjoint_lens(dl, dr);
            assert(!(dl + dr).contains(c.item.rank()));
            assert(t.as_map().dom() =~= (dl + dr).insert(c.item.rank()));
            let hl = c.left.true_height();
            let hr = c.right.true_height();
            let h = t.true_height();
            if h == 1 {
                lemma_pow2(0);
            } else {
                let lo: nat = (h - 2) as nat / 2;
                assert(h / 2 == lo + 1);
                assert(hl / 2 >= lo && hr / 2 >= lo);
                if hl / 2 > lo {
                    lemma_pow2_strictly_increases(lo, hl / 2);
                }
                if hr / 2 > lo {
                    lemma_pow2_strictly_increases(lo, hr / 2);
                }
                lemma_pow2_unfold(lo + 1);
            }
        },
    }
}

/// A well-formed tree of fewer than `2^64` items is lower than 255.
pub proof fn lemma_height_bound<T: Ordered>(t: Bst<T>)
    requires
        t.wf(),
        t.as_map().dom().len() < 0xffff_ffff_ffff_ffff,
    ensures
        t.true_height() < 255,
{
    lemma_size_height(t);
    lemma2_to64();
    if t.true_height() / 2 > 64 {
        lemma_pow2_strictly_increases(64, t.true_height() / 2);
    }
}

/// An in-order traversal: a stack of the nodes whose item and right
/// subtree have not been visited yet, the next one on top.
pub struct InorderIter<'lt, T> {
    cells: Vec<&'lt Cell<T>>,
}

/// The items that a stack of pending nodes stands for, top first.
pub open spec fn pending<T: Ordered>(cells: Seq<&Cell<T>>) -> Seq<T>
    decreases cells.len(),
{
    if cells.len() == 0 {
        Seq::empty()
    } else {
        let c = cells.last();
        seq![c.item] + c.right.in_order() + pending(cells.drop_last())
    }
}

impl<'lt, T: Ordered> InorderIter<'lt, T> {
    /// The items that the traversal has yet to yield, in order.
    pub closed spec fn remaining(&self) -> Seq<T> {
        pending(self.cells@)
    }

    /// Pushes the left spine of `t` on the stack.
    fn push_left_spine(&mut self, t: &'lt Bst<T>)
        ensures
            final(self).remaining() == t.in_order() + old(self).remaining(),
    {
        let mut current = t;
        loop
            invariant
                current.in_order() + pending(self.cells@) == t.in_order() + pending(old(self).cells@),
            decreases current.true_height(),
        {
            match current {
                Bst::Empty => {
                    assert(current.in_order() =~= Seq::empty());
                    assert(pending(self.cells@) =~= t.in_order() + pending(old(self).cells@));
                    return;
                },
                Bst::Node(lcell) => {
                    let ghost before = self.cells@;
                    self.cells.push(&**lcell);
                    assert(self.cells@.drop_last() =~= before);
                    assert(current.in_order() + pending(before) =~= lcell.left.in_order()
                        + pending(self.cells@));
                    current = &lcell.left;
                },
            }
        }
    }

    /// Yields the next item in order, or `None` when all have been yielded.
    pub fn next(&mut self) -> (r: Option<&'lt T>)
        ensures
            old(self).remaining().len() == 0 ==> r is None && final(self).remaining() == old(
                self,
            ).remaining(),
            old(self).remaining().len() > 0 ==> r == Some(&old(self).remaining()[0])
                && final(self).remaining() == old(self).remaining().drop_first(),
    {
        match self.cells.pop() {
            None => {
                None
            },
            Some(nextcell) => {
                let ghost rest = self.cells@;
                assert(old(self).cells@.drop_last() =~= rest);
                self.push_left_spine(&nextcell.right);
                assert(old(self).remaining() =~= seq![nextcell.item] + self.remaining());
                Some(&nextcell.item)
            },
        }
    }
}

impl<T: Ordered> Bst<T> {
    /// An in-order traversal of the tree.
    pub fn iter<'lt>(&'lt self) -> (r: InorderIter<'lt, T>)
        ensures
            r.remaining() == self.in_order(),
    {
        let mut it = InorderIter { cells: Vec::new() };
        assert(it.remaining() =~= Seq::empty());
        it.push_left_spine(self);
        assert(self.in_order() + Seq::<T>::empty() =~= self.in_order());
        it
    }
}

/// A set kept in an AVL tree, with its number of items counted so that
/// the size is known at once.
pub struct AVLSet<T> {
    pub root: Bst<T>,
    pub size: usize,
}

impl<T: Ordered> View for AVLSet<T> {
    type V = Map<int, T>;

    /// The items of the set, keyed by rank.
    open spec fn view(&self) -> Map<int, T> {
        self.root.as_map()
    }
}

impl<T: Ordered> AVLSet<T> {
    /// The tree is well-formed and the count is its number of items.
    pub open spec fn wf(self) -> bool {
        &&& self.root.wf()
        &&& self.size as nat == self.root.as_map().dom().len()
    }

    /// Creates an empty set.
    pub fn new() -> (r: Self)
        ensures
            r.wf(),
            r@ == Map::<int, T>::empty(),
            r.size == 0,
    {
        let r = AVLSet { root: Bst::Empty, size: 0 };
        assert(r@ =~= Map::<int, T>::empty());
        r
    }

    /// The number of items in the set.
    pub fn len(&self) -> (r: usize)
        requires
            self.wf(),
        ensures
            r == self.size,
            r as nat == self@.dom().len(),
    {
        self.size
    }

    /// The height of the tree.
    pub fn height(&self) -> (r: usize)
        requires
            self.wf(),
        ensures
            r as nat == self.root.true_height(),
    {
        self.root.height() as usize
    }

    /// Adds `x` unless an item of the same rank is present; returns whether
    /// it was added.
    pub fn add(&mut self, x: T) -> (r: bool)
        requires
            old(self).wf(),
            old(self).size < usize::MAX,
        ensures
            final(self).wf(),
            r == !old(self)@.dom().contains(x.rank()),
            final(self)@ == (if r { old(self)@.insert(x.rank(), x) } else { old(self)@ }),
            final(self).size == old(self).size + (if r { 1usize } else { 0usize }),
            !r ==> final(self).root == old(self).root,
    {
        proof {
            lemma_height_bound(self.root);
            lemma_size_height(self.root);
        }
        let answer = self.root.insert(x);
        if answer {
            self.size += 1;
        }
        answer
    }

    /// Whether an item of the same rank as `x` is in the set.
    pub fn contains(&self, x: &T) -> (r: bool)
        requires
            self.wf(),
        ensures
            r == self@.dom().contains(x.rank()),
    {
        self.root.search(x)
    }

    /// Removes the item of the same rank as `x`; returns whether there was
    /// one.
    pub fn remove(&mut self, x: &T) -> (r: bool)
        requires
            old(self).wf(),
        ensures
            final(self).wf(),
            r == old(self)@.dom().contains(x.rank()),
            final(self)@ == old(self)@.remove(x.rank()),
            final(self).size == old(self).size - (if r { 1int } else { 0int }),
            !r ==> final(self).root == old(self).root,
    {
        proof {
            lemma_size_height(self.root);
        }
        let answer = self.root.delete(x);
        if answer {
            self.size -= 1;
        }
        answer
    }

    /// An in-order traversal of the set: its items in ascending order.
    pub fn iter<'t>(&'t self) -> (r: InorderIter<'t, T>)
        ensures
            r.remaining() == self.root.in_order(),
    {
        self.root.iter()
    }
}

/// The count of a well-formed set is the number of distinct ranks it
/// holds: adding a present item or removing an absent one leaves it, and
/// every successful add or remove moves it by one.
pub proof fn lemma_size_counts_items<T: Ordered>(s: AVLSet<T>)
    requires
        s.wf(),
    ensures
        s@.dom().finite(),
        s.size as nat == s@.dom().len(),
        s.size as nat == s.root.in_order().len(),
{
    lemma_in_order(s.root);
}

/// A right rotation of an ordered node keeps its items and its order.
proof fn lemma_rotated_right<T: Ordered>(a: Cell<T>, b: Cell<T>)
    requires
        a.ordered(),
        a.left matches Bst::Node(l) && l.ordered() && {
            &&& b.item == l.item
            &&& b.left == l.left
            &&& b.right matches Bst::Node(r) && r.item == a.item && r.left == l.right
                && r.right == a.right
        },
    ensures
        b.as_map() =~= a.as_map(),
        b.ordered(),
        b.right->Node_0.ordered(),
{
    let l = a.left->Node_0;
    let r = b.right->Node_0;
    assert(b.right.as_map() == r.as_map());
    assert(a.left.as_map() == l.as_map());
    assert(l.as_map().dom().contains(l.item.rank()));
    assert forall|k: int| #[trigger] b.right.as_map().dom().contains(k) implies k > b.item.rank() by {
        if r.left.as_map().dom().contains(k) {
            assert(l.right.as_map().dom().contains(k));
        }
    }
    assert forall|k: int| #[trigger] r.left.as_map().dom().contains(k) implies k < r.item.rank() by {
        assert(l.as_map().dom().contains(k));
    }
}

/// A left rotation of an ordered node keeps its items and its order.
proof fn lemma_rotated_left<T: Ordered>(a: Cell<T>, b: Cell<T>)
    requires
        a.ordered(),
        a.right matches Bst::Node(r) && r.ordered() && {
            &&& b.item == r.item
            &&& b.right == r.right
            &&& b.left matches Bst::Node(l) && l.item == a.item && l.right == r.left
                && l.left == a.left
        },
    ensures
        b.as_map() =~= a.as_map(),
        b.ordered(),
        b.left->Node_0.ordered(),
{
    let r = a.right->Node_0;
    let l = b.left->Node_0;
    assert(b.left.as_map() == l.as_map());
    assert(a.right.as_map() == r.as_map());
    assert(r.as_map().dom().contains(r.item.rank()));
    assert forall|k: int| #[trigger] b.left.as_map().dom().contains(k) implies k < b.item.rank() by {
        if l.right.as_map().dom().contains(k) {
            assert(r.left.as_map().dom().contains(k));
        }
    }
    assert forall|k: int| #[trigger] l.right.as_map().dom().contains(k) implies k > l.item.rank() by {
        assert(r.as_map().dom().contains(k));
    }
}

} // verus!
