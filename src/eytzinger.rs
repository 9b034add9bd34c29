//! A read-only copy of an AVL tree in Eytzinger (breadth-first) layout:
//! the root at index 0 and the children of index `i` at `2i+1` and `2i+2`,
//! so that a search walks through one flat vector.
use vstd::prelude::*;
use vstd::arithmetic::power2::{pow2, lemma_pow2_unfold, lemma_pow2_pos, lemma_pow2_strictly_increases};
use vstd::arithmetic::power::lemma_pow0;
use vstd::arithmetic::mul::lemma_mul_inequality;
use crate::order::Ordered;
use crate::avltree::{Bst, lemma_node_items, lemma_empty_items, lemma_node_count};
use crate::avlnavigator::child;

verus! {

/// The flat layout: slot `i` holds the item of the tree node at that
/// position, or nothing.
pub struct Eytzinger<T> {
    nodes: Vec<Option<T>>,
    size: usize,
    tree: Ghost<Bst<T>>,
}

/// The index of the left child of index `i`.
fn left(i: usize) -> (r: usize)
    requires
        i < usize::MAX / 2,
    ensures
        r == 2 * i + 1,
{
    2 * i + 1
}

/// The index of the right child of index `i`.
fn right(i: usize) -> (r: usize)
    requires
        i < usize::MAX / 2,
    ensures
        r == 2 * i + 2,
{
    2 * i + 2
}

/// Two to the power `n`.
fn power2(n: usize) -> (r: usize)
    requires
        pow2(n as nat) <= usize::MAX,
    ensures
        r == pow2(n as nat),
{
    let mut ax: usize = 1;
    let mut i: usize = 0;
    proof {
        lemma_pow0(2);
    }
    while i < n
        invariant
            i <= n,
            ax == pow2(i as nat),
            pow2(n as nat) <= usize::MAX,
        decreases n - i,
    {
        proof {
            lemma_pow2_unfold((i + 1) as nat);
            if i + 1 < n {
                lemma_pow2_strictly_increases((i + 1) as nat, n as nat);
            }
        }
        ax = ax * 2;
        i += 1;
    }
    ax
}

/// Compares by rank: 0 if `x` and `y` hold the same place, -1 if `x` comes
/// first, 1 otherwise.
fn cmp<T: Ordered>(x: &T, y: &T) -> (r: i8)
    ensures
        r == (if x.rank() == y.rank() {
            0i8
        } else if x.rank() < y.rank() {
            -1i8
        } else {
            1i8
        }),
{
    if x.is_same(y) {
        0
    } else if x.is_less(y) {
        -1
    } else {
        1
    }
}

/// Index `p` lies in the subtree of index `i`.
pub open spec fn descends(p: nat, i: nat) -> bool
    decreases p,
{
    if p == i {
        true
    } else if p < i {
        false
    } else {
        descends(((p - 1) / 2) as nat, i)
    }
}

/// The subtree at index `p` when `t` is laid out from index `i`.
pub open spec fn node_below<T>(t: Bst<T>, i: nat, p: nat) -> Bst<T>
    decreases p,
{
    if p <= i {
        t
    } else {
        child(node_below(t, i, ((p - 1) / 2) as nat), p % 2 == 1)
    }
}

/// The item at the root of `t`, if any.
pub open spec fn item_of<T>(t: Bst<T>) -> Option<T> {
    match t {
        Bst::Empty => None,
        Bst::Node(c) => Some(c.item),
    }
}

/// The parent of a non-root index, and on which side the index hangs.
proof fn lemma_parent(p: nat)
    requires
        p > 0,
    ensures
        (((p - 1) / 2) as nat) < p,
        p + 2 <= 2 * ((((p - 1) / 2) as nat) + 2),
        p % 2 == 1 ==> p == 2 * (((p - 1) / 2) as nat) + 1,
        p % 2 == 0 ==> p == 2 * (((p - 1) / 2) as nat) + 2,
{
}

/// The subtrees of the two children of `i` do not meet.
proof fn lemma_children_apart(p: nat, i: nat)
    ensures
        !(descends(p, 2 * i + 1) && descends(p, 2 * i + 2)),
    decreases p,
{
    if p > 2 * i + 2 {
        lemma_parent(p);
        lemma_children_apart(((p - 1) / 2) as nat, i);
    } else if p == 2 * i + 2 {
        lemma_parent(p);
        assert(((p - 1) / 2) as nat == i);
        assert(!descends(i, 2 * i + 1));
    }
}

/// Below `i`, every index other than `i` is below one of its children;
/// and what is below a child is below `i`.
proof fn lemma_descends_split(p: nat, i: nat)
    ensures
        descends(p, i) && p != i ==> descends(p, 2 * i + 1) || descends(p, 2 * i + 2),
        descends(p, 2 * i + 1) ==> descends(p, i),
        descends(p, 2 * i + 2) ==> descends(p, i),
    decreases p,
{
    if p > i {
        lemma_parent(p);
        let q = ((p - 1) / 2) as nat;
        lemma_descends_split(q, i);
        if p == 2 * i + 1 || p == 2 * i + 2 {
            assert(q == i);
        }
        if q == i {
            assert(p == 2 * i + 1 || p == 2 * i + 2);
        }
    }
}

/// Every index lies below the root.
proof fn lemma_descends_root(p: nat)
    ensures
        descends(p, 0),
    decreases p,
{
    if p > 0 {
        lemma_descends_root(((p - 1) / 2) as nat);
    }
}

/// Laid out from `i`, the nodes below a child of `i` are those of the
/// child's subtree laid out from the child's index.
proof fn lemma_node_below_child<T>(t: Bst<T>, i: nat, p: nat, left: bool)
    requires
        descends(p, if left { 2 * i + 1 } else { 2 * i + 2 }),
    ensures
        node_below(t, i, p) == node_below(
            child(t, left),
            if left { 2 * i + 1 } else { 2 * i + 2 },
            p,
        ),
    decreases p,
{
    let ci: nat = if left { 2 * i + 1 } else { 2 * i + 2 };
    lemma_parent(ci);
    assert(((ci - 1) / 2) as nat == i);
    assert(node_below(t, i, ci) == child(node_below(t, i, i), ci % 2 == 1));
    if p > ci {
        lemma_parent(p);
        let q = ((p - 1) / 2) as nat;
        lemma_node_below_child(t, i, q, left);
        assert(q >= ci) by {
            if q < ci {
                assert(!descends(q, ci));
            }
        }
    }
}

/// A node of height `g` laid out at index `p` below `i` keeps
/// `(p + 2) * 2^g` within `(i + 2) * 2^h`, where `h` is the height of the
/// whole tree.
proof fn lemma_node_below_bound<T: Ordered>(t: Bst<T>, i: nat, p: nat)
    requires
        t.wf(),
        descends(p, i),
    ensures
        node_below(t, i, p).wf(),
        node_below(t, i, p) is Node ==> (p + 2) * pow2(node_below(t, i, p).true_height()) <= (i
            + 2) * pow2(t.true_height()),
    decreases p,
{
    if p > i {
        lemma_parent(p);
        let q = ((p - 1) / 2) as nat;
        lemma_node_below_bound(t, i, q);
        let s = node_below(t, i, q);
        let hq = s.true_height();
        let h = node_below(t, i, p).true_height();
        if s is Node {
            assert(s->Node_0.left.wf() && s->Node_0.right.wf());
            assert(h + 1 <= hq);
            lemma_pow2_unfold(hq);
            if h < (hq - 1) as nat {
                lemma_pow2_strictly_increases(h, (hq - 1) as nat);
            }
            lemma_pow2_pos(h);
            lemma_mul_inequality((p + 2) as int, (2 * (q + 2)) as int, pow2(h) as int);
            lemma_mul_inequality(pow2(h) as int, pow2((hq - 1) as nat) as int, (2 * (q + 2)) as int);
            assert((2 * (q + 2)) * pow2((hq - 1) as nat) == (q + 2) * pow2(hq)) by (nonlinear_arith)
                requires
                    pow2(hq) == 2 * pow2((hq - 1) as nat),
            ;
        }
    }
}

/// A tree of height `h` holds fewer than `2^h` items.
proof fn lemma_items_below_pow2<T: Ordered>(t: Bst<T>)
    requires
        t.wf(),
    ensures
        t.as_map().dom().finite(),
        t.as_map().dom().len() + 1 <= pow2(t.true_height()),
    decreases t,
{
    match t {
        Bst::Empty => {
            lemma_empty_items(t);
            lemma_pow0(2);
        },
        Bst::Node(c) => {
            lemma_items_below_pow2(c.left);
            lemma_items_below_pow2(c.right);
            lemma_node_count(t);
            let h = t.true_height();
            lemma_pow2_unfold(h);
            let hl = c.left.true_height();
            let hr = c.right.true_height();
            if hl < (h - 1) as nat {
                lemma_pow2_strictly_increases(hl, (h - 1) as nat);
            }
            if hr < (h - 1) as nat {
                lemma_pow2_strictly_increases(hr, (h - 1) as nat);
            }
        },
    }
}

impl<T: Ordered> View for Eytzinger<T> {
    type V = Map<int, T>;

    /// The items of the layout, keyed by rank.
    closed spec fn view(&self) -> Map<int, T> {
        self.tree@.as_map()
    }
}

impl<T: Ordered> Eytzinger<T> {
    /// Each slot holds the item of the node at its position in a
    /// well-formed tree, every node of which has a slot.
    pub closed spec fn wf(&self) -> bool {
        &&& self.tree@.wf()
        &&& self.nodes@.len() < usize::MAX / 2
        &&& self.size as nat == self.tree@.as_map().dom().len()
        &&& (self.nodes@.len() + 1) >= pow2(self.tree@.true_height())
        &&& forall|p: int| #![trigger self.nodes@[p]] 0 <= p < self.nodes@.len() ==> self.nodes@[p]
            == item_of(node_below(self.tree@, 0, p as nat))
    }

    /// The slots, in index order.
    pub closed spec fn slots(&self) -> Seq<Option<T>> {
        self.nodes@
    }

    /// The number of items.
    pub fn len(&self) -> (r: usize)
        requires
            self.wf(),
        ensures
            r as nat == self@.dom().len(),
    {
        self.size
    }

    /// An empty layout without slots.
    pub fn new() -> (r: Self)
        ensures
            r.wf(),
            r@ == Map::<int, T>::empty(),
    {
        Self::with_capacity(0)
    }

    /// An empty layout with `cap` empty slots.
    pub fn with_capacity(cap: usize) -> (r: Self)
        requires
            cap < usize::MAX / 2,
        ensures
            r.wf(),
            r@ == Map::<int, T>::empty(),
            r.slots().len() == cap,
            forall|p: int| 0 <= p < cap ==> r.slots()[p] is None,
    {
        let mut n: Vec<Option<T>> = Vec::with_capacity(cap);
        let mut k: usize = 0;
        while k < cap
            invariant
                k <= cap,
                n@.len() == k,
                forall|p: int| 0 <= p < k ==> n@[p] is None,
            decreases cap - k,
        {
            n.push(None);
            k += 1;
        }
        let r = Eytzinger { nodes: n, size: 0, tree: Ghost(Bst::Empty) };
        proof {
            lemma_empty_items(r.tree@);
            lemma_pow0(2);
            assert forall|p: int| 0 <= p < r.nodes@.len() implies r.nodes@[p] == item_of(
                node_below(r.tree@, 0, p as nat),
            ) by {
                lemma_node_below_empty::<T>(0, p as nat);
            }
            assert(r@ =~= Map::<int, T>::empty());
        }
        r
    }

    /// Whether an item of the same rank as `x` is in the layout: descends
    /// from the root to the left on smaller ranks and to the right on
    /// larger ones.
    pub fn search(&self, x: &T) -> (r: bool)
        requires
            self.wf(),
        ensures
            r == self@.dom().contains(x.rank()),
    {
        let ghost t = self.tree@;
        let mut current: usize = 0;
        proof {
            lemma_descends_root(0);
        }
        loop
            invariant
                self.wf(),
                t == self.tree@,
                node_below(t, 0, current as nat).wf(),
                t.has_rank(x.rank()) == node_below(t, 0, current as nat).has_rank(x.rank()),
            decreases node_below(t, 0, current as nat).true_height(),
        {
            let ghost sub = node_below(t, 0, current as nat);
            proof {
                lemma_descends_root(current as nat);
                lemma_node_below_bound(t, 0, current as nat);
            }
            if current >= self.nodes.len() {
                proof {
                    if sub is Node {
                        let g = sub.true_height();
                        let hh = t.true_height();
                        lemma_pow2_pos((g - 1) as nat);
                        lemma_pow2_unfold(g);
                        assert((current + 2) * pow2(g) <= 2 * pow2(hh));
                        assert(pow2(hh) <= self.nodes@.len() + 1);
                        let c = current as int;
                        let n = self.nodes@.len() as int;
                        let pg = pow2(g) as int;
                        let ph = pow2(hh) as int;
                        assert((c + 2) * 2 <= (c + 2) * pg) by (nonlinear_arith)
                            requires
                                pg >= 2,
                                c >= 0,
                        ;
                        let m = (c + 2) * pg;
                        assert(m <= 2 * ph);
                        assert(2 * c + 4 <= m);
                        assert(ph <= n + 1);
                        assert(false) by (nonlinear_arith)
                            requires
                                2 * c + 4 <= m,
                                m <= 2 * ph,
                                ph <= n + 1,
                                c >= n,
                        ;
                    }
                    lemma_empty_items(sub);
                }
                return false;
            }
            match &self.nodes[current] {
                None => {
                    proof {
                        lemma_empty_items(sub);
                    }
                    return false;
                },
                Some(item) => {
                    let c = cmp(item, x);
                    proof {
                        lemma_node_items(sub);
                        assert(sub->Node_0.ordered());
                    }
                    if c == 0 {
                        return true;
                    } else if c == -1 {
                        proof {
                            assert(!sub->Node_0.left.as_map().dom().contains(x.rank()));
                        }
                        current = right(current);
                        proof {
                            assert(node_below(t, 0, current as nat) == child(sub, false));
                        }
                    } else {
                        proof {
                            assert(!sub->Node_0.right.as_map().dom().contains(x.rank()));
                        }
                        current = left(current);
                        proof {
                            assert(node_below(t, 0, current as nat) == child(sub, true));
                        }
                    }
                },
            }
        }
    }
}

/// The empty tree, wherever it is laid out, leaves every slot empty.
proof fn lemma_node_below_empty<T>(i: nat, p: nat)
    ensures
        node_below(Bst::<T>::Empty, i, p) is Empty,
    decreases p,
{
    if p > i {
        lemma_node_below_empty::<T>(i, ((p - 1) / 2) as nat);
    }
}

impl<T: Ordered> Eytzinger<T> {
    /// Moves the items of `tree` into the slots below `index`, each at the
    /// position of its node; the other slots stay as they are.
    fn from_bstr(&mut self, tree: Bst<T>, index: usize)
        requires
            tree.wf(),
            old(self).nodes@.len() < usize::MAX / 2,
            (index + 2) * pow2(tree.true_height()) <= 2 * (old(self).nodes@.len() + 1),
            old(self).size + tree.as_map().dom().len() <= old(self).nodes@.len(),
            forall|p: int| #![trigger old(self).nodes@[p]]
                0 <= p < old(self).nodes@.len() && descends(p as nat, index as nat)
                    ==> old(self).nodes@[p] is None,
        ensures
            final(self).nodes@.len() == old(self).nodes@.len(),
            final(self).size == old(self).size + tree.as_map().dom().len(),
            final(self).tree == old(self).tree,
            forall|p: int| #![trigger final(self).nodes@[p]]
                0 <= p < final(self).nodes@.len() ==> final(self).nodes@[p] == (if descends(
                    p as nat,
                    index as nat,
                ) {
                    item_of(node_below(tree, index as nat, p as nat))
                } else {
                    old(self).nodes@[p]
                }),
        decreases tree,
    {
        proof {
            lemma_items_below_pow2(tree);
        }
        if index >= self.nodes.len() {
            proof {
                assert forall|p: int| #![trigger self.nodes@[p]] 0 <= p < self.nodes@.len() implies !descends(
                    p as nat,
                    index as nat,
                ) by {
                    if descends(p as nat, index as nat) {
                        lemma_descends_at_least(p as nat, index as nat);
                    }
                }
                if tree is Node {
                    let h = tree.true_height();
                    lemma_pow2_pos((h - 1) as nat);
                    lemma_pow2_unfold(h);
                    let c = index as int;
                    let n = self.nodes@.len() as int;
                    let ph = pow2(h) as int;
                    assert((c + 2) * 2 <= (c + 2) * ph) by (nonlinear_arith)
                        requires
                            ph >= 2,
                            c >= 0,
                    ;
                    let m = (c + 2) * ph;
                    assert(false) by (nonlinear_arith)
                        requires
                            2 * c + 4 <= m,
                            m <= 2 * (n + 1),
                            c >= n,
                    ;
                }
                lemma_empty_items(tree);
            }
            return;
        }
        let ghost old_nodes = self.nodes@;
        let ghost i = index as nat;
        match tree {
            Bst::Empty => {
                proof {
                    lemma_empty_items(tree);
                    assert forall|p: int| #![trigger self.nodes@[p]] 0 <= p < self.nodes@.len() && descends(
                        p as nat,
                        index as nat,
                    ) implies self.nodes@[p] == item_of(node_below(tree, i, p as nat)) by {
                        lemma_node_below_empty::<T>(i, p as nat);
                    }
                }
            },
            Bst::Node(cell) => {
                let ghost t = tree;
                let c = *cell;
                proof {
                    lemma_items_below_pow2(c.left);
                    lemma_items_below_pow2(c.right);
                    lemma_node_count(t);
                    let h = t.true_height();
                    lemma_pow2_unfold(h);
                    let ph1 = pow2((h - 1) as nat) as int;
                    let hl = c.left.true_height();
                    let hr = c.right.true_height();
                    if hl < (h - 1) as nat {
                        lemma_pow2_strictly_increases(hl, (h - 1) as nat);
                    }
                    if hr < (h - 1) as nat {
                        lemma_pow2_strictly_increases(hr, (h - 1) as nat);
                    }
                    let ii = index as int;
                    let pl = pow2(hl) as int;
                    let pr = pow2(hr) as int;
                    assert((2 * ii + 3) * pl <= (ii + 2) * (2 * ph1)) by (nonlinear_arith)
                        requires
                            0 <= pl <= ph1,
                            ii >= 0,
                    ;
                    assert((2 * ii + 4) * pr <= (ii + 2) * (2 * ph1)) by (nonlinear_arith)
                        requires
                            0 <= pr <= ph1,
                            ii >= 0,
                    ;
                    lemma_descends_split(i, i);
                }
                self.nodes[index] = Some(c.item);
                self.size += 1;
                let ghost nodes1 = self.nodes@;
                proof {
                    assert forall|p: int| #![trigger self.nodes@[p]]
                        0 <= p < self.nodes@.len() && descends(p as nat, 2 * i + 1)
                            implies self.nodes@[p] is None by {
                        lemma_descends_split(p as nat, i);
                        lemma_descends_at_least(p as nat, 2 * i + 1);
                    }
                }
                self.from_bstr(c.left, left(index));
                let ghost nodes2 = self.nodes@;
                proof {
                    assert forall|p: int| #![trigger self.nodes@[p]]
                        0 <= p < self.nodes@.len() && descends(p as nat, 2 * i + 2)
                            implies self.nodes@[p] is None by {
                        lemma_descends_split(p as nat, i);
                        lemma_children_apart(p as nat, i);
                        lemma_descends_at_least(p as nat, 2 * i + 2);
                    }
                }
                self.from_bstr(c.right, right(index));
                proof {
                    assert forall|p: int| #![trigger self.nodes@[p]]
                        0 <= p < self.nodes@.len() implies self.nodes@[p] == (if descends(
                            p as nat,
                            i,
                        ) {
                            item_of(node_below(t, i, p as nat))
                        } else {
                            old_nodes[p]
                        }) by {
                        lemma_descends_split(p as nat, i);
                        lemma_children_apart(p as nat, i);
                        if descends(p as nat, 2 * i + 1) {
                            lemma_node_below_child(t, i, p as nat, true);
                            lemma_descends_at_least(p as nat, 2 * i + 1);
                        } else if descends(p as nat, 2 * i + 2) {
                            lemma_node_below_child(t, i, p as nat, false);
                            lemma_descends_at_least(p as nat, 2 * i + 2);
                        } else if p == i {
                            lemma_descends_at_least(i, 2 * i + 1);
                        }
                    }
                }
            },
        }
    }

    /// Lays out the items of a well-formed tree in a vector of `2^h`
    /// slots, where `h` is the height of the tree.
    pub fn from_bst(tree: Bst<T>) -> (r: Self)
        requires
            tree.wf(),
            pow2(tree.true_height()) < usize::MAX / 2,
        ensures
            r.wf(),
            r@ == tree.as_map(),
            r.slots().len() == pow2(tree.true_height()),
    {
        let ghost t = tree;
        let cap = power2(tree.height() as usize);
        let mut newself = Eytzinger::with_capacity(cap);
        proof {
            lemma_items_below_pow2(t);
            lemma_empty_items(newself.tree@);
        }
        newself.from_bstr(tree, 0);
        newself.tree = Ghost(t);
        proof {
            assert forall|p: int| #![trigger newself.nodes@[p]] 0 <= p < newself.nodes@.len()
                implies newself.nodes@[p] == item_of(node_below(t, 0, p as nat)) by {
                lemma_descends_root(p as nat);
            }
        }
        newself
    }
}

/// An index below `i` is at least `i`.
proof fn lemma_descends_at_least(p: nat, i: nat)
    ensures
        descends(p, i) ==> i <= p,
        !descends(i, 2 * i + 1),
        !descends(i, 2 * i + 2),
    decreases p,
{
    if p > i {
        lemma_descends_at_least(((p - 1) / 2) as nat, i);
    }
}

} // verus!
