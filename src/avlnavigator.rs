//! A navigator: a read-only cursor over a tree that keeps the current node
//! and a stack of its ancestors, each with the side on which the path went
//! down, so that it can move up, down, sideways and in order without any
//! parent links in the tree.
use vstd::prelude::*;
use crate::order::Ordered;
use crate::avlmap::KVPair;
use crate::avltree::{
    Bst,
    AVLSet,
    is_part_of,
    is_least,
    is_greatest,
    is_next_above,
    is_next_below,
    lemma_node_items,
    lemma_empty_items,
};

verus! {

/// A cursor over a borrowed tree.
pub struct AVLNavigator<'lt, T> {
    ancestors: Vec<(&'lt Bst<T>, bool)>,
    current: &'lt Bst<T>,
}

/// The child of `t` on the given side (`true` for left).
pub open spec fn child<T>(t: Bst<T>, left: bool) -> Bst<T> {
    match t {
        Bst::Empty => Bst::Empty,
        Bst::Node(c) => if left {
            c.left
        } else {
            c.right
        },
    }
}

/// The rank of the item at the root of `t` (0 for the empty tree).
pub open spec fn root_rank<T: Ordered>(t: Bst<T>) -> int {
    match t {
        Bst::Empty => 0,
        Bst::Node(c) => c.item.rank(),
    }
}

/// The index of the last step of `p` that went left, or -1.
pub open spec fn last_left<T>(p: Seq<(&Bst<T>, bool)>) -> int
    decreases p.len(),
{
    if p.len() == 0 {
        -1
    } else if p.last().1 {
        p.len() - 1
    } else {
        last_left(p.drop_last())
    }
}

/// The index of the last step of `p` that went right, or -1.
pub open spec fn last_right<T>(p: Seq<(&Bst<T>, bool)>) -> int
    decreases p.len(),
{
    if p.len() == 0 {
        -1
    } else if !p.last().1 {
        p.len() - 1
    } else {
        last_right(p.drop_last())
    }
}

/// Below the path `p`, ranks lie below that of the last node the path
/// left by its left side.
pub open spec fn under_upper<T: Ordered>(p: Seq<(&Bst<T>, bool)>, j: int) -> bool {
    last_left(p) >= 0 ==> j < root_rank(*p[last_left(p)].0)
}

/// Below the path `p`, ranks lie above that of the last node the path
/// left by its right side.
pub open spec fn over_lower<T: Ordered>(p: Seq<(&Bst<T>, bool)>, j: int) -> bool {
    last_right(p) >= 0 ==> root_rank(*p[last_right(p)].0) < j
}

/// The subtree `t`, reached from `root` by the path `p`, holds exactly the
/// items of `root` whose ranks lie between the bounds that the path sets.
#[verifier::opaque]
pub open spec fn window<T: Ordered>(root: Bst<T>, p: Seq<(&Bst<T>, bool)>, t: Bst<T>) -> bool {
    &&& is_part_of(t.as_map(), root.as_map())
    &&& forall|j: int| #[trigger]
        root.as_map().dom().contains(j) ==> (t.as_map().dom().contains(j) <==> (over_lower(p, j)
            && under_upper(p, j)))
}

/// The node at depth `i` of the path `p` that ends at `at`.
pub open spec fn node_on<T>(p: Seq<(&Bst<T>, bool)>, at: &Bst<T>, i: int) -> Bst<T> {
    if i < p.len() {
        *p[i].0
    } else {
        *at
    }
}

/// The path `p` leads from a well-formed starting node down to `at`, one
/// child at a time, and its bounds describe each node on it.
pub open spec fn valid_path<T: Ordered>(p: Seq<(&Bst<T>, bool)>, at: &Bst<T>) -> bool {
    &&& node_on(p, at, 0).wf()
    &&& at.wf()
    &&& (*at is Empty ==> p.len() == 0)
    &&& forall|i: int| #![trigger child(*p[i].0, p[i].1)] 0 <= i < p.len() ==> {
        &&& *p[i].0 is Node
        &&& p[i].0.wf()
        &&& child(*p[i].0, p[i].1) == node_on(p, at, i + 1)
    }
    &&& forall|i: int| #![trigger p.take(i)] 0 <= i <= p.len() ==> window(
        node_on(p, at, 0),
        p.take(i),
        node_on(p, at, i),
    )
}

impl<'lt, T: Ordered> AVLNavigator<'lt, T> {
    /// The ancestors of the current node, from the starting node down, each
    /// with the side on which the path went down from it (`true`: left).
    pub closed spec fn path(&self) -> Seq<(&'lt Bst<T>, bool)> {
        self.ancestors@
    }

    /// The current node.
    pub closed spec fn at(&self) -> &'lt Bst<T> {
        self.current
    }

    /// The node that the navigator started from.
    pub open spec fn start_node(&self) -> Bst<T> {
        node_on(self.path(), self.at(), 0)
    }

    /// The path leads from a well-formed starting node to the current node.
    pub open spec fn wf(&self) -> bool {
        valid_path(self.path(), self.at())
    }

    /// The rank of the current item (0 at an empty tree).
    pub open spec fn at_rank(&self) -> int {
        root_rank(*self.at())
    }
}

/// The last left step of a path that goes one step further.
proof fn lemma_last_steps<T>(p: Seq<(&Bst<T>, bool)>, e: (&Bst<T>, bool))
    ensures
        last_left(p.push(e)) == (if e.1 { p.len() as int } else { last_left(p) }),
        last_right(p.push(e)) == (if !e.1 { p.len() as int } else { last_right(p) }),
{
    assert(p.push(e).drop_last() =~= p);
}

/// The last left step is a step of the path that went left, and no later
/// step went left; the same for the right.
proof fn lemma_last_bounds<T>(p: Seq<(&Bst<T>, bool)>)
    ensures
        -1 <= last_left(p) < p.len(),
        last_left(p) >= 0 ==> p[last_left(p)].1,
        forall|i: int| last_left(p) < i < p.len() ==> !(#[trigger] p[i]).1,
        -1 <= last_right(p) < p.len(),
        last_right(p) >= 0 ==> !p[last_right(p)].1,
        forall|i: int| last_right(p) < i < p.len() ==> (#[trigger] p[i]).1,
    decreases p.len(),
{
    if p.len() > 0 {
        lemma_last_bounds(p.drop_last());
        assert forall|i: int| 0 <= i < p.len() - 1 implies #[trigger] p[i] == p.drop_last()[i] by {}
    }
}

/// One step down keeps the window.
proof fn lemma_window_child<T: Ordered>(
    root: Bst<T>,
    p: Seq<(&Bst<T>, bool)>,
    t: &Bst<T>,
    left: bool,
)
    requires
        window(root, p, *t),
        t.wf(),
        *t is Node,
    ensures
        window(root, p.push((t, left)), child(*t, left)),
{
    reveal(window);
    lemma_last_steps(p, (t, left));
    lemma_last_bounds(p);
    lemma_node_items(*t);
    let c = t->Node_0;
    let q = p.push((t, left));
    assert(q[p.len() as int].0 == t);
    assert(c.ordered());
    assert forall|j: int| #[trigger] child(*t, left).as_map().dom().contains(j) implies root.as_map().dom().contains(j)
        && root.as_map()[j] == child(*t, left).as_map()[j] by {
        assert(t.as_map().dom().contains(j));
    }
    assert forall|j: int| #[trigger] root.as_map().dom().contains(j) implies (child(
        *t,
        left,
    ).as_map().dom().contains(j) <==> (over_lower(q, j) && under_upper(q, j))) by {
        if last_left(p) >= 0 {
            assert(q[last_left(p)] == p[last_left(p)]);
        }
        if last_right(p) >= 0 {
            assert(q[last_right(p)] == p[last_right(p)]);
        }
        assert(root.as_map().dom().contains(c.item.rank()));
    }
}

/// One step down to a non-empty child keeps a path valid.
proof fn lemma_descend<T: Ordered>(p: Seq<(&Bst<T>, bool)>, at: &Bst<T>, left: bool, t: &Bst<T>)
    requires
        valid_path(p, at),
        *at is Node,
        *t == child(*at, left),
        *t is Node,
    ensures
        valid_path(p.push((at, left)), t),
        node_on(p.push((at, left)), t, 0) == node_on(p, at, 0),
{
    let q = p.push((at, left));
    let root = node_on(p, at, 0);
    assert(node_on(q, t, 0) == root);
    assert(at.wf());
    assert(t.wf()) by {
        assert(at->Node_0.left.wf() && at->Node_0.right.wf());
    }
    assert forall|i: int| #![trigger child(*q[i].0, q[i].1)] 0 <= i < q.len() implies {
        &&& *q[i].0 is Node
        &&& q[i].0.wf()
        &&& child(*q[i].0, q[i].1) == node_on(q, t, i + 1)
    } by {
        if i < p.len() {
            assert(q[i] == p[i]);
            assert(child(*p[i].0, p[i].1) == node_on(p, at, i + 1));
        }
    }
    assert forall|i: int| #![trigger q.take(i)] 0 <= i <= q.len() implies window(
        root,
        q.take(i),
        node_on(q, t, i),
    ) by {
        if i <= p.len() {
            assert(q.take(i) =~= p.take(i));
            assert(window(root, p.take(i), node_on(p, at, i)));
        } else {
            assert(p.take(p.len() as int) =~= p);
            assert(window(root, p.take(p.len() as int), node_on(p, at, p.len() as int)));
            lemma_window_child(root, p, at, left);
            assert(q.take(i) =~= q);
        }
    }
}

/// Going back to the node at depth `n` of a valid path, with the path cut
/// there, gives a valid path from the same start.
proof fn lemma_ascend<T: Ordered>(p: Seq<(&Bst<T>, bool)>, at: &Bst<T>, n: int, t: &Bst<T>)
    requires
        valid_path(p, at),
        0 <= n < p.len(),
        t == p[n].0,
    ensures
        valid_path(p.take(n), t),
        node_on(p.take(n), t, 0) == node_on(p, at, 0),
{
    let q = p.take(n);
    let root = node_on(p, at, 0);
    assert(node_on(q, t, 0) == root);
    assert forall|i: int| #![trigger child(*q[i].0, q[i].1)] 0 <= i < q.len() implies {
        &&& *q[i].0 is Node
        &&& q[i].0.wf()
        &&& child(*q[i].0, q[i].1) == node_on(q, t, i + 1)
    } by {
        assert(q[i] == p[i]);
        assert(child(*p[i].0, p[i].1) == node_on(p, at, i + 1));
    }
    assert forall|i: int| #![trigger q.take(i)] 0 <= i <= q.len() implies window(
        root,
        q.take(i),
        node_on(q, t, i),
    ) by {
        assert(q.take(i) =~= p.take(i));
        assert(window(root, p.take(i), node_on(p, at, i)));
    }
    assert(child(*p[n].0, p[n].1) == node_on(p, at, n + 1));
}

/// The next item above the current one, when the current node has no right
/// subtree: the item of the last node that the path left by its left side.
proof fn lemma_up_successor<T: Ordered>(p: Seq<(&Bst<T>, bool)>, at: &Bst<T>)
    requires
        valid_path(p, at),
        *at matches Bst::Node(c) && c.right is Empty,
    ensures
        last_left(p) >= 0 ==> is_next_above(
            node_on(p, at, 0).as_map(),
            root_rank(*at),
            p[last_left(p)].0->Node_0.item,
        ),
        last_left(p) < 0 ==> forall|j: int| #[trigger]
            node_on(p, at, 0).as_map().dom().contains(j) ==> j <= root_rank(*at),
{
    reveal(window);
    let root = node_on(p, at, 0);
    let c = at->Node_0;
    let k = c.item.rank();
    lemma_last_bounds(p);
    assert(p.take(p.len() as int) =~= p);
    assert(window(root, p.take(p.len() as int), node_on(p, at, p.len() as int)));
    lemma_node_items(*at);
    assert(c.ordered());
    assert(c.right.as_map() =~= Map::empty());
    assert(root.as_map().dom().contains(k));
    assert forall|j: int| #[trigger] root.as_map().dom().contains(j) && k < j implies !under_upper(
        p,
        j,
    ) by {
        assert(!at.as_map().dom().contains(j));
        assert(over_lower(p, k));
    }
    if last_left(p) >= 0 {
        let n = last_left(p);
        assert(p.take(n) =~= p.take(n));
        assert(window(root, p.take(n), node_on(p, at, n)));
        assert(child(*p[n].0, p[n].1) == node_on(p, at, n + 1));
        lemma_node_items(*p[n].0);
        assert(under_upper(p, k));
    }
}

/// The mirror image of [`lemma_up_successor`].
proof fn lemma_up_predecessor<T: Ordered>(p: Seq<(&Bst<T>, bool)>, at: &Bst<T>)
    requires
        valid_path(p, at),
        *at matches Bst::Node(c) && c.left is Empty,
    ensures
        last_right(p) >= 0 ==> is_next_below(
            node_on(p, at, 0).as_map(),
            root_rank(*at),
            p[last_right(p)].0->Node_0.item,
        ),
        last_right(p) < 0 ==> forall|j: int| #[trigger]
            node_on(p, at, 0).as_map().dom().contains(j) ==> root_rank(*at) <= j,
{
    reveal(window);
    let root = node_on(p, at, 0);
    let c = at->Node_0;
    let k = c.item.rank();
    lemma_last_bounds(p);
    assert(p.take(p.len() as int) =~= p);
    assert(window(root, p.take(p.len() as int), node_on(p, at, p.len() as int)));
    lemma_node_items(*at);
    assert(c.ordered());
    assert(c.left.as_map() =~= Map::empty());
    assert(root.as_map().dom().contains(k));
    assert forall|j: int| #[trigger] root.as_map().dom().contains(j) && j < k implies !over_lower(
        p,
        j,
    ) by {
        assert(!at.as_map().dom().contains(j));
        assert(under_upper(p, k));
    }
    if last_right(p) >= 0 {
        let n = last_right(p);
        assert(window(root, p.take(n), node_on(p, at, n)));
        assert(child(*p[n].0, p[n].1) == node_on(p, at, n + 1));
        lemma_node_items(*p[n].0);
        assert(over_lower(p, k));
    }
}

/// The next item above the current one, when the current node has a right
/// subtree: the smallest item of that subtree.
proof fn lemma_down_successor<T: Ordered>(p: Seq<(&Bst<T>, bool)>, at: &Bst<T>, m: T)
    requires
        valid_path(p, at),
        *at matches Bst::Node(c) && is_least(c.right.as_map(), m),
    ensures
        is_next_above(node_on(p, at, 0).as_map(), root_rank(*at), m),
{
    reveal(window);
    let root = node_on(p, at, 0);
    let c = at->Node_0;
    let k = c.item.rank();
    lemma_last_bounds(p);
    assert(p.take(p.len() as int) =~= p);
    assert(window(root, p.take(p.len() as int), node_on(p, at, p.len() as int)));
    lemma_node_items(*at);
    assert(c.ordered());
    assert(at.as_map().dom().contains(m.rank()));
    assert(root.as_map().dom().contains(k));
    assert forall|j: int| #[trigger] root.as_map().dom().contains(j) && k < j implies m.rank()
        <= j by {
        if at.as_map().dom().contains(j) {
            assert(!c.left.as_map().dom().contains(j));
        } else {
            assert(over_lower(p, k));
            assert(under_upper(p, m.rank()));
        }
    }
}

/// The mirror image of [`lemma_down_successor`].
proof fn lemma_down_predecessor<T: Ordered>(p: Seq<(&Bst<T>, bool)>, at: &Bst<T>, m: T)
    requires
        valid_path(p, at),
        *at matches Bst::Node(c) && is_greatest(c.left.as_map(), m),
    ensures
        is_next_below(node_on(p, at, 0).as_map(), root_rank(*at), m),
{
    reveal(window);
    let root = node_on(p, at, 0);
    let c = at->Node_0;
    let k = c.item.rank();
    lemma_last_bounds(p);
    assert(p.take(p.len() as int) =~= p);
    assert(window(root, p.take(p.len() as int), node_on(p, at, p.len() as int)));
    lemma_node_items(*at);
    assert(c.ordered());
    assert(at.as_map().dom().contains(m.rank()));
    assert(root.as_map().dom().contains(k));
    assert forall|j: int| #[trigger] root.as_map().dom().contains(j) && j < k implies j
        <= m.rank() by {
        if at.as_map().dom().contains(j) {
            assert(!c.right.as_map().dom().contains(j));
        } else {
            assert(under_upper(p, k));
            assert(over_lower(p, m.rank()));
        }
    }
}

impl<'lt, T: Ordered> AVLNavigator<'lt, T> {
    /// A navigator positioned at `tree`, with no ancestors.
    pub fn start(tree: &'lt Bst<T>) -> (r: Self)
        ensures
            r.path() == Seq::<(&'lt Bst<T>, bool)>::empty(),
            r.at() == tree,
            tree.wf() ==> r.wf(),
    {
        let r = AVLNavigator { ancestors: Vec::new(), current: tree };
        proof {
            if tree.wf() {
                reveal(window);
                assert(r.path().take(0) =~= r.path());
                assert(last_left(r.path()) == -1);
                assert(last_right(r.path()) == -1);
                assert(window(*tree, r.path(), *tree));
                assert(valid_path(r.path(), r.at()));
            }
        }
        r
    }

    /// The current node (the empty tree only if the navigator started at
    /// an empty tree).
    pub fn get_current(&self) -> (r: &'lt Bst<T>)
        ensures
            r == self.at(),
    {
        self.current
    }

    /// The current node: the same as [`AVLNavigator::get_current`].
    pub fn now(&self) -> (r: &'lt Bst<T>)
        ensures
            r == self.at(),
    {
        self.current
    }

    /// The item at the current node, if it is not empty.
    pub fn current_item(&self) -> (r: Option<&'lt T>)
        ensures
            r == (match *self.at() {
                Bst::Empty => None,
                Bst::Node(c) => Some(&c.item),
            }),
    {
        self.get_current().get_item()
    }

    /// Moves to the left child if there is one; returns whether it moved.
    pub fn go_left(&mut self) -> (r: bool)
        requires
            old(self).wf(),
        ensures
            final(self).wf(),
            final(self).start_node() == old(self).start_node(),
            r == (*old(self).at() matches Bst::Node(c) && c.left is Node),
            r ==> final(self).path() == old(self).path().push((old(self).at(), true))
                && *final(self).at() == child(*old(self).at(), true),
            !r ==> final(self).path() == old(self).path() && final(self).at() == old(self).at(),
    {
        let mut answer = false;
        if let Bst::Node(cell) = self.current {
            let left = &cell.left;
            if let Bst::Node(_) = left {
                proof {
                    lemma_descend(self.path(), self.at(), true, left);
                }
                answer = true;
                self.ancestors.push((self.current, true));
                self.current = left;
            }
        }
        answer
    }

    /// Moves to the right child if there is one; returns whether it moved.
    pub fn go_right(&mut self) -> (r: bool)
        requires
            old(self).wf(),
        ensures
            final(self).wf(),
            final(self).start_node() == old(self).start_node(),
            r == (*old(self).at() matches Bst::Node(c) && c.right is Node),
            r ==> final(self).path() == old(self).path().push((old(self).at(), false))
                && *final(self).at() == child(*old(self).at(), false),
            !r ==> final(self).path() == old(self).path() && final(self).at() == old(self).at(),
    {
        let mut answer = false;
        if let Bst::Node(cell) = self.current {
            let right = &cell.right;
            if let Bst::Node(_) = right {
                proof {
                    lemma_descend(self.path(), self.at(), false, right);
                }
                answer = true;
                self.ancestors.push((self.current, false));
                self.current = right;
            }
        }
        answer
    }

    /// Moves to the parent if there is one; returns whether it moved.
    pub fn go_up(&mut self) -> (r: bool)
        requires
            old(self).wf(),
        ensures
            final(self).wf(),
            final(self).start_node() == old(self).start_node(),
            r == (old(self).path().len() > 0),
            r ==> final(self).path() == old(self).path().drop_last()
                && final(self).at() == old(self).path().last().0,
            !r ==> final(self).path() == old(self).path() && final(self).at() == old(self).at(),
    {
        let mut answer = false;
        let ghost p = self.path();
        let ghost a = self.at();
        let parent = self.ancestors.pop();
        if let Some((up, _)) = parent {
            proof {
                lemma_ascend(p, a, p.len() - 1, up);
                assert(p.take(p.len() - 1) =~= p.drop_last());
            }
            self.current = up;
            answer = true;
        }
        answer
    }

    /// Moves to the parent: the same as [`AVLNavigator::go_up`].
    pub fn goto_parent(&mut self) -> (r: bool)
        requires
            old(self).wf(),
        ensures
            final(self).wf(),
            final(self).start_node() == old(self).start_node(),
            r == (old(self).path().len() > 0),
            r ==> final(self).path() == old(self).path().drop_last()
                && final(self).at() == old(self).path().last().0,
            !r ==> final(self).path() == old(self).path() && final(self).at() == old(self).at(),
    {
        self.go_up()
    }

    /// Moves back to the node where the navigator started and forgets the
    /// path; returns whether it moved.
    pub fn goto_root(&mut self) -> (r: bool)
        requires
            old(self).wf(),
        ensures
            final(self).wf(),
            final(self).start_node() == old(self).start_node(),
            r == (old(self).path().len() > 0),
            r ==> final(self).path().len() == 0 && *final(self).at() == old(self).start_node(),
            !r ==> final(self).path() == old(self).path() && final(self).at() == old(self).at(),
    {
        if self.ancestors.len() > 0 {
            let ghost p = self.path();
            let ghost a = self.at();
            self.current = self.ancestors[0].0;
            self.ancestors.clear();
            proof {
                lemma_ascend(p, a, 0, self.current);
                assert(p.take(0) =~= self.path());
            }
            true
        } else {
            false
        }
    }

    /// Moves to the other child of the parent, if the parent has one, and
    /// records the new side on the path; returns whether it moved.
    pub fn goto_sibling(&mut self) -> (r: bool)
        requires
            old(self).wf(),
        ensures
            final(self).wf(),
            final(self).start_node() == old(self).start_node(),
            r == (old(self).path().len() > 0 && child(
                *old(self).path().last().0,
                !old(self).path().last().1,
            ) is Node),
            r ==> final(self).path() == old(self).path().drop_last().push(
                (old(self).path().last().0, !old(self).path().last().1),
            ) && *final(self).at() == child(
                *old(self).path().last().0,
                !old(self).path().last().1,
            ),
            !r ==> final(self).path() == old(self).path() && final(self).at() == old(self).at(),
    {
        let mut answer = false;
        let n = self.ancestors.len();
        if n == 0 {
            return false;
        }
        let (parent, dir) = self.ancestors[n - 1];
        let sibling = if dir {
            parent.get_right()
        } else {
            parent.get_left()
        };
        if let Bst::Node(_) = sibling {
            let ghost p = self.path();
            let ghost a = self.at();
            proof {
                lemma_ascend(p, a, p.len() - 1, parent);
                assert(p.take(p.len() - 1) =~= p.drop_last());
                assert(*parent is Node) by {
                    assert(child(*p[p.len() - 1].0, p[p.len() - 1].1) == node_on(p, a, p.len() as int));
                }
                lemma_descend(p.drop_last(), parent, !dir, sibling);
            }
            self.ancestors.set(n - 1, (parent, !dir));
            proof {
                assert(self.path() =~= p.drop_last().push((parent, !dir)));
            }
            answer = true;
            self.current = sibling;
        }
        answer
    }

    /// Moves to the sibling of the parent; returns whether it moved.  Where
    /// there is no parent or the parent has no sibling, the navigator stays
    /// where it was, with the same path.
    pub fn goto_aunt(&mut self) -> (r: bool)
        requires
            old(self).wf(),
        ensures
            final(self).wf(),
            final(self).start_node() == old(self).start_node(),
            r == (old(self).path().len() >= 2 && {
                let q = old(self).path().drop_last();
                child(*q.last().0, !q.last().1) is Node
            }),
            r ==> {
                let q = old(self).path().drop_last();
                &&& final(self).path() == q.drop_last().push((q.last().0, !q.last().1))
                &&& *final(self).at() == child(*q.last().0, !q.last().1)
            },
            !r ==> final(self).path() == old(self).path() && final(self).at() == old(self).at(),
    {
        let n = self.ancestors.len();
        if n < 2 {
            return false;
        }
        let top = self.ancestors[n - 1];
        let here = self.current;
        let ghost p = self.path();
        self.goto_parent();
        if self.goto_sibling() {
            true
        } else {
            self.ancestors.push(top);
            self.current = here;
            assert(self.path() =~= p);
            false
        }
    }

    /// The same as [`AVLNavigator::goto_aunt`].
    pub fn goto_uncle(&mut self) -> (r: bool)
        requires
            old(self).wf(),
        ensures
            final(self).wf(),
            final(self).start_node() == old(self).start_node(),
            r == (old(self).path().len() >= 2 && {
                let q = old(self).path().drop_last();
                child(*q.last().0, !q.last().1) is Node
            }),
            r ==> {
                let q = old(self).path().drop_last();
                &&& final(self).path() == q.drop_last().push((q.last().0, !q.last().1))
                &&& *final(self).at() == child(*q.last().0, !q.last().1)
            },
            !r ==> final(self).path() == old(self).path() && final(self).at() == old(self).at(),
    {
        self.goto_aunt()
    }

    /// Moves down to the leftmost node below the current one, the one with
    /// the smallest item there; returns false only at an empty tree.
    pub fn goto_leftmost(&mut self) -> (r: bool)
        requires
            old(self).wf(),
        ensures
            final(self).wf(),
            final(self).start_node() == old(self).start_node(),
            r == (*old(self).at() is Node),
            !r ==> final(self).path() == old(self).path() && final(self).at() == old(self).at(),
            r ==> (*final(self).at() matches Bst::Node(c) && c.left is Empty && is_least(
                old(self).at().as_map(),
                c.item,
            )),
            final(self).path().len() >= old(self).path().len(),
            final(self).path().take(old(self).path().len() as int) == old(self).path(),
            forall|i: int| old(self).path().len() <= i < final(self).path().len() ==> (
                #[trigger] final(self).path()[i]).1,
    {
        if let Bst::Empty = self.current {
            return false;
        }
        let ghost top = *self.at();
        proof {
            assert(self.path().take(self.path().len() as int) =~= self.path());
        }
        loop
            invariant
                self.wf(),
                self.start_node() == old(self).start_node(),
                top == *old(self).at(),
                *self.at() is Node,
                is_part_of(self.at().as_map(), top.as_map()),
                forall|i: int, j: int|
                    #[trigger] self.at().as_map().dom().contains(i) && #[trigger] top.as_map().dom().contains(j)
                        && !self.at().as_map().dom().contains(j) ==> i < j,
                self.path().len() >= old(self).path().len(),
                self.path().take(old(self).path().len() as int) == old(self).path(),
            forall|i: int| old(self).path().len() <= i < self.path().len() ==> (
                    #[trigger] self.path()[i]).1,
            decreases self.at().true_height(),
        {
            proof {
                lemma_node_items(*self.at());
            }
            if let Bst::Node(_) = self.current.get_left() {
                let ghost p = self.path();
                self.go_left();
                proof {
                    lemma_empty_items(*self.at());
                    assert(self.path().take(old(self).path().len() as int) =~= p.take(
                        old(self).path().len() as int,
                    ));
                }
            } else {
                proof {
                    lemma_empty_items(self.at()->Node_0.left);
                }
                return true;
            }
        }
    }

    /// Moves down to the rightmost node below the current one, the one with
    /// the largest item there; returns false only at an empty tree.
    pub fn goto_rightmost(&mut self) -> (r: bool)
        requires
            old(self).wf(),
        ensures
            final(self).wf(),
            final(self).start_node() == old(self).start_node(),
            r == (*old(self).at() is Node),
            !r ==> final(self).path() == old(self).path() && final(self).at() == old(self).at(),
            r ==> (*final(self).at() matches Bst::Node(c) && c.right is Empty && is_greatest(
                old(self).at().as_map(),
                c.item,
            )),
            final(self).path().len() >= old(self).path().len(),
            final(self).path().take(old(self).path().len() as int) == old(self).path(),
            forall|i: int| old(self).path().len() <= i < final(self).path().len() ==> !(
                #[trigger] final(self).path()[i]).1,
    {
        if let Bst::Empty = self.current {
            return false;
        }
        let ghost top = *self.at();
        proof {
            assert(self.path().take(self.path().len() as int) =~= self.path());
        }
        loop
            invariant
                self.wf(),
                self.start_node() == old(self).start_node(),
                top == *old(self).at(),
                *self.at() is Node,
                is_part_of(self.at().as_map(), top.as_map()),
                forall|i: int, j: int|
                    #[trigger] self.at().as_map().dom().contains(i) && #[trigger] top.as_map().dom().contains(j)
                        && !self.at().as_map().dom().contains(j) ==> j < i,
                self.path().len() >= old(self).path().len(),
                self.path().take(old(self).path().len() as int) == old(self).path(),
            forall|i: int| old(self).path().len() <= i < self.path().len() ==> !(
                    #[trigger] self.path()[i]).1,
            decreases self.at().true_height(),
        {
            proof {
                lemma_node_items(*self.at());
            }
            if let Bst::Node(_) = self.current.get_right() {
                let ghost p = self.path();
                self.go_right();
                proof {
                    lemma_empty_items(*self.at());
                    assert(self.path().take(old(self).path().len() as int) =~= p.take(
                        old(self).path().len() as int,
                    ));
                }
            } else {
                proof {
                    lemma_empty_items(self.at()->Node_0.right);
                }
                return true;
            }
        }
    }

    /// Moves to the node with the next item above the current one within
    /// the tree the navigator started from: the leftmost node of the right
    /// subtree, or else the nearest ancestor that the path left by its left
    /// side.  Returns false, and stays, where there is no such item.
    pub fn goto_successor(&mut self) -> (r: bool)
        requires
            old(self).wf(),
        ensures
            final(self).wf(),
            final(self).start_node() == old(self).start_node(),
            *old(self).at() is Empty ==> !r,
            r ==> (*final(self).at() matches Bst::Node(d) && is_next_above(
                old(self).start_node().as_map(),
                old(self).at_rank(),
                d.item,
            )),
            !r ==> final(self).path() == old(self).path() && final(self).at() == old(self).at(),
            !r && *old(self).at() is Node ==> forall|j: int| #[trigger]
                old(self).start_node().as_map().dom().contains(j) ==> j <= old(self).at_rank(),
    {
        let mut answer = false;
        let ghost p = self.path();
        let ghost a = self.at();
        if let Bst::Node(cell) = self.current {
            if let Bst::Node(_) = &cell.right {
                answer = true;
                self.go_right();
                self.goto_leftmost();
                proof {
                    let d = self.at()->Node_0;
                    lemma_down_successor(p, a, d.item);
                }
            } else {
                let n = self.ancestors.len();
                let mut i = n;
                while i > 0 && !self.ancestors[i - 1].1
                    invariant
                        0 <= i <= n,
                        n == p.len(),
                        self.path() == p,
                        self.at() == a,
                        forall|j: int| i <= j < n ==> !(#[trigger] p[j]).1,
                    decreases i,
                {
                    i -= 1;
                }
                proof {
                    lemma_last_bounds(p);
                    lemma_up_successor(p, a);
                }
                if i > 0 {
                    proof {
                        assert(last_left(p) == i - 1);
                        lemma_ascend(p, a, i - 1, p[i - 1].0);
                        assert(child(*p[i - 1].0, p[i - 1].1) == node_on(p, a, i as int));
                    }
                    answer = true;
                    self.current = self.ancestors[i - 1].0;
                    self.ancestors.truncate(i - 1);
                }
            }
        }
        answer
    }

    /// Moves to the node with the next item below the current one: the
    /// mirror image of [`AVLNavigator::goto_successor`].
    pub fn goto_predecessor(&mut self) -> (r: bool)
        requires
            old(self).wf(),
        ensures
            final(self).wf(),
            final(self).start_node() == old(self).start_node(),
            *old(self).at() is Empty ==> !r,
            r ==> (*final(self).at() matches Bst::Node(d) && is_next_below(
                old(self).start_node().as_map(),
                old(self).at_rank(),
                d.item,
            )),
            !r ==> final(self).path() == old(self).path() && final(self).at() == old(self).at(),
            !r && *old(self).at() is Node ==> forall|j: int| #[trigger]
                old(self).start_node().as_map().dom().contains(j) ==> old(self).at_rank() <= j,
    {
        let mut answer = false;
        let ghost p = self.path();
        let ghost a = self.at();
        if let Bst::Node(cell) = self.current {
            if let Bst::Node(_) = &cell.left {
                answer = true;
                self.go_left();
                self.goto_rightmost();
                proof {
                    let d = self.at()->Node_0;
                    lemma_down_predecessor(p, a, d.item);
                }
            } else {
                let n = self.ancestors.len();
                let mut i = n;
                while i > 0 && self.ancestors[i - 1].1
                    invariant
                        0 <= i <= n,
                        n == p.len(),
                        self.path() == p,
                        self.at() == a,
                        forall|j: int| i <= j < n ==> (#[trigger] p[j]).1,
                    decreases i,
                {
                    i -= 1;
                }
                proof {
                    lemma_last_bounds(p);
                    lemma_up_predecessor(p, a);
                }
                if i > 0 {
                    proof {
                        assert(last_right(p) == i - 1);
                        lemma_ascend(p, a, i - 1, p[i - 1].0);
                        assert(child(*p[i - 1].0, p[i - 1].1) == node_on(p, a, i as int));
                    }
                    answer = true;
                    self.current = self.ancestors[i - 1].0;
                    self.ancestors.truncate(i - 1);
                }
            }
        }
        answer
    }

    /// Searches from the current node for the item of the same rank as
    /// `key`, recording the path as it descends.  On success the navigator
    /// stays there; otherwise it is put back exactly where it was, with the
    /// same path.
    pub fn seek(&mut self, key: &T) -> (r: bool)
        requires
            old(self).wf(),
        ensures
            final(self).wf(),
            final(self).start_node() == old(self).start_node(),
            r == old(self).at().has_rank(key.rank()),
            r ==> *final(self).at() is Node && final(self).at_rank() == key.rank()
                && final(self).path().len() >= old(self).path().len()
                && final(self).path().take(old(self).path().len() as int) == old(self).path(),
            !r ==> final(self).path() == old(self).path() && final(self).at() == old(self).at(),
    {
        let ghost k = key.rank();
        let mut answer = false;
        let savelen = self.ancestors.len();
        let savecurrent = self.current;
        proof {
            assert(self.path().take(savelen as int) =~= self.path());
        }
        loop
            invariant_except_break
                !answer,
            invariant
                k == key.rank(),
                self.wf(),
                self.start_node() == old(self).start_node(),
                savelen == old(self).path().len(),
                savecurrent == old(self).at(),
                self.path().len() >= savelen,
                self.path().take(savelen as int) == old(self).path(),
                self.at().has_rank(k) == old(self).at().has_rank(k),
            ensures
                self.wf(),
                self.start_node() == old(self).start_node(),
                self.path().len() >= savelen,
                self.path().take(savelen as int) == old(self).path(),
                answer == old(self).at().has_rank(k),
                answer ==> *self.at() is Node && self.at_rank() == k,
            decreases self.at().true_height(),
        {
            match self.current {
                Bst::Empty => {
                    proof {
                        lemma_empty_items(*self.at());
                    }
                    break;
                },
                Bst::Node(cell) => {
                    proof {
                        lemma_node_items(*self.at());
                        assert(cell.ordered());
                    }
                    if key.is_same(&cell.item) {
                        answer = true;
                        break;
                    } else if key.is_less(&cell.item) {
                        assert(!cell.right.as_map().dom().contains(k));
                        let left = &cell.left;
                        if let Bst::Empty = left {
                            proof {
                                lemma_empty_items(*left);
                            }
                            break;
                        }
                        let ghost p = self.path();
                        self.go_left();
                        proof {
                            assert(self.path().take(savelen as int) =~= p.take(savelen as int));
                        }
                    } else {
                        assert(!cell.left.as_map().dom().contains(k));
                        let right = &cell.right;
                        if let Bst::Empty = right {
                            proof {
                                lemma_empty_items(*right);
                            }
                            break;
                        }
                        let ghost p = self.path();
                        self.go_right();
                        proof {
                            assert(self.path().take(savelen as int) =~= p.take(savelen as int));
                        }
                    }
                },
            }
        }
        if !answer {
            let ghost p = self.path();
            let ghost a = self.at();
            self.ancestors.truncate(savelen);
            self.current = savecurrent;
        }
        answer
    }
}

impl<'lt, KT: Ordered, VT> AVLNavigator<'lt, KVPair<KT, VT>> {
    /// Searches from the current node for the pair whose key has the rank
    /// of `key`, as [`AVLNavigator::seek`] does for whole items.
    pub fn seek_key(&mut self, key: &KT) -> (r: bool)
        requires
            old(self).wf(),
        ensures
            final(self).wf(),
            final(self).start_node() == old(self).start_node(),
            r == old(self).at().has_rank(key.rank()),
            r ==> *final(self).at() is Node && final(self).at_rank() == key.rank()
                && final(self).path().len() >= old(self).path().len()
                && final(self).path().take(old(self).path().len() as int) == old(self).path(),
            !r ==> final(self).path() == old(self).path() && final(self).at() == old(self).at(),
    {
        let ghost k = key.rank();
        let mut answer = false;
        let savelen = self.ancestors.len();
        let savecurrent = self.current;
        proof {
            assert(self.path().take(savelen as int) =~= self.path());
        }
        loop
            invariant_except_break
                !answer,
            invariant
                k == key.rank(),
                self.wf(),
                self.start_node() == old(self).start_node(),
                savelen == old(self).path().len(),
                savecurrent == old(self).at(),
                self.path().len() >= savelen,
                self.path().take(savelen as int) == old(self).path(),
                self.at().has_rank(k) == old(self).at().has_rank(k),
            ensures
                self.wf(),
                self.start_node() == old(self).start_node(),
                self.path().len() >= savelen,
                self.path().take(savelen as int) == old(self).path(),
                answer == old(self).at().has_rank(k),
                answer ==> *self.at() is Node && self.at_rank() == k,
            decreases self.at().true_height(),
        {
            match self.current {
                Bst::Empty => {
                    proof {
                        lemma_empty_items(*self.at());
                    }
                    break;
                },
                Bst::Node(cell) => {
                    proof {
                        lemma_node_items(*self.at());
                        assert(cell.ordered());
                    }
                    if key.is_same(&cell.item.key) {
                        answer = true;
                        break;
                    } else if key.is_less(&cell.item.key) {
                        assert(!cell.right.as_map().dom().contains(k));
                        let left = &cell.left;
                        if let Bst::Empty = left {
                            proof {
                                lemma_empty_items(*left);
                            }
                            break;
                        }
                        let ghost p = self.path();
                        self.go_left();
                        proof {
                            assert(self.path().take(savelen as int) =~= p.take(savelen as int));
                        }
                    } else {
                        assert(!cell.left.as_map().dom().contains(k));
                        let right = &cell.right;
                        if let Bst::Empty = right {
                            proof {
                                lemma_empty_items(*right);
                            }
                            break;
                        }
                        let ghost p = self.path();
                        self.go_right();
                        proof {
                            assert(self.path().take(savelen as int) =~= p.take(savelen as int));
                        }
                    }
                },
            }
        }
        if !answer {
            let ghost p = self.path();
            let ghost a = self.at();
            self.ancestors.truncate(savelen);
            self.current = savecurrent;
        }
        answer
    }
}

impl<'lt, T: Ordered> Bst<T> {
    /// A navigator that starts at this tree.
    pub fn new_navigator(&'lt self) -> (r: AVLNavigator<'lt, T>)
        ensures
            r.path().len() == 0,
            r.at() == self,
            self.wf() ==> r.wf(),
    {
        AVLNavigator::start(self)
    }
}

impl<'lt, T: Ordered> AVLSet<T> {
    /// A navigator that starts at the root of the set's tree.
    pub fn get_navigator(&'lt self) -> (r: AVLNavigator<'lt, T>)
        ensures
            r.path().len() == 0,
            r.at() == &self.root,
            self.wf() ==> r.wf(),
    {
        AVLNavigator::start(&self.root)
    }
}

/// Within one tree, stepping to the successor of an item and then to the
/// predecessor of that comes back to the item.
pub proof fn lemma_successor_then_predecessor<T: Ordered>(m: Map<int, T>, x: T, y: T, z: T)
    requires
        m.dom().contains(x.rank()),
        m[x.rank()] == x,
        is_next_above(m, x.rank(), y),
        is_next_below(m, y.rank(), z),
    ensures
        z == x,
{
}

/// Within one tree, stepping to the predecessor of an item and then to the
/// successor of that comes back to the item.
pub proof fn lemma_predecessor_then_successor<T: Ordered>(m: Map<int, T>, x: T, y: T, z: T)
    requires
        m.dom().contains(x.rank()),
        m[x.rank()] == x,
        is_next_below(m, x.rank(), y),
        is_next_above(m, y.rank(), z),
    ensures
        z == x,
{
}

/// The item at the current node of a navigator is an item of the tree it
/// started from, under its rank.
pub proof fn lemma_current_in_start<T: Ordered>(nav: AVLNavigator<'_, T>)
    requires
        nav.wf(),
        *nav.at() is Node,
    ensures
        nav.start_node().as_map().dom().contains(nav.at_rank()),
        nav.start_node().as_map()[nav.at_rank()] == nav.at()->Node_0.item,
{
    reveal(window);
    let p = nav.path();
    assert(p.take(p.len() as int) =~= p);
    assert(window(nav.start_node(), p.take(p.len() as int), node_on(p, nav.at(), p.len() as int)));
    lemma_node_items(*nav.at());
}

/// From any item of a navigator's tree, a move to the successor followed
/// by a move to the predecessor (each as the navigator's moves state it)
/// comes back to the same item, at the same node with the same path.
pub proof fn lemma_successor_predecessor_round_trip<T: Ordered>(
    a: AVLNavigator<'_, T>,
    b: AVLNavigator<'_, T>,
    c: AVLNavigator<'_, T>,
)
    requires
        a.wf(),
        c.wf(),
        *a.at() is Node,
        b.start_node() == a.start_node(),
        c.start_node() == b.start_node(),
        *b.at() is Node,
        *c.at() is Node,
        is_next_above(a.start_node().as_map(), a.at_rank(), b.at()->Node_0.item),
        is_next_below(b.start_node().as_map(), b.at_rank(), c.at()->Node_0.item),
    ensures
        c.at()->Node_0.item == a.at()->Node_0.item,
        c.path() == a.path(),
        *c.at() == *a.at(),
{
    lemma_current_in_start(a);
    lemma_successor_then_predecessor(
        a.start_node().as_map(),
        a.at()->Node_0.item,
        b.at()->Node_0.item,
        c.at()->Node_0.item,
    );
    lemma_path_determined(a.path(), a.at(), c.path(), c.at());
}

/// Every node on a valid path holds the rank of the node the path ends at.
proof fn lemma_path_holds_end<T: Ordered>(p: Seq<(&Bst<T>, bool)>, at: &Bst<T>, i: int)
    requires
        valid_path(p, at),
        *at is Node,
        0 <= i <= p.len(),
    ensures
        node_on(p, at, i).as_map().dom().contains(root_rank(*at)),
    decreases p.len() - i,
{
    if i == p.len() {
        lemma_node_items(*at);
    } else {
        lemma_path_holds_end(p, at, i + 1);
        assert(child(*p[i].0, p[i].1) == node_on(p, at, i + 1));
        lemma_node_items(*p[i].0);
    }
}

/// On a valid path to a node of rank `k`, each step goes left exactly
/// when `k` lies below the rank of the node it leaves, which is not `k`.
proof fn lemma_path_steps<T: Ordered>(p: Seq<(&Bst<T>, bool)>, at: &Bst<T>, i: int)
    requires
        valid_path(p, at),
        *at is Node,
        0 <= i < p.len(),
    ensures
        root_rank(*p[i].0) != root_rank(*at),
        p[i].1 == (root_rank(*at) < root_rank(*p[i].0)),
{
    lemma_path_holds_end(p, at, i + 1);
    assert(child(*p[i].0, p[i].1) == node_on(p, at, i + 1));
    let c = p[i].0->Node_0;
    assert(c.ordered());
}

/// Two valid paths from the same start to nodes of the same rank agree on
/// their first `i` steps.
proof fn lemma_same_prefix<T: Ordered>(
    p1: Seq<(&Bst<T>, bool)>,
    a1: &Bst<T>,
    p2: Seq<(&Bst<T>, bool)>,
    a2: &Bst<T>,
    i: int,
)
    requires
        valid_path(p1, a1),
        valid_path(p2, a2),
        node_on(p1, a1, 0) == node_on(p2, a2, 0),
        *a1 is Node,
        *a2 is Node,
        root_rank(*a1) == root_rank(*a2),
        0 <= i <= p1.len(),
        i <= p2.len(),
    ensures
        node_on(p1, a1, i) == node_on(p2, a2, i),
        forall|j: int| 0 <= j < i ==> p1[j] == p2[j],
    decreases i,
{
    if i > 0 {
        lemma_same_prefix(p1, a1, p2, a2, i - 1);
        lemma_path_steps(p1, a1, i - 1);
        lemma_path_steps(p2, a2, i - 1);
        assert(child(*p1[i - 1].0, p1[i - 1].1) == node_on(p1, a1, i));
        assert(child(*p2[i - 1].0, p2[i - 1].1) == node_on(p2, a2, i));
    }
}

/// A valid path from a given start to a node of a given rank is unique.
proof fn lemma_path_determined<T: Ordered>(
    p1: Seq<(&Bst<T>, bool)>,
    a1: &Bst<T>,
    p2: Seq<(&Bst<T>, bool)>,
    a2: &Bst<T>,
)
    requires
        valid_path(p1, a1),
        valid_path(p2, a2),
        node_on(p1, a1, 0) == node_on(p2, a2, 0),
        *a1 is Node,
        *a2 is Node,
        root_rank(*a1) == root_rank(*a2),
    ensures
        p1 == p2,
        *a1 == *a2,
{
    if p1.len() < p2.len() {
        lemma_same_prefix(p1, a1, p2, a2, p1.len() as int);
        lemma_path_steps(p2, a2, p1.len() as int);
    } else if p2.len() < p1.len() {
        lemma_same_prefix(p1, a1, p2, a2, p2.len() as int);
        lemma_path_steps(p1, a1, p2.len() as int);
    } else {
        lemma_same_prefix(p1, a1, p2, a2, p1.len() as int);
        assert(p1 =~= p2);
    }
}

} // verus!
