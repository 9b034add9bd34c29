//! An ordered map: an AVL set of key-value pairs that are ordered, and
//! looked up, by their key alone.
use vstd::prelude::*;
use crate::order::Ordered;
use crate::avltree::{Bst, AVLSet, lemma_cached_height, lemma_size_height};

verus! {

/// A key with the value attached to it.
pub struct KVPair<KT, VT> {
    pub key: KT,
    pub val: VT,
}

/// Pairs are ordered by their keys; the values play no part.
impl<KT: Ordered, VT> Ordered for KVPair<KT, VT> {
    open spec fn rank(&self) -> int {
        self.key.rank()
    }

    fn is_less(&self, other: &Self) -> (r: bool) {
        self.key.is_less(&other.key)
    }

    fn is_same(&self, other: &Self) -> (r: bool) {
        self.key.is_same(&other.key)
    }
}

/// Makes a pair of `k` and `v`.
pub fn newpair<K, V>(k: K, v: V) -> (r: KVPair<K, V>)
    ensures
        r.key == k,
        r.val == v,
{
    KVPair { key: k, val: v }
}

impl<KT: Ordered, VT> Bst<KVPair<KT, VT>> {
    /// Removes the pair whose key has the rank of `key` and returns it, if
    /// there is one; the tree is rebalanced on the way back up.
    pub(crate) fn take_key(&mut self, key: &KT) -> (r: Option<KVPair<KT, VT>>)
        requires
            old(self).wf(),
        ensures
            final(self).wf(),
            r == (if old(self).has_rank(key.rank()) {
                Some(old(self).as_map()[key.rank()])
            } else {
                None
            }),
            final(self).as_map() == old(self).as_map().remove(key.rank()),
            r is None ==> *final(self) == *old(self),
            final(self).true_height() <= old(self).true_height(),
            old(self).true_height() <= final(self).true_height() + 1,
        decreases old(self).true_height(),
    {
        let ghost k = key.rank();
        let t = self.take();
        match t {
            Bst::Empty => {
                assert(t.as_map() =~= t.as_map().remove(k));
                None
            },
            Bst::Node(mut cell) => {
                let ghost c0 = *cell;
                proof {
                    lemma_cached_height(c0.left);
                    lemma_cached_height(c0.right);
                    assert(t.as_map().dom().contains(c0.item.rank()));
                }
                if key.is_same(&cell.item.key) {
                    if let Bst::Empty = &cell.left {
                        let c = *cell;
                        assert(c.left.as_map() =~= Map::empty());
                        *self = c.right;
                        assert(self.as_map() =~= t.as_map().remove(k));
                        Some(c.item)
                    } else {
                        let mut m = cell.left.delmax();
                        proof {
                            assert forall|j: int| #[trigger]
                                cell.right.as_map().dom().contains(j) implies j > m.rank() by {
                                assert(c0.left.as_map().dom().contains(m.rank()));
                            }
                        }
                        std::mem::swap(&mut cell.item, &mut m);
                        cell.balance();
                        *self = Bst::Node(cell);
                        assert(self.as_map() =~= t.as_map().remove(k));
                        Some(m)
                    }
                } else if key.is_less(&cell.item.key) {
                    assert(!c0.right.as_map().dom().contains(k));
                    let answer = cell.left.take_key(key);
                    if answer.is_some() {
                        cell.balance();
                    }
                    *self = Bst::Node(cell);
                    assert(self.as_map() =~= t.as_map().remove(k));
                    answer
                } else {
                    assert(!c0.left.as_map().dom().contains(k));
                    let answer = cell.right.take_key(key);
                    if answer.is_some() {
                        cell.balance();
                    }
                    *self = Bst::Node(cell);
                    assert(self.as_map() =~= t.as_map().remove(k));
                    answer
                }
            },
        }
    }
}

/// An ordered map from keys to values, kept as a set of pairs.
pub struct AVLMap<KT, VT> {
    inner: AVLSet<KVPair<KT, VT>>,
}

impl<KT: Ordered, VT> View for AVLMap<KT, VT> {
    type V = Map<int, KVPair<KT, VT>>;

    /// The pairs of the map, keyed by the rank of their key.
    closed spec fn view(&self) -> Map<int, KVPair<KT, VT>> {
        self.inner@
    }
}

impl<KT: Ordered, VT> AVLMap<KT, VT> {
    /// The underlying set is well-formed.
    pub closed spec fn wf(&self) -> bool {
        self.inner.wf()
    }

    /// Creates an empty map.
    pub fn new() -> (r: Self)
        ensures
            r.wf(),
            r@ == Map::<int, KVPair<KT, VT>>::empty(),
    {
        AVLMap { inner: AVLSet::new() }
    }

    /// The number of keys in the map.
    pub fn len(&self) -> (r: usize)
        requires
            self.wf(),
        ensures
            r as nat == self@.dom().len(),
    {
        self.inner.len()
    }

    /// Associates `val` with `key` unless the key is present already;
    /// returns whether the pair was added.  A present key keeps its value.
    pub fn insert(&mut self, key: KT, val: VT) -> (r: bool)
        requires
            old(self).wf(),
            old(self)@.dom().len() < usize::MAX,
        ensures
            final(self).wf(),
            r == !old(self)@.dom().contains(key.rank()),
            final(self)@ == (if r {
                old(self)@.insert(key.rank(), KVPair { key, val })
            } else {
                old(self)@
            }),
    {
        self.inner.add(newpair(key, val))
    }

    /// The value associated with `key`, if there is one.
    pub fn get(&self, key: &KT) -> (r: Option<&VT>)
        requires
            self.wf(),
        ensures
            r == (if self@.dom().contains(key.rank()) {
                Some(&self@[key.rank()].val)
            } else {
                None
            }),
    {
        let mut current = &self.inner.root;
        loop
            invariant
                current.wf(),
                self.wf(),
                forall|j: int| #[trigger]
                    current.as_map().dom().contains(j) ==> self@.dom().contains(j) && self@[j]
                        == current.as_map()[j],
                self@.dom().contains(key.rank()) == current.as_map().dom().contains(key.rank()),
            decreases current.true_height(),
        {
            match current {
                Bst::Empty => {
                    return None;
                },
                Bst::Node(cell) => {
                    let item = &cell.item;
                    assert(cell.ordered());
                    assert(!cell.left.as_map().dom().contains(item.rank()));
                    assert(!cell.right.as_map().dom().contains(item.rank()));
                    if key.is_same(&item.key) {
                        assert(current.as_map().dom().contains(item.rank()));
                        return Some(&item.val);
                    } else if key.is_less(&item.key) {
                        assert(!cell.right.as_map().dom().contains(key.rank()));
                        assert forall|j: int| #[trigger] cell.left.as_map().dom().contains(j) implies current.as_map().dom().contains(j)
                            && current.as_map()[j] == cell.left.as_map()[j] by {
                            assert(!cell.right.as_map().dom().contains(j));
                        }
                        current = &cell.left;
                    } else {
                        assert(!cell.left.as_map().dom().contains(key.rank()));
                        assert forall|j: int| #[trigger] cell.right.as_map().dom().contains(j) implies current.as_map().dom().contains(j)
                            && current.as_map()[j] == cell.right.as_map()[j] by {}
                        current = &cell.right;
                    }
                },
            }
        }
    }

    /// Removes the pair with the given key and returns it, if there is one.
    pub fn take(&mut self, key: &KT) -> (r: Option<KVPair<KT, VT>>)
        requires
            old(self).wf(),
        ensures
            final(self).wf(),
            r == (if old(self)@.dom().contains(key.rank()) {
                Some(old(self)@[key.rank()])
            } else {
                None
            }),
            final(self)@ == old(self)@.remove(key.rank()),
    {
        proof {
            lemma_size_height(self.inner.root);
        }
        let answer = self.inner.root.take_key(key);
        if answer.is_some() {
            self.inner.size -= 1;
        }
        answer
    }

    /// Makes `key` map to the value that `modifier` computes from the pair
    /// present for that key (or from `None`), and returns that earlier
    /// pair.
    pub fn and_modify<F>(&mut self, key: KT, modifier: F) -> (r: Option<KVPair<KT, VT>>)
        where
            F: Fn(Option<&KVPair<KT, VT>>) -> VT,
        requires
            old(self).wf(),
            old(self)@.dom().len() < usize::MAX,
            forall|o: Option<&KVPair<KT, VT>>| #[trigger] modifier.requires((o,)),
        ensures
            final(self).wf(),
            r == (if old(self)@.dom().contains(key.rank()) {
                Some(old(self)@[key.rank()])
            } else {
                None
            }),
            final(self)@.dom() == old(self)@.dom().insert(key.rank()),
            final(self)@.remove(key.rank()) == old(self)@.remove(key.rank()),
            final(self)@[key.rank()].key == key,
            modifier.ensures(
                (match r {
                    Some(p) => Some(&p),
                    None => None,
                },),
                final(self)@[key.rank()].val,
            ),
    {
        let ghost k = key.rank();
        proof {
            lemma_size_height(self.inner.root);
        }
        let previous = self.take(&key);
        let val = modifier(previous.as_ref());
        proof {
            lemma_size_height(self.inner.root);
            assert(self@.dom() =~= old(self)@.dom().remove(k));
        }
        self.insert(key, val);
        assert(self@.remove(k) =~= old(self)@.remove(k));
        previous
    }
}

} // verus!
