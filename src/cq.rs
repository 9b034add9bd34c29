//! A circular queue with positional access: items can be read, replaced,
//! swapped, inserted and removed by their position from the front, and an
//! ordered queue can be searched.
use vstd::prelude::*;
use crate::order::Ordered;
use crate::circularqueue::{ring, lemma_ring_mod};

verus! {

/// A circular queue: the items occupy `size` consecutive slots of `q`,
/// starting at `front` and wrapping around at the end.
pub struct CQ<T> {
    q: Vec<Option<T>>,
    front: usize,
    size: usize,
}

impl<T> View for CQ<T> {
    type V = Seq<T>;

    /// The items from front to back.
    closed spec fn view(&self) -> Seq<T> {
        Seq::new(
            self.size as nat,
            |i: int| self.q@[ring(self.front as int, i, self.q@.len() as int)]->Some_0,
        )
    }
}

/// The ranks of `s` never decrease from first to last.
pub open spec fn ascending<T: Ordered>(s: Seq<T>) -> bool {
    forall|i: int, j: int| 0 <= i < j < s.len() ==> #[trigger] s[i].rank() <= #[trigger] s[j].rank()
}

impl<T> CQ<T> {
    /// All slots, in order from the front slot around the ring.
    pub closed spec fn logical(&self) -> Seq<Option<T>> {
        Seq::new(self.q@.len(), |j: int| self.q@[ring(self.front as int, j, self.q@.len() as int)])
    }

    /// The slots in ring order are the slots of `q` from the front on.
    proof fn lemma_logical(&self)
        ensures
            forall|j: int| 0 <= j < self.q@.len() ==> #[trigger] self.logical()[j] == self.q@[ring(
                self.front as int,
                j,
                self.q@.len() as int,
            )],
    {
    }

    /// The number of slots.
    pub closed spec fn cap(&self) -> nat {
        self.q@.len()
    }

    /// The positions stay in range and the slots in use hold items.
    pub closed spec fn wf(&self) -> bool {
        &&& 0 < self.q@.len() <= usize::MAX / 2
        &&& self.front < self.q@.len()
        &&& self.size <= self.q@.len()
        &&& forall|i: int| 0 <= i < self.size ==> (#[trigger] self.q@[ring(
            self.front as int,
            i,
            self.q@.len() as int,
        )]) is Some
    }

    /// Creates an empty queue with `n` slots.
    pub fn new(n: usize) -> (r: Self)
        requires
            0 < n <= usize::MAX / 2,
        ensures
            r.wf(),
            r@ == Seq::<T>::empty(),
            r.cap() == n,
    {
        let mut q: Vec<Option<T>> = Vec::with_capacity(n);
        let mut k: usize = 0;
        while k < n
            invariant
                k <= n,
                q@.len() == k,
            decreases n - k,
        {
            q.push(None);
            k += 1;
        }
        let r = CQ { q, front: 0, size: 0 };
        assert(r@ =~= Seq::<T>::empty());
        r
    }

    /// The slot of position `i`.
    fn index(&self, i: usize) -> (r: usize)
        requires
            0 < self.q@.len() <= usize::MAX / 2,
            self.front < self.q@.len(),
            i <= self.q@.len(),
        ensures
            r as int == ring(self.front as int, i as int, self.q@.len() as int),
            r < self.q@.len(),
    {
        proof {
            lemma_ring_mod(self.front as int, i as int, self.q@.len() as int);
        }
        (self.front + i) % self.q.len()
    }

    /// Swaps the contents of the slots of positions `a` and `b`.
    fn swap_positions(&mut self, a: usize, b: usize)
        requires
            0 < old(self).q@.len() <= usize::MAX / 2,
            old(self).front < old(self).q@.len(),
            a < old(self).q@.len(),
            b < old(self).q@.len(),
        ensures
            final(self).q@.len() == old(self).q@.len(),
            final(self).front == old(self).front,
            final(self).size == old(self).size,
            final(self).logical() == old(self).logical().update(a as int, old(self).logical()[b as int]).update(
                b as int,
                old(self).logical()[a as int],
            ),
    {
        if a != b {
            let ka = self.index(a);
            let kb = self.index(b);
            let mut tmp: Option<T> = None;
            std::mem::swap(&mut self.q[ka], &mut tmp);
            std::mem::swap(&mut self.q[kb], &mut tmp);
            std::mem::swap(&mut self.q[ka], &mut tmp);
        }
        assert(self.logical() =~= old(self).logical().update(a as int, old(self).logical()[b as int]).update(
            b as int,
            old(self).logical()[a as int],
        ));
    }

    /// Doubles the number of slots and moves the items to the start.
    fn resize(&mut self)
        requires
            old(self).wf(),
            old(self).q@.len() <= usize::MAX / 4,
        ensures
            final(self).wf(),
            final(self)@ == old(self)@,
            final(self).cap() == 2 * old(self).cap(),
    {
        let newcap = self.q.len() * 2;
        let mut q2: Vec<Option<T>> = Vec::with_capacity(newcap);
        let size = self.size;
        let ghost items = self@;
        let mut i: usize = 0;
        while i < size
            invariant
                0 < self.q@.len() <= usize::MAX / 4,
                self.front < self.q@.len(),
                self.size == size,
                size <= self.q@.len(),
                newcap == 2 * self.q@.len(),
                items.len() == size,
                i <= size,
                q2@.len() == i,
                forall|j: int| 0 <= j < i ==> #[trigger] q2@[j] == Some(items[j]),
                forall|j: int| i <= j < size ==> #[trigger] self.q@[ring(
                    self.front as int,
                    j,
                    self.q@.len() as int,
                )] == Some(items[j]),
            decreases size - i,
        {
            let k = self.index(i);
            let mut slot: Option<T> = None;
            std::mem::swap(&mut self.q[k], &mut slot);
            q2.push(slot);
            proof {
                assert forall|j: int| i < j < size implies #[trigger] self.q@[ring(
                    self.front as int,
                    j,
                    self.q@.len() as int,
                )] == Some(items[j]) by {
                    assert(ring(self.front as int, j, self.q@.len() as int) != k);
                }
            }
            i += 1;
        }
        while i < newcap
            invariant
                items.len() == size,
                size <= i <= newcap,
                q2@.len() == i,
                forall|j: int| 0 <= j < size ==> #[trigger] q2@[j] == Some(items[j]),
            decreases newcap - i,
        {
            q2.push(None);
            i += 1;
        }
        self.q = q2;
        self.front = 0;
        assert(self@ =~= items);
    }

    /// Adds `x` at the front, growing the queue if it is full.
    pub fn push(&mut self, x: T)
        requires
            old(self).wf(),
            old(self)@.len() < usize::MAX / 4,
        ensures
            final(self).wf(),
            final(self)@ == seq![x] + old(self)@,
    {
        if self.size >= self.q.len() {
            self.resize();
        }
        let ghost items = self@;
        let ghost f0 = self.front as int;
        self.front = self.index(self.q.len() - 1);
        let f = self.front;
        self.q[f] = Some(x);
        self.size += 1;
        proof {
            let cap = self.q@.len() as int;
            assert forall|i: int| 1 <= i < self.size implies ring(self.front as int, i, cap) == ring(
                f0,
                i - 1,
                cap,
            ) by {}
        }
        assert(self@ =~= seq![x] + items);
    }

    /// Takes the item at the front, if there is one.
    pub fn pop(&mut self) -> (r: Option<T>)
        requires
            old(self).wf(),
        ensures
            final(self).wf(),
            old(self)@.len() == 0 ==> r is None && final(self)@ == old(self)@,
            old(self)@.len() > 0 ==> r == Some(old(self)@[0])
                && final(self)@ == old(self)@.drop_first(),
    {
        if self.size == 0 {
            return None;
        }
        let ghost items = self@;
        let ghost f0 = self.front as int;
        let mut temp = None;
        let f = self.front;
        std::mem::swap(&mut temp, &mut self.q[f]);
        proof {
            assert(ring(f0, 0, self.q@.len() as int) == f0);
        }
        self.front = self.index(1);
        self.size -= 1;
        proof {
            let cap = self.q@.len() as int;
            assert forall|i: int| 0 <= i < self.size implies ring(self.front as int, i, cap) == ring(
                f0,
                i + 1,
                cap,
            ) && ring(f0, i + 1, cap) != f0 by {}
        }
        assert(self@ =~= items.drop_first());
        temp
    }

    /// The item at the front, if there is one.
    pub fn peek(&self) -> (r: Option<&T>)
        requires
            self.wf(),
        ensures
            r == (if self@.len() == 0 {
                None
            } else {
                Some(&self@[0])
            }),
    {
        if self.size == 0 {
            None
        } else {
            proof {
                assert(ring(self.front as int, 0, self.q@.len() as int) == self.front);
            }
            self.q[self.front].as_ref()
        }
    }

    /// Adds `x` at the back, growing the queue if it is full.
    pub fn enqueue(&mut self, x: T)
        requires
            old(self).wf(),
            old(self)@.len() < usize::MAX / 4,
        ensures
            final(self).wf(),
            final(self)@ == old(self)@.push(x),
    {
        if self.size >= self.q.len() {
            self.resize();
        }
        let ghost items = self@;
        let back = self.index(self.size);
        self.q[back] = Some(x);
        self.size += 1;
        proof {
            assert forall|i: int| 0 <= i < self.size - 1 implies ring(
                self.front as int,
                i,
                self.q@.len() as int,
            ) != back by {}
        }
        assert(self@ =~= items.push(x));
    }

    /// Takes the item at the back, if there is one.
    pub fn dequeue(&mut self) -> (r: Option<T>)
        requires
            old(self).wf(),
        ensures
            final(self).wf(),
            old(self)@.len() == 0 ==> r is None && final(self)@ == old(self)@,
            old(self)@.len() > 0 ==> r == Some(old(self)@.last())
                && final(self)@ == old(self)@.drop_last(),
    {
        if self.size == 0 {
            return None;
        }
        let ghost items = self@;
        let mut temp = None;
        let k = self.index(self.size - 1);
        std::mem::swap(&mut temp, &mut self.q[k]);
        self.size -= 1;
        proof {
            assert forall|i: int| 0 <= i < self.size implies ring(
                self.front as int,
                i,
                self.q@.len() as int,
            ) != k by {}
        }
        assert(self@ =~= items.drop_last());
        temp
    }

    /// The number of items.
    pub fn len(&self) -> (r: usize)
        ensures
            r as nat == self@.len(),
    {
        self.size
    }

    /// The item at position `i`, if there is one.
    pub fn get(&self, i: usize) -> (r: Option<&T>)
        requires
            self.wf(),
        ensures
            r == (if i < self@.len() {
                Some(&self@[i as int])
            } else {
                None
            }),
    {
        if i >= self.size {
            None
        } else {
            let k = self.index(i);
            self.q[k].as_ref()
        }
    }

    /// A mutable reference to the item at position `i`, if there is one.
    pub fn get_mut(&mut self, i: usize) -> (r: Option<&mut T>)
        requires
            old(self).wf(),
        ensures
            i >= old(self)@.len() ==> r is None && final(self)@ == old(self)@ && final(self).wf(),
            i < old(self)@.len() ==> (r matches Some(m) && *m == old(self)@[i as int] && final(self)@
                == old(self)@.update(i as int, *final(m)) && final(self).wf()),
    {
        if i >= self.size {
            None
        } else {
            let k = self.index(i);
            let ghost items = self@;
            proof {
                assert forall|j: int| 0 <= j < self.size && j != i implies ring(
                    self.front as int,
                    j,
                    self.q@.len() as int,
                ) != k by {}
            }
            let r = self.q[k].as_mut();
            r
        }
    }

    /// Puts `x` at position `i` and returns the item it replaces; does
    /// nothing and returns `None` past the back.
    pub fn set(&mut self, i: usize, x: T) -> (r: Option<T>)
        requires
            old(self).wf(),
        ensures
            final(self).wf(),
            i < old(self)@.len() ==> r == Some(old(self)@[i as int])
                && final(self)@ == old(self)@.update(i as int, x),
            i >= old(self)@.len() ==> r is None && final(self)@ == old(self)@,
    {
        if i >= self.size {
            None
        } else {
            let ghost items = self@;
            let mut temp = Some(x);
            let k = self.index(i);
            std::mem::swap(&mut temp, &mut self.q[k]);
            proof {
                assert forall|j: int| 0 <= j < self.size && j != i implies ring(
                    self.front as int,
                    j,
                    self.q@.len() as int,
                ) != k by {}
            }
            assert(self@ =~= items.update(i as int, x));
            temp
        }
    }

    /// Exchanges the items at positions `i` and `k`; returns false, and
    /// does nothing, if either is past the back.
    pub fn swap(&mut self, i: usize, k: usize) -> (r: bool)
        requires
            old(self).wf(),
        ensures
            final(self).wf(),
            r == (i < old(self)@.len() && k < old(self)@.len()),
            r ==> final(self)@ == old(self)@.update(i as int, old(self)@[k as int]).update(
                k as int,
                old(self)@[i as int],
            ),
            !r ==> final(self)@ == old(self)@,
    {
        if i >= self.size || k >= self.size {
            false
        } else {
            let ghost items = self@;
            let ghost l0 = self.logical();
            proof {
                self.lemma_logical();
            }
            self.swap_positions(i, k);
            proof {
                self.lemma_logical();
                let cap = self.q@.len() as int;
                assert forall|j: int| 0 <= j < self.size implies #[trigger] self.q@[ring(
                    self.front as int,
                    j,
                    cap,
                )] == (if j == k {
                    l0[i as int]
                } else if j == i {
                    l0[k as int]
                } else {
                    l0[j]
                }) by {
                    assert(self.logical()[j] == self.q@[ring(self.front as int, j, cap)]);
                }
            }
            assert(self@ =~= items.update(i as int, items[k as int]).update(k as int, items[i as int]));
            true
        }
    }

    /// Moves the empty slot at position `from` up to position `to`; the
    /// contents of the positions in between move one place down.
    fn move_hole_up(&mut self, from: usize, to: usize)
        requires
            0 < old(self).q@.len() <= usize::MAX / 2,
            old(self).front < old(self).q@.len(),
            from <= to < old(self).q@.len(),
        ensures
            final(self).q@.len() == old(self).q@.len(),
            final(self).front == old(self).front,
            final(self).size == old(self).size,
            forall|j: int| #![trigger final(self).logical()[j]] 0 <= j < old(self).q@.len()
                ==> final(self).logical()[j] == (if from <= j < to {
                old(self).logical()[j + 1]
            } else if j == to {
                old(self).logical()[from as int]
            } else {
                old(self).logical()[j]
            }),
    {
        let ghost l0 = self.logical();
        let mut h = from;
        while h < to
            invariant
                from <= h <= to,
                self.q@.len() == old(self).q@.len(),
                self.front == old(self).front,
                self.size == old(self).size,
                l0 == old(self).logical(),
                0 < self.q@.len() <= usize::MAX / 2,
                self.front < self.q@.len(),
                to < self.q@.len(),
                forall|j: int| #![trigger self.logical()[j]] 0 <= j < self.q@.len() ==> self.logical()[j]
                    == (if from <= j < h {
                    l0[j + 1]
                } else if j == h {
                    l0[from as int]
                } else {
                    l0[j]
                }),
            decreases to - h,
        {
            self.swap_positions(h, h + 1);
            h += 1;
        }
    }

    /// Moves the empty slot at position `from` down to position `to`; the
    /// contents of the positions in between move one place up.
    fn move_hole_down(&mut self, from: usize, to: usize)
        requires
            0 < old(self).q@.len() <= usize::MAX / 2,
            old(self).front < old(self).q@.len(),
            to <= from < old(self).q@.len(),
        ensures
            final(self).q@.len() == old(self).q@.len(),
            final(self).front == old(self).front,
            final(self).size == old(self).size,
            forall|j: int| #![trigger final(self).logical()[j]] 0 <= j < old(self).q@.len()
                ==> final(self).logical()[j] == (if to < j <= from {
                old(self).logical()[j - 1]
            } else if j == to {
                old(self).logical()[from as int]
            } else {
                old(self).logical()[j]
            }),
    {
        let ghost l0 = self.logical();
        let mut h = from;
        while h > to
            invariant
                to <= h <= from,
                self.q@.len() == old(self).q@.len(),
                self.front == old(self).front,
                self.size == old(self).size,
                l0 == old(self).logical(),
                0 < self.q@.len() <= usize::MAX / 2,
                self.front < self.q@.len(),
                from < self.q@.len(),
                forall|j: int| #![trigger self.logical()[j]] 0 <= j < self.q@.len() ==> self.logical()[j]
                    == (if h < j <= from {
                    l0[j - 1]
                } else if j == h {
                    l0[from as int]
                } else {
                    l0[j]
                }),
            decreases h - to,
        {
            self.swap_positions(h, h - 1);
            h -= 1;
        }
    }

    /// Inserts `x` at position `i`, moving the items on the shorter side
    /// by one place; returns false, and does nothing, unless `i` is the
    /// position of an item.
    #[verifier::spinoff_prover]
    #[verifier::rlimit(60)]
    pub fn insert(&mut self, i: usize, x: T) -> (r: bool)
        requires
            old(self).wf(),
            old(self)@.len() < usize::MAX / 4,
        ensures
            final(self).wf(),
            r == (i < old(self)@.len()),
            r ==> final(self)@ == old(self)@.insert(i as int, x),
            !r ==> final(self)@ == old(self)@,
    {
        if i >= self.size {
            return false;
        }
        if self.size >= self.q.len() {
            self.resize();
        }
        let ghost items = self@;
        proof {
            self.lemma_logical();
        }
        let ghost l0 = self.logical();
        let ghost f0 = self.front as int;
        let ghost cap = self.q@.len() as int;
        let ghost sz0 = self.size as int;
        proof {
            assert forall|j: int| 0 <= j < sz0 implies #[trigger] l0[j] == Some(items[j]) by {
                assert(self.q@[ring(f0, j, cap)] is Some);
            }
        }
        if i < self.size / 2 {
            self.front = self.index(self.q.len() - 1);
            proof {
                self.lemma_logical();
                assert forall|j: int| 0 <= j < cap implies #[trigger] self.logical()[j] == (if j == 0 {
                    l0[cap - 1]
                } else {
                    l0[j - 1]
                }) by {}
            }
            let ghost l1 = self.logical();
            self.move_hole_up(0, i);
            proof {
                assert forall|j: int| 0 <= j <= sz0 && j != i implies #[trigger] self.logical()[j] == (
                if j < i {
                    Some(items[j])
                } else {
                    Some(items[j - 1])
                }) by {
                    if j < i {
                        assert(l1[j + 1] == l0[j]);
                    } else {
                        assert(l1[j] == l0[j - 1]);
                    }
                }
            }
        } else {
            let sz = self.size;
            self.move_hole_down(sz, i);
            proof {
                assert forall|j: int| 0 <= j <= sz0 && j != i implies #[trigger] self.logical()[j] == (
                if j < i {
                    Some(items[j])
                } else {
                    Some(items[j - 1])
                }) by {}
            }
        }
        let ghost l2 = self.logical();
        proof {
            self.lemma_logical();
        }
        let k = self.index(i);
        self.q[k] = Some(x);
        self.size += 1;
        proof {
            self.lemma_logical();
            assert forall|j: int| 0 <= j < self.size implies #[trigger] self.q@[ring(
                self.front as int,
                j,
                cap,
            )] == (if j < i {
                Some(items[j])
            } else if j == i {
                Some(x)
            } else {
                Some(items[j - 1])
            }) by {
                assert(self.logical()[j] == self.q@[ring(self.front as int, j, cap)]);
                if j != i {
                    assert(ring(self.front as int, j, cap) != k);
                    assert(l2[j] == self.logical()[j]);
                }
            }
        }
        assert(self@ =~= items.insert(i as int, x));
        true
    }

    /// Removes the item at position `i` and returns it, moving the items on
    /// the shorter side by one place; `None` past the back.
    #[verifier::spinoff_prover]
    #[verifier::rlimit(60)]
    pub fn remove(&mut self, i: usize) -> (r: Option<T>)
        requires
            old(self).wf(),
        ensures
            final(self).wf(),
            i < old(self)@.len() ==> r == Some(old(self)@[i as int])
                && final(self)@ == old(self)@.remove(i as int),
            i >= old(self)@.len() ==> r is None && final(self)@ == old(self)@,
    {
        if i >= self.size {
            return None;
        }
        let ghost items = self@;
        let ghost cap = self.q@.len() as int;
        let mut answer = None;
        let k = self.index(i);
        std::mem::swap(&mut answer, &mut self.q[k]);
        proof {
            self.lemma_logical();
        }
        let ghost l0 = self.logical();
        let ghost sz0 = self.size as int;
        proof {
            assert forall|j: int| 0 <= j < sz0 && j != i implies #[trigger] l0[j] == Some(items[j]) by {
                assert(old(self).q@[ring(self.front as int, j, cap)] is Some);
                assert(ring(self.front as int, j, cap) != k);
            }
        }
        if i < self.size / 2 {
            self.move_hole_down(i, 0);
            proof {
                self.lemma_logical();
            }
            let ghost l1 = self.logical();
            self.front = self.index(1);
            proof {
                self.lemma_logical();
                assert forall|j: int| 0 <= j < sz0 - 1 implies #[trigger] self.logical()[j] == (if j < i {
                    Some(items[j])
                } else {
                    Some(items[j + 1])
                }) by {
                    assert(self.logical()[j] == l1[j + 1]);
                }
            }
        } else {
            let last = self.size - 1;
            self.move_hole_up(i, last);
            proof {
                assert forall|j: int| 0 <= j < sz0 - 1 implies #[trigger] self.logical()[j] == (if j < i {
                    Some(items[j])
                } else {
                    Some(items[j + 1])
                }) by {}
            }
        }
        self.size -= 1;
        proof {
            self.lemma_logical();
            assert forall|j: int| 0 <= j < self.size implies #[trigger] self.q@[ring(
                self.front as int,
                j,
                cap,
            )] == (if j < i {
                Some(items[j])
            } else {
                Some(items[j + 1])
            }) by {
                assert(self.logical()[j] == self.q@[ring(self.front as int, j, cap)]);
            }
        }
        assert(self@ =~= items.remove(i as int));
        answer
    }

    /// Applies `mapfun` to each item, from front to back.
    pub fn map<F>(&self, mapfun: &mut F)
        where
            F: FnMut(&T),
        requires
            self.wf(),
            forall|f: F, x: &T| #[trigger] f.requires((x,)),
    {
        let mut i: usize = 0;
        while i < self.size
            invariant
                self.wf(),
                i <= self.size,
                forall|f: F, x: &T| #[trigger] f.requires((x,)),
            decreases self.size - i,
        {
            let x = self.get(i).unwrap();
            mapfun(x);
            i += 1;
        }
    }

    /// A traversal of the items from front to back.
    pub fn iter<'lt>(&'lt self) -> (r: CQIter<'lt, T>)
        ensures
            r.queue() == self,
            r.position() == 0,
    {
        CQIter { q: self, index: 0 }
    }
}

/// A traversal of a [`CQ`] from front to back.
pub struct CQIter<'lt, T> {
    q: &'lt CQ<T>,
    index: usize,
}

impl<'lt, T> CQIter<'lt, T> {
    /// The queue being traversed.
    pub closed spec fn queue(&self) -> &'lt CQ<T> {
        self.q
    }

    /// How many items have been yielded so far.
    pub closed spec fn position(&self) -> nat {
        self.index as nat
    }

    /// Yields the next item, or `None` past the back of the queue.
    pub fn next(&mut self) -> (r: Option<&'lt T>)
        requires
            old(self).queue().wf(),
        ensures
            final(self).queue() == old(self).queue(),
            old(self).position() < old(self).queue()@.len() ==> r == Some(
                &old(self).queue()@[old(self).position() as int],
            ) && final(self).position() == old(self).position() + 1,
            old(self).position() >= old(self).queue()@.len() ==> r is None
                && final(self).position() == old(self).position(),
    {
        if self.index >= self.q.size {
            None
        } else {
            self.index += 1;
            self.q.get(self.index - 1)
        }
    }
}

/// Ranks that never decrease from one item to the next never decrease
/// over any distance.
proof fn lemma_ascending_steps<T: Ordered>(s: Seq<T>, n: int)
    requires
        0 <= n <= s.len(),
        forall|k: int| 0 < k < n ==> (#[trigger] s[k]).rank() >= s[k - 1].rank(),
    ensures
        forall|i: int, j: int| 0 <= i < j < n ==> #[trigger] s[i].rank() <= #[trigger] s[j].rank(),
    decreases n,
{
    if n > 0 {
        lemma_ascending_steps(s, n - 1);
        assert forall|i: int, j: int| 0 <= i < j < n implies #[trigger] s[i].rank()
            <= #[trigger] s[j].rank() by {
            if j == n - 1 && i < j - 1 {
                assert(s[i].rank() <= s[j - 1].rank());
            }
        }
    }
}

impl<T: Ordered> CQ<T> {
    /// The position of the first item of the same rank as `x`, if any.
    pub fn linear_search(&self, x: &T) -> (r: Option<usize>)
        requires
            self.wf(),
        ensures
            r matches Some(i) ==> i < self@.len() && self@[i as int].rank() == x.rank()
                && forall|j: int| 0 <= j < i ==> #[trigger] self@[j].rank() != x.rank(),
            r is None ==> forall|j: int| 0 <= j < self@.len() ==> #[trigger] self@[j].rank() != x.rank(),
    {
        let mut i: usize = 0;
        while i < self.size
            invariant
                self.wf(),
                i <= self.size,
                forall|j: int| 0 <= j < i ==> #[trigger] self@[j].rank() != x.rank(),
            decreases self.size - i,
        {
            let y = self.get(i).unwrap();
            if y.is_same(x) {
                return Some(i);
            }
            i += 1;
        }
        None
    }

    /// Whether the ranks never decrease from front to back.
    pub fn is_sorted(&self) -> (r: bool)
        requires
            self.wf(),
        ensures
            r == ascending(self@),
    {
        let mut i: usize = 1;
        while i < self.size
            invariant
                self.wf(),
                1 <= i,
                i <= self.size || self.size == 0,
                forall|k: int| 0 < k < i && k < self@.len() ==> (#[trigger] self@[k]).rank() >= self@[k
                    - 1].rank(),
            decreases self.size - i,
        {
            let x = self.get(i).unwrap();
            let y = self.get(i - 1).unwrap();
            if x.is_less(y) {
                return false;
            }
            i += 1;
        }
        proof {
            lemma_ascending_steps(self@, self@.len() as int);
        }
        true
    }

    /// Adds `x` at the front and moves it back past every item of a
    /// smaller rank, so that an ordered queue stays ordered.
    pub fn insert_sorted(&mut self, x: T)
        requires
            old(self).wf(),
            old(self)@.len() < usize::MAX / 4,
        ensures
            final(self).wf(),
            exists|j: int| 0 <= j <= old(self)@.len() && final(self)@ == old(self)@.insert(j, x),
            ascending(old(self)@) ==> ascending(final(self)@),
    {
        let ghost items = old(self)@;
        let ghost xr = x.rank();
        self.push(x);
        assert(self@ =~= items.insert(0, self@[0]));
        let ghost xv = self@[0];
        let mut i: usize = 0;
        while i + 1 < self.size
            invariant
                self.wf(),
                self.size == items.len() + 1,
                i < self.size,
                xv.rank() == xr,
                xv == x,
                items == old(self)@,
                self@ == items.insert(i as int, xv),
                ascending(items) ==> forall|j: int| 0 <= j < i ==> #[trigger] items[j].rank() < xr,
            decreases self.size - i,
        {
            let a = self.get(i).unwrap();
            let b = self.get(i + 1).unwrap();
            if b.is_less(a) {
                self.swap(i, i + 1);
                proof {
                    assert(self@ =~= items.insert(i + 1, xv));
                }
                i += 1;
            } else {
                proof {
                    let sq = self@;
                    assert(sq[i as int + 1] == items[i as int]);
                    assert(sq[i as int] == xv);
                    if ascending(items) {
                        assert forall|p: int, q: int| 0 <= p < q < sq.len() implies #[trigger] sq[p].rank()
                            <= #[trigger] sq[q].rank() by {
                            let pr = if p < i { items[p].rank() } else if p == i { xr } else { items[p - 1].rank() };
                            let qr = if q < i { items[q].rank() } else if q == i { xr } else { items[q - 1].rank() };
                            assert(sq[p].rank() == pr);
                            assert(sq[q].rank() == qr);
                            if q == i as int {
                                assert(items[p].rank() < xr);
                            } else if p == i as int {
                                assert(items[i as int].rank() <= items[q - 1].rank());
                            } else if p > i as int {
                                assert(items[p - 1].rank() <= items[q - 1].rank());
                            } else if q > i as int {
                                assert(items[p].rank() <= items[q - 1].rank());
                            } else {
                                assert(items[p].rank() <= items[q].rank());
                            }
                        }
                    }
                    assert(0 <= i <= items.len() && self@ == items.insert(i as int, x));
                }
                return;
            }
        }
        proof {
            if ascending(items) {
                assert forall|p: int, q: int| 0 <= p < q < self@.len() implies #[trigger] self@[p].rank()
                    <= #[trigger] self@[q].rank() by {
                    if q == i as int {
                        assert(items[p].rank() < xr);
                    }
                }
            }
        }
    }

    /// Binary search for an item of the same rank as `x` in an ordered
    /// queue: its position, if there is one.
    pub fn binary_search(&self, x: &T) -> (r: Option<usize>)
        requires
            self.wf(),
            ascending(self@),
        ensures
            r matches Some(i) ==> i < self@.len() && self@[i as int].rank() == x.rank(),
            r is None ==> forall|j: int| 0 <= j < self@.len() ==> #[trigger] self@[j].rank() != x.rank(),
    {
        let mut min: usize = 0;
        let mut max: usize = self.size;
        while min < max
            invariant
                self.wf(),
                ascending(self@),
                min <= max <= self@.len(),
                forall|j: int| 0 <= j < min ==> #[trigger] self@[j].rank() < x.rank(),
                forall|j: int| max <= j < self@.len() ==> #[trigger] self@[j].rank() > x.rank(),
            decreases max - min,
        {
            let mid = min + (max - min) / 2;
            let y = self.get(mid).unwrap();
            if y.is_same(x) {
                return Some(mid);
            } else if x.is_less(y) {
                max = mid;
            } else {
                min = mid + 1;
            }
        }
        None
    }
}

} // verus!
