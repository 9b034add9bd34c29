//! A double-ended circular queue over a vector of slots that doubles its
//! capacity when full.
use vstd::prelude::*;
use vstd::arithmetic::div_mod::{lemma_small_mod, lemma_mod_multiples_vanish};

verus! {

/// A circular queue: the items occupy `size` consecutive slots of `q`,
/// starting at `front` and wrapping around at the end; the other slots are
/// not in use.  `INITCAP` is the capacity of a new queue.
pub struct CircularQueue<T, const INITCAP: usize> {
    q: Vec<Option<T>>,
    front: usize,
    size: usize,
}

/// The slot `i` places after `front` in a ring of `cap` slots.
pub open spec fn ring(front: int, i: int, cap: int) -> int {
    if front + i < cap {
        front + i
    } else {
        front + i - cap
    }
}

pub proof fn lemma_ring_mod(front: int, i: int, cap: int)
    requires
        0 <= front < cap,
        0 <= i <= cap,
    ensures
        (front + i) % cap == ring(front, i, cap),
{
    if front + i < cap {
        lemma_small_mod((front + i) as nat, cap as nat);
    } else {
        lemma_mod_multiples_vanish(1, front + i - cap, cap);
        lemma_small_mod((front + i - cap) as nat, cap as nat);
    }
}

impl<T, const INITCAP: usize> View for CircularQueue<T, INITCAP> {
    type V = Seq<T>;

    /// The items from front to back.
    closed spec fn view(&self) -> Seq<T> {
        Seq::new(
            self.size as nat,
            |i: int| self.q@[ring(self.front as int, i, self.q@.len() as int)]->Some_0,
        )
    }
}

impl<T, const INITCAP: usize> CircularQueue<T, INITCAP> {
    /// The number of slots.
    pub closed spec fn cap(&self) -> nat {
        self.q@.len()
    }

    /// The positions stay in range.
    pub closed spec fn positions_ok(&self) -> bool {
        &&& 0 < self.q@.len() <= usize::MAX / 2
        &&& self.front < self.q@.len()
        &&& self.size <= self.q@.len()
    }

    /// The positions stay in range and the slots in use hold items.
    pub closed spec fn wf(&self) -> bool {
        &&& self.positions_ok()
        &&& forall|i: int| 0 <= i < self.size ==> (#[trigger] self.q@[ring(
            self.front as int,
            i,
            self.q@.len() as int,
        )]) is Some
    }

    /// The number of items in the queue.
    pub fn len(&self) -> (r: usize)
        ensures
            r as nat == self@.len(),
    {
        self.size
    }

    /// The number of slots, used or not.
    pub fn capacity(&self) -> (r: usize)
        ensures
            r as nat == self.cap(),
    {
        self.q.len()
    }

    /// Creates an empty queue with `INITCAP` slots.
    pub fn new() -> (r: Self)
        requires
            0 < INITCAP <= usize::MAX / 2,
        ensures
            r.wf(),
            r@ == Seq::<T>::empty(),
            r.cap() == INITCAP,
    {
        let mut v: Vec<Option<T>> = Vec::with_capacity(INITCAP);
        let mut n: usize = 0;
        while n < INITCAP
            invariant
                n <= INITCAP,
                v@.len() == n,
            decreases INITCAP - n,
        {
            v.push(None);
            n += 1;
        }
        let r = CircularQueue { front: 0, size: 0, q: v };
        assert(r@ =~= Seq::<T>::empty());
        r
    }

    /// The slot of the item `i` places behind the front.
    fn index(&self, i: usize) -> (r: usize)
        requires
            self.positions_ok(),
            i <= self.q@.len(),
        ensures
            r as int == ring(self.front as int, i as int, self.q@.len() as int),
            r < self.q@.len(),
    {
        proof {
            lemma_ring_mod(self.front as int, i as int, self.q@.len() as int);
        }
        (self.front + i) % self.q.len()
    }

    /// Doubles the number of slots and moves the items to the start.
    fn resize(&mut self)
        requires
            old(self).wf(),
            old(self).q@.len() <= usize::MAX / 4,
        ensures
            final(self).wf(),
            final(self)@ == old(self)@,
            final(self).cap() == 2 * old(self).cap(),
    {
        let newcap = self.q.len() * 2;
        let mut newq: Vec<Option<T>> = Vec::with_capacity(newcap);
        let size = self.size;
        let ghost items = self@;
        let mut i: usize = 0;
        while i < size
            invariant
                self.positions_ok(),
                self.size == size,
                items.len() == size,
                self.q@.len() == old(self).q@.len(),
                self.front == old(self).front,
                items == old(self)@,
                i <= size,
                newq@.len() == i,
                forall|j: int| 0 <= j < i ==> #[trigger] newq@[j] == Some(items[j]),
                forall|j: int| i <= j < size ==> #[trigger] self.q@[ring(
                    self.front as int,
                    j,
                    self.q@.len() as int,
                )] == Some(items[j]),
            decreases size - i,
        {
            let k = self.index(i);
            let mut slot: Option<T> = None;
            std::mem::swap(&mut self.q[k], &mut slot);
            newq.push(slot);
            i += 1;
            proof {
                assert forall|j: int| i <= j < size implies #[trigger] self.q@[ring(
                    self.front as int,
                    j,
                    self.q@.len() as int,
                )] == Some(items[j]) by {
                    assert(ring(self.front as int, j, self.q@.len() as int) != k);
                }
            }
        }
        while i < newcap
            invariant
                items.len() == size,
                size <= i <= newcap,
                newq@.len() == i,
                forall|j: int| 0 <= j < size ==> #[trigger] newq@[j] == Some(items[j]),
            decreases newcap - i,
        {
            newq.push(None);
            i += 1;
        }
        self.q = newq;
        self.front = 0;
        assert(self@ =~= items);
    }

    /// Adds `x` at the back, growing the queue if it is full.
    pub fn push_back(&mut self, x: T)
        requires
            old(self).wf(),
            old(self)@.len() < usize::MAX / 4,
        ensures
            final(self).wf(),
            final(self)@ == old(self)@.push(x),
    {
        if self.size >= self.q.len() {
            self.resize();
        }
        let ghost items = self@;
        let back = self.index(self.size);
        self.q[back] = Some(x);
        self.size += 1;
        proof {
            assert forall|i: int| 0 <= i < self.size - 1 implies ring(
                self.front as int,
                i,
                self.q@.len() as int,
            ) != back by {}
        }
        assert(self@ =~= items.push(x));
    }

    /// Adds `x` at the front, growing the queue if it is full.
    pub fn push_front(&mut self, x: T)
        requires
            old(self).wf(),
            old(self)@.len() < usize::MAX / 4,
        ensures
            final(self).wf(),
            final(self)@ == seq![x] + old(self)@,
    {
        if self.size >= self.q.len() {
            self.resize();
        }
        let ghost items = self@;
        let ghost f0 = self.front as int;
        let newfront = self.index(self.q.len() - 1);
        self.q[newfront] = Some(x);
        self.front = newfront;
        self.size += 1;
        proof {
            let cap = self.q@.len() as int;
            assert forall|i: int| 1 <= i < self.size implies ring(newfront as int, i, cap) == ring(
                f0,
                i - 1,
                cap,
            ) by {}
        }
        assert(self@ =~= seq![x] + items);
    }

    /// Takes the item at the back, if there is one.
    pub fn pop_back(&mut self) -> (r: Option<T>)
        requires
            old(self).wf(),
        ensures
            final(self).wf(),
            old(self)@.len() == 0 ==> r is None && final(self)@ == old(self)@,
            old(self)@.len() > 0 ==> r == Some(old(self)@.last())
                && final(self)@ == old(self)@.drop_last(),
    {
        if self.size == 0 {
            return None;
        }
        let ghost items = self@;
        let mut answer = None;
        let last = self.index(self.size - 1);
        std::mem::swap(&mut answer, &mut self.q[last]);
        self.size -= 1;
        proof {
            assert forall|i: int| 0 <= i < self.size implies ring(
                self.front as int,
                i,
                self.q@.len() as int,
            ) != last by {}
        }
        assert(self@ =~= items.drop_last());
        answer
    }

    /// Takes the item at the front, if there is one.
    pub fn pop_front(&mut self) -> (r: Option<T>)
        requires
            old(self).wf(),
        ensures
            final(self).wf(),
            old(self)@.len() == 0 ==> r is None && final(self)@ == old(self)@,
            old(self)@.len() > 0 ==> r == Some(old(self)@[0])
                && final(self)@ == old(self)@.drop_first(),
    {
        if self.size == 0 {
            return None;
        }
        let ghost items = self@;
        let ghost f0 = self.front as int;
        let mut answer = None;
        let first = self.index(0);
        std::mem::swap(&mut answer, &mut self.q[first]);
        self.front = self.index(1);
        self.size -= 1;
        proof {
            let cap = self.q@.len() as int;
            assert forall|i: int| 0 <= i < self.size implies ring(self.front as int, i, cap) == ring(
                f0,
                i + 1,
                cap,
            ) && ring(f0, i + 1, cap) != first by {}
        }
        assert(self@ =~= items.drop_first());
        answer
    }

    /// Applies `f` to each item, from front to back; `f` may change the
    /// item and its own state.
    pub fn mapfun<F: FnMut(&mut T)>(&mut self, mut f: F)
        requires
            old(self).wf(),
            forall|g: F, x: &mut T| #[trigger] g.requires((x,)),
        ensures
            final(self).wf(),
            final(self)@.len() == old(self)@.len(),
    {
        let mut i: usize = 0;
        while i < self.size
            invariant
                self.wf(),
                i <= self.size,
                self.size == old(self).size,
                forall|g: F, x: &mut T| #[trigger] g.requires((x,)),
            decreases self.size - i,
        {
            let k = self.index(i);
            proof {
                assert(self.q@[k as int] is Some);
            }
            let item = self.q[k].as_mut().unwrap();
            f(item);
            i += 1;
        }
    }

    /// The item `i` places behind the front.
    fn at(&self, i: usize) -> (r: &T)
        requires
            self.wf(),
            i < self@.len(),
        ensures
            *r == self@[i as int],
    {
        let k = self.index(i);
        self.q[k].as_ref().unwrap()
    }

    /// A traversal of the items from front to back.
    pub fn iter<'lt>(&'lt self) -> (r: Cqiter<'lt, T, INITCAP>)
        ensures
            r.queue() == self,
            r.position() == 0,
    {
        Cqiter { cq: self, index: 0 }
    }
}

/// A traversal of a circular queue from front to back.
pub struct Cqiter<'lt, T, const C: usize> {
    cq: &'lt CircularQueue<T, C>,
    index: usize,
}

impl<'lt, T, const C: usize> Cqiter<'lt, T, C> {
    /// The queue being traversed.
    pub closed spec fn queue(&self) -> &'lt CircularQueue<T, C> {
        self.cq
    }

    /// How many items have been yielded so far.
    pub closed spec fn position(&self) -> nat {
        self.index as nat
    }

    /// Yields the next item, or `None` past the back of the queue.
    pub fn next(&mut self) -> (r: Option<&'lt T>)
        requires
            old(self).queue().wf(),
        ensures
            final(self).queue() == old(self).queue(),
            old(self).position() < old(self).queue()@.len() ==> r == Some(
                &old(self).queue()@[old(self).position() as int],
            ) && final(self).position() == old(self).position() + 1,
            old(self).position() >= old(self).queue()@.len() ==> r is None
                && final(self).position() == old(self).position(),
    {
        if self.index >= self.cq.len() {
            None
        } else {
            let answer = Some(self.cq.at(self.index));
            self.index += 1;
            answer
        }
    }
}

} // verus!
