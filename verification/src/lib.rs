//! A single-producer, single-consumer ring buffer that evicts its oldest item
//! when it is full, and hands out what it holds through a draining iterator.
//!
//! The root module holds a ring that stores its tail as a signed code
//! (`Tail`), whose sign can carry a reader's lock flag. The ring itself only
//! ever stores unlocked tails: its draining iterator keeps the flag in its own
//! `Tail`, since the exclusive borrow it holds already locks the ring.
//! [`threadsafe`] holds the power-of-two ring with wrapping counters, and
//! [`reference`] a plain bounded buffer with the same eviction rule.
use vstd::prelude::*;

mod modular;
pub mod reference;
pub mod threadsafe;

use crate::modular::lemma_mod_distinct;

verus! {

/// The queue that results from pushing `x` onto `items` in a ring of
/// capacity `cap`: the item joins at the back, and when that makes the
/// queue longer than `cap`, the oldest item is evicted.
pub open spec fn push_evict<T>(items: Seq<T>, x: T, cap: nat) -> Seq<T> {
    let grown = items.push(x);
    if grown.len() > cap {
        grown.drop_first()
    } else {
        grown
    }
}

/// The newest `cap` items of `items`, oldest first.
pub open spec fn newest_items<T>(items: Seq<T>, cap: nat) -> Seq<T> {
    if items.len() > cap {
        items.skip(items.len() - cap)
    } else {
        items
    }
}

/// The queue that results from pushing each item of `xs` in turn.
pub open spec fn push_all<T>(items: Seq<T>, xs: Seq<T>, cap: nat) -> Seq<T>
    decreases xs.len(),
{
    if xs.len() == 0 {
        items
    } else {
        push_all(push_evict(items, xs[0], cap), xs.drop_first(), cap)
    }
}

/// Eviction keeps the newest items: pushing a run of items into a queue that
/// is within its capacity leaves exactly the newest `cap` items of the queue
/// followed by the run, oldest first.
pub proof fn lemma_push_all_keeps_newest<T>(items: Seq<T>, xs: Seq<T>, cap: nat)
    requires
        items.len() <= cap,
    ensures
        push_all(items, xs, cap) == newest_items(items + xs, cap),
        push_all(items, xs, cap).len() <= cap,
    decreases xs.len(),
{
    if xs.len() == 0 {
        assert(items + xs =~= items);
    } else {
        let x = xs[0];
        let rest = xs.drop_first();
        let next = push_evict(items, x, cap);
        lemma_push_all_keeps_newest(next, rest, cap);
        let all = items + xs;
        assert(items.push(x) + rest =~= all);
        let lhs = newest_items(next + rest, cap);
        let rhs = newest_items(all, cap);
        if items.len() + 1 > cap {
            assert(next =~= items.push(x).skip(1));
            assert(lhs =~= rhs);
        } else {
            assert(next + rest =~= all);
        }
    }
}

/// The position of the oldest item of a ring, together with a flag that is
/// set while a reader drains the ring.
#[derive(Copy, Clone, Debug, PartialEq, Eq, Structural)]
pub struct Tail {
    pub locked: bool,
    pub value: usize,
}

/// The signed code that stands for a tail: its value when unlocked, and
/// `-value - 1` when locked, so that the sign carries the flag.
pub open spec fn tail_code(t: Tail) -> int {
    if t.locked {
        -(t.value as int) - 1
    } else {
        t.value as int
    }
}

/// The tail that a signed code stands for.
pub open spec fn tail_of_code(v: isize) -> Tail {
    if v >= 0 {
        Tail { locked: false, value: v as usize }
    } else {
        Tail { locked: true, value: (-(v + 1)) as usize }
    }
}

/// The signed code of a tail, as the conversion computes it on a machine word.
pub open spec fn code_of_tail(t: Tail) -> isize {
    if t.locked {
        (-1 - (t.value as isize)) as isize
    } else {
        t.value as isize
    }
}

/// Decodes a signed code. A negative code `v` gives a locked tail with value
/// `-v - 1`, so `isize::MIN` decodes to a locked tail of value `isize::MAX`,
/// and encoding that tail gives `isize::MIN` back.
impl From<isize> for Tail {
    fn from(v: isize) -> (t: Tail) {
        if v >= 0 {
            Tail { locked: false, value: v as usize }
        } else {
            Tail { locked: true, value: (-(v + 1)) as usize }
        }
    }
}

impl vstd::std_specs::convert::FromSpecImpl<isize> for Tail {
    open spec fn obeys_from_spec() -> bool {
        true
    }

    open spec fn from_spec(v: isize) -> Tail {
        tail_of_code(v)
    }
}

impl From<Tail> for isize {
    fn from(t: Tail) -> (v: isize) {
        let value = t.value as isize;
        if t.locked {
            -1 - value
        } else {
            value
        }
    }
}

impl vstd::std_specs::convert::FromSpecImpl<Tail> for isize {
    open spec fn obeys_from_spec() -> bool {
        true
    }

    open spec fn from_spec(t: Tail) -> isize {
        code_of_tail(t)
    }
}

impl core::ops::Add<usize> for Tail {
    type Output = Tail;

    fn add(self, rhs: usize) -> (r: Tail) {
        Tail { locked: self.locked, value: self.value + rhs }
    }
}

impl vstd::std_specs::ops::AddSpecImpl<usize> for Tail {
    open spec fn obeys_add_spec() -> bool {
        true
    }

    open spec fn add_req(self, rhs: usize) -> bool {
        self.value + rhs <= usize::MAX
    }

    open spec fn add_spec(self, rhs: usize) -> Tail {
        Tail { locked: self.locked, value: (self.value + rhs) as usize }
    }
}

/// Encoding a tail whose value fits in an `isize` and decoding the code gives
/// the tail back, and the code is the one that `tail_code` describes.
pub proof fn lemma_tail_encode_decode(t: Tail)
    requires
        t.value <= isize::MAX,
    ensures
        code_of_tail(t) == tail_code(t),
        tail_of_code(code_of_tail(t)) == t,
{
}

/// Decoding any signed code and encoding the tail again gives the code back.
pub proof fn lemma_tail_decode_encode(v: isize)
    ensures
        tail_of_code(v).value <= isize::MAX,
        code_of_tail(tail_of_code(v)) == v,
        tail_code(tail_of_code(v)) == v,
{
}


/// The ring: `size + 1` slots, a count of the items ever pushed (`head`), and
/// the signed code of the tail. The items from the tail up to the head,
/// oldest first, are what the ring holds.
pub struct RingBuffer<T> {
    size: usize,
    head: usize,
    tail: isize,
    data: Vec<Option<T>>,
}

impl<T> View for RingBuffer<T> {
    type V = Seq<T>;

    /// The items that the ring holds, oldest first.
    closed spec fn view(&self) -> Seq<T> {
        Seq::new(
            (self.head - self.tail) as nat,
            |i: int| self.slot(self.tail + i).unwrap(),
        )
    }
}

impl<T> RingBuffer<T> {
    /// The content of the slot that position `pos` maps to.
    pub closed spec fn slot(self, pos: int) -> Option<T> {
        self.data@[pos % (self.data@.len() as int)]
    }

    /// How many items the ring holds before it evicts.
    pub closed spec fn capacity(self) -> nat {
        self.size as nat
    }

    /// How many items have ever been pushed.
    pub closed spec fn pushed(self) -> nat {
        self.head as nat
    }

    /// The most recently pushed item, as long as a reader has not taken it.
    pub closed spec fn newest(self) -> Option<T> {
        if self.head == 0 {
            None
        } else {
            self.slot(self.head - 1)
        }
    }

    /// The ring is consistent: the tail is unlocked and at most `size` behind
    /// the head, every held item sits in its slot, and once everything has
    /// been taken in a ring of positive capacity the newest slot is empty too.
    pub closed spec fn wf(self) -> bool {
        &&& self.data@.len() == self.size + 1
        &&& 0 <= self.tail <= self.head
        &&& self.head - self.tail <= self.size
        &&& self.head <= isize::MAX
        &&& forall|p: int| self.tail <= p < self.head ==> (#[trigger] self.slot(p)) is Some
        &&& (self.size > 0 && self.head > 0 && self.head == self.tail) ==> self.slot(
            self.head - 1,
        ) is None
    }

    /// A consistent ring never holds more items than its capacity.
    pub proof fn lemma_within_capacity(self)
        requires
            self.wf(),
        ensures
            self@.len() <= self.capacity(),
    {
    }

    /// Creates an empty ring that holds up to `size` items.
    pub fn new(size: usize) -> (r: Self)
        requires
            size < usize::MAX,
        ensures
            r.wf(),
            r@ == Seq::<T>::empty(),
            r.capacity() == size,
            r.pushed() == 0,
            r.newest() is None,
    {
        let mut data: Vec<Option<T>> = Vec::new();
        while data.len() < size + 1
            invariant
                data@.len() <= size + 1,
                size < usize::MAX,
            decreases size + 1 - data@.len(),
        {
            data.push(None);
        }
        let r = RingBuffer { size, head: 0, tail: 0, data };
        assert(r@ =~= Seq::<T>::empty());
        r
    }

    /// How many items have ever been pushed.
    pub fn pushed_count(&self) -> (n: usize)
        ensures
            n == self.pushed(),
    {
        self.head
    }

    /// Pushes `x` at the back; when the ring is full, the oldest item is evicted.
    pub fn push(&mut self, x: T)
        requires
            old(self).wf(),
            old(self).pushed() < isize::MAX,
        ensures
            final(self).wf(),
            final(self)@ == push_evict(old(self)@, x, old(self).capacity()),
            final(self).capacity() == old(self).capacity(),
            final(self).pushed() == old(self).pushed() + 1,
            final(self).newest() == Some(x),
    {
        let ghost old_ring = *self;
        let head = self.head;
        let len = self.data.len();
        // The slot of the head lies outside the held items, so it is free.
        self.data.set(head % len, Some(x));
        self.head = head + 1;
        let tail = Tail::from(self.tail);
        // Without a reader in progress the tail is unlocked, and one step
        // restores the bound of `size` items.
        if head - tail.value >= self.size {
            self.tail = (tail + 1).into();
        }
        proof {
            let l = len as int;
            assert forall|p: int| old_ring.tail <= p < head implies #[trigger] self.slot(p)
                == old_ring.slot(p) by {
                lemma_mod_distinct(p, head as int, l);
            }
            assert forall|p: int| self.tail <= p < self.head implies (#[trigger] self.slot(
                p,
            )) is Some by {
                if p < head {
                    assert(old_ring.slot(p) is Some);
                }
            }
            assert(self@ =~= push_evict(old_ring@, x, old_ring.capacity()));
        }
    }

    /// The item at position `index` counted from the oldest, if there is one.
    pub fn get(&self, index: usize) -> (r: Option<&T>)
        requires
            self.wf(),
        ensures
            index < self@.len() ==> r == Some(&self@[index as int]),
            index >= self@.len() ==> r is None,
    {
        let tail = self.tail;
        if self.head - tail as usize <= index {
            return None;
        }
        let pos = tail as usize + index;
        let pos = pos % self.data.len();
        self.data[pos].as_ref()
    }

    /// The item that was pushed most recently, unless a reader has taken it.
    pub fn back(&self) -> (r: Option<&T>)
        requires
            self.wf(),
        ensures
            r is Some <==> self.newest() is Some,
            r is Some ==> *r.unwrap() == self.newest().unwrap(),
            self.pushed() == 0 ==> r is None,
            self.capacity() > 0 && self@.len() > 0 ==> r == Some(&self@.last()),
            self.capacity() > 0 && self@.len() == 0 ==> r is None,
    {
        let head = self.head;
        if head == 0 {
            return None;
        }
        let head = head - 1;
        let head = head % self.data.len();
        self.data[head].as_ref()
    }

    /// The item that was pushed the longest ago, if the ring holds any.
    pub fn front(&self) -> (r: Option<&T>)
        requires
            self.wf(),
        ensures
            self@.len() > 0 ==> r == Some(&self@[0]),
            self@.len() == 0 ==> r is None,
    {
        let tail = self.tail;
        if self.head - tail as usize == 0 {
            return None;
        }
        let pos = tail as usize % self.data.len();
        self.data[pos].as_ref()
    }
}

impl<T> RingBuffer<T> {
    /// Starts draining the ring: the iterator yields the held items oldest
    /// first, and each item it yields leaves the ring. While the iterator
    /// lives it holds the ring exclusively, which is what the lock flag of the
    /// tail stands for. Once the iterator is done with,
    /// `RingIter::lemma_release` gives the ring back as the iterator left it.
    pub fn pop(&mut self) -> (it: RingIter<'_, T>)
        requires
            old(self).wf(),
        ensures
            it.wf(),
            *it.ring() == *old(self),
            *final(self) == *final(it.ring()),
    {
        let head = self.head;
        let tail = Tail::from(self.tail);
        if tail.value == head {
            return RingIter {
                fixed_head: 0,
                current_tail: Tail { locked: false, value: 0 },
                inner: self,
            };
        }
        let mut tail = tail;
        tail.locked = true;
        // No writer runs while the ring is held, so the head is still at most
        // `size` ahead of the tail and no item needs to be skipped.
        RingIter { fixed_head: head, current_tail: tail, inner: self }
    }
}

/// Drains a ring, oldest item first. Each item it yields is removed from the
/// ring at once, so dropping it early leaves the rest in the ring.
pub struct RingIter<'a, T> {
    fixed_head: usize,
    current_tail: Tail,
    inner: &'a mut RingBuffer<T>,
}

impl<'a, T> RingIter<'a, T> {
    /// The ring that the iterator holds.
    pub closed spec fn ring(self) -> &'a mut RingBuffer<T> {
        self.inner
    }

    /// Once the iterator is done with, the ring it held is left as the
    /// iterator last saw it.
    pub broadcast proof fn lemma_release(self)
        requires
            has_resolved(self),
        ensures
            *(#[trigger] self.ring()) == *final(self.ring()),
    {
    }

    /// The iterator and its ring agree: while items remain, the iterator's
    /// tail is the ring's tail and its end is the ring's head.
    pub closed spec fn wf(self) -> bool {
        &&& self.inner.wf()
        &&& self.current_tail.locked <==> self.inner.head != self.inner.tail
        &&& self.current_tail.locked ==> {
            &&& self.current_tail.value == self.inner.tail
            &&& self.fixed_head == self.inner.head
        }
    }

    /// Takes the oldest item out of the ring, or returns `None` once the ring
    /// is empty.
    pub fn next(&mut self) -> (r: Option<T>)
        requires
            old(self).wf(),
        ensures
            final(self).wf(),
            final(self).ring().wf(),
            *final(final(self).ring()) == *final(old(self).ring()),
            final(self).ring().capacity() == old(self).ring().capacity(),
            final(self).ring().pushed() == old(self).ring().pushed(),
            old(self).ring()@.len() == 0 ==> r is None && *final(self).ring() == *old(self).ring(),
            old(self).ring()@.len() > 0 ==> {
                &&& r == Some(old(self).ring()@[0])
                &&& final(self).ring()@ == old(self).ring()@.drop_first()
                &&& final(self).ring().newest() == if final(self).ring()@.len() == 0 {
                    None
                } else {
                    old(self).ring().newest()
                }
            },
    {
        if !self.current_tail.locked {
            return None;
        }
        let ghost old_ring = *self.inner;
        let len = self.inner.data.len();
        let pos = self.current_tail.value % len;
        let res = self.inner.data[pos].take();
        self.current_tail = self.current_tail + 1;
        if self.current_tail.value == self.fixed_head {
            self.current_tail.locked = false;
        }
        // The ring is held exclusively, so the tail it stores stays unlocked.
        self.inner.tail = Tail { locked: false, value: self.current_tail.value }.into();
        proof {
            let ring = *self.inner;
            let l = len as int;
            let t = old_ring.tail as int;
            assert forall|p: int| t < p < ring.head implies #[trigger] ring.slot(p)
                == old_ring.slot(p) by {
                lemma_mod_distinct(t, p, l);
            }
            assert forall|p: int| ring.tail <= p < ring.head implies (#[trigger] ring.slot(
                p,
            )) is Some by {
                assert(old_ring.slot(p) is Some);
            }
            if ring.head > 0 && ring.head - 1 > t {
                assert(ring.slot(ring.head - 1) == old_ring.slot(ring.head - 1));
            }
            assert(ring@ =~= old_ring@.drop_first());
        }
        res
    }
}

} // verus!
