//! The ring with a power-of-two number of slots: head and tail are plain
//! counters that wrap around the machine word, and a slot is found by masking
//! a counter with `len - 1`.
use vstd::arithmetic::power2::{lemma_pow2_pos, lemma_pow2_strictly_increases, lemma_pow2_unfold, pow2};
use vstd::bits::low_bits_mask;
use vstd::layout::unsigned_int_max_values;
use vstd::prelude::*;

use crate::modular::{lemma_mask_is_slot, lemma_mod_distinct, lemma_wrap_keeps_slot, word};
use crate::push_evict;

verus! {

/// The smallest power of two that is at least `n`, with its exponent.
fn next_power_of_two(n: usize) -> (r: (usize, Ghost<nat>))
    requires
        n <= usize::MAX / 2 + 1,
    ensures
        r.1@ < usize::BITS,
        r.0 == pow2(r.1@),
        r.0 >= n,
        r.1@ == 0 || pow2((r.1@ - 1) as nat) < n,
{
    proof {
        unsigned_int_max_values();
        lemma_pow2_unfold(usize::BITS as nat);
        vstd::arithmetic::power2::lemma2_to64();
    }
    let mut p: usize = 1;
    let ghost mut k: nat = 0;
    while p < n
        invariant
            k < usize::BITS,
            p == pow2(k),
            k == 0 || pow2((k - 1) as nat) < n,
            n <= usize::MAX / 2 + 1,
            usize::MAX as nat == pow2(usize::BITS as nat) - 1,
            pow2(usize::BITS as nat) == 2 * pow2((usize::BITS - 1) as nat),
        decreases usize::BITS - k,
    {
        proof {
            if k + 1 >= usize::BITS {
                lemma_pow2_strictly_increases(k, (usize::BITS - 1) as nat);
                assert(false);
            }
            lemma_pow2_unfold(k + 1);
            if k + 1 < usize::BITS - 1 {
                lemma_pow2_strictly_increases(k + 1, (usize::BITS - 1) as nat);
            }
        }
        p = p * 2;
        proof {
            k = k + 1;
        }
    }
    (p, Ghost(k))
}

/// A ring of `size` items over a power-of-two number of slots. The items from
/// the tail counter up to the head counter, oldest first, are what it holds;
/// both counters wrap around the machine word.
pub struct LockFreeRingBuffer<T> {
    head: usize,
    tail: usize,
    size: usize,
    mask: usize,
    data: Vec<Option<T>>,
    log_len: Ghost<nat>,
}

impl<T> View for LockFreeRingBuffer<T> {
    type V = Seq<T>;

    /// The items that the ring holds, oldest first.
    closed spec fn view(&self) -> Seq<T> {
        Seq::new(self.count(), |i: int| self.slot(self.tail + i).unwrap())
    }
}

impl<T> LockFreeRingBuffer<T> {
    /// How far the head counter is ahead of the tail counter, around the word.
    pub closed spec fn count(self) -> nat {
        if self.head >= self.tail {
            (self.head - self.tail) as nat
        } else {
            (self.head - self.tail + word()) as nat
        }
    }

    /// The content of the slot that position `pos` maps to.
    pub closed spec fn slot(self, pos: int) -> Option<T> {
        self.data@[pos % (self.data@.len() as int)]
    }

    /// How many items the ring holds before it evicts.
    pub closed spec fn capacity(self) -> nat {
        self.size as nat
    }

    /// How many slots the ring has.
    pub closed spec fn slot_count(self) -> nat {
        self.data@.len()
    }

    /// The ring is consistent: `2^k` slots with the matching mask, more slots
    /// than items, at most `size` items held, and each held item in its slot.
    pub closed spec fn wf(self) -> bool {
        &&& self.log_len@ < usize::BITS
        &&& self.data@.len() == pow2(self.log_len@)
        &&& self.mask == low_bits_mask(self.log_len@)
        &&& self.size < self.data@.len()
        &&& self.count() <= self.size
        &&& forall|i: int| 0 <= i < self.count() ==> (#[trigger] self.slot(self.tail + i)) is Some
    }

    /// A consistent ring never holds more items than its capacity.
    pub proof fn lemma_within_capacity(self)
        requires
            self.wf(),
        ensures
            self@.len() <= self.capacity(),
    {
    }

    /// Creates an empty ring that holds up to `size` items, over the smallest
    /// power of two of slots that exceeds `size`.
    pub fn new(size: usize) -> (r: Self)
        requires
            size <= usize::MAX / 2,
        ensures
            r.wf(),
            r@ == Seq::<T>::empty(),
            r.capacity() == size,
            r.slot_count() > size,
            exists|k: nat|
                #![trigger pow2(k)]
                r.slot_count() == pow2(k) && (k == 0 || pow2((k - 1) as nat) < size + 1),
    {
        let (buffer_len, Ghost(k)) = next_power_of_two(size + 1);
        let mask = buffer_len - 1;
        let mut data: Vec<Option<T>> = Vec::new();
        while data.len() < buffer_len
            invariant
                data@.len() <= buffer_len,
            decreases buffer_len - data@.len(),
        {
            data.push(None);
        }
        let r = LockFreeRingBuffer { head: 0, tail: 0, size, mask, data, log_len: Ghost(k) };
        assert(r@ =~= Seq::<T>::empty());
        assert(r.slot_count() == pow2(k) && (k == 0 || pow2((k - 1) as nat) < size + 1));
        r
    }

    /// Pushes `x` at the back; when the ring is full, the oldest item is evicted.
    pub fn push(&mut self, x: T)
        requires
            old(self).wf(),
        ensures
            final(self).wf(),
            final(self)@ == push_evict(old(self)@, x, old(self).capacity()),
            final(self).capacity() == old(self).capacity(),
            final(self).slot_count() == old(self).slot_count(),
    {
        let ghost old_ring = *self;
        let head = self.head;
        let tail = self.tail;
        let len = head.wrapping_sub(tail);
        let ghost evicted: int = 0;
        // Without a reader in progress there is nothing to wait for; when the
        // ring is full, the oldest item is evicted to make room.
        if len >= self.size {
            self.tail = tail.wrapping_add(1);
            proof {
                evicted = 1;
            }
        }
        let head = self.head;
        let slot = head & self.mask;
        proof {
            lemma_mask_is_slot(head, self.log_len@);
        }
        self.data.set(slot, Some(x));
        self.head = head.wrapping_add(1);
        proof {
            let k = self.log_len@;
            let l = pow2(k) as int;
            let t = old_ring.tail as int;
            let c = old_ring.count() as int;
            lemma_pow2_pos(k);
            lemma_wrap_keeps_slot(k, t + c);
            assert((head as int) % l == (t + c) % l);
            lemma_wrap_keeps_slot(k, self.tail as int + (c - evicted));
            assert(self.count() == c + 1 - evicted);
            assert forall|i: int| 0 <= i < self.count() implies #[trigger] self.slot(self.tail + i)
                == if evicted + i == c {
                Some(x)
            } else {
                old_ring.slot(old_ring.tail + (evicted + i))
            } by {
                let j = evicted + i;
                lemma_wrap_keeps_slot(k, t + j);
                assert((self.tail + i) % l == (t + j) % l);
                if j < c {
                    lemma_mod_distinct(t + j, t + c, l);
                }
            }
            assert forall|i: int| 0 <= i < self.count() implies (#[trigger] self.slot(
                self.tail + i,
            )) is Some by {
                let j = evicted + i;
                if j < c {
                    assert(old_ring.slot(old_ring.tail + j) is Some);
                }
            }
            assert(self@ =~= push_evict(old_ring@, x, old_ring.capacity()));
        }
    }

    /// How many items the ring holds.
    pub fn len(&self) -> (n: usize)
        requires
            self.wf(),
        ensures
            n == self@.len(),
    {
        self.head.wrapping_sub(self.tail)
    }

    /// Whether the ring holds no item.
    pub fn is_empty(&self) -> (b: bool)
        requires
            self.wf(),
        ensures
            b == (self@.len() == 0),
    {
        self.head == self.tail
    }

    /// A clone of the item at position `index` counted from the oldest, if
    /// there is one.
    pub fn get_cloned(&self, index: usize) -> (r: Option<T>) where T: Clone
        requires
            self.wf(),
        ensures
            index < self@.len() ==> r is Some && cloned(self@[index as int], r.unwrap()),
            index >= self@.len() ==> r is None,
    {
        let tail = self.tail;
        let head = self.head;
        if head.wrapping_sub(tail) > index {
            let pos = tail.wrapping_add(index);
            let slot = pos & self.mask;
            proof {
                let k = self.log_len@;
                lemma_mask_is_slot(pos, k);
                lemma_wrap_keeps_slot(k, tail + index);
                assert(self.slot(self.tail + index) is Some);
            }
            match &self.data[slot] {
                Some(v) => Some(v.clone()),
                None => None,
            }
        } else {
            None
        }
    }

    /// A clone of the most recently pushed item, if the ring holds any.
    pub fn back_cloned(&self) -> (r: Option<T>) where T: Clone
        requires
            self.wf(),
        ensures
            self@.len() > 0 ==> r is Some && cloned(self@.last(), r.unwrap()),
            self@.len() == 0 ==> r is None,
    {
        let head = self.head;
        let tail = self.tail;
        if head != tail {
            let pos = head.wrapping_sub(1);
            let slot = pos & self.mask;
            proof {
                let k = self.log_len@;
                let c = self.count() as int;
                lemma_mask_is_slot(pos, k);
                lemma_wrap_keeps_slot(k, tail + c - 1);
                assert(self.slot(self.tail + (c - 1)) is Some);
            }
            match &self.data[slot] {
                Some(v) => Some(v.clone()),
                None => None,
            }
        } else {
            None
        }
    }

    /// A clone of the oldest item, if the ring holds any.
    pub fn front_cloned(&self) -> (r: Option<T>) where T: Clone
        requires
            self.wf(),
        ensures
            self@.len() > 0 ==> r is Some && cloned(self@[0], r.unwrap()),
            self@.len() == 0 ==> r is None,
    {
        let tail = self.tail;
        let head = self.head;
        if head != tail {
            let slot = tail & self.mask;
            proof {
                lemma_mask_is_slot(tail, self.log_len@);
                assert(self.slot(self.tail + 0) is Some);
            }
            match &self.data[slot] {
                Some(v) => Some(v.clone()),
                None => None,
            }
        } else {
            None
        }
    }

    /// Starts draining the ring: the iterator yields the held items oldest
    /// first, and each item it yields leaves the ring. While the iterator
    /// lives it holds the ring exclusively, which is what the consumer lock
    /// stands for. Once the iterator is done with, `RingIter::lemma_release`
    /// gives the ring back as the iterator left it.
    pub fn pop(&mut self) -> (it: RingIter<'_, T>)
        requires
            old(self).wf(),
        ensures
            it.wf(),
            *it.ring() == *old(self),
            *final(self) == *final(it.ring()),
    {
        let head = self.head;
        let tail = self.tail;
        let mask = self.mask;
        if head == tail {
            return RingIter { fixed_head: 0, current_tail: 0, locked: false, inner: self, mask };
        }
        // No writer runs while the ring is held, so it holds at most `size`
        // items and none needs to be skipped.
        RingIter { fixed_head: head, current_tail: tail, locked: true, inner: self, mask }
    }
}

/// Drains a ring, oldest item first. Each item it yields is removed from the
/// ring at once, so dropping it early leaves the rest in the ring.
pub struct RingIter<'a, T> {
    fixed_head: usize,
    current_tail: usize,
    locked: bool,
    inner: &'a mut LockFreeRingBuffer<T>,
    mask: usize,
}

impl<'a, T> RingIter<'a, T> {
    /// The ring that the iterator holds.
    pub closed spec fn ring(self) -> &'a mut LockFreeRingBuffer<T> {
        self.inner
    }

    /// Once the iterator is done with, the ring it held is left as the
    /// iterator last saw it.
    pub broadcast proof fn lemma_release(self)
        requires
            has_resolved(self),
        ensures
            *(#[trigger] self.ring()) == *final(self.ring()),
    {
    }

    /// The iterator and its ring agree: when it holds the ring, its tail and
    /// end are the ring's counters; otherwise the ring is empty.
    pub closed spec fn wf(self) -> bool {
        &&& self.inner.wf()
        &&& self.locked ==> {
            &&& self.current_tail == self.inner.tail
            &&& self.fixed_head == self.inner.head
            &&& self.mask == self.inner.mask
        }
        &&& !self.locked ==> self.inner.count() == 0
    }

    /// Takes the oldest item out of the ring, or returns `None` once the ring
    /// is empty.
    pub fn next(&mut self) -> (r: Option<T>)
        requires
            old(self).wf(),
        ensures
            final(self).wf(),
            final(self).ring().wf(),
            *final(final(self).ring()) == *final(old(self).ring()),
            final(self).ring().capacity() == old(self).ring().capacity(),
            final(self).ring().slot_count() == old(self).ring().slot_count(),
            old(self).ring()@.len() == 0 ==> r is None && *final(self).ring() == *old(self).ring(),
            old(self).ring()@.len() > 0 ==> {
                &&& r == Some(old(self).ring()@[0])
                &&& final(self).ring()@ == old(self).ring()@.drop_first()
            },
    {
        if !self.locked || self.current_tail == self.fixed_head {
            return None;
        }
        let ghost old_ring = *self.inner;
        let slot = self.current_tail & self.mask;
        proof {
            lemma_mask_is_slot(self.current_tail, old_ring.log_len@);
            assert(old_ring.slot(old_ring.tail + 0) is Some);
        }
        let item = self.inner.data[slot].take();
        self.current_tail = self.current_tail.wrapping_add(1);
        // The ring is held exclusively, so its tail follows each item taken.
        self.inner.tail = self.current_tail;
        proof {
            let ring = *self.inner;
            let k = ring.log_len@;
            let l = pow2(k) as int;
            let t = old_ring.tail as int;
            let c = old_ring.count() as int;
            lemma_pow2_pos(k);
            assert(ring.count() == c - 1);
            assert forall|i: int| 0 <= i < ring.count() implies #[trigger] ring.slot(ring.tail + i)
                == old_ring.slot(old_ring.tail + (1 + i)) by {
                lemma_wrap_keeps_slot(k, t + 1 + i);
                assert((ring.tail + i) % l == (t + 1 + i) % l);
                lemma_mod_distinct(t, t + 1 + i, l);
            }
            assert forall|i: int| 0 <= i < ring.count() implies (#[trigger] ring.slot(
                ring.tail + i,
            )) is Some by {
                assert(old_ring.slot(old_ring.tail + (1 + i)) is Some);
            }
            assert(ring@ =~= old_ring@.drop_first());
        }
        item
    }
}

} // verus!
