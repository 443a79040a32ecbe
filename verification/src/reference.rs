//! A plain bounded buffer with the rings' eviction rule, against which their
//! behaviour can be compared: writes evict the oldest item when the buffer is
//! full, except while a read is in progress, when they are refused.
use vstd::prelude::*;

use crate::push_evict;

verus! {

/// Up to `size` items, oldest first, and whether a read is in progress.
pub struct BoundedBuffer<T> {
    size: usize,
    data: Vec<T>,
    reading: bool,
}

/// A marker for a read in progress.
pub struct ReadToken;

impl<T> View for BoundedBuffer<T> {
    type V = Seq<T>;

    /// The items that the buffer holds, oldest first.
    closed spec fn view(&self) -> Seq<T> {
        self.data@
    }
}

impl<T> BoundedBuffer<T> {
    /// How many items the buffer holds before it evicts.
    pub closed spec fn capacity(self) -> nat {
        self.size as nat
    }

    /// Whether a read is in progress.
    pub closed spec fn is_reading(self) -> bool {
        self.reading
    }

    /// The buffer has room for at least one item and holds no more than it may.
    pub closed spec fn wf(self) -> bool {
        &&& self.size > 0
        &&& self.data@.len() <= self.size
    }

    /// A consistent buffer has room for at least one item and never holds
    /// more items than its capacity.
    pub proof fn lemma_within_capacity(self)
        requires
            self.wf(),
        ensures
            self.capacity() > 0,
            self@.len() <= self.capacity(),
    {
    }

    /// Creates an empty buffer for up to `size` items, with no read in progress.
    pub fn new(size: usize) -> (r: Self)
        requires
            size > 0,
        ensures
            r.wf(),
            r@ == Seq::<T>::empty(),
            r.capacity() == size,
            !r.is_reading(),
    {
        BoundedBuffer { size, data: Vec::new(), reading: false }
    }

    /// Writes `x` at the back. A full buffer evicts its oldest item to make
    /// room, unless a read is in progress: then the write is refused and the
    /// buffer is left as it was.
    pub fn write(&mut self, x: T) -> (r: Result<(), ()>)
        requires
            old(self).wf(),
        ensures
            final(self).wf(),
            final(self).capacity() == old(self).capacity(),
            final(self).is_reading() == old(self).is_reading(),
            r is Err <==> (old(self)@.len() == old(self).capacity() && old(self).is_reading()),
            r is Ok ==> final(self)@ == push_evict(old(self)@, x, old(self).capacity()),
            r is Err ==> final(self)@ == old(self)@,
    {
        if self.data.len() < self.size {
            self.data.push(x);
            Ok(())
        } else {
            if self.reading {
                Err(())
            } else {
                self.data.remove(0);
                self.data.push(x);
                Ok(())
            }
        }
    }

    /// Starts a read; refused when one is already in progress.
    pub fn read(&mut self) -> (r: Result<(), ()>)
        requires
            old(self).wf(),
        ensures
            final(self).wf(),
            final(self)@ == old(self)@,
            final(self).capacity() == old(self).capacity(),
            final(self).is_reading(),
            r is Err <==> old(self).is_reading(),
    {
        if self.reading {
            Err(())
        } else {
            self.reading = true;
            Ok(())
        }
    }

    /// Ends a read; refused when none is in progress.
    pub fn stop_reading(&mut self) -> (r: Result<(), ()>)
        requires
            old(self).wf(),
        ensures
            final(self).wf(),
            final(self)@ == old(self)@,
            final(self).capacity() == old(self).capacity(),
            !final(self).is_reading(),
            r is Err <==> !old(self).is_reading(),
    {
        if !self.reading {
            Err(())
        } else {
            self.reading = false;
            Ok(())
        }
    }

    /// Takes the oldest item during a read: `Ok(None)` when the buffer is
    /// empty, and refused when no read is in progress.
    pub fn next(&mut self) -> (r: Result<Option<T>, ()>)
        requires
            old(self).wf(),
        ensures
            final(self).wf(),
            final(self).capacity() == old(self).capacity(),
            final(self).is_reading() == old(self).is_reading(),
            !old(self).is_reading() ==> r is Err && final(self)@ == old(self)@,
            old(self).is_reading() && old(self)@.len() == 0 ==> r == Ok::<Option<T>, ()>(None)
                && final(self)@ == old(self)@,
            old(self).is_reading() && old(self)@.len() > 0 ==> {
                &&& r == Ok::<Option<T>, ()>(Some(old(self)@[0]))
                &&& final(self)@ == old(self)@.drop_first()
            },
    {
        if !self.reading {
            Err(())
        } else {
            if self.data.len() == 0 {
                Ok(None)
            } else {
                let first = self.data.remove(0);
                Ok(Some(first))
            }
        }
    }
}

} // verus!
