use vstd::prelude::*;

use crate::mem::queue::QueueUsize;
use crate::mem::queue::QUEUE_MAX_CAPACITY;
use crate::mem::queue::QUEUE_NULL;

verus! {

/// A bounded MPMC ring queue that owns its buffer, sized at construction:
/// the standalone counterpart of the free-list queues in the memory
/// subsystem, with the same circular-buffer shape and the same sentinel
/// discipline.
pub struct Queue {
    ring_buffer: QueueUsize,
}

impl Queue {
    /// The queued values, oldest first.
    pub closed spec fn view(&self) -> Seq<usize> {
        self.ring_buffer@
    }

    /// Total fixed capacity.
    pub closed spec fn spec_capacity(&self) -> nat {
        self.ring_buffer.spec_capacity()
    }

    /// The underlying ring is well-formed.
    pub closed spec fn wf(&self) -> bool {
        self.ring_buffer.wf()
    }

    /// Create an empty queue owning a buffer of `capacity` slots; the
    /// capacity must be a non-zero power of two.
    pub fn new(capacity: usize) -> (r: Queue)
        requires
            0 < capacity <= QUEUE_MAX_CAPACITY,
            (capacity & (capacity - 1) as usize) == 0,
        ensures
            r.wf(),
            r@ == Seq::<usize>::empty(),
            r.spec_capacity() == capacity,
    {
        Queue { ring_buffer: QueueUsize::new(capacity) }
    }

    /// Append a non-sentinel value at the tail cursor. Returns `false`,
    /// changing nothing, exactly when the queue is full.
    pub fn enqueue(&mut self, value: usize) -> (r: bool)
        requires
            old(self).wf(),
            value != QUEUE_NULL,
        ensures
            final(self).wf(),
            final(self).spec_capacity() == old(self).spec_capacity(),
            r <==> old(self)@.len() < old(self).spec_capacity(),
            r ==> final(self)@ == old(self)@.push(value),
            !r ==> final(self)@ == old(self)@,
    {
        self.ring_buffer.enqueue(value)
    }

    /// Remove and return the value at the head cursor, or `None`, changing
    /// nothing, exactly when the queue is empty.
    pub fn dequeue(&mut self) -> (r: Option<usize>)
        requires
            old(self).wf(),
        ensures
            final(self).wf(),
            final(self).spec_capacity() == old(self).spec_capacity(),
            r is Some <==> old(self)@.len() > 0,
            r matches Some(v) ==> v == old(self)@[0] && v != QUEUE_NULL
                && final(self)@ == old(self)@.drop_first(),
            r is None ==> final(self)@ == old(self)@,
    {
        self.ring_buffer.dequeue()
    }
}

} // verus!
