use vstd::prelude::*;

use crate::sync::IndexSpinlock;

verus! {

/// The empty-slot sentinel of [`QueueUsize`]: no queued value may equal it.
pub const QUEUE_NULL: usize = 0;

/// The empty-slot sentinel of [`QueueU32`]: no queued value may equal it.
pub const QUEUE_U32_NULL: u32 = 0xFFFF_FFFF;

/// Largest capacity either queue accepts: the head and tail cursors must fit
/// the 31-bit payload of their spinlocks.
pub const QUEUE_MAX_CAPACITY: usize = 0x4000_0000;

/// A bounded multi-producer multi-consumer queue over a fixed circular
/// buffer of `usize` slots, with independently locked head and tail cursors
/// so that producers and consumers contend only on their own end.
///
/// A slot holding [`QUEUE_NULL`] is empty; enqueue refuses to overwrite an
/// occupied slot (queue full) and dequeue refuses an empty one (queue
/// empty), so no value is ever silently dropped or duplicated.
pub struct QueueUsize {
    buffer: Vec<usize>,
    capacity: u32,
    head: IndexSpinlock,
    tail: IndexSpinlock,
    count: Ghost<nat>,
}

impl QueueUsize {
    /// Reduce a position in `0 .. 2 * capacity` back into the ring.
    spec fn wrap(&self, x: int) -> int {
        if x < self.capacity { x } else { x - self.capacity }
    }

    /// The buffer index holding the `j`-th oldest queued value.
    spec fn slot_of(&self, j: int) -> int {
        self.wrap(self.head.value() + j)
    }

    /// How far position `i` lies ahead of the head cursor along the ring.
    spec fn dist_from_head(&self, i: int) -> int {
        if i >= self.head.value() {
            i - self.head.value()
        } else {
            i - self.head.value() + self.capacity
        }
    }

    /// The queued values, oldest first.
    pub closed spec fn view(&self) -> Seq<usize> {
        Seq::new(self.count@, |j: int| self.buffer@[self.slot_of(j)])
    }

    /// Total fixed capacity.
    pub closed spec fn spec_capacity(&self) -> nat {
        self.capacity as nat
    }

    /// The circular-buffer shape: the cursors are in range, both locks are
    /// free, exactly the `count` slots from the head cursor onward are
    /// occupied, and the tail cursor sits one past the newest value.
    pub closed spec fn wf(&self) -> bool {
        &&& self.buffer@.len() == self.capacity
        &&& 0 < self.capacity <= QUEUE_MAX_CAPACITY
        &&& !self.head.is_locked() && self.head.inv() && self.head.value() < self.capacity
        &&& !self.tail.is_locked() && self.tail.inv() && self.tail.value() < self.capacity
        &&& self.count@ <= self.capacity
        &&& self.tail.value() == self.wrap(self.head.value() + self.count@)
        &&& forall|i: int| 0 <= i < self.capacity ==>
                (self.buffer@[i] != QUEUE_NULL <==> #[trigger] self.dist_from_head(i) < self.count@)
    }

    /// Create an empty queue. Capacity must be a non-zero power of two no
    /// larger than [`QUEUE_MAX_CAPACITY`].
    pub fn new(capacity: usize) -> (r: QueueUsize)
        requires
            0 < capacity <= QUEUE_MAX_CAPACITY,
            (capacity & (capacity - 1) as usize) == 0,
        ensures
            r.wf(),
            r@ == Seq::<usize>::empty(),
            r.spec_capacity() == capacity,
    {
        let r = QueueUsize {
            buffer: vec![QUEUE_NULL; capacity],
            capacity: capacity as u32,
            head: IndexSpinlock::new(0),
            tail: IndexSpinlock::new(0),
            count: Ghost(0nat),
        };
        proof {
            assert(0u32 & 0x7FFF_FFFFu32 == 0) by (bit_vector);
            assert(r@ =~= Seq::<usize>::empty());
        }
        r
    }

    /// Append `value` at the tail cursor. Returns `false`, changing
    /// nothing, exactly when the queue is full.
    pub fn enqueue(&mut self, value: usize) -> (r: bool)
        requires
            old(self).wf(),
            value != QUEUE_NULL,
        ensures
            final(self).wf(),
            final(self).spec_capacity() == old(self).spec_capacity(),
            r <==> old(self)@.len() < old(self).spec_capacity(),
            r ==> final(self)@ == old(self)@.push(value),
            !r ==> final(self)@ == old(self)@,
    {
        let mut tail = self.tail.lock();
        let tail_value = tail.read();

        let stored_value = self.buffer[tail_value as usize];
        proof {
            // the tail slot is occupied exactly when the ring is full
            assert(old(self).dist_from_head(tail_value as int)
                == if self.count@ == self.capacity { 0int } else { self.count@ as int });
        }
        if stored_value != QUEUE_NULL {
            self.tail.unlock(tail);
            proof {
                assert forall|i: int| 0 <= i < self.capacity implies
                    (self.buffer@[i] != QUEUE_NULL <==> #[trigger] self.dist_from_head(i)
                        < self.count@) by {
                    assert(old(self).dist_from_head(i) == self.dist_from_head(i));
                }
                assert(final(self)@ =~= old(self)@);
            }
            return false;
        }
        self.buffer.set(tail_value as usize, value);
        let next = if tail_value + 1 == self.capacity { 0 } else { tail_value + 1 };
        tail.write(next);
        proof {
            assert(next & 0x7FFF_FFFFu32 == next) by (bit_vector)
                requires next < 0x4000_0000u32;
        }
        self.count = Ghost(self.count@ + 1);
        self.tail.unlock(tail);
        proof {
            let cap = self.capacity as int;
            assert forall|i: int| 0 <= i < cap implies
                (self.buffer@[i] != QUEUE_NULL <==> #[trigger] self.dist_from_head(i)
                    < self.count@) by {
                assert(old(self).dist_from_head(i) == self.dist_from_head(i));
                if i != tail_value {
                    assert(self.buffer@[i] == old(self).buffer@[i]);
                }
            }
            assert forall|j: int| 0 <= j < self.count@ implies
                self.buffer@[#[trigger] self.slot_of(j)] == old(self)@.push(value)[j] by {
                if j < old(self).count@ {
                    assert(self.slot_of(j) != tail_value);
                }
            }
            assert(final(self)@ =~= old(self)@.push(value));
        }
        true
    }

    /// Remove and return the value at the head cursor, or `None`, changing
    /// nothing, exactly when the queue is empty.
    pub fn dequeue(&mut self) -> (r: Option<usize>)
        requires
            old(self).wf(),
        ensures
            final(self).wf(),
            final(self).spec_capacity() == old(self).spec_capacity(),
            r is Some <==> old(self)@.len() > 0,
            r matches Some(v) ==> v == old(self)@[0] && v != QUEUE_NULL
                && final(self)@ == old(self)@.drop_first(),
            r is None ==> final(self)@ == old(self)@,
    {
        let mut head = self.head.lock();
        let head_value = head.read();

        let stored_value = self.buffer[head_value as usize];
        proof {
            assert(old(self).dist_from_head(head_value as int) == 0);
        }
        if stored_value == QUEUE_NULL {
            self.head.unlock(head);
            proof {
                assert forall|i: int| 0 <= i < self.capacity implies
                    (self.buffer@[i] != QUEUE_NULL <==> #[trigger] self.dist_from_head(i)
                        < self.count@) by {
                    assert(old(self).dist_from_head(i) == self.dist_from_head(i));
                }
                assert(final(self)@ =~= old(self)@);
            }
            return None;
        }
        self.buffer.set(head_value as usize, QUEUE_NULL);
        let next = if head_value + 1 == self.capacity { 0 } else { head_value + 1 };
        head.write(next);
        proof {
            assert(next & 0x7FFF_FFFFu32 == next) by (bit_vector)
                requires next < 0x4000_0000u32;
        }
        self.count = Ghost((self.count@ - 1) as nat);
        self.head.unlock(head);
        proof {
            let cap = self.capacity as int;
            assert forall|i: int| 0 <= i < cap implies
                (self.buffer@[i] != QUEUE_NULL <==> #[trigger] self.dist_from_head(i)
                    < self.count@) by {
                if i == head_value {
                    assert(self.dist_from_head(i) == cap - 1);
                } else {
                    assert(self.buffer@[i] == old(self).buffer@[i]);
                    assert(old(self).dist_from_head(i) == self.dist_from_head(i) + 1);
                }
            }
            assert forall|j: int| 0 <= j < self.count@ implies
                self.buffer@[#[trigger] self.slot_of(j)] == old(self)@.drop_first()[j] by {
                assert(self.slot_of(j) == old(self).slot_of(j + 1));
                assert(self.slot_of(j) != head_value);
            }
            assert(final(self)@ =~= old(self)@.drop_first());
        }
        Some(stored_value)
    }

    /// Empty the queue: every slot becomes the sentinel and both cursors
    /// return to position zero.
    pub fn clear(&mut self)
        requires
            old(self).wf(),
        ensures
            final(self).wf(),
            final(self).spec_capacity() == old(self).spec_capacity(),
            final(self)@ == Seq::<usize>::empty(),
    {
        let mut tail = self.tail.lock();
        let mut head = self.head.lock();
        let mut i: u32 = 0;
        while i < self.capacity
            invariant
                self.capacity == old(self).capacity,
                0 < self.capacity <= QUEUE_MAX_CAPACITY,
                self.buffer@.len() == self.capacity,
                self.head.is_locked() && self.tail.is_locked(),
                i <= self.capacity,
                forall|j: int| 0 <= j < i ==> self.buffer@[j] == QUEUE_NULL,
            decreases self.capacity - i,
        {
            self.buffer.set(i as usize, QUEUE_NULL);
            i = i + 1;
        }
        proof {
            assert(0u32 & 0x7FFF_FFFFu32 == 0) by (bit_vector);
        }
        tail.write(0);
        head.write(0);
        self.tail.unlock(tail);
        self.head.unlock(head);
        self.count = Ghost(0nat);
        proof {
            assert(final(self)@ =~= Seq::<usize>::empty());
        }
    }
}

/// A bounded multi-producer multi-consumer queue over `u32` slots, the
/// 32-bit counterpart of [`QueueUsize`]. Its empty-slot sentinel is
/// [`QUEUE_U32_NULL`], so slot index `0` remains a legal value.
pub struct QueueU32 {
    buffer: Vec<u32>,
    capacity: u32,
    head: IndexSpinlock,
    tail: IndexSpinlock,
    count: Ghost<nat>,
}

impl QueueU32 {
    /// Reduce a position in `0 .. 2 * capacity` back into the ring.
    spec fn wrap(&self, x: int) -> int {
        if x < self.capacity { x } else { x - self.capacity }
    }

    /// The buffer index holding the `j`-th oldest queued value.
    spec fn slot_of(&self, j: int) -> int {
        self.wrap(self.head.value() + j)
    }

    /// How far position `i` lies ahead of the head cursor along the ring.
    spec fn dist_from_head(&self, i: int) -> int {
        if i >= self.head.value() {
            i - self.head.value()
        } else {
            i - self.head.value() + self.capacity
        }
    }

    /// The queued values, oldest first.
    pub closed spec fn view(&self) -> Seq<u32> {
        Seq::new(self.count@, |j: int| self.buffer@[self.slot_of(j)])
    }

    /// Total fixed capacity.
    pub closed spec fn spec_capacity(&self) -> nat {
        self.capacity as nat
    }

    /// The circular-buffer shape; see [`QueueUsize::wf`].
    pub closed spec fn wf(&self) -> bool {
        &&& self.buffer@.len() == self.capacity
        &&& 0 < self.capacity <= QUEUE_MAX_CAPACITY
        &&& !self.head.is_locked() && self.head.inv() && self.head.value() < self.capacity
        &&& !self.tail.is_locked() && self.tail.inv() && self.tail.value() < self.capacity
        &&& self.count@ <= self.capacity
        &&& self.tail.value() == self.wrap(self.head.value() + self.count@)
        &&& forall|i: int| 0 <= i < self.capacity ==>
                (self.buffer@[i] != QUEUE_U32_NULL
                    <==> #[trigger] self.dist_from_head(i) < self.count@)
    }

    /// Create an empty queue. Capacity must be a non-zero power of two no
    /// larger than [`QUEUE_MAX_CAPACITY`].
    pub fn new(capacity: usize) -> (r: QueueU32)
        requires
            0 < capacity <= QUEUE_MAX_CAPACITY,
            (capacity & (capacity - 1) as usize) == 0,
        ensures
            r.wf(),
            r@ == Seq::<u32>::empty(),
            r.spec_capacity() == capacity,
    {
        let r = QueueU32 {
            buffer: vec![QUEUE_U32_NULL; capacity],
            capacity: capacity as u32,
            head: IndexSpinlock::new(0),
            tail: IndexSpinlock::new(0),
            count: Ghost(0nat),
        };
        proof {
            assert(0u32 & 0x7FFF_FFFFu32 == 0) by (bit_vector);
            assert(r@ =~= Seq::<u32>::empty());
        }
        r
    }

    /// Append `value` at the tail cursor. Returns `false`, changing
    /// nothing, exactly when the queue is full.
    pub fn enqueue(&mut self, value: u32) -> (r: bool)
        requires
            old(self).wf(),
            value != QUEUE_U32_NULL,
        ensures
            final(self).wf(),
            final(self).spec_capacity() == old(self).spec_capacity(),
            r <==> old(self)@.len() < old(self).spec_capacity(),
            r ==> final(self)@ == old(self)@.push(value),
            !r ==> final(self)@ == old(self)@,
    {
        let mut tail = self.tail.lock();
        let tail_value = tail.read();

        let stored_value = self.buffer[tail_value as usize];
        proof {
            // the tail slot is occupied exactly when the ring is full
            assert(old(self).dist_from_head(tail_value as int)
                == if self.count@ == self.capacity { 0int } else { self.count@ as int });
        }
        if stored_value != QUEUE_U32_NULL {
            self.tail.unlock(tail);
            proof {
                assert forall|i: int| 0 <= i < self.capacity implies
                    (self.buffer@[i] != QUEUE_U32_NULL <==> #[trigger] self.dist_from_head(i)
                        < self.count@) by {
                    assert(old(self).dist_from_head(i) == self.dist_from_head(i));
                }
                assert(final(self)@ =~= old(self)@);
            }
            return false;
        }
        self.buffer.set(tail_value as usize, value);
        let next = if tail_value + 1 == self.capacity { 0 } else { tail_value + 1 };
        tail.write(next);
        proof {
            assert(next & 0x7FFF_FFFFu32 == next) by (bit_vector)
                requires next < 0x4000_0000u32;
        }
        self.count = Ghost(self.count@ + 1);
        self.tail.unlock(tail);
        proof {
            let cap = self.capacity as int;
            assert forall|i: int| 0 <= i < cap implies
                (self.buffer@[i] != QUEUE_U32_NULL <==> #[trigger] self.dist_from_head(i)
                    < self.count@) by {
                assert(old(self).dist_from_head(i) == self.dist_from_head(i));
                if i != tail_value {
                    assert(self.buffer@[i] == old(self).buffer@[i]);
                }
            }
            assert forall|j: int| 0 <= j < self.count@ implies
                self.buffer@[#[trigger] self.slot_of(j)] == old(self)@.push(value)[j] by {
                if j < old(self).count@ {
                    assert(self.slot_of(j) != tail_value);
                }
            }
            assert(final(self)@ =~= old(self)@.push(value));
        }
        true
    }

    /// Remove and return the value at the head cursor, or `None`, changing
    /// nothing, exactly when the queue is empty.
    pub fn dequeue(&mut self) -> (r: Option<u32>)
        requires
            old(self).wf(),
        ensures
            final(self).wf(),
            final(self).spec_capacity() == old(self).spec_capacity(),
            r is Some <==> old(self)@.len() > 0,
            r matches Some(v) ==> v == old(self)@[0] && v != QUEUE_U32_NULL
                && final(self)@ == old(self)@.drop_first(),
            r is None ==> final(self)@ == old(self)@,
    {
        let mut head = self.head.lock();
        let head_value = head.read();

        let stored_value = self.buffer[head_value as usize];
        proof {
            assert(old(self).dist_from_head(head_value as int) == 0);
        }
        if stored_value == QUEUE_U32_NULL {
            self.head.unlock(head);
            proof {
                assert forall|i: int| 0 <= i < self.capacity implies
                    (self.buffer@[i] != QUEUE_U32_NULL <==> #[trigger] self.dist_from_head(i)
                        < self.count@) by {
                    assert(old(self).dist_from_head(i) == self.dist_from_head(i));
                }
                assert(final(self)@ =~= old(self)@);
            }
            return None;
        }
        self.buffer.set(head_value as usize, QUEUE_U32_NULL);
        let next = if head_value + 1 == self.capacity { 0 } else { head_value + 1 };
        head.write(next);
        proof {
            assert(next & 0x7FFF_FFFFu32 == next) by (bit_vector)
                requires next < 0x4000_0000u32;
        }
        self.count = Ghost((self.count@ - 1) as nat);
        self.head.unlock(head);
        proof {
            let cap = self.capacity as int;
            assert forall|i: int| 0 <= i < cap implies
                (self.buffer@[i] != QUEUE_U32_NULL <==> #[trigger] self.dist_from_head(i)
                    < self.count@) by {
                if i == head_value {
                    assert(self.dist_from_head(i) == cap - 1);
                } else {
                    assert(self.buffer@[i] == old(self).buffer@[i]);
                    assert(old(self).dist_from_head(i) == self.dist_from_head(i) + 1);
                }
            }
            assert forall|j: int| 0 <= j < self.count@ implies
                self.buffer@[#[trigger] self.slot_of(j)] == old(self)@.drop_first()[j] by {
                assert(self.slot_of(j) == old(self).slot_of(j + 1));
                assert(self.slot_of(j) != head_value);
            }
            assert(final(self)@ =~= old(self)@.drop_first());
        }
        Some(stored_value)
    }

    /// Empty the queue: every slot becomes the sentinel and both cursors
    /// return to position zero.
    pub fn clear(&mut self)
        requires
            old(self).wf(),
        ensures
            final(self).wf(),
            final(self).spec_capacity() == old(self).spec_capacity(),
            final(self)@ == Seq::<u32>::empty(),
    {
        let mut tail = self.tail.lock();
        let mut head = self.head.lock();
        let mut i: u32 = 0;
        while i < self.capacity
            invariant
                self.capacity == old(self).capacity,
                0 < self.capacity <= QUEUE_MAX_CAPACITY,
                self.buffer@.len() == self.capacity,
                self.head.is_locked() && self.tail.is_locked(),
                i <= self.capacity,
                forall|j: int| 0 <= j < i ==> self.buffer@[j] == QUEUE_U32_NULL,
            decreases self.capacity - i,
        {
            self.buffer.set(i as usize, QUEUE_U32_NULL);
            i = i + 1;
        }
        proof {
            assert(0u32 & 0x7FFF_FFFFu32 == 0) by (bit_vector);
        }
        tail.write(0);
        head.write(0);
        self.tail.unlock(tail);
        self.head.unlock(head);
        self.count = Ghost(0nat);
        proof {
            assert(final(self)@ =~= Seq::<u32>::empty());
        }
    }
}

} // verus!
