use vstd::prelude::*;

verus! {

/// Largest number of concurrent readers the packed lock word can count:
/// the two top bits are the write-lock and write-request flags, leaving
/// 30 bits for the reader count.
pub const MAX_READERS: u32 = 0x3FFF_FFFF;

/// A reader-writer spinlock: any number of readers up to [`MAX_READERS`]
/// may hold the lock together, a writer holds it exclusively, and a pending
/// write request blocks new readers so writers cannot starve.
///
/// Acquisition hands out a guard value; the matching `unlock_read` /
/// `unlock_write` call consumes it, the sole way the lock is released.
pub struct RWSpinLock<T> {
    readers: u32,
    write_requested: bool,
    write_locked: bool,
    data: T,
}

/// A witness that a [`RWSpinLock`] is held for shared reading.
pub struct RWSpinReadGuard {
    granted: bool,
}

/// A witness that a [`RWSpinLock`] is held for exclusive writing.
pub struct RWSpinWriteGuard {
    granted: bool,
}

impl<T> RWSpinLock<T> {
    /// How many readers currently hold the lock.
    pub closed spec fn readers(&self) -> u32 {
        self.readers
    }

    /// Whether a writer has requested the lock.
    pub closed spec fn is_write_requested(&self) -> bool {
        self.write_requested
    }

    /// Whether a writer holds the lock exclusively.
    pub closed spec fn is_write_locked(&self) -> bool {
        self.write_locked
    }

    /// The protected data value.
    pub closed spec fn data(&self) -> T {
        self.data
    }

    /// The reader count fits its 30 bits, and a writer excludes all readers.
    pub closed spec fn inv(&self) -> bool {
        self.readers <= MAX_READERS && (self.write_locked ==> self.readers == 0)
    }

    /// Create a free lock protecting `data`.
    pub fn new(data: T) -> (r: RWSpinLock<T>)
        ensures
            r.readers() == 0,
            !r.is_write_requested(),
            !r.is_write_locked(),
            r.data() == data,
            r.inv(),
    {
        RWSpinLock { readers: 0, write_requested: false, write_locked: false, data }
    }

    /// Acquire the lock for shared reading.
    ///
    /// Under contention this operation spins while a writer holds or has
    /// requested the lock; those states, and a saturated reader count, are
    /// excluded by precondition.
    pub fn read(&mut self) -> (g: RWSpinReadGuard)
        requires
            !old(self).is_write_locked(),
            !old(self).is_write_requested(),
            old(self).readers() < MAX_READERS,
            old(self).inv(),
        ensures
            final(self).readers() == old(self).readers() + 1,
            final(self).is_write_requested() == old(self).is_write_requested(),
            final(self).is_write_locked() == old(self).is_write_locked(),
            final(self).data() == old(self).data(),
            final(self).inv(),
    {
        self.readers = self.readers + 1;
        RWSpinReadGuard { granted: true }
    }

    /// Try to acquire the lock for shared reading with a single attempt,
    /// failing if a writer holds or has requested the lock.
    pub fn try_read(&mut self) -> (r: Option<RWSpinReadGuard>)
        requires
            old(self).readers() < MAX_READERS,
            old(self).inv(),
        ensures
            final(self).inv(),
            final(self).data() == old(self).data(),
            final(self).is_write_requested() == old(self).is_write_requested(),
            final(self).is_write_locked() == old(self).is_write_locked(),
            r is Some <==> !old(self).is_write_locked() && !old(self).is_write_requested(),
            r is Some ==> final(self).readers() == old(self).readers() + 1,
            r is None ==> final(self).readers() == old(self).readers(),
    {
        if self.write_locked || self.write_requested {
            None
        } else {
            self.readers = self.readers + 1;
            Some(RWSpinReadGuard { granted: true })
        }
    }

    /// Release a shared-read hold on the lock.
    pub fn unlock_read(&mut self, g: RWSpinReadGuard)
        requires
            old(self).readers() >= 1,
            old(self).inv(),
        ensures
            final(self).readers() == old(self).readers() - 1,
            final(self).is_write_requested() == old(self).is_write_requested(),
            final(self).is_write_locked() == old(self).is_write_locked(),
            final(self).data() == old(self).data(),
            final(self).inv(),
    {
        let _ = g;
        self.readers = self.readers - 1;
    }

    /// Acquire the lock for exclusive writing, absorbing any pending write
    /// request.
    ///
    /// Under contention this posts a write request and spins until all
    /// readers have left; a lock still held is excluded by precondition.
    pub fn write(&mut self) -> (g: RWSpinWriteGuard)
        requires
            old(self).readers() == 0,
            !old(self).is_write_locked(),
            old(self).inv(),
        ensures
            final(self).readers() == 0,
            !final(self).is_write_requested(),
            final(self).is_write_locked(),
            final(self).data() == old(self).data(),
            final(self).inv(),
    {
        self.write_requested = false;
        self.write_locked = true;
        RWSpinWriteGuard { granted: true }
    }

    /// Try to acquire the lock for exclusive writing with a single attempt.
    /// This succeeds only from the exact state in which a write request is
    /// pending and nobody holds the lock, as left by `mark_write_request`.
    pub fn try_write(&mut self) -> (r: Option<RWSpinWriteGuard>)
        requires
            old(self).inv(),
        ensures
            final(self).inv(),
            final(self).data() == old(self).data(),
            r is Some <==> old(self).is_write_requested() && !old(self).is_write_locked()
                && old(self).readers() == 0,
            r is Some ==> final(self).is_write_locked() && !final(self).is_write_requested()
                && final(self).readers() == 0,
            r is None ==> *final(self) == *old(self),
    {
        if self.write_requested && !self.write_locked && self.readers == 0 {
            self.write_requested = false;
            self.write_locked = true;
            Some(RWSpinWriteGuard { granted: true })
        } else {
            None
        }
    }

    /// Post a write request, blocking new readers.
    pub fn mark_write_request(&mut self)
        requires
            old(self).inv(),
        ensures
            final(self).is_write_requested(),
            final(self).readers() == old(self).readers(),
            final(self).is_write_locked() == old(self).is_write_locked(),
            final(self).data() == old(self).data(),
            final(self).inv(),
    {
        self.write_requested = true;
    }

    /// Withdraw a posted write request.
    pub fn unmark_write_request(&mut self)
        requires
            old(self).inv(),
        ensures
            !final(self).is_write_requested(),
            final(self).readers() == old(self).readers(),
            final(self).is_write_locked() == old(self).is_write_locked(),
            final(self).data() == old(self).data(),
            final(self).inv(),
    {
        self.write_requested = false;
    }

    /// Upgrade a shared-read hold to an exclusive-write hold. The caller's
    /// read hold is given up in the exchange.
    ///
    /// Under contention this posts a write request, gives up the read
    /// hold and spins until the remaining readers have left; other readers
    /// still present are excluded by precondition.
    pub fn upgrade(&mut self, g: RWSpinReadGuard) -> (w: RWSpinWriteGuard)
        requires
            old(self).readers() == 1,
            !old(self).is_write_locked(),
            old(self).inv(),
        ensures
            final(self).readers() == 0,
            !final(self).is_write_requested(),
            final(self).is_write_locked(),
            final(self).data() == old(self).data(),
            final(self).inv(),
    {
        let _ = g;
        self.readers = 0;
        self.write_requested = false;
        self.write_locked = true;
        RWSpinWriteGuard { granted: true }
    }

    /// Release an exclusive-write hold, clearing every flag.
    pub fn unlock_write(&mut self, g: RWSpinWriteGuard)
        requires
            old(self).is_write_locked(),
            old(self).inv(),
        ensures
            final(self).readers() == 0,
            !final(self).is_write_requested(),
            !final(self).is_write_locked(),
            final(self).data() == old(self).data(),
            final(self).inv(),
    {
        let _ = g;
        self.readers = 0;
        self.write_requested = false;
        self.write_locked = false;
    }

    /// Borrow the protected data for reading; permitted while the lock is
    /// held either way.
    pub fn borrow_data(&self) -> (r: &T)
        requires
            self.readers() >= 1 || self.is_write_locked(),
        ensures
            *r == self.data(),
    {
        &self.data
    }

    /// Mutably borrow the protected data; only permitted while the lock is
    /// held for writing.
    pub fn borrow_data_mut(&mut self) -> (r: &mut T)
        requires
            old(self).is_write_locked(),
        ensures
            *r == old(self).data(),
            final(self).data() == *final(r),
            final(self).readers() == old(self).readers(),
            final(self).is_write_requested() == old(self).is_write_requested(),
            final(self).is_write_locked() == old(self).is_write_locked(),
            final(self).inv() == old(self).inv(),
    {
        &mut self.data
    }

    /// Since this call borrows the lock mutably, no actual locking needs to
    /// take place: the exclusive borrow statically guarantees no holds exist.
    pub fn get_mut(&mut self) -> (r: &mut T)
        ensures
            *r == old(self).data(),
            final(self).data() == *final(r),
            final(self).readers() == old(self).readers(),
            final(self).is_write_requested() == old(self).is_write_requested(),
            final(self).is_write_locked() == old(self).is_write_locked(),
    {
        &mut self.data
    }

    /// Move the data value out of the lock, consuming the lock.
    pub fn into_inner(self) -> (r: T)
        ensures
            r == self.data(),
    {
        self.data
    }
}

} // verus!
