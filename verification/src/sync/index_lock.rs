use vstd::prelude::*;

verus! {

/// The most significant bit of the packed lock word marks the lock as held;
/// the low 31 bits carry the caller-defined payload value.
pub const LOCK_BIT: u32 = 0x8000_0000;

/// Mask selecting the 31 payload bits of the packed lock word.
pub const VALUE_MASK: u32 = 0x7FFF_FFFF;

/// A spinlock whose lock word doubles as storage for a caller-defined
/// 31-bit value, readable and writable only while the lock is held.
///
/// Acquisition is modelled as an exclusive-state transition: `lock` may only
/// be called when the lock is free, and hands back a guard carrying the
/// payload value; `unlock` consumes the guard and stores its value with the
/// held bit cleared, the sole way the lock is ever released.
pub struct IndexSpinlock {
    locked: bool,
    value: u32,
}

/// A witness that an [`IndexSpinlock`] is held, carrying the payload value
/// that will be written back on release.
pub struct IndexSpinlockGuard {
    value: u32,
}

impl IndexSpinlockGuard {
    /// The payload value carried by the guard.
    pub closed spec fn view(&self) -> u32 {
        self.value
    }

    /// The guard only ever carries a 31-bit value.
    pub closed spec fn inv(&self) -> bool {
        self.value <= VALUE_MASK
    }

    /// Get the value that was set on the lock at acquisition time.
    pub fn read(&self) -> (r: u32)
        ensures
            r == self@,
    {
        self.value
    }

    /// Set the value that will be written on release.
    pub fn write(&mut self, value: u32)
        ensures
            final(self)@ == value & VALUE_MASK,
            final(self).inv(),
    {
        proof {
            assert(value & VALUE_MASK <= VALUE_MASK) by (bit_vector);
        }
        self.value = value & VALUE_MASK;
    }
}

impl IndexSpinlock {
    /// Whether the lock is currently held.
    pub closed spec fn is_locked(&self) -> bool {
        self.locked
    }

    /// The 31-bit payload value currently stored in the lock word.
    pub closed spec fn value(&self) -> u32 {
        self.value
    }

    /// The stored payload never overlaps the held bit.
    pub closed spec fn inv(&self) -> bool {
        self.value <= VALUE_MASK
    }

    /// Create a free lock holding `value` with the held bit masked off.
    pub fn new(value: u32) -> (r: IndexSpinlock)
        ensures
            !r.is_locked(),
            r.value() == value & VALUE_MASK,
            r.inv(),
    {
        proof {
            assert(value & VALUE_MASK <= VALUE_MASK) by (bit_vector);
        }
        IndexSpinlock { locked: false, value: value & VALUE_MASK }
    }

    /// Acquire the lock, returning a guard that exposes the payload value.
    ///
    /// Under contention this operation spins until the held bit can be
    /// set; acquiring a lock one already holds would never return, so that
    /// state is excluded by precondition.
    pub fn lock(&mut self) -> (g: IndexSpinlockGuard)
        requires
            !old(self).is_locked(),
            old(self).inv(),
        ensures
            final(self).is_locked(),
            final(self).value() == old(self).value(),
            final(self).inv(),
            g@ == old(self).value(),
            g.inv(),
    {
        self.locked = true;
        IndexSpinlockGuard { value: self.value }
    }

    /// Try to acquire the lock with a single attempt, failing without
    /// spinning if it is already held.
    pub fn try_lock(&mut self) -> (r: Option<IndexSpinlockGuard>)
        requires
            old(self).inv(),
        ensures
            final(self).inv(),
            final(self).value() == old(self).value(),
            r is Some <==> !old(self).is_locked(),
            r matches Some(g) ==> final(self).is_locked() && g@ == old(self).value() && g.inv(),
            r is None ==> final(self).is_locked() == old(self).is_locked(),
    {
        if self.locked {
            None
        } else {
            self.locked = true;
            Some(IndexSpinlockGuard { value: self.value })
        }
    }

    /// Release the lock, storing the guard's payload with the held bit clear.
    pub fn unlock(&mut self, g: IndexSpinlockGuard)
        requires
            old(self).is_locked(),
            g.inv(),
        ensures
            !final(self).is_locked(),
            final(self).value() == g@,
            final(self).inv(),
    {
        self.value = g.value;
        self.locked = false;
    }

    /// Read the payload. The exclusive borrow statically guarantees no guard
    /// is outstanding, so no locking needs to take place.
    pub fn get(&mut self) -> (r: u32)
        requires
            old(self).inv(),
        ensures
            *final(self) == *old(self),
            r == final(self).value(),
    {
        self.value
    }

    /// Store a payload, clearing the held bit. The exclusive borrow
    /// statically guarantees no guard is outstanding.
    pub fn set(&mut self, value: u32)
        ensures
            !final(self).is_locked(),
            final(self).value() == value & VALUE_MASK,
            final(self).inv(),
    {
        proof {
            assert(value & VALUE_MASK <= VALUE_MASK) by (bit_vector);
        }
        self.value = value & VALUE_MASK;
        self.locked = false;
    }

    /// Move the payload out of the lock, consuming the lock.
    pub fn into_inner(self) -> (r: u32)
        ensures
            r == self.value(),
    {
        self.value
    }
}

/// A spinlock that protects a data value of type `T` in addition to the
/// caller-defined 31-bit payload packed into its lock word.
///
/// The data value may only be read or written while the lock is held.
pub struct Spinlock<T> {
    locked: bool,
    value: u32,
    data: T,
}

/// A witness that a [`Spinlock`] is held, carrying the payload value that
/// will be written back on release.
pub struct SpinlockGuard {
    value: u32,
}

impl SpinlockGuard {
    /// The payload value carried by the guard.
    pub closed spec fn view(&self) -> u32 {
        self.value
    }

    /// The guard only ever carries a 31-bit value.
    pub closed spec fn inv(&self) -> bool {
        self.value <= VALUE_MASK
    }

    /// Get the value that was set on the lock at acquisition time.
    pub fn read(&self) -> (r: u32)
        ensures
            r == self@,
    {
        self.value
    }

    /// Set the value that will be written on release.
    pub fn write(&mut self, value: u32)
        ensures
            final(self)@ == value & VALUE_MASK,
            final(self).inv(),
    {
        proof {
            assert(value & VALUE_MASK <= VALUE_MASK) by (bit_vector);
        }
        self.value = value & VALUE_MASK;
    }
}

impl<T> Spinlock<T> {
    /// Whether the lock is currently held.
    pub closed spec fn is_locked(&self) -> bool {
        self.locked
    }

    /// The 31-bit payload value currently stored in the lock word.
    pub closed spec fn value(&self) -> u32 {
        self.value
    }

    /// The protected data value.
    pub closed spec fn data(&self) -> T {
        self.data
    }

    /// The stored payload never overlaps the held bit.
    pub closed spec fn inv(&self) -> bool {
        self.value <= VALUE_MASK
    }

    /// Create a free lock holding `value` (held bit masked off) and `data`.
    pub fn new(value: u32, data: T) -> (r: Spinlock<T>)
        ensures
            !r.is_locked(),
            r.value() == value & VALUE_MASK,
            r.data() == data,
            r.inv(),
    {
        proof {
            assert(value & VALUE_MASK <= VALUE_MASK) by (bit_vector);
        }
        Spinlock { locked: false, value: value & VALUE_MASK, data }
    }

    /// Acquire the lock, returning a guard that exposes the payload value.
    pub fn lock(&mut self) -> (g: SpinlockGuard)
        requires
            !old(self).is_locked(),
            old(self).inv(),
        ensures
            final(self).is_locked(),
            final(self).value() == old(self).value(),
            final(self).data() == old(self).data(),
            final(self).inv(),
            g@ == old(self).value(),
            g.inv(),
    {
        self.locked = true;
        SpinlockGuard { value: self.value }
    }

    /// Release the lock, storing the guard's payload with the held bit clear.
    pub fn unlock(&mut self, g: SpinlockGuard)
        requires
            old(self).is_locked(),
            g.inv(),
        ensures
            !final(self).is_locked(),
            final(self).value() == g@,
            final(self).data() == old(self).data(),
            final(self).inv(),
    {
        self.value = g.value;
        self.locked = false;
    }

    /// Borrow the protected data; only permitted while the lock is held.
    pub fn borrow_data(&self) -> (r: &T)
        requires
            self.is_locked(),
        ensures
            *r == self.data(),
    {
        &self.data
    }

    /// Mutably borrow the protected data; only permitted while the lock is
    /// held. The lock word is unaffected by whatever the caller writes.
    pub fn borrow_data_mut(&mut self) -> (r: &mut T)
        requires
            old(self).is_locked(),
        ensures
            *r == old(self).data(),
            final(self).data() == *final(r),
            final(self).is_locked() == old(self).is_locked(),
            final(self).value() == old(self).value(),
            final(self).inv() == old(self).inv(),
    {
        &mut self.data
    }

    /// Read the payload. The exclusive borrow statically guarantees no guard
    /// is outstanding, so no locking needs to take place.
    pub fn get(&mut self) -> (r: u32)
        requires
            old(self).inv(),
        ensures
            *final(self) == *old(self),
            r == final(self).value(),
    {
        self.value
    }

    /// Store a payload, clearing the held bit. The exclusive borrow
    /// statically guarantees no guard is outstanding.
    pub fn set(&mut self, value: u32)
        ensures
            !final(self).is_locked(),
            final(self).value() == value & VALUE_MASK,
            final(self).data() == old(self).data(),
            final(self).inv(),
    {
        proof {
            assert(value & VALUE_MASK <= VALUE_MASK) by (bit_vector);
        }
        self.value = value & VALUE_MASK;
        self.locked = false;
    }

    /// Move the packed payload out of the lock, consuming the lock.
    pub fn into_inner(self) -> (r: u32)
        ensures
            r == self.value(),
    {
        self.value
    }
}

/// Two spinlocks agreeing on held bit, payload and data are the same value;
/// callers outside this module see those three projections only.
pub proof fn lemma_spinlock_ext<T>(a: &Spinlock<T>, b: &Spinlock<T>)
    requires
        a.is_locked() == b.is_locked(),
        a.value() == b.value(),
        a.data() == b.data(),
    ensures
        *a == *b,
{
}

} // verus!
