//! Mutual-exclusion primitives that carry a small payload value: a spinlock
//! over a 31-bit index, a spinlock that additionally protects a data value,
//! and a reader-writer lock.
//!
//! The locks are modelled with an explicit `locked` state: acquisition hands
//! out a guard value recording the payload read at acquisition time, and the
//! matching `unlock` call writes the guard's (possibly updated) payload back.

pub mod index_lock;
pub mod rw_lock;

pub use index_lock::IndexSpinlock;
pub use index_lock::IndexSpinlockGuard;
pub use index_lock::Spinlock;
pub use index_lock::SpinlockGuard;
pub use rw_lock::RWSpinLock;
pub use rw_lock::RWSpinReadGuard;
pub use rw_lock::RWSpinWriteGuard;
