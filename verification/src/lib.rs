//! A memory-management toolkit for fixed-capacity, allocation-free-at-steady-state
//! services: payload-carrying spinlocks, bounded ring-buffer free lists, slab
//! memory pools with a size-class-routing front end, and generational handle
//! arenas that detect stale handles and defer destruction until the last
//! outstanding reference is released.

pub mod collections;
pub mod mem;
pub mod sync;
