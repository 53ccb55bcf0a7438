//! Single-owner collections built on the same slot/generation idioms as
//! the memory subsystem: an in-place binary heap with stable handles, a
//! growable generational store, and an owned-buffer ring queue.

pub mod binary_heap;
pub mod indexed_data_store;
pub mod queue;
