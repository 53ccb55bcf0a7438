use vstd::prelude::*;

use crate::mem::memory_pool::BaseMemoryPool;
use crate::mem::memory_pool::MAX_CHUNKS;
use crate::mem::memory_pool::spec_make_addr;

verus! {

/// Fixed block size of [`MemoryPool64`].
pub const POOL64_BLOCK_SIZE: usize = 64;

/// Blocks carved out of each of its chunks.
pub const POOL64_BLOCKS_PER_CHUNK: usize = 2048;

/// A fixed-geometry slab pool of 64-byte blocks without a free list: to
/// keep expansion cheap it only ever bump-allocates, and `deallocate` is
/// deliberately a no-op.
pub struct MemoryPool64 {
    active_chunk_remaining_free: BaseMemoryPool,
}

impl MemoryPool64 {
    /// Number of chunks mapped so far.
    pub closed spec fn chunk_count(&self) -> int {
        self.active_chunk_remaining_free.chunk_count()
    }

    /// Blocks still unallocated in the active chunk.
    pub closed spec fn remaining(&self) -> int {
        self.active_chunk_remaining_free.remaining()
    }

    /// The pool keeps its fixed geometry and a well-formed slab engine.
    pub closed spec fn wf(&self) -> bool {
        &&& self.active_chunk_remaining_free.wf()
        &&& self.active_chunk_remaining_free.spec_block_size() == POOL64_BLOCK_SIZE
        &&& self.active_chunk_remaining_free.spec_block_count() == POOL64_BLOCKS_PER_CHUNK
    }

    /// An allocation can be served without exhausting the chunk table.
    pub open spec fn can_allocate(&self) -> bool {
        self.remaining() > 0 || self.chunk_count() < MAX_CHUNKS
    }

    /// A block address handed out by this pool.
    pub closed spec fn valid_block_addr(&self, a: u64) -> bool {
        self.active_chunk_remaining_free.valid_block_addr(a)
    }

    /// Create the pool with no chunk mapped yet.
    pub fn new() -> (r: MemoryPool64)
        ensures
            r.wf(),
            r.chunk_count() == 0,
            r.remaining() == 0,
    {
        MemoryPool64 {
            active_chunk_remaining_free: BaseMemoryPool::new(
                POOL64_BLOCK_SIZE, POOL64_BLOCKS_PER_CHUNK),
        }
    }

    /// Carve the next 64-byte block out of the active chunk, mapping a
    /// fresh chunk when it is exhausted. Exhaustion of the chunk table is
    /// address-space exhaustion and is excluded by precondition.
    pub fn allocate(&mut self) -> (r: u64)
        requires
            old(self).wf(),
            old(self).can_allocate(),
        ensures
            final(self).wf(),
            final(self).valid_block_addr(r),
            r != 0,
            old(self).remaining() > 0 ==> {
                &&& final(self).chunk_count() == old(self).chunk_count()
                &&& final(self).remaining() == old(self).remaining() - 1
            },
            old(self).remaining() == 0 ==> {
                &&& final(self).chunk_count() == old(self).chunk_count() + 1
                &&& final(self).remaining() == POOL64_BLOCKS_PER_CHUNK - 1
            },
            r == spec_make_addr(
                final(self).chunk_count() - 1,
                final(self).remaining() * POOL64_BLOCK_SIZE),
    {
        self.active_chunk_remaining_free.get_free_block()
    }

    /// Deliberately a no-op: this pool never recycles blocks, trading
    /// memory for constant-time allocation.
    pub fn deallocate(&mut self, ptr: u64)
        ensures
            *final(self) == *old(self),
    {
        let _ = ptr;
    }
}

} // verus!
