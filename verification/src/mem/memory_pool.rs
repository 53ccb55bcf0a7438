use vstd::prelude::*;

use vstd::arithmetic::div_mod::lemma_fundamental_div_mod_converse;
use crate::mem::page;
use crate::mem::page::MapAlloc;
use crate::mem::queue::QueueU32;
use crate::sync::Spinlock;

verus! {

/// Chunk-table capacity of a pool, as a power of two.
pub const MAX_CHUNKS_POT: usize = 10;

/// A pool records at most this many chunks; running out of table space is
/// address-space exhaustion and is excluded by precondition rather than
/// aborting.
pub const MAX_CHUNKS: usize = 1024;

/// Most blocks a single chunk may be divided into.
pub const MAX_BLOCKS: usize = 65536;

/// The packed counter behind the pool's spinlock stores the blocks
/// remaining in the active chunk below this radix and the chunk count above
/// it (the low seventeen bits of the lock word).
pub const CHUNK_RADIX: u32 = 0x2_0000;

/// Block addresses place a one-based chunk number above this radix and the
/// byte offset within the chunk below it, so no block address is ever zero
/// (the null address).
pub const ADDR_CHUNK_RADIX: u64 = 0x1_0000_0000;

/// The one-based chunk number of a block address.
pub open spec fn addr_chunk_plus1(a: u64) -> int {
    a as int / ADDR_CHUNK_RADIX as int
}

/// The byte offset of a block address within its chunk.
pub open spec fn addr_offset(a: u64) -> int {
    a as int % ADDR_CHUNK_RADIX as int
}

/// The address of byte `offset` of chunk `chunk_idx` (zero-based).
pub open spec fn spec_make_addr(chunk_idx: int, offset: int) -> int {
    (chunk_idx + 1) * ADDR_CHUNK_RADIX as int + offset
}

/// Build the address of byte `offset` of the chunk numbered `chunk_plus1`
/// (one-based), and relate it to its decomposition.
fn make_addr(chunk_plus1: usize, offset: usize) -> (r: u64)
    requires
        1 <= chunk_plus1 <= MAX_CHUNKS,
        offset < ADDR_CHUNK_RADIX,
    ensures
        r == spec_make_addr(chunk_plus1 - 1, offset as int),
        addr_chunk_plus1(r) == chunk_plus1,
        addr_offset(r) == offset,
        r != 0,
{
    let r = (chunk_plus1 as u64) * ADDR_CHUNK_RADIX + (offset as u64);
    proof {
        lemma_fundamental_div_mod_converse(
            r as int, ADDR_CHUNK_RADIX as int, chunk_plus1 as int, offset as int);
    }
    r
}

/// Pool addresses that agree on chunk number and offset are equal.
pub proof fn lemma_pool_addr_parts_determine(a: u64, b: u64)
    requires
        addr_chunk_plus1(a) == addr_chunk_plus1(b),
        addr_offset(a) == addr_offset(b),
    ensures
        a == b,
{
    vstd::arithmetic::div_mod::lemma_fundamental_div_mod(a as int, ADDR_CHUNK_RADIX as int);
    vstd::arithmetic::div_mod::lemma_fundamental_div_mod(b as int, ADDR_CHUNK_RADIX as int);
}

/// The per-size-class slab pool engine: a spinlock-protected packed counter
/// `(remaining_blocks_in_active_chunk, chunk_count)` over a fixed chunk
/// table, bump-allocating blocks downward from the most recent chunk and
/// mapping a fresh chunk when the active one is exhausted.
pub(crate) struct BaseMemoryPool {
    active_chunk_remaining_free: Spinlock<Vec<MapAlloc>>,
    block_size: usize,
    block_count: usize,
}

impl BaseMemoryPool {
    /// Size of each block in bytes.
    pub(crate) closed spec fn spec_block_size(&self) -> int {
        self.block_size as int
    }

    /// Number of blocks in each chunk.
    pub(crate) closed spec fn spec_block_count(&self) -> int {
        self.block_count as int
    }

    /// Byte length of every mapped chunk.
    pub(crate) closed spec fn chunk_len(&self) -> int {
        page::spec_page_aligned_size(self.block_size as int * self.block_count as int)
    }

    /// Blocks still unallocated in the active (most recent) chunk.
    pub(crate) closed spec fn remaining(&self) -> int {
        self.active_chunk_remaining_free.value() as int % CHUNK_RADIX as int
    }

    /// Number of chunks mapped so far.
    pub(crate) closed spec fn chunk_count(&self) -> int {
        self.active_chunk_remaining_free.value() as int / CHUNK_RADIX as int
    }

    /// The bytes of chunk `c` (zero-based).
    pub(crate) closed spec fn chunk_bytes(&self, c: int) -> Seq<u8> {
        self.active_chunk_remaining_free.data()@[c]@
    }

    /// The pool's shape: the lock is free, the counters decompose within
    /// range, and exactly the first `chunk_count` table entries hold chunks
    /// of the fixed chunk length.
    pub(crate) closed spec fn wf(&self) -> bool {
        &&& !self.active_chunk_remaining_free.is_locked()
        &&& self.active_chunk_remaining_free.inv()
        &&& 1 <= self.block_size
        &&& 1 <= self.block_count <= MAX_BLOCKS
        &&& self.block_size * self.block_count <= 0x1000_0000
        &&& self.active_chunk_remaining_free.data()@.len() == MAX_CHUNKS
        &&& self.chunk_count() <= MAX_CHUNKS
        &&& self.remaining() <= self.block_count
        &&& (self.remaining() > 0 ==> self.chunk_count() >= 1)
        &&& forall|c: int| 0 <= c < self.chunk_count()
                ==> (#[trigger] self.chunk_bytes(c)).len() == self.chunk_len()
        &&& forall|c: int| self.chunk_count() <= c < MAX_CHUNKS
                ==> (#[trigger] self.chunk_bytes(c)).len() == 0
    }

    /// A block address handed out by this pool: its chunk is mapped and its
    /// offset is block-aligned and within the chunk.
    pub(crate) closed spec fn valid_block_addr(&self, a: u64) -> bool {
        &&& 1 <= addr_chunk_plus1(a) <= self.chunk_count()
        &&& addr_offset(a) % self.spec_block_size() == 0
        &&& addr_offset(a) / self.spec_block_size() < self.spec_block_count()
    }

    /// An address whose chunk is mapped and whose offset lies inside it.
    pub(crate) closed spec fn valid_byte_addr(&self, a: u64) -> bool {
        &&& 1 <= addr_chunk_plus1(a) <= self.chunk_count()
        &&& 0 <= addr_offset(a) < self.chunk_len()
    }

    /// The byte stored at a valid byte address.
    pub(crate) closed spec fn byte_at(&self, a: u64) -> u8 {
        self.chunk_bytes(addr_chunk_plus1(a) - 1)[addr_offset(a)]
    }

    /// Every in-range byte offset of a valid block lies at a valid byte
    /// address of the same chunk.
    pub(crate) proof fn lemma_block_byte_addrs(&self, a: u64, k: int)
        requires
            self.wf(),
            self.valid_block_addr(a),
            0 <= k < self.spec_block_size(),
        ensures
            a + k <= u64::MAX,
            self.valid_byte_addr((a + k) as u64),
            addr_chunk_plus1((a + k) as u64) == addr_chunk_plus1(a),
            addr_offset((a + k) as u64) == addr_offset(a) + k,
            self.byte_at((a + k) as u64)
                == self.chunk_bytes(addr_chunk_plus1(a) - 1)[addr_offset(a) + k],
    {
        let bs = self.spec_block_size();
        let bc = self.spec_block_count();
        let off = addr_offset(a);
        let bn = off / bs;
        vstd::arithmetic::div_mod::lemma_fundamental_div_mod(off, bs);
        assert(off == bs * bn);
        assert(bs * bn + bs <= bs * bc) by (nonlinear_arith)
            requires bn < bc, bs >= 1;
        assert(off + k < self.chunk_len());
        lemma_fundamental_div_mod_converse(
            a as int, ADDR_CHUNK_RADIX as int, addr_chunk_plus1(a), off);
        lemma_fundamental_div_mod_converse(
            a + k, ADDR_CHUNK_RADIX as int, addr_chunk_plus1(a), off + k);
    }

    /// Size of each block in bytes.
    pub(crate) fn block_size_exec(&self) -> (r: usize)
        ensures
            r == self.spec_block_size(),
    {
        self.block_size
    }

    /// Create a pool of `block_count` blocks of `block_size` bytes per
    /// chunk, with no chunk mapped yet.
    pub(crate) fn new(block_size: usize, block_count: usize) -> (r: BaseMemoryPool)
        requires
            1 <= block_size,
            1 <= block_count <= MAX_BLOCKS,
            block_size * block_count <= 0x1000_0000,
        ensures
            r.wf(),
            r.spec_block_size() == block_size,
            r.spec_block_count() == block_count,
            r.chunk_count() == 0,
            r.remaining() == 0,
    {
        let mut chunks: Vec<MapAlloc> = Vec::new();
        let mut i: usize = 0;
        while i < MAX_CHUNKS
            invariant
                i <= MAX_CHUNKS,
                chunks@.len() == i,
                forall|c: int| 0 <= c < i ==> (#[trigger] chunks@[c])@.len() == 0,
            decreases MAX_CHUNKS - i,
        {
            chunks.push(MapAlloc::null());
            i = i + 1;
        }
        let r = BaseMemoryPool {
            block_size,
            block_count,
            active_chunk_remaining_free: Spinlock::new(0, chunks),
        };
        proof {
            assert(0u32 & 0x7FFF_FFFFu32 == 0) by (bit_vector);
        }
        r
    }

    /// Hand out the next unused block of the active chunk, mapping a fresh
    /// zeroed chunk first when the active one is exhausted.
    ///
    /// Running out of table space or of mappable memory is fatal by
    /// design; a full table is excluded by precondition here and the
    /// modelled mapping cannot fail.
    pub(crate) fn get_free_block(&mut self) -> (r: u64)
        requires
            old(self).wf(),
            old(self).remaining() > 0 || old(self).chunk_count() < MAX_CHUNKS,
        ensures
            final(self).wf(),
            final(self).spec_block_size() == old(self).spec_block_size(),
            final(self).spec_block_count() == old(self).spec_block_count(),
            old(self).remaining() > 0 ==> {
                &&& final(self).chunk_count() == old(self).chunk_count()
                &&& final(self).remaining() == old(self).remaining() - 1
                &&& forall|c: int| 0 <= c < MAX_CHUNKS
                        ==> #[trigger] final(self).chunk_bytes(c) == old(self).chunk_bytes(c)
            },
            old(self).remaining() == 0 ==> {
                &&& final(self).chunk_count() == old(self).chunk_count() + 1
                &&& final(self).remaining() == old(self).spec_block_count() - 1
                &&& forall|c: int| 0 <= c < MAX_CHUNKS && c != old(self).chunk_count()
                        ==> #[trigger] final(self).chunk_bytes(c) == old(self).chunk_bytes(c)
                &&& final(self).chunk_bytes(old(self).chunk_count())
                        =~= Seq::new(final(self).chunk_len() as nat, |i: int| 0u8)
            },
            r == spec_make_addr(
                final(self).chunk_count() - 1,
                final(self).remaining() * final(self).spec_block_size()),
            final(self).valid_block_addr(r),
            r != 0,
    {
        proof {
            assert(self.block_count * self.block_size <= 0x1000_0000) by (nonlinear_arith)
                requires self.block_size * self.block_count <= 0x1000_0000;
        }
        let mut active_chunk_lock = self.active_chunk_remaining_free.lock();
        let active_chunk_data = active_chunk_lock.read();

        // Decompose the packed counter.
        let mut remaining_blocks = active_chunk_data % CHUNK_RADIX;
        let mut chunk_count = active_chunk_data / CHUNK_RADIX;

        if remaining_blocks == 0 {
            let page_aligned_size = page::get_page_aligned_size(self.block_count * self.block_size);
            let mem = page::alloc_page_aligned(page_aligned_size);
            let chunks = self.active_chunk_remaining_free.borrow_data_mut();
            chunks.set(chunk_count as usize, mem);
            remaining_blocks = self.block_count as u32;
            chunk_count = chunk_count + 1;
        }
        let new_remaining_blocks = remaining_blocks - 1;

        proof {
            assert(new_remaining_blocks * self.block_size < self.block_count * self.block_size)
                by (nonlinear_arith)
                requires new_remaining_blocks < self.block_count, self.block_size >= 1;
        }
        let offset = (new_remaining_blocks as usize) * self.block_size;
        let address = make_addr(chunk_count as usize, offset);

        let packed = new_remaining_blocks + chunk_count * CHUNK_RADIX;
        proof {
            lemma_fundamental_div_mod_converse(
                packed as int, CHUNK_RADIX as int, chunk_count as int, new_remaining_blocks as int);
            assert(packed & 0x7FFF_FFFFu32 == packed) by (bit_vector)
                requires packed < 0x1000_0000u32;
        }
        active_chunk_lock.write(packed);
        self.active_chunk_remaining_free.unlock(active_chunk_lock);

        proof {
            let bs = self.spec_block_size();
            lemma_fundamental_div_mod_converse(offset as int, bs, new_remaining_blocks as int, 0);
            let cc0 = old(self).chunk_count();
            let ccf = final(self).chunk_count();
            assert forall|c: int| 0 <= c < ccf implies
                (#[trigger] final(self).chunk_bytes(c)).len() == final(self).chunk_len() by {
                if c < cc0 {
                    assert(old(self).chunk_bytes(c).len() == old(self).chunk_len());
                }
            }
            assert forall|c: int| ccf <= c < MAX_CHUNKS implies
                (#[trigger] final(self).chunk_bytes(c)).len() == 0 by {
                assert(old(self).chunk_bytes(c).len() == 0);
            }
            assert forall|c: int| 0 <= c < MAX_CHUNKS && c != cc0 implies
                #[trigger] final(self).chunk_bytes(c) == old(self).chunk_bytes(c) by {
                assert(final(self).active_chunk_remaining_free.data()@[c]
                    == old(self).active_chunk_remaining_free.data()@[c]);
            }
            if old(self).remaining() == 0 {
                assert(final(self).chunk_bytes(cc0)
                    =~= Seq::new(final(self).chunk_len() as nat, |i: int| 0u8));
            }
        }
        address
    }

    /// Read the byte at a valid byte address.
    pub(crate) fn read_byte(&mut self, a: u64) -> (r: u8)
        requires
            old(self).wf(),
            old(self).valid_byte_addr(a),
        ensures
            *final(self) == *old(self),
            r == old(self).byte_at(a),
    {
        proof {
            assert(old(self).chunk_bytes(addr_chunk_plus1(a) - 1).len() == old(self).chunk_len());
        }
        let lock = self.active_chunk_remaining_free.lock();
        let chunk_plus1 = (a / ADDR_CHUNK_RADIX) as usize;
        let offset = (a % ADDR_CHUNK_RADIX) as usize;
        let chunks = self.active_chunk_remaining_free.borrow_data();
        let r = chunks[chunk_plus1 - 1].read_byte(offset);
        self.active_chunk_remaining_free.unlock(lock);
        proof {
            crate::sync::index_lock::lemma_spinlock_ext(
                &final(self).active_chunk_remaining_free,
                &old(self).active_chunk_remaining_free);
        }
        r
    }

    /// Write the byte at a valid byte address.
    pub(crate) fn write_byte(&mut self, a: u64, value: u8)
        requires
            old(self).wf(),
            old(self).valid_byte_addr(a),
        ensures
            final(self).wf(),
            final(self).spec_block_size() == old(self).spec_block_size(),
            final(self).spec_block_count() == old(self).spec_block_count(),
            final(self).chunk_count() == old(self).chunk_count(),
            final(self).remaining() == old(self).remaining(),
            final(self).chunk_bytes(addr_chunk_plus1(a) - 1)
                == old(self).chunk_bytes(addr_chunk_plus1(a) - 1)
                    .update(addr_offset(a), value),
            forall|c: int| 0 <= c < MAX_CHUNKS && c != addr_chunk_plus1(a) - 1
                ==> #[trigger] final(self).chunk_bytes(c) == old(self).chunk_bytes(c),
            final(self).byte_at(a) == value,
            forall|b: u64| old(self).valid_byte_addr(b)
                ==> #[trigger] final(self).valid_byte_addr(b),
            forall|b: u64| old(self).valid_byte_addr(b) && b != a
                ==> #[trigger] final(self).byte_at(b) == old(self).byte_at(b),
    {
        proof {
            assert(old(self).chunk_bytes(addr_chunk_plus1(a) - 1).len() == old(self).chunk_len());
        }
        let lock = self.active_chunk_remaining_free.lock();
        let chunk_plus1 = (a / ADDR_CHUNK_RADIX) as usize;
        let offset = (a % ADDR_CHUNK_RADIX) as usize;
        let chunks = self.active_chunk_remaining_free.borrow_data_mut();
        let mut chunk = MapAlloc::null();
        chunks.set_and_swap(chunk_plus1 - 1, &mut chunk);
        chunk.write_byte(offset, value);
        chunks.set_and_swap(chunk_plus1 - 1, &mut chunk);
        self.active_chunk_remaining_free.unlock(lock);
        proof {
            assert forall|c: int| 0 <= c < MAX_CHUNKS && c != addr_chunk_plus1(a) - 1
                implies #[trigger] final(self).chunk_bytes(c) == old(self).chunk_bytes(c) by {
                assert(final(self).active_chunk_remaining_free.data()@[c]
                    == old(self).active_chunk_remaining_free.data()@[c]);
            }
            assert(final(self).chunk_bytes(addr_chunk_plus1(a) - 1).len()
                == old(self).chunk_bytes(addr_chunk_plus1(a) - 1).len());
            assert forall|b: u64| old(self).valid_byte_addr(b) && b != a
                implies #[trigger] final(self).byte_at(b) == old(self).byte_at(b) by {
                if addr_chunk_plus1(b) == addr_chunk_plus1(a) {
                    if addr_offset(b) == addr_offset(a) {
                        lemma_pool_addr_parts_determine(a, b);
                    }
                }
            }
        }
    }

    /// Unmap every recorded chunk and reset the counters.
    pub(crate) fn clear(&mut self)
        requires
            old(self).wf(),
        ensures
            final(self).wf(),
            final(self).spec_block_size() == old(self).spec_block_size(),
            final(self).spec_block_count() == old(self).spec_block_count(),
            final(self).chunk_count() == 0,
            final(self).remaining() == 0,
    {
        let mut active_chunk_lock = self.active_chunk_remaining_free.lock();
        let mut i: usize = 0;
        let chunks = self.active_chunk_remaining_free.borrow_data_mut();
        while i < MAX_CHUNKS
            invariant
                chunks@.len() == MAX_CHUNKS,
                i <= MAX_CHUNKS,
                forall|c: int| 0 <= c < i ==> (#[trigger] chunks@[c])@.len() == 0,
            decreases MAX_CHUNKS - i,
        {
            let mut taken = MapAlloc::null();
            chunks.set_and_swap(i, &mut taken);
            page::free_page_aligned(taken);
            i = i + 1;
        }
        proof {
            assert(0u32 & 0x7FFF_FFFFu32 == 0) by (bit_vector);
        }
        active_chunk_lock.write(0);
        self.active_chunk_remaining_free.unlock(active_chunk_lock);
    }
}

/// Free-list entries pack a zero-based chunk index above this radix and a
/// block number below it; every such entry stays far below the queue's
/// empty sentinel.
pub const FREE_ID_RADIX: u32 = 0x2_0000;

/// The chunk index packed into a free-list entry.
pub open spec fn id_chunk(id: u32) -> int {
    id as int / FREE_ID_RADIX as int
}

/// The block number packed into a free-list entry.
pub open spec fn id_block(id: u32) -> int {
    id as int % FREE_ID_RADIX as int
}

/// The counter-and-free-list face of one [`MemoryPool::allocate`] call:
/// which block address comes back and how the free list, chunk count and
/// bump cursor move — everything except the chunk contents, so that
/// callers which go on to write into the block can still carry it.
pub open spec fn allocate_counters_step(pre: MemoryPool, post: MemoryPool, r: u64) -> bool {
    &&& post.spec_block_size() == pre.spec_block_size()
    &&& post.spec_block_count() == pre.spec_block_count()
    &&& post.valid_block_addr(r)
    &&& r != 0
    &&& pre.free_list().len() > 0 ==> {
        &&& r == pre.free_list()[0]
        &&& post.free_list() == pre.free_list().drop_first()
        &&& post.chunk_count() == pre.chunk_count()
        &&& post.remaining() == pre.remaining()
    }
    &&& pre.free_list().len() == 0 ==> {
        &&& post.free_list() == pre.free_list()
        &&& r == spec_make_addr(
                post.chunk_count() - 1,
                post.remaining() * post.spec_block_size())
        &&& pre.remaining() > 0 ==> {
            &&& post.chunk_count() == pre.chunk_count()
            &&& post.remaining() == pre.remaining() - 1
        }
        &&& pre.remaining() == 0 ==> {
            &&& post.chunk_count() == pre.chunk_count() + 1
            &&& post.remaining() == pre.spec_block_count() - 1
        }
    }
}

/// How one [`MemoryPool::allocate`] call takes the pool from `pre` to
/// `post`, returning block address `r`: the oldest free-list entry is
/// recycled when one exists, else the next block is carved out of the
/// active chunk, mapping a fresh zeroed chunk first if it was exhausted.
/// No byte of an already-mapped chunk changes.
pub open spec fn allocate_step(pre: MemoryPool, post: MemoryPool, r: u64) -> bool {
    &&& allocate_counters_step(pre, post, r)
    &&& pre.free_list().len() > 0 || pre.remaining() > 0 ==>
            forall|c: int| 0 <= c < MAX_CHUNKS
                ==> #[trigger] post.chunk_bytes(c) == pre.chunk_bytes(c)
    &&& pre.free_list().len() == 0 && pre.remaining() == 0 ==>
            forall|c: int| 0 <= c < MAX_CHUNKS && c != pre.chunk_count()
                ==> #[trigger] post.chunk_bytes(c) == pre.chunk_bytes(c)
}

/// How one [`MemoryPool::deallocate`] call takes the pool from `pre` to
/// `post`: chunks and counters are untouched and `ptr` joins the tail of
/// the free list (dropped only if the list is somehow already full).
pub open spec fn deallocate_step(pre: MemoryPool, post: MemoryPool, ptr: u64) -> bool {
    &&& post.spec_block_size() == pre.spec_block_size()
    &&& post.spec_block_count() == pre.spec_block_count()
    &&& post.chunk_count() == pre.chunk_count()
    &&& post.remaining() == pre.remaining()
    &&& forall|c: int| 0 <= c < MAX_CHUNKS
            ==> #[trigger] post.chunk_bytes(c) == pre.chunk_bytes(c)
    &&& pre.free_list().len() < pre.free_queue_capacity() ==>
            post.free_list() == pre.free_list().push(ptr)
    &&& pre.free_list().len() >= pre.free_queue_capacity() ==>
            post.free_list() == pre.free_list()
}

/// A complete size-class pool: the slab engine of [`BaseMemoryPool`] in
/// front of a bounded free-list queue that recycles deallocated blocks in
/// constant time.
pub struct MemoryPool {
    memory_pool: BaseMemoryPool,
    free_queue: QueueU32,
}

impl MemoryPool {
    /// Size of each block in bytes.
    pub closed spec fn spec_block_size(&self) -> int {
        self.memory_pool.spec_block_size()
    }

    /// Number of blocks in each chunk.
    pub closed spec fn spec_block_count(&self) -> int {
        self.memory_pool.spec_block_count()
    }

    /// Number of chunks mapped so far.
    pub closed spec fn chunk_count(&self) -> int {
        self.memory_pool.chunk_count()
    }

    /// Blocks still unallocated in the active chunk.
    pub closed spec fn remaining(&self) -> int {
        self.memory_pool.remaining()
    }

    /// The bytes of chunk `c` (zero-based).
    pub closed spec fn chunk_bytes(&self, c: int) -> Seq<u8> {
        self.memory_pool.chunk_bytes(c)
    }

    /// The block addresses waiting on the free list, oldest first.
    pub closed spec fn free_list(&self) -> Seq<u64> {
        Seq::new(self.free_queue@.len(), |j: int|
            spec_make_addr(
                id_chunk(self.free_queue@[j]),
                id_block(self.free_queue@[j]) * self.spec_block_size()) as u64)
    }

    /// A block address handed out by this pool.
    pub closed spec fn valid_block_addr(&self, a: u64) -> bool {
        self.memory_pool.valid_block_addr(a)
    }

    /// An address of a mapped byte of this pool.
    pub closed spec fn valid_byte_addr(&self, a: u64) -> bool {
        self.memory_pool.valid_byte_addr(a)
    }

    /// The byte stored at a valid byte address.
    pub closed spec fn byte_at(&self, a: u64) -> u8 {
        self.memory_pool.byte_at(a)
    }

    /// The slab engine is well-formed and every queued free-list entry
    /// denotes a block of a mapped chunk.
    pub closed spec fn wf(&self) -> bool {
        &&& self.memory_pool.wf()
        &&& self.free_queue.wf()
        &&& forall|j: int| 0 <= j < self.free_queue@.len() ==> {
                &&& id_chunk(#[trigger] self.free_queue@[j]) < self.memory_pool.chunk_count()
                &&& id_block(self.free_queue@[j]) < self.memory_pool.spec_block_count()
            }
    }

    /// An allocation can be served: a freed block waits on the free list,
    /// the active chunk has blocks left, or the chunk table has room.
    pub open spec fn can_allocate(&self) -> bool {
        self.free_list().len() > 0 || self.remaining() > 0 || self.chunk_count() < MAX_CHUNKS
    }

    /// Every in-range byte offset of a valid block lies at a valid byte
    /// address of the same chunk.
    pub proof fn lemma_block_byte_addrs(&self, a: u64, k: int)
        requires
            self.wf(),
            self.valid_block_addr(a),
            0 <= k < self.spec_block_size(),
        ensures
            a + k <= u64::MAX,
            self.valid_byte_addr((a + k) as u64),
            addr_chunk_plus1((a + k) as u64) == addr_chunk_plus1(a),
            addr_offset((a + k) as u64) == addr_offset(a) + k,
            self.byte_at((a + k) as u64)
                == self.chunk_bytes(addr_chunk_plus1(a) - 1)[addr_offset(a) + k],
    {
        self.memory_pool.lemma_block_byte_addrs(a, k);
    }

    /// Create a pool of `block_size`-byte blocks whose free list can track
    /// `capacity` blocks; each chunk carries `capacity / 1024` blocks, so
    /// the chunk table runs out exactly when `capacity` blocks are live.
    ///
    /// `capacity` must be a power of two of at least [`MAX_CHUNKS`], and
    /// small enough that one chunk stays within the address-model bounds.
    pub fn new(block_size: usize, capacity: usize) -> (r: MemoryPool)
        requires
            1 <= block_size,
            MAX_CHUNKS <= capacity <= 0x400_0000,
            (capacity & (capacity - 1) as usize) == 0,
            block_size * (capacity / 1024) <= 0x1000_0000,
        ensures
            r.wf(),
            r.spec_block_size() == block_size,
            r.spec_block_count() == capacity / 1024,
            r.chunk_count() == 0,
            r.remaining() == 0,
            r.free_list() == Seq::<u64>::empty(),
    {
        let r = MemoryPool {
            memory_pool: BaseMemoryPool::new(block_size, capacity / 1024),
            free_queue: QueueU32::new(capacity),
        };
        proof {
            assert(r.free_list() =~= Seq::<u64>::empty());
        }
        r
    }

    /// Serve one block: recycle the oldest freed block if any waits on the
    /// free list, else carve the next block out of the active chunk.
    pub fn allocate(&mut self) -> (r: u64)
        requires
            old(self).wf(),
            old(self).can_allocate(),
        ensures
            final(self).wf(),
            allocate_step(*old(self), *final(self), r),
    {
        let result = self.free_queue.dequeue();
        match result {
            Some(id) => {
                let ghost bs = old(self).spec_block_size();
                let ghost bc = old(self).spec_block_count();
                proof {
                    assert(old(self).free_queue@[0] == id);
                    assert(id_chunk(id) < old(self).chunk_count()
                        && id_block(id) < old(self).spec_block_count());
                    assert(id_block(id) * bs < bc * bs && bc * bs == bs * bc)
                        by (nonlinear_arith)
                        requires id_block(id) < bc, bs >= 1;
                }
                let chunk_plus1 = (id / FREE_ID_RADIX) as usize + 1;
                let block = (id % FREE_ID_RADIX) as usize;
                let offset = block * self.memory_pool.block_size_exec();
                let addr = make_addr(chunk_plus1, offset);
                proof {
                    lemma_fundamental_div_mod_converse(offset as int, bs, block as int, 0);
                    assert(addr == old(self).free_list()[0]);
                    assert(final(self).free_list() =~= old(self).free_list().drop_first());
                }
                addr
            }
            None => {
                let addr = self.memory_pool.get_free_block();
                proof {
                    assert(final(self).free_list() =~= old(self).free_list());
                }
                addr
            }
        }
    }

    /// Return the block at `ptr` to the free list for reuse.
    ///
    /// Releasing is by design an unchecked contract: the caller asserts
    /// that `ptr` came from this pool, a precondition here. A full free
    /// list (only possible when blocks are returned that were never
    /// counted against its capacity) silently drops the entry.
    pub fn deallocate(&mut self, ptr: u64)
        requires
            old(self).wf(),
            old(self).valid_block_addr(ptr),
        ensures
            final(self).wf(),
            deallocate_step(*old(self), *final(self), ptr),
    {
        proof {
            assert(1 <= addr_chunk_plus1(ptr) <= MAX_CHUNKS);
            assert(addr_offset(ptr) < old(self).spec_block_count() * old(self).spec_block_size()) by {
                let bs = old(self).spec_block_size();
                let bc = old(self).spec_block_count();
                let off = addr_offset(ptr);
                vstd::arithmetic::div_mod::lemma_fundamental_div_mod(off, bs);
                assert(off == bs * (off / bs));
                assert(bs * (off / bs) < bc * bs) by (nonlinear_arith)
                    requires off / bs < bc, bs >= 1;
            }
        }
        let chunk_plus1 = (ptr / ADDR_CHUNK_RADIX) as usize;
        let offset = (ptr % ADDR_CHUNK_RADIX) as usize;
        proof {
            assert(chunk_plus1 == addr_chunk_plus1(ptr));
            assert(1 <= chunk_plus1 <= MAX_CHUNKS);
            assert(offset == addr_offset(ptr));
        }
        let block = offset / self.memory_pool.block_size_exec();
        proof {
            assert(block == addr_offset(ptr) / old(self).spec_block_size());
            assert(block < old(self).spec_block_count());
            assert(block < FREE_ID_RADIX);
        }
        let id = (chunk_plus1 as u32 - 1) * FREE_ID_RADIX + block as u32;
        proof {
            lemma_fundamental_div_mod_converse(
                id as int, FREE_ID_RADIX as int, chunk_plus1 - 1, block as int);
        }
        let _ = self.free_queue.enqueue(id);
        proof {
            let bs = old(self).spec_block_size();
            assert(id_chunk(id) == addr_chunk_plus1(ptr) - 1);
            assert(id_block(id) == addr_offset(ptr) / bs);
            vstd::arithmetic::div_mod::lemma_fundamental_div_mod(addr_offset(ptr), bs);
            vstd::arithmetic::div_mod::lemma_fundamental_div_mod(
                ptr as int, ADDR_CHUNK_RADIX as int);
            assert(spec_make_addr(id_chunk(id), id_block(id) * bs) == ptr);
            if old(self).free_queue@.len() < old(self).free_queue.spec_capacity() {
                assert(final(self).free_list() =~= old(self).free_list().push(ptr));
            } else {
                assert(final(self).free_list() =~= old(self).free_list());
            }
        }
    }

    /// Capacity of the free-list queue.
    pub closed spec fn free_queue_capacity(&self) -> nat {
        self.free_queue.spec_capacity()
    }

    /// A block address of a well-formed pool decomposes into a chunk
    /// number of at most [`MAX_CHUNKS`] and a 32-bit offset.
    pub proof fn lemma_block_addr_bound(&self, a: u64)
        requires
            self.wf(),
            self.valid_block_addr(a),
        ensures
            1 <= addr_chunk_plus1(a) <= MAX_CHUNKS,
            0 <= addr_offset(a) < ADDR_CHUNK_RADIX,
            a < 1025int * (ADDR_CHUNK_RADIX as int),
    {
        vstd::arithmetic::div_mod::lemma_fundamental_div_mod(a as int, ADDR_CHUNK_RADIX as int);
    }

    /// Whether an address is a valid byte or block address depends only on
    /// the pool's geometry and chunk count, never on the bytes stored.
    pub proof fn lemma_valid_same_shape(p0: &MemoryPool, p1: &MemoryPool, b: u64)
        requires
            p1.spec_block_size() == p0.spec_block_size(),
            p1.spec_block_count() == p0.spec_block_count(),
            p1.chunk_count() == p0.chunk_count(),
        ensures
            p1.valid_byte_addr(b) == p0.valid_byte_addr(b),
            p1.valid_block_addr(b) == p0.valid_block_addr(b),
    {
    }

    /// An allocation never disturbs a byte that was already mapped: the
    /// address stays valid and keeps its value.
    pub proof fn lemma_allocate_byte_frame(pre: &MemoryPool, post: &MemoryPool, r: u64, b: u64)
        requires
            pre.wf(),
            post.wf(),
            allocate_step(*pre, *post, r),
            pre.valid_byte_addr(b),
        ensures
            post.valid_byte_addr(b),
            post.byte_at(b) == pre.byte_at(b),
    {
        if pre.free_list().len() == 0 && pre.remaining() == 0 {
            assert(post.chunk_bytes(addr_chunk_plus1(b) - 1)
                == pre.chunk_bytes(addr_chunk_plus1(b) - 1));
        } else {
            assert(post.chunk_bytes(addr_chunk_plus1(b) - 1)
                == pre.chunk_bytes(addr_chunk_plus1(b) - 1));
        }
    }

    /// Read the byte at a valid byte address of this pool.
    pub fn read_byte(&mut self, a: u64) -> (r: u8)
        requires
            old(self).wf(),
            old(self).valid_byte_addr(a),
        ensures
            *final(self) == *old(self),
            r == old(self).byte_at(a),
    {
        self.memory_pool.read_byte(a)
    }

    /// Write the byte at a valid byte address of this pool.
    pub fn write_byte(&mut self, a: u64, value: u8)
        requires
            old(self).wf(),
            old(self).valid_byte_addr(a),
        ensures
            final(self).wf(),
            final(self).spec_block_size() == old(self).spec_block_size(),
            final(self).spec_block_count() == old(self).spec_block_count(),
            final(self).chunk_count() == old(self).chunk_count(),
            final(self).remaining() == old(self).remaining(),
            final(self).free_list() == old(self).free_list(),
            final(self).chunk_bytes(addr_chunk_plus1(a) - 1)
                == old(self).chunk_bytes(addr_chunk_plus1(a) - 1)
                    .update(addr_offset(a), value),
            forall|c: int| 0 <= c < MAX_CHUNKS && c != addr_chunk_plus1(a) - 1
                ==> #[trigger] final(self).chunk_bytes(c) == old(self).chunk_bytes(c),
            final(self).byte_at(a) == value,
            forall|b: u64| old(self).valid_byte_addr(b)
                ==> #[trigger] final(self).valid_byte_addr(b),
            forall|b: u64| old(self).valid_byte_addr(b) && b != a
                ==> #[trigger] final(self).byte_at(b) == old(self).byte_at(b),
    {
        self.memory_pool.write_byte(a, value);
        proof {
            assert(final(self).free_list() =~= old(self).free_list());
        }
    }

    /// Drop every free-list entry and unmap every chunk.
    pub fn clear(&mut self)
        requires
            old(self).wf(),
        ensures
            final(self).wf(),
            final(self).spec_block_size() == old(self).spec_block_size(),
            final(self).spec_block_count() == old(self).spec_block_count(),
            final(self).chunk_count() == 0,
            final(self).remaining() == 0,
            final(self).free_list() == Seq::<u64>::empty(),
    {
        self.free_queue.clear();
        self.memory_pool.clear();
        proof {
            assert(final(self).free_list() =~= Seq::<u64>::empty());
        }
    }
}

} // verus!
