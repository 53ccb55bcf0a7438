use vstd::prelude::*;

use vstd::arithmetic::div_mod::lemma_fundamental_div_mod;
use vstd::arithmetic::div_mod::lemma_fundamental_div_mod_converse;
use crate::mem::memory_pool::MemoryPool;
use crate::mem::memory_pool::allocate_counters_step;
use crate::mem::memory_pool::allocate_step;
use crate::mem::memory_pool::deallocate_step;
use crate::mem::memory_pool::ADDR_CHUNK_RADIX;
use crate::mem::memory_pool::MAX_CHUNKS;
use crate::mem::page;
use crate::mem::page::MapAlloc;
use crate::mem::page::PAGE_SIZE;

verus! {

/// Addresses handed out by the manager place a one-based size-class number
/// above this radix: classes zero through five are the six pools, class six
/// is the large-object path.
pub const CLASS_RADIX: u64 = 0x1_0000_0000_0000;

/// The class number of the large-object path.
pub const LARGE_CLASS: usize = 6;

/// Most large objects that may be live at once in this model.
pub const MAX_LARGE_ALLOCATIONS: usize = 0xFFFE;

/// Largest single request the address model accepts.
pub const MAX_ALLOC_SIZE: usize = 0x4000_0000;

/// The size actually allocated for a request: allocations are aligned at
/// their size boundary, so the larger of size and alignment decides.
pub open spec fn spec_alloc_size(size: int, align: int) -> int {
    if size >= align {
        size
    } else {
        align
    }
}

/// Which class serves a request of `n` bytes: the pool whose power-of-two
/// block size is the smallest that holds `n`, or the large-object path
/// beyond 2048 bytes.
pub open spec fn spec_class_of(n: int) -> int {
    if n <= 64 {
        0
    } else if n <= 128 {
        1
    } else if n <= 256 {
        2
    } else if n <= 512 {
        3
    } else if n <= 1024 {
        4
    } else if n <= 2048 {
        5
    } else {
        6
    }
}

/// Block size of pool class `c`.
pub open spec fn class_block_size(c: int) -> int {
    if c == 0 {
        64
    } else if c == 1 {
        128
    } else if c == 2 {
        256
    } else if c == 3 {
        512
    } else if c == 4 {
        1024
    } else {
        2048
    }
}

/// The class number of an address.
pub open spec fn addr_class(a: u64) -> int {
    a as int / CLASS_RADIX as int - 1
}

/// The class-local part of an address.
pub open spec fn addr_inner(a: u64) -> int {
    a as int % CLASS_RADIX as int
}

/// The zero-based large-object slot of a class-local address part.
pub open spec fn large_slot(inner: int) -> int {
    inner / ADDR_CHUNK_RADIX as int - 1
}

/// The byte offset of a class-local address part within its large object.
pub open spec fn large_offset(inner: int) -> int {
    inner % ADDR_CHUNK_RADIX as int
}

/// The doubling search for the smallest power of two at least `n`,
/// starting from candidate `b`.
pub open spec fn spec_bucket_from(b: int, n: int) -> int
    decreases (if n - b > 0 { n - b } else { 0 }) when b >= 1
{
    if b >= n {
        b
    } else {
        spec_bucket_from(2 * b, n)
    }
}

/// The power-of-two allocation bucket serving a request of `n` bytes; all
/// requests of up to 64 bytes share the smallest bucket. Two requests land
/// in the same storage exactly when their buckets agree.
pub open spec fn spec_bucket(n: int) -> int {
    spec_bucket_from(64, n)
}

/// Addresses that agree on class and class-local part are equal.
proof fn lemma_addr_parts_determine(a: u64, b: u64)
    requires
        addr_class(a) == addr_class(b),
        addr_inner(a) == addr_inner(b),
    ensures
        a == b,
{
    lemma_fundamental_div_mod(a as int, CLASS_RADIX as int);
    lemma_fundamental_div_mod(b as int, CLASS_RADIX as int);
}

/// The doubling search never lands below its start or below `n`.
proof fn lemma_bucket_from_ge(b: int, n: int)
    requires
        b >= 1,
    ensures
        spec_bucket_from(b, n) >= b,
        spec_bucket_from(b, n) >= n,
    decreases (if n - b > 0 { n - b } else { 0 }),
{
    if b < n {
        lemma_bucket_from_ge(2 * b, n);
    }
}

/// For pool-sized requests the bucket is exactly the class block size, and
/// larger requests land beyond every pool bucket.
proof fn lemma_class_bucket(n: int)
    requires
        1 <= n,
    ensures
        spec_class_of(n) < LARGE_CLASS
            ==> spec_bucket(n) == class_block_size(spec_class_of(n)),
        spec_class_of(n) == LARGE_CLASS ==> spec_bucket(n) > 2048,
{
    assert(n <= 64 ==> spec_bucket_from(64, n) == 64);
    if n > 64 {
        assert(spec_bucket_from(64, n) == spec_bucket_from(128, n));
        if n > 128 {
            assert(spec_bucket_from(128, n) == spec_bucket_from(256, n));
            if n > 256 {
                assert(spec_bucket_from(256, n) == spec_bucket_from(512, n));
                if n > 512 {
                    assert(spec_bucket_from(512, n) == spec_bucket_from(1024, n));
                    if n > 1024 {
                        assert(spec_bucket_from(1024, n) == spec_bucket_from(2048, n));
                        if n > 2048 {
                            assert(spec_bucket_from(2048, n) == spec_bucket_from(4096, n));
                            lemma_bucket_from_ge(4096, n);
                        }
                    }
                }
            }
        }
    }
}

/// Requests whose buckets differ are served by different classes, except
/// that two distinct large buckets both fall to the large-object path.
proof fn lemma_bucket_separates_classes(n1: int, n2: int)
    requires
        1 <= n1,
        1 <= n2,
        spec_bucket(n1) != spec_bucket(n2),
    ensures
        spec_class_of(n1) != spec_class_of(n2) || spec_class_of(n1) == LARGE_CLASS,
{
    lemma_class_bucket(n1);
    lemma_class_bucket(n2);
}

/// Compute the larger of size and alignment.
fn alloc_size_of(size: usize, align: usize) -> (r: usize)
    ensures
        r == spec_alloc_size(size as int, align as int),
{
    if size >= align {
        size
    } else {
        align
    }
}

/// Route a request of `n` bytes to its class number.
fn class_of_size(n: usize) -> (c: usize)
    ensures
        c == spec_class_of(n as int),
{
    if n <= 64 {
        0
    } else if n <= 128 {
        1
    } else if n <= 256 {
        2
    } else if n <= 512 {
        3
    } else if n <= 1024 {
        4
    } else if n <= 2048 {
        5
    } else {
        6
    }
}

/// Compute the allocation bucket of a request of `n` bytes by doubling.
fn bucket_of_size(n: usize) -> (r: usize)
    requires
        1 <= n <= MAX_ALLOC_SIZE,
    ensures
        r == spec_bucket(n as int),
{
    let mut b: usize = 64;
    while b < n
        invariant
            64 <= b <= MAX_ALLOC_SIZE * 2,
            spec_bucket_from(b as int, n as int) == spec_bucket(n as int),
            n <= MAX_ALLOC_SIZE,
        decreases (if n > b { n - b } else { 0 }),
    {
        proof {
            assert(spec_bucket_from(b as int, n as int)
                == spec_bucket_from(2 * b as int, n as int));
        }
        b = b * 2;
    }
    b
}

/// Attach a class tag to a class-local address part.
fn tag_addr(class: usize, inner: u64) -> (r: u64)
    requires
        class <= LARGE_CLASS,
        inner < CLASS_RADIX,
    ensures
        addr_class(r) == class,
        addr_inner(r) == inner,
        r != 0,
{
    let r = (class as u64 + 1) * CLASS_RADIX + inner;
    proof {
        lemma_fundamental_div_mod_converse(
            r as int, CLASS_RADIX as int, class as int + 1, inner as int);
    }
    r
}

/// The size-class-routing global allocator: one slab pool per power-of-two
/// class from 64 to 2048 bytes, and a direct page-mapping path for larger
/// objects. Requests go to the pool whose block size is the smallest that
/// holds them.
pub struct MemoryManager {
    pool_64: MemoryPool,
    pool_128: MemoryPool,
    pool_256: MemoryPool,
    pool_512: MemoryPool,
    pool_1024: MemoryPool,
    pool_2048: MemoryPool,
    large: Vec<MapAlloc>,
}

impl MemoryManager {
    /// The pool serving class `c`.
    pub closed spec fn pool(&self, c: int) -> MemoryPool {
        if c == 0 {
            self.pool_64
        } else if c == 1 {
            self.pool_128
        } else if c == 2 {
            self.pool_256
        } else if c == 3 {
            self.pool_512
        } else if c == 4 {
            self.pool_1024
        } else {
            self.pool_2048
        }
    }

    /// The bytes of each large-object slot; a free slot is empty.
    pub closed spec fn large_slots(&self) -> Seq<Seq<u8>> {
        Seq::new(self.large@.len(), |s: int| self.large@[s]@)
    }

    /// Every pool is well-formed and carries its class's block size, and
    /// the large-object table is within the model bound.
    pub closed spec fn wf(&self) -> bool {
        &&& forall|c: int| 0 <= c < LARGE_CLASS ==> (#[trigger] self.pool(c)).wf()
        &&& forall|c: int| 0 <= c < LARGE_CLASS
                ==> (#[trigger] self.pool(c)).spec_block_size() == class_block_size(c)
        &&& self.large@.len() <= MAX_LARGE_ALLOCATIONS
        &&& forall|s: int| 0 <= s < self.large@.len()
                ==> (#[trigger] self.large_slots()[s]).len() <= MAX_ALLOC_SIZE + PAGE_SIZE
    }

    /// An address the manager handed out, pointing at the base of a live
    /// allocation: a block of one of the pools, or an occupied large slot.
    pub closed spec fn valid_object(&self, a: u64) -> bool {
        let c = addr_class(a);
        let inner = addr_inner(a);
        if 0 <= c < LARGE_CLASS {
            self.pool(c).valid_block_addr(inner as u64)
        } else if c == LARGE_CLASS {
            &&& 1 <= large_slot(inner) + 1 <= self.large@.len()
            &&& large_offset(inner) == 0
            &&& self.large_slots()[large_slot(inner)].len() > 0
        } else {
            false
        }
    }

    /// How many bytes the allocation at `a` actually carries.
    pub closed spec fn object_capacity(&self, a: u64) -> int {
        let c = addr_class(a);
        if c < LARGE_CLASS {
            class_block_size(c)
        } else {
            self.large_slots()[large_slot(addr_inner(a))].len() as int
        }
    }

    /// An address of one mapped byte.
    pub closed spec fn valid_byte(&self, a: u64) -> bool {
        let c = addr_class(a);
        let inner = addr_inner(a);
        if 0 <= c < LARGE_CLASS {
            self.pool(c).valid_byte_addr(inner as u64)
        } else if c == LARGE_CLASS {
            &&& 1 <= large_slot(inner) + 1 <= self.large@.len()
            &&& 0 <= large_offset(inner) < self.large_slots()[large_slot(inner)].len()
        } else {
            false
        }
    }

    /// The byte stored at a valid byte address.
    pub closed spec fn byte_at(&self, a: u64) -> u8 {
        let c = addr_class(a);
        let inner = addr_inner(a);
        if c < LARGE_CLASS {
            self.pool(c).byte_at(inner as u64)
        } else {
            self.large_slots()[large_slot(inner)][large_offset(inner)]
        }
    }

    /// A large-object request can be served: a slot is free or the table
    /// has room to grow.
    pub closed spec fn can_allocate_large(&self) -> bool {
        ||| self.large@.len() < MAX_LARGE_ALLOCATIONS
        ||| exists|s: int| 0 <= s < self.large@.len()
                && (#[trigger] self.large_slots()[s]).len() == 0
    }

    /// Every in-range byte offset of a live allocation is a valid byte
    /// address, offset `k` of the object sitting at address `a + k`.
    pub proof fn lemma_object_bytes(&self, a: u64, k: int)
        requires
            self.wf(),
            self.valid_object(a),
            0 <= k < self.object_capacity(a),
        ensures
            a + k <= u64::MAX,
            self.valid_byte((a + k) as u64),
            addr_class((a + k) as u64) == addr_class(a),
            addr_inner((a + k) as u64) == addr_inner(a) + k,
            addr_class(a) < LARGE_CLASS ==> self.byte_at((a + k) as u64)
                == self.pool(addr_class(a)).byte_at((addr_inner(a) + k) as u64),
            addr_class(a) == LARGE_CLASS ==> self.byte_at((a + k) as u64)
                == self.large_slots()[large_slot(addr_inner(a))][k],
            addr_class(a) == LARGE_CLASS
                ==> large_slot(addr_inner((a + k) as u64)) == large_slot(addr_inner(a))
                    && large_offset(addr_inner((a + k) as u64)) == k,
    {
        let c = addr_class(a);
        let inner = addr_inner(a);
        lemma_fundamental_div_mod(a as int, CLASS_RADIX as int);
        if c < LARGE_CLASS {
            self.pool(c).lemma_block_byte_addrs(inner as u64, k);
            lemma_fundamental_div_mod(inner as int, ADDR_CHUNK_RADIX as int);
            lemma_fundamental_div_mod_converse(
                inner + k, ADDR_CHUNK_RADIX as int,
                inner / ADDR_CHUNK_RADIX as int,
                inner % ADDR_CHUNK_RADIX as int + k);
            lemma_fundamental_div_mod_converse(
                a + k, CLASS_RADIX as int, c + 1, inner + k);
        } else {
            assert(self.large_slots()[large_slot(inner)].len()
                <= MAX_ALLOC_SIZE + PAGE_SIZE);
            lemma_fundamental_div_mod(inner as int, ADDR_CHUNK_RADIX as int);
            lemma_fundamental_div_mod_converse(
                inner + k, ADDR_CHUNK_RADIX as int, large_slot(inner) + 1, k);
            lemma_fundamental_div_mod_converse(
                a + k, CLASS_RADIX as int, LARGE_CLASS as int + 1, inner + k);
        }
    }

    /// Borrow the pool serving class `class`; every other part of the
    /// manager is untouched by whatever the caller does with it.
    fn pool_mut(&mut self, class: usize) -> (r: &mut MemoryPool)
        requires
            class < LARGE_CLASS,
        ensures
            *r == old(self).pool(class as int),
            final(self).pool(class as int) == *final(r),
            forall|c: int| 0 <= c < LARGE_CLASS && c != class
                ==> #[trigger] final(self).pool(c) == old(self).pool(c),
            final(self).large == old(self).large,
    {
        if class == 0 {
            &mut self.pool_64
        } else if class == 1 {
            &mut self.pool_128
        } else if class == 2 {
            &mut self.pool_256
        } else if class == 3 {
            &mut self.pool_512
        } else if class == 4 {
            &mut self.pool_1024
        } else {
            &mut self.pool_2048
        }
    }

    /// Create a manager whose six pools track up to the given numbers of
    /// free blocks; each capacity must be a power of two between
    /// [`MAX_CHUNKS`] and `0x400_0000`.
    pub fn new(
        capacity_64: usize,
        capacity_128: usize,
        capacity_256: usize,
        capacity_512: usize,
        capacity_1024: usize,
        capacity_2048: usize,
    ) -> (r: MemoryManager)
        requires
            MAX_CHUNKS <= capacity_64 <= 0x400_0000,
            (capacity_64 & (capacity_64 - 1) as usize) == 0,
            MAX_CHUNKS <= capacity_128 <= 0x400_0000,
            (capacity_128 & (capacity_128 - 1) as usize) == 0,
            MAX_CHUNKS <= capacity_256 <= 0x400_0000,
            (capacity_256 & (capacity_256 - 1) as usize) == 0,
            MAX_CHUNKS <= capacity_512 <= 0x400_0000,
            (capacity_512 & (capacity_512 - 1) as usize) == 0,
            MAX_CHUNKS <= capacity_1024 <= 0x400_0000,
            (capacity_1024 & (capacity_1024 - 1) as usize) == 0,
            MAX_CHUNKS <= capacity_2048 <= 0x400_0000,
            (capacity_2048 & (capacity_2048 - 1) as usize) == 0,
        ensures
            r.wf(),
            forall|c: int| 0 <= c < LARGE_CLASS ==> {
                &&& (#[trigger] r.pool(c)).chunk_count() == 0
                &&& r.pool(c).remaining() == 0
                &&& r.pool(c).free_list() == Seq::<u64>::empty()
            },
            r.large_slots() == Seq::<Seq<u8>>::empty(),
    {
        let r = MemoryManager {
            pool_64: MemoryPool::new(64, capacity_64),
            pool_128: MemoryPool::new(128, capacity_128),
            pool_256: MemoryPool::new(256, capacity_256),
            pool_512: MemoryPool::new(512, capacity_512),
            pool_1024: MemoryPool::new(1024, capacity_1024),
            pool_2048: MemoryPool::new(2048, capacity_2048),
            large: Vec::new(),
        };
        proof {
            assert(r.large_slots() =~= Seq::<Seq<u8>>::empty());
        }
        r
    }

    /// Serve a large-object request of `n` bytes from a free or fresh
    /// table slot, returning the tagged address of its first byte.
    fn alloc_large(&mut self, n: usize) -> (r: u64)
        requires
            old(self).wf(),
            old(self).can_allocate_large(),
            1 <= n <= MAX_ALLOC_SIZE,
        ensures
            final(self).wf(),
            r != 0,
            addr_class(r) == LARGE_CLASS,
            large_offset(addr_inner(r)) == 0,
            final(self).valid_object(r),
            final(self).object_capacity(r)
                == page::spec_page_aligned_size(n as int),
            forall|k: int| 0 <= k < final(self).object_capacity(r)
                ==> #[trigger] final(self).large_slots()[large_slot(addr_inner(r))][k] == 0,
            forall|c: int| 0 <= c < LARGE_CLASS
                ==> #[trigger] final(self).pool(c) == old(self).pool(c),
            ({
                let s = large_slot(addr_inner(r));
                &&& 0 <= s < final(self).large@.len()
                &&& (s < old(self).large@.len() ==> {
                    &&& old(self).large_slots()[s].len() == 0
                    &&& final(self).large@.len() == old(self).large@.len()
                })
                &&& (s == old(self).large@.len()
                        ==> final(self).large@.len() == old(self).large@.len() + 1)
                &&& forall|t: int| 0 <= t < old(self).large@.len() && t != s
                        ==> final(self).large_slots()[t] == old(self).large_slots()[t]
            }),
    {
        let page_aligned_size = page::get_page_aligned_size(n);
        let mem = page::alloc_page_aligned(page_aligned_size);

        let mut slot: usize = 0;
        let count = self.large.len();
        while slot < count && self.large[slot].len() != 0
            invariant
                count == self.large@.len(),
                slot <= count,
                *self == *old(self),
                forall|t: int| 0 <= t < slot
                    ==> (#[trigger] self.large@[t])@.len() != 0,
            decreases count - slot,
        {
            slot = slot + 1;
        }
        if slot == count {
            proof {
                if old(self).large@.len() >= MAX_LARGE_ALLOCATIONS {
                    let s = choose|s: int| 0 <= s < old(self).large@.len()
                        && (#[trigger] old(self).large_slots()[s]).len() == 0;
                    assert(old(self).large@[s]@.len() != 0);
                }
            }
            self.large.push(mem);
        } else {
            let mut taken = mem;
            self.large.set_and_swap(slot, &mut taken);
            page::free_page_aligned(taken);
        }
        let inner = (slot as u64 + 1) * ADDR_CHUNK_RADIX;
        proof {
            lemma_fundamental_div_mod_converse(
                inner as int, ADDR_CHUNK_RADIX as int, slot as int + 1, 0);
        }
        let r = tag_addr(LARGE_CLASS, inner);
        proof {
            assert(final(self).large_slots()[slot as int].len()
                == page::spec_page_aligned_size(n as int));
            assert forall|t: int| 0 <= t < old(self).large@.len() && t != slot
                implies final(self).large_slots()[t] == old(self).large_slots()[t] by {
                assert(final(self).large@[t] == old(self).large@[t]);
            }
            assert forall|c: int| 0 <= c < LARGE_CLASS
                implies #[trigger] final(self).pool(c) == old(self).pool(c) by {
            }
            assert forall|t: int| 0 <= t < final(self).large@.len()
                implies (#[trigger] final(self).large_slots()[t]).len()
                    <= MAX_ALLOC_SIZE + PAGE_SIZE by {
                if t != slot {
                    assert(old(self).large_slots()[t].len() <= MAX_ALLOC_SIZE + PAGE_SIZE);
                }
            }
        }
        r
    }

    /// Allocate at least `max(size, align)` bytes, routing the request to
    /// the pool of the smallest power-of-two block size that holds it, or
    /// to the large-object path beyond 2048 bytes.
    ///
    /// The returned memory is as large as the request; pooled blocks may
    /// carry stale bytes from earlier use, the large path returns zeroed
    /// pages.
    pub fn allocate(&mut self, size: usize, align: usize) -> (r: u64)
        requires
            old(self).wf(),
            1 <= align,
            spec_alloc_size(size as int, align as int) <= MAX_ALLOC_SIZE,
            spec_class_of(spec_alloc_size(size as int, align as int)) < LARGE_CLASS
                ==> old(self).pool(
                    spec_class_of(spec_alloc_size(size as int, align as int))).can_allocate(),
            spec_class_of(spec_alloc_size(size as int, align as int)) == LARGE_CLASS
                ==> old(self).can_allocate_large(),
        ensures
            final(self).wf(),
            r != 0,
            addr_class(r) == spec_class_of(spec_alloc_size(size as int, align as int)),
            final(self).valid_object(r),
            final(self).object_capacity(r) >= spec_alloc_size(size as int, align as int),
            ({
                let class = spec_class_of(spec_alloc_size(size as int, align as int));
                if class < LARGE_CLASS {
                    &&& allocate_step(
                            old(self).pool(class), final(self).pool(class), addr_inner(r) as u64)
                    &&& forall|c: int| 0 <= c < LARGE_CLASS && c != class
                            ==> #[trigger] final(self).pool(c) == old(self).pool(c)
                    &&& final(self).large_slots() == old(self).large_slots()
                } else {
                    &&& final(self).object_capacity(r)
                            == page::spec_page_aligned_size(
                                spec_alloc_size(size as int, align as int))
                    &&& forall|k: int| 0 <= k < final(self).object_capacity(r)
                            ==> #[trigger] final(self).byte_at((r + k) as u64) == 0
                    &&& forall|c: int| 0 <= c < LARGE_CLASS
                            ==> #[trigger] final(self).pool(c) == old(self).pool(c)
                    &&& large_offset(addr_inner(r)) == 0
                    &&& final(self).large_slots().len() >= old(self).large_slots().len()
                    &&& (large_slot(addr_inner(r)) < old(self).large_slots().len()
                            ==> old(self).large_slots()[large_slot(addr_inner(r))].len() == 0)
                    &&& forall|t: int| 0 <= t < old(self).large_slots().len()
                            && t != large_slot(addr_inner(r))
                            ==> final(self).large_slots()[t] == old(self).large_slots()[t]
                }
            }),
    {
        let allocation_size = alloc_size_of(size, align);
        let class = class_of_size(allocation_size);
        if class < LARGE_CLASS {
            let pool = self.pool_mut(class);
            let inner = pool.allocate();
            proof {
                pool.lemma_block_addr_bound(inner);
            }
            let r = tag_addr(class, inner);
            proof {
                assert forall|c: int| 0 <= c < LARGE_CLASS && c != class
                    implies #[trigger] final(self).pool(c) == old(self).pool(c) by {
                }
                assert(final(self).large_slots() =~= old(self).large_slots());
            }
            r
        } else {
            let r = self.alloc_large(allocation_size);
            proof {
                let cap = final(self).object_capacity(r);
                assert forall|k: int| 0 <= k < cap
                    implies #[trigger] final(self).byte_at((r + k) as u64) == 0 by {
                    final(self).lemma_object_bytes(r, k);
                }
            }
            r
        }
    }

    /// Return the allocation at `ptr` to its pool's free list, or release
    /// its large-object slot. The caller supplies the layout the block was
    /// allocated with, which routes the release; a pointer from anywhere
    /// else is a contract violation, excluded here by precondition.
    pub fn dealloc(&mut self, ptr: u64, size: usize, align: usize)
        requires
            old(self).wf(),
            old(self).valid_object(ptr),
            addr_class(ptr) == spec_class_of(spec_alloc_size(size as int, align as int)),
        ensures
            final(self).wf(),
            ({
                let class = addr_class(ptr);
                if class < LARGE_CLASS {
                    &&& deallocate_step(
                            old(self).pool(class), final(self).pool(class), addr_inner(ptr) as u64)
                    &&& forall|c: int| 0 <= c < LARGE_CLASS && c != class
                            ==> #[trigger] final(self).pool(c) == old(self).pool(c)
                    &&& final(self).large_slots() == old(self).large_slots()
                } else {
                    &&& final(self).large_slots().len() == old(self).large_slots().len()
                    &&& final(self).large_slots()[large_slot(addr_inner(ptr))].len() == 0
                    &&& forall|t: int| 0 <= t < old(self).large_slots().len()
                            && t != large_slot(addr_inner(ptr))
                            ==> final(self).large_slots()[t] == old(self).large_slots()[t]
                    &&& forall|c: int| 0 <= c < LARGE_CLASS
                            ==> #[trigger] final(self).pool(c) == old(self).pool(c)
                }
            }),
    {
        let allocation_size = alloc_size_of(size, align);
        let class = class_of_size(allocation_size);
        if class < LARGE_CLASS {
            let inner = ptr % CLASS_RADIX;
            let pool = self.pool_mut(class);
            pool.deallocate(inner);
            proof {
                assert(final(self).large_slots() =~= old(self).large_slots());
            }
        } else {
            let inner = ptr % CLASS_RADIX;
            let slot = (inner / ADDR_CHUNK_RADIX) as usize - 1;
            let mut taken = MapAlloc::null();
            self.large.set_and_swap(slot, &mut taken);
            page::free_page_aligned(taken);
            proof {
                assert forall|t: int| 0 <= t < old(self).large@.len()
                    && t != large_slot(addr_inner(ptr))
                    implies final(self).large_slots()[t] == old(self).large_slots()[t] by {
                    assert(final(self).large@[t] == old(self).large@[t]);
                }
                assert forall|c: int| 0 <= c < LARGE_CLASS
                    implies #[trigger] final(self).pool(c) == old(self).pool(c) by {
                }
                assert forall|t: int| 0 <= t < final(self).large@.len()
                    implies (#[trigger] final(self).large_slots()[t]).len()
                        <= MAX_ALLOC_SIZE + PAGE_SIZE by {
                    if t != slot {
                        assert(old(self).large_slots()[t].len()
                            <= MAX_ALLOC_SIZE + PAGE_SIZE);
                    }
                }
            }
        }
    }


    /// Allocate like [`MemoryManager::allocate`], but guarantee zero-filled
    /// memory for the requested byte length: mapped pages are zero by the
    /// mapping contract, and pooled blocks are explicitly zero-filled,
    /// since blocks are not implicitly zeroed on reuse.
    pub fn alloc_zeroed(&mut self, size: usize, align: usize) -> (r: u64)
        requires
            old(self).wf(),
            1 <= align,
            spec_alloc_size(size as int, align as int) <= MAX_ALLOC_SIZE,
            spec_class_of(spec_alloc_size(size as int, align as int)) < LARGE_CLASS
                ==> old(self).pool(
                    spec_class_of(spec_alloc_size(size as int, align as int))).can_allocate(),
            spec_class_of(spec_alloc_size(size as int, align as int)) == LARGE_CLASS
                ==> old(self).can_allocate_large(),
        ensures
            final(self).wf(),
            r != 0,
            addr_class(r) == spec_class_of(spec_alloc_size(size as int, align as int)),
            final(self).valid_object(r),
            final(self).object_capacity(r) >= spec_alloc_size(size as int, align as int),
            forall|k: int| 0 <= k < size ==> #[trigger] final(self).byte_at((r + k) as u64) == 0,
            forall|c: int| 0 <= c < LARGE_CLASS
                && c != spec_class_of(spec_alloc_size(size as int, align as int))
                ==> #[trigger] final(self).pool(c) == old(self).pool(c),
            ({
                let class = spec_class_of(spec_alloc_size(size as int, align as int));
                if class < LARGE_CLASS {
                    &&& allocate_counters_step(
                            old(self).pool(class), final(self).pool(class),
                            addr_inner(r) as u64)
                    &&& final(self).large_slots() == old(self).large_slots()
                } else {
                    &&& final(self).object_capacity(r)
                            == page::spec_page_aligned_size(
                                spec_alloc_size(size as int, align as int))
                    &&& large_offset(addr_inner(r)) == 0
                    &&& final(self).large_slots().len() >= old(self).large_slots().len()
                    &&& (large_slot(addr_inner(r)) < old(self).large_slots().len()
                            ==> old(self).large_slots()[large_slot(addr_inner(r))].len() == 0)
                    &&& forall|t: int| 0 <= t < old(self).large_slots().len()
                            && t != large_slot(addr_inner(r))
                            ==> final(self).large_slots()[t] == old(self).large_slots()[t]
                }
            }),
    {
        let allocation_size = alloc_size_of(size, align);
        let pot_class = class_of_size(allocation_size);
        // mapped pages always come back zeroed, so only pooled blocks are
        // re-zeroed by hand
        if pot_class >= LARGE_CLASS {
            let r = self.allocate(size, align);
            return r;
        }

        let new = self.allocate(size, align);
        let mut s: usize = 0;
        proof {
            assert(size <= final(self).object_capacity(new)) by {
                assert(class_block_size(pot_class as int)
                    >= spec_alloc_size(size as int, align as int));
            }
            assert forall|c: int| 0 <= c < LARGE_CLASS && c != pot_class
                implies #[trigger] self.pool(c) == old(self).pool(c) by {
            }
        }
        while s < size
            invariant
                self.wf(),
                self.valid_object(new),
                s <= size,
                size <= self.object_capacity(new),
                addr_class(new) == pot_class < LARGE_CLASS,
                pot_class == spec_class_of(spec_alloc_size(size as int, align as int)),
                forall|k: int| 0 <= k < s ==> #[trigger] self.byte_at((new + k) as u64) == 0,
                forall|c: int| 0 <= c < LARGE_CLASS && c != pot_class
                    ==> #[trigger] self.pool(c) == old(self).pool(c),
                self.large_slots() == old(self).large_slots(),
                allocate_counters_step(
                    old(self).pool(pot_class as int), self.pool(pot_class as int),
                    addr_inner(new) as u64),
            decreases size - s,
        {
            proof {
                self.lemma_object_bytes(new, s as int);
            }
            let ghost before = *self;
            self.write_byte(new + s as u64, 0);
            proof {
                assert(self.valid_object(new)) by {
                    crate::mem::memory_pool::MemoryPool::lemma_valid_same_shape(
                        &before.pool(addr_class(new)), &self.pool(addr_class(new)),
                        addr_inner(new) as u64);
                    assert forall|c: int| 0 <= c < LARGE_CLASS
                        implies (#[trigger] self.pool(c)).chunk_count()
                            == before.pool(c).chunk_count() by {}
                }
                assert(self.object_capacity(new) == before.object_capacity(new));
                assert forall|k: int| 0 <= k < s + 1
                    implies #[trigger] self.byte_at((new + k) as u64) == 0 by {
                    before.lemma_object_bytes(new, k);
                    self.lemma_object_bytes(new, k);
                    if k < s {
                        assert((new + k) as u64 != (new + s) as u64);
                        assert(before.valid_byte((new + k) as u64));
                    }
                }
                assert forall|c: int| 0 <= c < LARGE_CLASS && c != pot_class
                    implies #[trigger] self.pool(c) == old(self).pool(c) by {
                    assert(self.pool(c) == before.pool(c));
                }
                assert(allocate_counters_step(
                    old(self).pool(pot_class as int), self.pool(pot_class as int),
                    addr_inner(new) as u64)) by {
                    let p0 = before.pool(pot_class as int);
                    let p1 = self.pool(pot_class as int);
                    assert(p1.free_list() == p0.free_list());
                    assert(p1.chunk_count() == p0.chunk_count());
                    assert(p1.remaining() == p0.remaining());
                    assert(p1.spec_block_size() == p0.spec_block_size());
                    assert(p1.spec_block_count() == p0.spec_block_count());
                    crate::mem::memory_pool::MemoryPool::lemma_valid_same_shape(
                        &p0, &p1, addr_inner(new) as u64);
                }
            }
            s = s + 1;
        }
        new
    }

    /// Change the size of the allocation at `ptr`. When the old and new
    /// requests fall in the same power-of-two bucket the pointer is
    /// returned unchanged and nothing happens: the same bucket implies
    /// "big enough" because bucket boundaries are powers of two. Otherwise
    /// a new block is obtained, the lesser of the old and new lengths is
    /// copied over, and the old block is freed.
    pub fn realloc(&mut self, ptr: u64, size: usize, align: usize, new_size: usize) -> (r: u64)
        requires
            old(self).wf(),
            1 <= align,
            spec_alloc_size(size as int, align as int) <= MAX_ALLOC_SIZE,
            spec_alloc_size(new_size as int, align as int) <= MAX_ALLOC_SIZE,
            old(self).valid_object(ptr),
            addr_class(ptr) == spec_class_of(spec_alloc_size(size as int, align as int)),
            size <= old(self).object_capacity(ptr),
            spec_bucket(spec_alloc_size(size as int, align as int))
                != spec_bucket(spec_alloc_size(new_size as int, align as int)) ==> {
                &&& spec_class_of(spec_alloc_size(new_size as int, align as int)) < LARGE_CLASS
                        ==> old(self).pool(spec_class_of(
                            spec_alloc_size(new_size as int, align as int))).can_allocate()
                &&& spec_class_of(spec_alloc_size(new_size as int, align as int)) == LARGE_CLASS
                        ==> old(self).can_allocate_large()
            },
        ensures
            final(self).wf(),
            spec_bucket(spec_alloc_size(size as int, align as int))
                == spec_bucket(spec_alloc_size(new_size as int, align as int)) ==> {
                &&& r == ptr
                &&& *final(self) == *old(self)
            },
            spec_bucket(spec_alloc_size(size as int, align as int))
                != spec_bucket(spec_alloc_size(new_size as int, align as int)) ==> {
                &&& r != ptr
                &&& r != 0
                &&& addr_class(r)
                        == spec_class_of(spec_alloc_size(new_size as int, align as int))
                &&& final(self).valid_object(r)
                &&& final(self).object_capacity(r)
                        >= spec_alloc_size(new_size as int, align as int)
                &&& forall|k: int| 0 <= k < size && k < new_size
                        ==> #[trigger] final(self).byte_at((r + k) as u64)
                            == old(self).byte_at((ptr + k) as u64)
                &&& addr_class(ptr) == LARGE_CLASS
                        ==> final(self).large_slots()[large_slot(addr_inner(ptr))].len() == 0
                &&& addr_class(ptr) < LARGE_CLASS
                        ==> deallocate_step(
                                old(self).pool(addr_class(ptr)),
                                final(self).pool(addr_class(ptr)),
                                addr_inner(ptr) as u64)
                &&& forall|c: int| 0 <= c < LARGE_CLASS && c != addr_class(ptr)
                        && c != spec_class_of(spec_alloc_size(new_size as int, align as int))
                        ==> #[trigger] final(self).pool(c) == old(self).pool(c)
            },
    {
        let old_alloc_size = alloc_size_of(size, align);
        let new_alloc_size = alloc_size_of(new_size, align);

        let bucket_old = bucket_of_size(old_alloc_size);
        let bucket_new = bucket_of_size(new_alloc_size);
        // the same bucket is big enough for the new request by construction
        if bucket_old == bucket_new {
            return ptr;
        }

        let ghost pre = *old(self);
        let new = self.allocate(new_size, align);
        let ghost mid = *self;
        let ghost pc = addr_class(ptr);
        let ghost nc = addr_class(new);
        proof {
            lemma_bucket_separates_classes(old_alloc_size as int, new_alloc_size as int);
            // the old and new allocations never share storage
            if pc == LARGE_CLASS && nc == LARGE_CLASS {
                assert(large_slot(addr_inner(new)) != large_slot(addr_inner(ptr)));
            }
            if ptr == new {
                assert(false);
            }
            // the old object rode through the allocation untouched
            if pc < LARGE_CLASS {
                assert(mid.pool(pc) == pre.pool(pc));
            } else {
                let sptr = large_slot(addr_inner(ptr));
                assert(0 <= sptr < pre.large_slots().len());
                if nc == LARGE_CLASS {
                    assert(mid.large_slots()[sptr] == pre.large_slots()[sptr]);
                    assert(mid.large_slots().len() >= pre.large_slots().len());
                } else {
                    assert(mid.large_slots() == pre.large_slots());
                }
            }
            assert(mid.valid_object(ptr));
            assert(mid.object_capacity(ptr) == pre.object_capacity(ptr));
            assert forall|k: int| 0 <= k < size
                implies #[trigger] mid.byte_at((ptr + k) as u64)
                    == pre.byte_at((ptr + k) as u64) by {
                pre.lemma_object_bytes(ptr, k);
                mid.lemma_object_bytes(ptr, k);
            }
            assert forall|c: int| 0 <= c < LARGE_CLASS && c != nc
                implies #[trigger] mid.pool(c) == pre.pool(c) by {
                assert(self.pool(c) == pre.pool(c));
            }
        }

        // copy the lesser of the old and new lengths from the old block
        let copy_size = if size < new_size { size } else { new_size };
        let mut s: usize = 0;
        while s < copy_size
            invariant
                self.wf(),
                pre.wf(),
                pre.valid_object(ptr),
                copy_size <= size <= mid.object_capacity(ptr),
                copy_size <= new_size,
                s <= copy_size,
                pc == addr_class(ptr) && nc == addr_class(new),
                pc == spec_class_of(spec_alloc_size(size as int, align as int)),
                nc == spec_class_of(spec_alloc_size(new_size as int, align as int)),
                self.valid_object(new),
                self.valid_object(ptr),
                self.object_capacity(new) >= new_size,
                self.object_capacity(new) >= spec_alloc_size(new_size as int, align as int),
                self.object_capacity(ptr) == mid.object_capacity(ptr),
                nc != pc || (pc == LARGE_CLASS
                    && large_slot(addr_inner(new)) != large_slot(addr_inner(ptr))),
                forall|c: int| 0 <= c < LARGE_CLASS && c != nc
                    ==> #[trigger] self.pool(c) == pre.pool(c),
                forall|k: int| 0 <= k < s ==> #[trigger] self.byte_at((new + k) as u64)
                    == pre.byte_at((ptr + k) as u64),
                forall|k: int| 0 <= k < copy_size ==> #[trigger] self.byte_at((ptr + k) as u64)
                    == pre.byte_at((ptr + k) as u64),
            decreases copy_size - s,
        {
            proof {
                self.lemma_object_bytes(ptr, s as int);
                self.lemma_object_bytes(new, s as int);
            }
            let ghost before = *self;
            let v = self.read_byte(ptr + s as u64);
            self.write_byte(new + s as u64, v);
            proof {
                let a = (new + s) as u64;
                // geometry is untouched by a byte write, so both objects stay valid
                if nc < LARGE_CLASS {
                    crate::mem::memory_pool::MemoryPool::lemma_valid_same_shape(
                        &before.pool(nc), &self.pool(nc), addr_inner(new) as u64);
                }
                if pc < LARGE_CLASS {
                    crate::mem::memory_pool::MemoryPool::lemma_valid_same_shape(
                        &before.pool(pc), &self.pool(pc), addr_inner(ptr) as u64);
                }
                assert(self.valid_object(new));
                assert(self.valid_object(ptr));
                assert(self.object_capacity(new) == before.object_capacity(new));
                assert(self.object_capacity(ptr) == before.object_capacity(ptr));
                assert forall|k: int| 0 <= k < s + 1
                    implies #[trigger] self.byte_at((new + k) as u64)
                        == pre.byte_at((ptr + k) as u64) by {
                    before.lemma_object_bytes(new, k);
                    self.lemma_object_bytes(new, k);
                    if k < s {
                        assert((new + k) as u64 != a);
                        assert(before.valid_byte((new + k) as u64));
                    }
                }
                assert forall|c: int| 0 <= c < LARGE_CLASS && c != nc
                    implies #[trigger] self.pool(c) == pre.pool(c) by {
                    assert(self.pool(c) == before.pool(c));
                }
                assert forall|k: int| 0 <= k < copy_size
                    implies #[trigger] self.byte_at((ptr + k) as u64)
                        == pre.byte_at((ptr + k) as u64) by {
                    before.lemma_object_bytes(ptr, k);
                    self.lemma_object_bytes(ptr, k);
                    before.lemma_object_bytes(new, s as int);
                    if (ptr + k) as u64 == a {
                        // impossible: the write target is in the other object
                        assert(addr_class((ptr + k) as u64) == pc);
                        assert(addr_class(a) == nc);
                        if pc == LARGE_CLASS {
                            assert(large_slot(addr_inner((ptr + k) as u64))
                                == large_slot(addr_inner(ptr)));
                            assert(large_slot(addr_inner(a))
                                == large_slot(addr_inner(new)));
                        }
                        assert(false);
                    }
                    assert(before.valid_byte((ptr + k) as u64));
                }
            }
            s = s + 1;
        }

        let ghost copied = *self;
        self.dealloc(ptr, size, align);
        proof {
            // releasing the old block leaves the new one untouched
            if nc < LARGE_CLASS {
                assert(copied.pool(nc) == final(self).pool(nc));
            } else {
                assert(final(self).large_slots()[large_slot(addr_inner(new))]
                    == copied.large_slots()[large_slot(addr_inner(new))]);
                assert(final(self).large@.len() == final(self).large_slots().len());
                assert(copied.large@.len() == copied.large_slots().len());
            }
            assert(final(self).valid_object(new));
            assert(final(self).object_capacity(new) == copied.object_capacity(new));
            assert forall|k: int| 0 <= k < size && k < new_size
                implies #[trigger] final(self).byte_at((new + k) as u64)
                    == pre.byte_at((ptr + k) as u64) by {
                copied.lemma_object_bytes(new, k);
                final(self).lemma_object_bytes(new, k);
            }
            if pc < LARGE_CLASS {
                assert(copied.pool(pc) == pre.pool(pc));
                assert(deallocate_step(
                    pre.pool(pc), final(self).pool(pc), addr_inner(ptr) as u64));
            }
            assert forall|c: int| 0 <= c < LARGE_CLASS && c != pc && c != nc
                implies #[trigger] final(self).pool(c) == old(self).pool(c) by {
                assert(self.pool(c) == copied.pool(c));
                assert(copied.pool(c) == pre.pool(c));
            }
        }
        new
    }

    /// Read the byte at a valid byte address.
    pub fn read_byte(&mut self, a: u64) -> (r: u8)
        requires
            old(self).wf(),
            old(self).valid_byte(a),
        ensures
            *final(self) == *old(self),
            r == old(self).byte_at(a),
    {
        let class = (a / CLASS_RADIX) as usize - 1;
        let inner = a % CLASS_RADIX;
        if class < LARGE_CLASS {
            let pool = self.pool_mut(class);
            let r = pool.read_byte(inner);
            proof {
                assert(final(self).pool(0) == old(self).pool(0));
                assert(final(self).pool(1) == old(self).pool(1));
                assert(final(self).pool(2) == old(self).pool(2));
                assert(final(self).pool(3) == old(self).pool(3));
                assert(final(self).pool(4) == old(self).pool(4));
                assert(final(self).pool(5) == old(self).pool(5));
                assert(final(self).large == old(self).large);
            }
            r
        } else {
            let slot = (inner / ADDR_CHUNK_RADIX) as usize - 1;
            let offset = (inner % ADDR_CHUNK_RADIX) as usize;
            self.large[slot].read_byte(offset)
        }
    }

    /// Write the byte at a valid byte address; every other byte of every
    /// allocation keeps its value.
    pub fn write_byte(&mut self, a: u64, value: u8)
        requires
            old(self).wf(),
            old(self).valid_byte(a),
        ensures
            final(self).wf(),
            final(self).byte_at(a) == value,
            forall|b: u64| old(self).valid_byte(b)
                ==> #[trigger] final(self).valid_byte(b),
            forall|b: u64| old(self).valid_byte(b) && b != a
                ==> #[trigger] final(self).byte_at(b) == old(self).byte_at(b),
            forall|c: int| 0 <= c < LARGE_CLASS ==> {
                &&& (#[trigger] final(self).pool(c)).free_list()
                        == old(self).pool(c).free_list()
                &&& final(self).pool(c).chunk_count() == old(self).pool(c).chunk_count()
                &&& final(self).pool(c).remaining() == old(self).pool(c).remaining()
                &&& final(self).pool(c).spec_block_size() == old(self).pool(c).spec_block_size()
                &&& final(self).pool(c).spec_block_count()
                        == old(self).pool(c).spec_block_count()
            },
            final(self).large_slots().len() == old(self).large_slots().len(),
            forall|t: int| 0 <= t < old(self).large_slots().len()
                ==> final(self).large_slots()[t].len() == old(self).large_slots()[t].len(),
            forall|c: int| 0 <= c < LARGE_CLASS && c != addr_class(a)
                ==> #[trigger] final(self).pool(c) == old(self).pool(c),
            addr_class(a) < LARGE_CLASS
                ==> final(self).large_slots() == old(self).large_slots(),
    {
        let class = (a / CLASS_RADIX) as usize - 1;
        let inner = a % CLASS_RADIX;
        if class < LARGE_CLASS {
            let pool = self.pool_mut(class);
            pool.write_byte(inner, value);
            proof {
                assert(final(self).large_slots() =~= old(self).large_slots());
            }
        } else {
            let slot = (inner / ADDR_CHUNK_RADIX) as usize - 1;
            let offset = (inner % ADDR_CHUNK_RADIX) as usize;
            let mut taken = MapAlloc::null();
            self.large.set_and_swap(slot, &mut taken);
            taken.write_byte(offset, value);
            self.large.set_and_swap(slot, &mut taken);
            proof {
                assert forall|c: int| 0 <= c < LARGE_CLASS
                    implies #[trigger] final(self).pool(c) == old(self).pool(c) by {
                }
                assert(final(self).large_slots()[slot as int]
                    == old(self).large_slots()[slot as int]
                        .update(large_offset(addr_inner(a)), value));
                assert forall|t: int| 0 <= t < old(self).large@.len() && t != slot
                    implies final(self).large_slots()[t] == old(self).large_slots()[t] by {
                    assert(final(self).large@[t] == old(self).large@[t]);
                }
                assert forall|t: int| 0 <= t < final(self).large@.len()
                    implies (#[trigger] final(self).large_slots()[t]).len()
                        <= MAX_ALLOC_SIZE + PAGE_SIZE by {
                    assert(final(self).large_slots()[t].len()
                        == old(self).large_slots()[t].len());
                }
            }
        }
        proof {
            self.lemma_write_byte_frame(*old(self), a, value);
        }
    }

    /// The frame argument of [`MemoryManager::write_byte`]: a one-byte
    /// write leaves every other valid byte, and the whole valid-byte set,
    /// as it was.
    proof fn lemma_write_byte_frame(&self, pre: MemoryManager, a: u64, value: u8)
        requires
            pre.wf(),
            pre.valid_byte(a),
            self.wf(),
            // how the write changed the state, established by the caller:
            addr_class(a) < LARGE_CLASS ==> {
                &&& forall|c: int| 0 <= c < LARGE_CLASS && c != addr_class(a)
                        ==> #[trigger] self.pool(c) == pre.pool(c)
                &&& self.large@ == pre.large@
                &&& ({
                    let p0 = pre.pool(addr_class(a));
                    let p1 = self.pool(addr_class(a));
                    let ia = addr_inner(a) as u64;
                    &&& p1.byte_at(ia) == value
                    &&& forall|b: u64| p0.valid_byte_addr(b)
                            ==> #[trigger] p1.valid_byte_addr(b)
                    &&& forall|b: u64| p0.valid_byte_addr(b) && b != ia
                            ==> #[trigger] p1.byte_at(b) == p0.byte_at(b)
                })
            },
            addr_class(a) == LARGE_CLASS ==> {
                &&& forall|c: int| 0 <= c < LARGE_CLASS
                        ==> #[trigger] self.pool(c) == pre.pool(c)
                &&& self.large@.len() == pre.large@.len()
                &&& self.large_slots()[large_slot(addr_inner(a))]
                        == pre.large_slots()[large_slot(addr_inner(a))]
                            .update(large_offset(addr_inner(a)), value)
                &&& forall|t: int| 0 <= t < pre.large@.len() && t != large_slot(addr_inner(a))
                        ==> self.large_slots()[t] == pre.large_slots()[t]
            },
        ensures
            self.byte_at(a) == value,
            forall|b: u64| pre.valid_byte(b) ==> #[trigger] self.valid_byte(b),
            forall|b: u64| pre.valid_byte(b) && b != a
                ==> #[trigger] self.byte_at(b) == pre.byte_at(b),
    {
        assert forall|b: u64| pre.valid_byte(b) implies #[trigger] self.valid_byte(b) by {
            if addr_class(b) == LARGE_CLASS {
                let t = large_slot(addr_inner(b));
                assert(self.large_slots()[t].len() == pre.large_slots()[t].len());
            }
        }
        assert forall|b: u64| pre.valid_byte(b) && b != a
            implies #[trigger] self.byte_at(b) == pre.byte_at(b) by {
            let ca = addr_class(a);
            let cb = addr_class(b);
            if cb != ca {
                if cb == LARGE_CLASS {
                    let t = large_slot(addr_inner(b));
                    assert(self.large_slots()[t] == pre.large_slots()[t]);
                }
            } else if ca < LARGE_CLASS {
                let ia = addr_inner(a) as u64;
                let ib = addr_inner(b) as u64;
                if ia == ib {
                    lemma_addr_parts_determine(a, b);
                    assert(false);
                }
                assert(pre.pool(ca).valid_byte_addr(ib));
            } else {
                let ta = large_slot(addr_inner(a));
                let tb = large_slot(addr_inner(b));
                if ta == tb {
                    if large_offset(addr_inner(a)) == large_offset(addr_inner(b)) {
                        lemma_fundamental_div_mod(addr_inner(a), ADDR_CHUNK_RADIX as int);
                        lemma_fundamental_div_mod(addr_inner(b), ADDR_CHUNK_RADIX as int);
                        lemma_addr_parts_determine(a, b);
                        assert(false);
                    }
                }
            }
        }
    }
}

} // verus!
