use genmem::mem::MemoryPool;
use genmem::mem::MemoryPool64;

#[test]
fn test_alloc() {
    let mut mp = MemoryPool64::new();
    for _i in 0..2048 {
        for _j in 0..1024 {
            mp.allocate();
        }
    }
}

#[test]
fn pool_fills_every_block() {
    let mut mp = MemoryPool::new(64, 4096);
    for _i in 0..4096 {
        assert_ne!(mp.allocate(), 0);
    }
}

#[test]
fn alloc_free() {
    let mut mp = MemoryPool::new(64, 4096);

    let mut storage: Vec<u64> = vec![0; 4096];
    for i in 0..4096 {
        storage[i] = mp.allocate();
        assert_ne!(storage[i], 0);
    }

    for i in 0..4096 {
        mp.deallocate(storage[i]);
    }
    for i in 0..4096 {
        storage[i] = mp.allocate();
        assert_ne!(storage[i], 0);
    }
}

// Size-class idempotence at the pool: the free list recycles a freed
// block first, so dealloc-then-alloc hands the same address back.
#[test]
fn freed_block_reused_first() {
    let mut mp = MemoryPool::new(128, 1024);
    let a = mp.allocate();
    let b = mp.allocate();
    assert_ne!(a, b);
    mp.deallocate(a);
    let c = mp.allocate();
    assert_eq!(a, c);
}

// Fresh chunks come back zeroed, and block bytes round-trip.
#[test]
fn block_bytes_round_trip() {
    let mut mp = MemoryPool::new(64, 1024);
    let a = mp.allocate();
    for k in 0..64 {
        assert_eq!(mp.read_byte(a + k), 0);
    }
    for k in 0..64u64 {
        mp.write_byte(a + k, k as u8);
    }
    for k in 0..64u64 {
        assert_eq!(mp.read_byte(a + k), k as u8);
    }
    let b = mp.allocate();
    mp.write_byte(b, 0xAB);
    // writes to one block never disturb another
    for k in 0..64u64 {
        assert_eq!(mp.read_byte(a + k), k as u8);
    }
    mp.clear();
}
