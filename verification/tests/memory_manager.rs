use genmem::mem::MemoryManager;

const MAX_64: usize = 1024 * 2048;
const MAX_128: usize = 1024 * 1024;
const MAX_256: usize = 1024 * 512;
const MAX_512: usize = 1024 * 256;
const MAX_1024: usize = 1024 * 128;
const MAX_2048: usize = 1024 * 64;

fn manager() -> MemoryManager {
    MemoryManager::new(MAX_64, MAX_128, MAX_256, MAX_512, MAX_1024, MAX_2048)
}

#[test]
fn custom_alloc() {
    let mut manager = manager();
    let alloc_count = 256;
    let mut cells: Vec<u64> = Vec::with_capacity(alloc_count);
    for _j in 0..2048 {
        for i in 0..alloc_count {
            let raw = manager.alloc_zeroed(i + 1, 16);
            cells.push(raw);
            manager.write_byte(raw, i as u8);
            assert_eq!(manager.read_byte(cells[i]), i as u8);
        }

        for i in 0..alloc_count {
            assert_eq!(manager.read_byte(cells[i]), i as u8);
        }

        for i in 0..alloc_count {
            let last_val = alloc_count - i - 1;
            manager.dealloc(cells.pop().unwrap(), last_val + 1, 16);
        }
    }
}

#[test]
fn custom_realloc() {
    let mut manager = manager();
    let alloc_count = 256;
    for _j in 0..2048 {
        let mut size: usize = 1;
        let mut raw = manager.alloc_zeroed(size, 16);
        manager.write_byte(raw, 0);
        for i in 0..alloc_count {
            raw = manager.realloc(raw, size, 16, i + 1);
            size = i + 1;
            assert_ne!(raw, 0);
            manager.write_byte(raw, (i + 1) as u8);
        }
        manager.dealloc(raw, size, 16);
    }
}

#[test]
fn custom_realloc_copy() {
    let mut manager = manager();
    let alloc_count = 256;
    for _j in 0..2048 {
        let mut size: usize = 1;
        let mut raw = manager.alloc_zeroed(size, 16);
        manager.write_byte(raw, 0);
        for i in 0..alloc_count {
            raw = manager.realloc(raw, size, 16, i + 1);
            size = i + 1;
            assert_ne!(raw, 0);
            // the lesser of the old and new lengths was copied over
            for k in 0..i {
                assert_eq!(manager.read_byte(raw + k as u64), i as u8);
            }
            for k in 0..(i + 1) {
                manager.write_byte(raw + k as u64, (i + 1) as u8);
            }
        }
        manager.dealloc(raw, size, 16);
    }
}

// Allocator size-class idempotence: dealloc directly after alloc of the
// same layout hands the same address back, and the block always holds the
// requested bytes.
#[test]
fn class_reuse_is_lifo() {
    let mut manager = manager();
    let a = manager.allocate(100, 16);
    manager.dealloc(a, 100, 16);
    let b = manager.allocate(100, 16);
    assert_eq!(a, b);
    for k in 0..100u64 {
        manager.write_byte(b + k, k as u8);
    }
    for k in 0..100u64 {
        assert_eq!(manager.read_byte(b + k), k as u8);
    }
    manager.dealloc(b, 100, 16);
}

// A 100-byte request with 16-byte alignment lands in the 128-byte class:
// freeing it and asking for exactly 128 bytes brings the same block back.
#[test]
fn routes_to_128_class() {
    let mut manager = manager();
    let a = manager.allocate(100, 16);
    manager.dealloc(a, 100, 16);
    let b = manager.allocate(128, 1);
    assert_eq!(a, b);
    manager.dealloc(b, 128, 1);
}

// Realloc within the same power-of-two bucket returns the pointer
// unchanged; growing past the largest class moves to fresh storage with
// the old bytes preserved. A request whose bucket shrinks (100 bytes down
// to 50 crosses from the 128-byte into the 64-byte bucket) moves instead,
// exactly as the routing rule demands.
#[test]
fn realloc_same_class_and_large_copy() {
    let mut manager = manager();
    let a = manager.alloc_zeroed(100, 16);
    for k in 0..100u64 {
        manager.write_byte(a + k, (k + 1) as u8);
    }
    // 70 bytes still rounds to the 128-byte bucket: shrink in place
    let same = manager.realloc(a, 100, 16, 70);
    assert_eq!(same, a);

    let big = manager.realloc(same, 70, 16, 3000);
    assert_ne!(big, a);
    for k in 0..70u64 {
        assert_eq!(manager.read_byte(big + k), (k + 1) as u8);
    }
    manager.dealloc(big, 3000, 16);

    // shrinking below the bucket boundary relocates to the smaller class
    let c = manager.alloc_zeroed(100, 16);
    let d = manager.realloc(c, 100, 16, 50);
    assert_ne!(d, c);
    manager.dealloc(d, 50, 16);
}

// The large-object path returns zeroed pages and frees its table slot.
#[test]
fn large_objects_zeroed_and_released() {
    let mut manager = manager();
    let a = manager.alloc_zeroed(5000, 8);
    for k in 0..5000u64 {
        assert_eq!(manager.read_byte(a + k), 0);
    }
    manager.write_byte(a + 4999, 7);
    assert_eq!(manager.read_byte(a + 4999), 7);
    manager.dealloc(a, 5000, 8);
    let b = manager.allocate(5000, 8);
    // the freed table slot is reused
    assert_eq!(a, b);
    manager.dealloc(b, 5000, 8);
}
