use genmem::mem::QueueUsize;
use genmem::mem::QueueU32;
use genmem::collections::queue::Queue;

#[test]
fn mpmc() {
    let mut queue = QueueUsize::new(4096);
    for i in 0..4096 {
        queue.enqueue(i + 1);
    }
    queue.clear();
    assert_eq!(queue.dequeue(), None);
}

#[test]
fn mpmc_local() {
    let mut queue_local = QueueUsize::new(4096);
    for i in 0..4096 {
        queue_local.enqueue(i + 1);
    }
}

#[test]
fn mpmc_dequeue() {
    let mut m = QueueUsize::new(4096);
    for _j in 0..20 {
        for i in 0..4096 {
            assert_eq!(m.enqueue(i + 1), true);
        }
        for i in 0..4096 {
            assert_eq!(m.dequeue().unwrap(), i + 1);
        }
    }
}

#[test]
fn mpmc_enqueue_dequeue() {
    let mut m = QueueUsize::new(4096);
    for _j in 0..20 {
        for i in 0..4096 {
            assert_eq!(m.enqueue(i + 1), true);
            assert_eq!(m.dequeue().unwrap(), i + 1);
        }
    }
}

#[test]
fn mpmc_enqueue2_dequeue_wrap() {
    let mut m = QueueUsize::new(4096);
    for _j in 0..20 {
        for i in 0..4096 {
            m.enqueue(i + 1);
            m.enqueue(i + 1);
            m.dequeue();
        }
    }
}

// Queue capacity law: N successful enqueues fill a queue of capacity N,
// the next enqueue fails, and one dequeue makes room for exactly one more.
#[test]
fn capacity_boundary() {
    let mut q = QueueUsize::new(8);
    for i in 0..8 {
        assert_eq!(q.enqueue(i + 1), true);
    }
    assert_eq!(q.enqueue(100), false);
    assert_eq!(q.dequeue().unwrap(), 1);
    assert_eq!(q.enqueue(100), true);
    assert_eq!(q.enqueue(101), false);
}

#[test]
fn u32_ring_wraps_and_keeps_order() {
    let mut q = QueueU32::new(16);
    // index zero is a legal value for the 32-bit ring
    assert_eq!(q.enqueue(0), true);
    assert_eq!(q.dequeue().unwrap(), 0);
    for round in 0..10 {
        for i in 0..16 {
            assert_eq!(q.enqueue(round * 16 + i), true);
        }
        assert_eq!(q.enqueue(999), false);
        for i in 0..16 {
            assert_eq!(q.dequeue().unwrap(), round * 16 + i);
        }
        assert_eq!(q.dequeue(), None);
    }
    q.clear();
    assert_eq!(q.dequeue(), None);
}

#[test]
fn owned_buffer_queue() {
    let mut q = Queue::new(64);
    for i in 0..64 {
        assert_eq!(q.enqueue(i + 1), true);
    }
    assert_eq!(q.enqueue(65), false);
    for i in 0..64 {
        assert_eq!(q.dequeue().unwrap(), i + 1);
    }
    assert_eq!(q.dequeue(), None);
}
