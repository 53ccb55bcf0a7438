use genmem::sync::IndexSpinlock;
use genmem::sync::Spinlock;
use genmem::sync::RWSpinLock;

#[test]
fn indexspinlock_masks_and_round_trips() {
    let mut lock = IndexSpinlock::new(0);
    lock.set(1);
    let mut total: u32 = 1;
    for _t in 0..16 {
        let mut guard = lock.lock();
        let mut value = guard.read();
        for i in 0..101 {
            value = value + i;
        }
        guard.write(value);
        lock.unlock(guard);
        total += 5050;
    }
    assert_eq!(lock.get(), total);
    // the held bit never leaks into the stored value
    lock.set(0xFFFF_FFFF);
    assert_eq!(lock.get(), 0x7FFF_FFFF);
    assert_eq!(lock.into_inner(), 0x7FFF_FFFF);
}

#[test]
fn try_lock_refuses_held_lock() {
    let mut lock = IndexSpinlock::new(9);
    let g = lock.try_lock().unwrap();
    assert_eq!(g.read(), 9);
    assert!(lock.try_lock().is_none());
    lock.unlock(g);
    let g2 = lock.try_lock().unwrap();
    assert_eq!(g2.read(), 9);
    lock.unlock(g2);
}

#[test]
fn spinlock_carries_payload_and_data() {
    let mut lock = Spinlock::new(3, vec![10u8, 20u8]);
    let mut g = lock.lock();
    assert_eq!(g.read(), 3);
    g.write(4);
    lock.borrow_data_mut().push(30);
    lock.unlock(g);
    assert_eq!(lock.get(), 4);
    let g2 = lock.lock();
    assert_eq!(lock.borrow_data()[2], 30);
    lock.unlock(g2);
}

#[test]
fn rw_lock_counts_readers_and_writers() {
    let mut rw = RWSpinLock::new(77u64);
    let r1 = rw.read();
    let r2 = rw.read();
    assert_eq!(*rw.borrow_data(), 77);
    assert!(rw.try_write().is_none());
    rw.unlock_read(r1);
    let w = rw.upgrade(r2);
    *rw.borrow_data_mut() = 78;
    rw.unlock_write(w);

    rw.mark_write_request();
    assert!(rw.try_read().is_none());
    let w2 = rw.try_write().unwrap();
    rw.unlock_write(w2);

    rw.mark_write_request();
    rw.unmark_write_request();
    let r3 = rw.try_read().unwrap();
    rw.unlock_read(r3);

    assert_eq!(*rw.get_mut(), 78);
    assert_eq!(rw.into_inner(), 78);
}
