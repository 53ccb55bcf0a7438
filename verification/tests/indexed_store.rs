use genmem::mem::IndexedDataStore;
use genmem::mem::IndexedHandle;

#[test]
fn insert_remove() {
    let mut ids: IndexedDataStore<Vec<u32>> = IndexedDataStore::new(1024);

    let mut handles = Vec::<IndexedHandle>::with_capacity(1024);
    for k in 0..16 {
        for i in 0..1024 {
            let mut v = Vec::<u32>::with_capacity(1);
            v.push(i);
            let tmp = ids.store(v).unwrap();
            handles.push(tmp);
            if k == 0 {
                assert_eq!(ids.high_water_mark(), i + 1);
            } else {
                assert_eq!(ids.high_water_mark(), 1024);
            }
            assert_eq!(ids.active_count(), i + 1);
            assert_eq!(ids.capacity(), 1024);
        }

        for i in 0..1024 {
            let q = ids.retain(handles[i]).unwrap();
            assert_eq!(ids.get(&q)[0], i as u32);
            ids.release(q);
        }
        for i in 0..1024 {
            ids.free(handles[i]);

            assert_eq!(ids.high_water_mark(), 1024);
            assert_eq!(ids.active_count(), 1024 - (i as u32) - 1);
            assert_eq!(ids.capacity(), 1024);
        }
        handles.clear();
    }
}

#[test]
fn safety() {
    let mut ids: IndexedDataStore<Vec<u32>> = IndexedDataStore::new(1024);

    let mut handles = Vec::<IndexedHandle>::with_capacity(1024);
    for k in 0..16 {
        for i in 0..1024 {
            let mut v = Vec::<u32>::with_capacity(1);
            v.push(i);
            handles.push(ids.store(v).unwrap());
        }

        for i in 0..1024 {
            for j in 0..k + 1 {
                if j == k {
                    let q = ids.retain(handles[i + 1024 * j]).unwrap();
                    assert_eq!(ids.get(&q)[0], i as u32);
                    ids.release(q);
                } else {
                    assert_eq!(ids.retain(handles[i + 1024 * j]), None);
                }
            }
        }
        for i in 0..1024 {
            for j in 0..k + 1 {
                if j == k {
                    assert_eq!(ids.free(handles[i + 1024 * j]), true);
                } else {
                    assert_eq!(ids.free(handles[i + 1024 * j]), false);
                }
            }
        }
    }
}

// Generation round-trip: a handle taken before a slot is freed never
// validates once the slot has been freed and stored into again.
#[test]
fn stale_handle_never_revalidates() {
    let mut ids: IndexedDataStore<u32> = IndexedDataStore::new(4);
    let h0 = ids.store(7).unwrap();
    assert_eq!(ids.free(h0), true);
    let h1 = ids.store(8).unwrap();
    // the slot was recycled for the second store
    assert_eq!(ids.high_water_mark(), 1);
    assert_eq!(ids.retain(h0), None);
    assert_eq!(ids.free(h0), false);
    let r = ids.retain(h1).unwrap();
    assert_eq!(*ids.get(&r), 8);
    ids.release(r);
}

// Reference-counted liveness: a freed value stays readable through an
// outstanding reference and is dropped only when that reference departs.
#[test]
fn deferred_destruction() {
    let mut ids: IndexedDataStore<String> = IndexedDataStore::new(4);
    let h = ids.store(String::from("kept alive")).unwrap();
    let r = ids.retain(h).unwrap();
    assert!(!ids.destroyed(&r));

    assert_eq!(ids.free(h), true);
    // destruction was requested, but the reader keeps the value alive
    assert!(ids.destroyed(&r));
    assert_eq!(ids.get(&r).as_str(), "kept alive");
    assert_eq!(ids.active_count(), 0);
    assert_eq!(ids.destroyed_count(), 1);

    ids.release(r);
    // now the slot is recycled
    assert_eq!(ids.destroyed_count(), 0);
    assert_eq!(ids.available_count(), 4);
    let h2 = ids.store(String::from("next tenant")).unwrap();
    assert_eq!(ids.high_water_mark(), 1);
    assert_eq!(ids.retain(h), None);
    let r2 = ids.retain(h2).unwrap();
    assert_eq!(ids.get(&r2).as_str(), "next tenant");
    ids.release(r2);
}

// A second reference from a held one needs no generation check, and the
// handle minted from a reference matches the slot's current word.
#[test]
fn clone_and_rederive_handle() {
    let mut ids: IndexedDataStore<u32> = IndexedDataStore::new(2);
    let h = ids.store(11).unwrap();
    let r1 = ids.retain(h).unwrap();
    let r2 = ids.clone(&r1);
    let h2 = ids.handle(&r2);
    assert_eq!(h, h2);
    ids.release(r1);
    ids.release(r2);
    assert_eq!(ids.free(h), true);
}

// Capacity exhaustion is recoverable and exact.
#[test]
fn store_fails_only_when_full() {
    let mut ids: IndexedDataStore<u32> = IndexedDataStore::new(2);
    let a = ids.store(1).unwrap();
    let _b = ids.store(2).unwrap();
    assert_eq!(ids.available_count(), 0);
    assert!(ids.store(3).is_none());
    assert_eq!(ids.free(a), true);
    let c = ids.store(3).unwrap();
    let r = ids.retain(c).unwrap();
    assert_eq!(*ids.get(&r), 3);
    ids.release(r);
}

#[test]
fn clear_resets() {
    let mut ids: IndexedDataStore<u32> = IndexedDataStore::new(8);
    let _ = ids.store(1).unwrap();
    let _ = ids.store(2).unwrap();
    ids.clear();
    assert_eq!(ids.high_water_mark(), 0);
    assert_eq!(ids.active_count(), 0);
    assert_eq!(ids.destroyed_count(), 0);
    assert_eq!(ids.capacity(), 8);
}

// The exclusive borrow handed out by get_mut changes the stored value in
// place; handles and references stay attached to the slot.
#[test]
fn get_mut_updates_in_place() {
    let mut ids: IndexedDataStore<u32> = IndexedDataStore::new(4);
    let h = ids.store(40).unwrap();
    let r = ids.retain(h).unwrap();
    *ids.get_mut(&r) += 2;
    assert_eq!(*ids.get(&r), 42);
    let h2 = ids.handle(&r);
    assert_eq!(h, h2);
    ids.release(r);
    assert_eq!(ids.free(h), true);
}
