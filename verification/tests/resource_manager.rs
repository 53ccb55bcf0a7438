use genmem::mem::ResourceHandle;
use genmem::mem::ResourceManager;
use genmem::mem::ResourceRef;

struct Simple {
    data: u64,
}

#[test]
fn init() {
    let mut manager: ResourceManager<Simple> = ResourceManager::new(1024);
    for _k in 0..65535 {
        let mut t: Vec<ResourceHandle> = Vec::new();
        for i in 0..16 {
            t.push(manager.store(Simple { data: i }).unwrap());
        }
        for i in 0..16 {
            assert_eq!(manager.free(t.pop().unwrap()), true, "{}", i);
        }
    }
}

#[test]
fn retain_clone_release() {
    let mut manager: ResourceManager<Simple> = ResourceManager::new(1024);
    for _k in 0..65535 {
        let mut t: Vec<ResourceHandle> = Vec::new();
        let mut q: Vec<ResourceRef> = Vec::new();
        for i in 0..16 {
            let tmp = manager.store(Simple { data: i }).unwrap();
            t.push(tmp);

            q.push(manager.retain(tmp).get().unwrap());
        }

        for i in 0..16 {
            let extra = manager.clone(&q[i]);
            q.push(extra);
        }
        for i in 0..32 {
            assert_eq!(manager.get(&q[i]).data, i as u64 % 16);
        }
        for i in 0..16 {
            assert_eq!(manager.free(t.pop().unwrap()), true, "{}", i);

            manager.release(q.pop().unwrap());
            manager.release(q.pop().unwrap());
        }
    }
}

// Generation round-trip under the shared free-list queue: a handle from
// before the free never validates after the slot is recycled.
#[test]
fn stale_resource_handle_misses() {
    let mut manager: ResourceManager<u32> = ResourceManager::new(8);
    let h0 = manager.store(5).unwrap();
    assert_eq!(manager.free(h0), true);
    assert_eq!(manager.free(h0), false);
    let h1 = manager.store(6).unwrap();
    // the freed slot was first in the queue, so it was reused
    assert_eq!(manager.high_water_mark(), 1);
    assert!(manager.retain(h0).is_null());
    let r = manager.retain(h1).get().unwrap();
    assert_eq!(*manager.get(&r), 6);
    manager.release(r);
}

// Deferred destruction: freeing while a reference is out keeps the value
// alive; the slot is recycled only after the last release.
#[test]
fn free_with_outstanding_reference() {
    let mut manager: ResourceManager<String> = ResourceManager::new(8);
    let h = manager.store(String::from("still here")).unwrap();
    let r = manager.retain(h).get().unwrap();
    assert_eq!(manager.free(h), true);
    // the generation moved on at the free, so the handle is dead ...
    assert!(manager.retain(h).is_null());
    // ... but the reference still reads the value
    assert_eq!(manager.get(&r).as_str(), "still here");
    manager.release(r);
    // the slot is now on the free list and is reused first
    let h2 = manager.store(String::from("tenant two")).unwrap();
    assert_eq!(manager.high_water_mark(), 1);
    assert_eq!(manager.free(h2), true);
}

// No double free-list entry: releasing the last references of N distinct
// slots parks exactly N slots, all reusable without growth.
#[test]
fn distinct_releases_recycle_exactly() {
    let mut manager: ResourceManager<u64> = ResourceManager::new(256);
    let mut handles = Vec::new();
    for i in 0..256u64 {
        handles.push(manager.store(i).unwrap());
    }
    assert!(manager.store(999).is_none());
    for h in handles.drain(..) {
        assert_eq!(manager.free(h), true);
    }
    // all 256 slots came back, none twice, none lost
    for i in 0..256u64 {
        handles.push(manager.store(1000 + i).unwrap());
    }
    assert_eq!(manager.high_water_mark(), 256);
    assert!(manager.store(999).is_none());
    for h in handles.drain(..) {
        assert_eq!(manager.free(h), true);
    }
}
