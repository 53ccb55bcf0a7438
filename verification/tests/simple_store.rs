use genmem::collections::indexed_data_store::Handle;
use genmem::collections::indexed_data_store::IndexedDataStore;

#[test]
fn test_insert_remove() {
    let mut idx = IndexedDataStore::<Vec<u32>>::with_capacity(1024);
    let mut handles = Vec::<Handle>::with_capacity(1024);
    for _k in 0..16 {
        for i in 0..1024 {
            let mut v = Vec::<u32>::with_capacity(1);
            v.push(i);
            handles.push(idx.retain(v));
            assert_eq!(idx.high_water_mark(), i + 1);
            assert_eq!(idx.len(), i + 1);
            assert_eq!(idx.capacity(), 1024);
        }

        for i in 0..1024 {
            assert_eq!(idx.get(handles[i]).unwrap()[0], i as u32);
        }
        for i in 0..1024 {
            assert_eq!(idx.release(handles[i]).unwrap()[0], i as u32);
            assert_eq!(idx.high_water_mark(), 1024);
            assert_eq!(idx.len(), 1024 - (i as u32) - 1);
            assert_eq!(idx.capacity(), 1024);
        }
        for i in 0..1024 {
            assert_eq!(idx.get(handles[i]), None);
        }
        handles.clear();
        idx.clear();
        assert_eq!(idx.high_water_mark(), 0);
        assert_eq!(idx.len(), 0);
        assert_eq!(idx.capacity(), 1024);
    }
}

// Without a clear, released slots are recycled most-recent-first and the
// old handles keep missing.
#[test]
fn recycles_without_growth() {
    let mut idx = IndexedDataStore::<u32>::new();
    let a = idx.retain(1);
    let b = idx.retain(2);
    assert_eq!(idx.release(a), Some(1));
    assert_eq!(idx.release(a), None);
    let c = idx.retain(3);
    // the freed slot was reused, the storage did not grow
    assert_eq!(idx.high_water_mark(), 2);
    assert_eq!(idx.get(a), None);
    assert_eq!(*idx.get(c).unwrap(), 3);
    assert_eq!(*idx.get(b).unwrap(), 2);
    assert_eq!(idx.len(), 2);
}

// The exclusive borrow from get_mut edits the stored value in place and
// goes stale together with the handle.
#[test]
fn get_mut_edits_in_place() {
    let mut idx = IndexedDataStore::<u32>::new();
    let h = idx.retain(5);
    *idx.get_mut(h).unwrap() += 10;
    assert_eq!(*idx.get(h).unwrap(), 15);
    assert_eq!(idx.release(h), Some(15));
    assert!(idx.get_mut(h).is_none());
}

// value_at walks the storage positions in place of an iterator.
#[test]
fn value_at_visits_stored_values() {
    let mut idx = IndexedDataStore::<u32>::new();
    let a = idx.retain(10);
    let b = idx.retain(20);
    let _c = idx.retain(30);
    idx.release(b);
    let mut seen: Vec<u32> = Vec::new();
    for i in 0..idx.high_water_mark() {
        if let Some(v) = idx.value_at(i) {
            seen.push(*v);
        }
    }
    assert_eq!(seen, vec![10, 30]);
    assert_eq!(idx.value_at(5), None);
    let _ = idx.release(a);
}
