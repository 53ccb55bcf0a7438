use vstd::prelude::*;

use vstd::arithmetic::div_mod::lemma_fundamental_div_mod_converse;

verus! {

/// Handles pack the slot's reuse counter above this radix and the slot
/// index below it.
pub const HANDLE_INDEX_RADIX: u64 = 0x1_0000_0000;

/// The slot index packed into a handle.
pub open spec fn handle_index(value: u64) -> int {
    value as int % HANDLE_INDEX_RADIX as int
}

/// The reuse counter packed into a handle.
pub open spec fn handle_unique(value: u64) -> int {
    value as int / HANDLE_INDEX_RADIX as int
}

/// One slot: the stored value and the reuse counter that stale handles
/// are detected against.
struct Slot<T> {
    unique: u32,
    data: Option<T>,
}

/// An occupied slot.
closed spec fn slot_occupied<T>(d: Slot<T>) -> bool {
    d.data is Some
}

/// The occupied-slot predicate, fixed once so every count denotes the
/// same function.
closed spec fn occupied_pred<T>() -> spec_fn(Slot<T>) -> bool {
    |d: Slot<T>| slot_occupied(d)
}

/// How many slots of `s` satisfy `pred`.
closed spec fn count_simple_slots<T>(s: Seq<Slot<T>>, pred: spec_fn(Slot<T>) -> bool) -> int
    decreases s.len(),
{
    if s.len() == 0 {
        0
    } else {
        count_simple_slots(s.drop_last(), pred) + if pred(s.last()) { 1int } else { 0 }
    }
}

/// The count is bounded by the length.
proof fn lemma_simple_count_bounds<T>(s: Seq<Slot<T>>, pred: spec_fn(Slot<T>) -> bool)
    ensures
        0 <= count_simple_slots(s, pred) <= s.len(),
    decreases s.len(),
{
    if s.len() > 0 {
        lemma_simple_count_bounds(s.drop_last(), pred);
    }
}

/// Replacing one slot changes the count by the difference at that slot.
proof fn lemma_simple_count_update<T>(
    s: Seq<Slot<T>>, pred: spec_fn(Slot<T>) -> bool, i: int, v: Slot<T>)
    requires
        0 <= i < s.len(),
    ensures
        count_simple_slots(s.update(i, v), pred) == count_simple_slots(s, pred)
            - (if pred(s[i]) { 1int } else { 0 }) + (if pred(v) { 1int } else { 0 }),
    decreases s.len(),
{
    if i == s.len() - 1 {
        assert(s.update(i, v).drop_last() =~= s.drop_last());
    } else {
        assert(s.update(i, v).drop_last() =~= s.drop_last().update(i, v));
        lemma_simple_count_update(s.drop_last(), pred, i, v);
    }
}

/// Appending a slot adds its contribution to the count.
proof fn lemma_simple_count_push<T>(
    s: Seq<Slot<T>>, pred: spec_fn(Slot<T>) -> bool, v: Slot<T>)
    ensures
        count_simple_slots(s.push(v), pred)
            == count_simple_slots(s, pred) + if pred(v) { 1int } else { 0 },
{
    assert(s.push(v).drop_last() =~= s);
}

/// A slot satisfying the predicate makes the count positive.
proof fn lemma_simple_count_one<T>(
    s: Seq<Slot<T>>, pred: spec_fn(Slot<T>) -> bool, i: int)
    requires
        0 <= i < s.len(),
        pred(s[i]),
    ensures
        count_simple_slots(s, pred) >= 1,
    decreases s.len(),
{
    lemma_simple_count_bounds(s.drop_last(), pred);
    if i < s.len() - 1 {
        lemma_simple_count_one(s.drop_last(), pred, i);
    }
}

/// Slot arrays that agree on the predicate at every index have the same
/// count.
proof fn lemma_simple_count_congruence<T>(
    s1: Seq<Slot<T>>, s2: Seq<Slot<T>>, pred: spec_fn(Slot<T>) -> bool)
    requires
        s1.len() == s2.len(),
        forall|i: int| 0 <= i < s1.len() ==> pred(#[trigger] s1[i]) == pred(#[trigger] s2[i]),
    ensures
        count_simple_slots(s1, pred) == count_simple_slots(s2, pred),
    decreases s1.len(),
{
    if s1.len() > 0 {
        lemma_simple_count_congruence(s1.drop_last(), s2.drop_last(), pred);
    }
}

/// A plain, copyable ticket for a stored value: the slot's reuse counter
/// and its index packed into one word. Redeeming it fails once the slot
/// has been released, or released and reused.
#[derive(Copy, Clone, Debug)]
pub struct Handle {
    value: u64,
}

impl Handle {
    /// The packed ticket word.
    pub closed spec fn view(&self) -> u64 {
        self.value
    }
}

/// A growable single-owner generational store: values go in, packed
/// handles come out, and a released slot's reuse counter advances so
/// every outstanding handle to it stops validating. Freed slots are
/// recycled before the backing storage grows.
pub struct IndexedDataStore<T> {
    storage: Vec<Slot<T>>,
    free_stack: Vec<u32>,
    active_count: u32,
    capacity: u32,
}

impl<T> IndexedDataStore<T> {
    /// The reuse counter of slot `i`.
    pub closed spec fn slot_unique(&self, i: int) -> u32 {
        self.storage@[i].unique
    }

    /// The value stored in slot `i`, if the slot is occupied.
    pub closed spec fn slot_value(&self, i: int) -> Option<T> {
        self.storage@[i].data
    }

    /// How much of the storage has ever been used.
    pub closed spec fn spec_high_water_mark(&self) -> nat {
        self.storage@.len()
    }

    /// Number of values currently stored.
    pub closed spec fn spec_len(&self) -> u32 {
        self.active_count
    }

    /// The room reserved at construction, reported by `capacity`.
    pub closed spec fn spec_capacity(&self) -> u32 {
        self.capacity
    }

    /// The recycled slot indices waiting for reuse, most recent last.
    pub closed spec fn free_list(&self) -> Seq<u32> {
        self.free_stack@
    }

    /// The store's invariant: each slot is occupied or waits on the free
    /// stack exactly once, and the active count is what is left over.
    pub closed spec fn wf(&self) -> bool {
        &&& self.storage@.len() < HANDLE_INDEX_RADIX
        &&& self.free_stack@.no_duplicates()
        &&& forall|j: int| 0 <= j < self.free_stack@.len()
                ==> #[trigger] self.free_stack@[j] < self.storage@.len()
        &&& forall|j: int| 0 <= j < self.free_stack@.len()
                ==> self.slot_value(#[trigger] self.free_stack@[j] as int) is None
        &&& forall|i: int| 0 <= i < self.storage@.len()
                && #[trigger] self.slot_value(i) is None
                ==> self.free_stack@.contains(i as u32)
        &&& self.active_count == count_simple_slots(self.storage@, occupied_pred())
    }

    /// A handle that still points at its value.
    pub open spec fn handle_current(&self, h: Handle) -> bool {
        &&& handle_index(h@) < self.spec_high_water_mark()
        &&& self.slot_unique(handle_index(h@)) == handle_unique(h@)
        &&& self.slot_value(handle_index(h@)) is Some
    }

    /// Create an empty store.
    pub fn new() -> (r: IndexedDataStore<T>)
        ensures
            r.wf(),
            r.spec_high_water_mark() == 0,
            r.spec_len() == 0,
            r.spec_capacity() == 0,
            r.free_list() == Seq::<u32>::empty(),
    {
        IndexedDataStore {
            storage: Vec::new(),
            free_stack: Vec::new(),
            active_count: 0,
            capacity: 0,
        }
    }

    /// Create an empty store with room reserved for `capacity` values.
    pub fn with_capacity(capacity: usize) -> (r: IndexedDataStore<T>)
        requires
            capacity < HANDLE_INDEX_RADIX,
        ensures
            r.wf(),
            r.spec_high_water_mark() == 0,
            r.spec_len() == 0,
            r.spec_capacity() == capacity,
            r.free_list() == Seq::<u32>::empty(),
    {
        IndexedDataStore {
            storage: Vec::with_capacity(capacity),
            free_stack: Vec::new(),
            active_count: 0,
            capacity: capacity as u32,
        }
    }

    /// How much of the storage has ever been used.
    pub fn high_water_mark(&self) -> (r: u32)
        requires
            self.wf(),
        ensures
            r == self.spec_high_water_mark(),
    {
        self.storage.len() as u32
    }

    /// Number of values currently stored.
    pub fn len(&self) -> (r: u32)
        ensures
            r == self.spec_len(),
    {
        self.active_count
    }

    /// The room reserved at construction.
    pub fn capacity(&self) -> (r: u32)
        ensures
            r == self.spec_capacity(),
    {
        self.capacity
    }

    /// Borrow the value a handle points at, or `None` once the handle is
    /// stale.
    pub fn get(&self, handle: Handle) -> (r: Option<&T>)
        requires
            self.wf(),
        ensures
            r is Some <==> self.handle_current(handle),
            r matches Some(v) ==> Some(*v) == self.slot_value(handle_index(handle@)),
    {
        let idx = (handle.value % HANDLE_INDEX_RADIX) as usize;
        let unique = (handle.value / HANDLE_INDEX_RADIX) as u32;
        if idx >= self.storage.len() {
            return None;
        }
        if self.storage[idx].unique != unique {
            return None;
        }
        match &self.storage[idx].data {
            Some(v) => Some(v),
            None => None,
        }
    }

    /// Mutably borrow the value a handle points at, or `None` once the
    /// handle is stale. The returned borrow can only change the stored
    /// value, never the slot's bookkeeping;
    /// [`IndexedDataStore::lemma_wf_after_value_update`] restores the
    /// store's well-formedness from that shape.
    pub fn get_mut(&mut self, handle: Handle) -> (r: Option<&mut T>)
        requires
            old(self).wf(),
        ensures
            r is Some <==> old(self).handle_current(handle),
            r is None ==> *final(self) == *old(self),
            r matches Some(v) ==> {
                &&& Some(*v) == old(self).slot_value(handle_index(handle@))
                &&& final(self).slot_value(handle_index(handle@)) == Some(*final(v))
                &&& final(self).slot_unique(handle_index(handle@))
                        == old(self).slot_unique(handle_index(handle@))
                &&& final(self).spec_len() == old(self).spec_len()
                &&& final(self).spec_high_water_mark() == old(self).spec_high_water_mark()
                &&& final(self).spec_capacity() == old(self).spec_capacity()
                &&& final(self).free_list() == old(self).free_list()
                &&& forall|i: int| 0 <= i < old(self).spec_high_water_mark()
                        && i != handle_index(handle@)
                        ==> #[trigger] final(self).slot_value(i) == old(self).slot_value(i)
                            && final(self).slot_unique(i) == old(self).slot_unique(i)
            },
    {
        let idx = (handle.value % HANDLE_INDEX_RADIX) as usize;
        let unique = (handle.value / HANDLE_INDEX_RADIX) as u32;
        if idx >= self.storage.len() {
            return None;
        }
        if self.storage[idx].unique != unique {
            return None;
        }
        if self.storage[idx].data.is_none() {
            return None;
        }
        let element = &mut self.storage[idx];
        Some(element.data.as_mut().unwrap())
    }

    /// The exclusive borrow of [`IndexedDataStore::get_mut`] can only have
    /// replaced the stored value: a state related to a well-formed one
    /// that way is well-formed again.
    pub proof fn lemma_wf_after_value_update(
        pre: IndexedDataStore<T>, post: IndexedDataStore<T>, idx: int)
        requires
            pre.wf(),
            0 <= idx < pre.spec_high_water_mark(),
            forall|i: int| 0 <= i < pre.spec_high_water_mark() && i != idx
                ==> #[trigger] post.slot_value(i) == pre.slot_value(i)
                    && post.slot_unique(i) == pre.slot_unique(i),
            post.spec_high_water_mark() == pre.spec_high_water_mark(),
            post.free_list() == pre.free_list(),
            post.spec_len() == pre.spec_len(),
            (post.slot_value(idx) is Some <==> pre.slot_value(idx) is Some),
        ensures
            post.wf(),
    {
        assert forall|i: int| 0 <= i < pre.storage@.len()
            implies occupied_pred::<T>()(pre.storage@[i])
                == occupied_pred::<T>()(post.storage@[i]) by {
            if i != idx {
                assert(post.slot_value(i) == pre.slot_value(i));
            }
        }
        lemma_simple_count_congruence(pre.storage@, post.storage@, occupied_pred());
        assert forall|j: int| 0 <= j < post.free_stack@.len()
            implies post.slot_value(#[trigger] post.free_stack@[j] as int) is None by {
            assert(post.free_stack@[j] == pre.free_stack@[j]);
            let e = pre.free_stack@[j] as int;
            assert(pre.slot_value(e) is None);
            if e != idx {
                assert(post.slot_value(e) == pre.slot_value(e));
            }
        }
        assert forall|i: int| 0 <= i < post.storage@.len()
            && #[trigger] post.slot_value(i) is None
            implies post.free_stack@.contains(i as u32) by {
            if i != idx {
                assert(post.slot_value(i) == pre.slot_value(i));
            }
            assert(pre.free_stack@.contains(i as u32));
        }
    }

    /// Borrow the value at storage position `index`, or `None` for a
    /// position that is out of range or currently released. Together with
    /// `high_water_mark`, this stands in for iteration: walking the
    /// positions `0 .. high_water_mark()` visits every stored value.
    pub fn value_at(&self, index: u32) -> (r: Option<&T>)
        requires
            self.wf(),
        ensures
            r is Some <==> index < self.spec_high_water_mark()
                && self.slot_value(index as int) is Some,
            r matches Some(v) ==> Some(*v) == self.slot_value(index as int),
    {
        if index as usize >= self.storage.len() {
            return None;
        }
        match &self.storage[index as usize].data {
            Some(v) => Some(v),
            None => None,
        }
    }

    /// Store a value, recycling the most recently released slot if one
    /// waits, and hand back a packed handle for it.
    pub fn retain(&mut self, value: T) -> (h: Handle)
        requires
            old(self).wf(),
            old(self).spec_high_water_mark() + 1 < HANDLE_INDEX_RADIX,
        ensures
            final(self).wf(),
            final(self).spec_len() == old(self).spec_len() + 1,
            final(self).spec_capacity() == old(self).spec_capacity(),
            final(self).handle_current(h),
            final(self).slot_value(handle_index(h@)) == Some(value),
            forall|i: int| 0 <= i < old(self).spec_high_water_mark()
                && i != handle_index(h@)
                ==> #[trigger] final(self).slot_value(i) == old(self).slot_value(i)
                    && final(self).slot_unique(i) == old(self).slot_unique(i),
            old(self).free_list().len() > 0 ==> {
                &&& handle_index(h@) == old(self).free_list().last()
                &&& final(self).free_list() == old(self).free_list().drop_last()
                &&& final(self).spec_high_water_mark() == old(self).spec_high_water_mark()
            },
            old(self).free_list().len() == 0 ==> {
                &&& handle_index(h@) == old(self).spec_high_water_mark()
                &&& final(self).spec_high_water_mark()
                        == old(self).spec_high_water_mark() + 1
                &&& final(self).free_list() == old(self).free_list()
            },
    {
        if self.free_stack.len() > 0 {
            let result_index = self.free_stack.pop().unwrap();
            proof {
                assert(old(self).free_stack@.last() == result_index);
                assert(old(self).slot_value(result_index as int) is None);
            }
            let mut slot = Slot { unique: 0, data: None };
            self.storage.set_and_swap(result_index as usize, &mut slot);
            let unique = slot.unique;
            let mut refreshed = Slot { unique, data: Some(value) };
            self.storage.set_and_swap(result_index as usize, &mut refreshed);
            proof {
                lemma_simple_count_bounds(old(self).storage@, occupied_pred::<T>());
            }
            self.active_count = self.active_count + 1;
            let h = Handle {
                value: (unique as u64) * HANDLE_INDEX_RADIX + result_index as u64,
            };
            proof {
                lemma_fundamental_div_mod_converse(
                    h.value as int, HANDLE_INDEX_RADIX as int,
                    unique as int, result_index as int);
                let fin = *final(self);
                assert(fin.storage@ =~= old(self).storage@.update(
                    result_index as int, fin.storage@[result_index as int]));
                lemma_simple_count_update(old(self).storage@, occupied_pred(),
                    result_index as int, fin.storage@[result_index as int]);
                assert forall|i: int| 0 <= i < fin.storage@.len()
                    && #[trigger] fin.slot_value(i) is None
                    implies fin.free_stack@.contains(i as u32) by {
                    assert(fin.slot_value(i) == old(self).slot_value(i));
                    assert(old(self).free_stack@.contains(i as u32));
                    let j = choose|j: int| 0 <= j < old(self).free_stack@.len()
                        && old(self).free_stack@[j] == i as u32;
                    assert(j < old(self).free_stack@.len() - 1);
                    assert(fin.free_stack@[j] == i as u32);
                }
                assert forall|j: int| 0 <= j < fin.free_stack@.len()
                    implies fin.slot_value(#[trigger] fin.free_stack@[j] as int)
                        is None by {
                    assert(fin.free_stack@[j] == old(self).free_stack@[j]);
                    if fin.free_stack@[j] == result_index {
                        assert(old(self).free_stack@[j] == old(self).free_stack@.last());
                        assert(false);
                    }
                    assert(fin.slot_value(fin.free_stack@[j] as int)
                        == old(self).slot_value(fin.free_stack@[j] as int));
                }
            }
            h
        } else {
            let result_index = self.storage.len();
            proof {
                lemma_simple_count_bounds(old(self).storage@, occupied_pred::<T>());
            }
            self.storage.push(Slot { unique: 1, data: Some(value) });
            self.active_count = self.active_count + 1;
            let h = Handle {
                value: HANDLE_INDEX_RADIX + result_index as u64,
            };
            proof {
                lemma_fundamental_div_mod_converse(
                    h.value as int, HANDLE_INDEX_RADIX as int, 1, result_index as int);
                let fin = *final(self);
                lemma_simple_count_push(old(self).storage@, occupied_pred(),
                    fin.storage@.last());
                assert(fin.storage@ =~= old(self).storage@.push(fin.storage@.last()));
                assert forall|i: int| 0 <= i < fin.storage@.len()
                    && #[trigger] fin.slot_value(i) is None
                    implies fin.free_stack@.contains(i as u32) by {
                    assert(i < old(self).storage@.len());
                    assert(fin.slot_value(i) == old(self).slot_value(i));
                    assert(old(self).free_stack@.contains(i as u32));
                }
            }
            h
        }
    }

    /// Take the value a handle points at back out, advancing the slot's
    /// reuse counter so every outstanding handle to it stops validating,
    /// and park the slot for reuse. Returns `None`, changing nothing, once
    /// the handle is stale.
    pub fn release(&mut self, handle: Handle) -> (r: Option<T>)
        requires
            old(self).wf(),
        ensures
            final(self).wf(),
            final(self).spec_capacity() == old(self).spec_capacity(),
            final(self).spec_high_water_mark() == old(self).spec_high_water_mark(),
            r is Some <==> old(self).handle_current(handle),
            r is None ==> *final(self) == *old(self),
            r matches Some(v) ==> {
                &&& Some(v) == old(self).slot_value(handle_index(handle@))
                &&& final(self).spec_len() == old(self).spec_len() - 1
                &&& final(self).slot_value(handle_index(handle@)) is None
                &&& final(self).slot_unique(handle_index(handle@))
                        == old(self).slot_unique(handle_index(handle@)).wrapping_add(1)
                &&& final(self).free_list()
                        == old(self).free_list().push(handle_index(handle@) as u32)
                &&& forall|i: int| 0 <= i < old(self).spec_high_water_mark()
                        && i != handle_index(handle@)
                        ==> #[trigger] final(self).slot_value(i) == old(self).slot_value(i)
                            && final(self).slot_unique(i) == old(self).slot_unique(i)
            },
    {
        let idx = (handle.value % HANDLE_INDEX_RADIX) as usize;
        let unique = (handle.value / HANDLE_INDEX_RADIX) as u32;
        if idx >= self.storage.len() {
            return None;
        }
        if self.storage[idx].unique != unique {
            return None;
        }
        if self.storage[idx].data.is_none() {
            return None;
        }
        proof {
            lemma_simple_count_one(old(self).storage@, occupied_pred(), idx as int);
        }
        let mut slot = Slot { unique: 0, data: None };
        self.storage.set_and_swap(idx, &mut slot);
        let mut cleared = Slot { unique: slot.unique.wrapping_add(1), data: None };
        self.storage.set_and_swap(idx, &mut cleared);
        self.free_stack.push(idx as u32);
        self.active_count = self.active_count - 1;
        proof {
            let fin = *final(self);
            assert(fin.storage@ =~= old(self).storage@.update(
                idx as int, fin.storage@[idx as int]));
            lemma_simple_count_update(old(self).storage@, occupied_pred(),
                idx as int, fin.storage@[idx as int]);
            assert forall|i: int| 0 <= i < fin.storage@.len()
                && #[trigger] fin.slot_value(i) is None
                implies fin.free_stack@.contains(i as u32) by {
                if i != idx {
                    assert(fin.slot_value(i) == old(self).slot_value(i));
                    assert(old(self).free_stack@.contains(i as u32));
                    let j = choose|j: int| 0 <= j < old(self).free_stack@.len()
                        && old(self).free_stack@[j] == i as u32;
                    assert(fin.free_stack@[j] == i as u32);
                } else {
                    assert(fin.free_stack@.last() == idx as u32);
                }
            }
            assert forall|j: int| 0 <= j < fin.free_stack@.len()
                implies fin.slot_value(#[trigger] fin.free_stack@[j] as int) is None by {
                if j < old(self).free_stack@.len() {
                    assert(fin.free_stack@[j] == old(self).free_stack@[j]);
                    let e = old(self).free_stack@[j] as int;
                    assert(old(self).slot_value(e) is None);
                    if e != idx as int {
                        assert(fin.slot_value(e) == old(self).slot_value(e));
                    }
                } else {
                    assert(fin.free_stack@[j] == idx as u32);
                }
            }
            assert(!old(self).free_stack@.contains(idx as u32)) by {
                if old(self).free_stack@.contains(idx as u32) {
                    let j = choose|j: int| 0 <= j < old(self).free_stack@.len()
                        && old(self).free_stack@[j] == idx as u32;
                    assert(old(self).slot_value(idx as int) is None);
                }
            }
            assert(fin.free_stack@.no_duplicates()) by {
                assert forall|p: int, q: int|
                    0 <= p < fin.free_stack@.len() && 0 <= q < fin.free_stack@.len()
                    && p != q implies fin.free_stack@[p] != fin.free_stack@[q] by {
                    if p < old(self).free_stack@.len() && q < old(self).free_stack@.len() {
                        assert(old(self).free_stack@[p] != old(self).free_stack@[q]);
                    }
                }
            }
        }
        Some(slot.data.unwrap())
    }

    /// Drop every stored value and reset the store; the reserved capacity
    /// is kept.
    pub fn clear(&mut self)
        requires
            old(self).wf(),
        ensures
            final(self).wf(),
            final(self).spec_capacity() == old(self).spec_capacity(),
            final(self).spec_high_water_mark() == 0,
            final(self).spec_len() == 0,
            final(self).free_list() == Seq::<u32>::empty(),
    {
        self.storage.clear();
        self.free_stack.clear();
        self.active_count = 0;
    }
}

} // verus!
