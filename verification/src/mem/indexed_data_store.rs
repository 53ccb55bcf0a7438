use vstd::prelude::*;

verus! {

/// Low bit of a slot's packed `unique` word: the slot holds a live value.
pub const UNIQUE_INITIALIZED: u32 = 1;

/// Second bit: destruction was requested and waits for the last reference.
pub const UNIQUE_DESTROYED: u32 = 2;

/// Step of the generation counter packed above the two flag bits.
pub const UNIQUE_STEP: u32 = 4;

/// The packed word has its initialized flag set.
pub open spec fn is_initialized_unique(u: u32) -> bool {
    u % 2 == 1
}

/// The packed word has its destroy-requested flag set.
pub open spec fn is_destroyed_unique(u: u32) -> bool {
    (u / 2) % 2 == 1
}

/// The packed word a freshly stored value presents to handles: initialized,
/// not destroy-requested.
pub open spec fn is_handle_unique(u: u32) -> bool {
    u % 4 == 1
}

/// The packed word after destruction is requested on a live slot.
pub open spec fn mark_destroyed(u: u32) -> u32 {
    (u + UNIQUE_DESTROYED) as u32
}

/// The packed word a slot returns to once its last reference departs: both
/// flags cleared and the generation advanced, invalidating every handle
/// minted for the previous lifetime. The 30-bit generation wraps around.
pub open spec fn next_generation(u: u32) -> u32 {
    (((u - u % 4) + UNIQUE_STEP) % 0x1_0000_0000) as u32
}

/// Generation round-trip: a handle minted when the slot carried `u` never
/// matches the slot again at any later point of its lifecycle — once
/// destruction is requested, once the slot is reclaimed, and once it is
/// stored into again — as long as the generation counter has not wrapped.
///
/// `u + UNIQUE_STEP <= u32::MAX` leaves out exactly the wraparound inputs:
/// after about `2^30` recycles of one slot the counter repeats, and a
/// handle that old may validate again; that residual is inherent in a
/// 32-bit generation word.
pub proof fn lemma_generation_round_trip(u: u32)
    requires
        is_handle_unique(u),
        u + UNIQUE_STEP <= u32::MAX,
    ensures
        mark_destroyed(u) != u,
        next_generation(mark_destroyed(u)) != u,
        next_generation(mark_destroyed(u)) + UNIQUE_INITIALIZED != u,
        next_generation(mark_destroyed(u)) + UNIQUE_INITIALIZED > u,
{
}

/// One slot of the arena: the stored value, the packed generation word and
/// the count of outstanding references.
pub struct IndexedData<T> {
    data: Option<T>,
    unique: u32,
    ref_count: u32,
}

/// A slot holding a live, accessible value.
pub closed spec fn slot_is_active<T>(d: IndexedData<T>) -> bool {
    is_initialized_unique(d.unique) && !is_destroyed_unique(d.unique)
}

/// A slot whose destruction was requested but which is still referenced.
pub closed spec fn slot_is_destroyed<T>(d: IndexedData<T>) -> bool {
    is_initialized_unique(d.unique) && is_destroyed_unique(d.unique)
}

/// A free slot.
pub closed spec fn slot_is_free<T>(d: IndexedData<T>) -> bool {
    !is_initialized_unique(d.unique)
}

/// The live-slot predicate, fixed once so that every count of it denotes
/// the same function.
pub closed spec fn active_pred<T>() -> spec_fn(IndexedData<T>) -> bool {
    |d: IndexedData<T>| slot_is_active(d)
}

/// The destroy-requested predicate.
pub closed spec fn destroyed_pred<T>() -> spec_fn(IndexedData<T>) -> bool {
    |d: IndexedData<T>| slot_is_destroyed(d)
}

/// The free-slot predicate.
pub closed spec fn free_pred<T>() -> spec_fn(IndexedData<T>) -> bool {
    |d: IndexedData<T>| slot_is_free(d)
}

/// How many slots of `s` satisfy `pred`.
pub closed spec fn count_slots<T>(s: Seq<IndexedData<T>>, pred: spec_fn(IndexedData<T>) -> bool) -> int
    decreases s.len(),
{
    if s.len() == 0 {
        0
    } else {
        count_slots(s.drop_last(), pred) + if pred(s.last()) { 1int } else { 0 }
    }
}

/// The count is bounded by the length.
proof fn lemma_count_bounds<T>(s: Seq<IndexedData<T>>, pred: spec_fn(IndexedData<T>) -> bool)
    ensures
        0 <= count_slots(s, pred) <= s.len(),
    decreases s.len(),
{
    if s.len() > 0 {
        lemma_count_bounds(s.drop_last(), pred);
    }
}

/// Replacing one slot changes the count by the difference at that slot.
proof fn lemma_count_update<T>(
    s: Seq<IndexedData<T>>, pred: spec_fn(IndexedData<T>) -> bool, i: int, v: IndexedData<T>)
    requires
        0 <= i < s.len(),
    ensures
        count_slots(s.update(i, v), pred) == count_slots(s, pred)
            - (if pred(s[i]) { 1int } else { 0 }) + (if pred(v) { 1int } else { 0 }),
    decreases s.len(),
{
    if i == s.len() - 1 {
        assert(s.update(i, v).drop_last() =~= s.drop_last());
    } else {
        assert(s.update(i, v).drop_last() =~= s.drop_last().update(i, v));
        lemma_count_update(s.drop_last(), pred, i, v);
    }
}

/// Appending a slot adds its contribution to the count.
proof fn lemma_count_push<T>(
    s: Seq<IndexedData<T>>, pred: spec_fn(IndexedData<T>) -> bool, v: IndexedData<T>)
    ensures
        count_slots(s.push(v), pred) == count_slots(s, pred) + if pred(v) { 1int } else { 0 },
{
    assert(s.push(v).drop_last() =~= s);
}

/// A slot satisfying the predicate makes the count positive.
proof fn lemma_count_one<T>(
    s: Seq<IndexedData<T>>, pred: spec_fn(IndexedData<T>) -> bool, i: int)
    requires
        0 <= i < s.len(),
        pred(s[i]),
    ensures
        count_slots(s, pred) >= 1,
    decreases s.len(),
{
    lemma_count_bounds(s.drop_last(), pred);
    if i < s.len() - 1 {
        lemma_count_one(s.drop_last(), pred, i);
    }
}

/// The three counters and the free list never outrun the slot array or the
/// capacity; packaged for reuse at every call site.
proof fn lemma_counts_in_range<T>(store: IndexedDataStore<T>)
    requires
        store.wf(),
    ensures
        store.spec_active_count() + store.spec_destroyed_count()
            + store.free_list().len() == store.spec_high_water_mark(),
        store.spec_active_count() + store.spec_destroyed_count()
            <= store.spec_capacity(),
{
    lemma_count_partition(store.slots@);
    lemma_count_bounds(store.slots@, active_pred::<T>());
    lemma_count_bounds(store.slots@, destroyed_pred::<T>());
    lemma_count_bounds(store.slots@, free_pred::<T>());
}

/// All slots below `pre`'s high-water mark other than `idx` are untouched
/// between `pre` and `post`.
pub open spec fn unchanged_except<T>(
    pre: IndexedDataStore<T>, post: IndexedDataStore<T>, idx: int) -> bool {
    forall|i: int| 0 <= i < pre.spec_high_water_mark() && i != idx
        ==> #[trigger] post.slot_unique(i) == pre.slot_unique(i)
            && post.slot_value(i) == pre.slot_value(i)
            && post.slot_ref_count(i) == pre.slot_ref_count(i)
}

/// Updating a slot that stays initialized, while the free stack is
/// untouched, preserves the free stack's three shape conditions.
proof fn lemma_stack_shape_after_update<T>(
    pre: IndexedDataStore<T>, post: IndexedDataStore<T>, i: int)
    requires
        pre.wf(),
        post.free_stack@ == pre.free_stack@,
        post.slots@.len() == pre.slots@.len(),
        0 <= i < pre.slots@.len(),
        forall|k: int| 0 <= k < pre.slots@.len() && k != i
            ==> #[trigger] post.slots@[k] == pre.slots@[k],
        is_initialized_unique(post.slots@[i].unique),
        is_initialized_unique(pre.slots@[i].unique),
    ensures
        post.free_stack@.no_duplicates(),
        forall|j: int| 0 <= j < post.free_stack@.len()
            ==> #[trigger] post.free_stack@[j] < post.slots@.len(),
        forall|j: int| 0 <= j < post.free_stack@.len()
            ==> !is_initialized_unique(post.slot_unique(#[trigger] post.free_stack@[j] as int)),
        forall|k: int| 0 <= k < post.slots@.len() && !is_initialized_unique(
            #[trigger] post.slot_unique(k)) ==> post.free_stack@.contains(k as u32),
{
    assert forall|j: int| 0 <= j < post.free_stack@.len()
        implies !is_initialized_unique(
            post.slot_unique(#[trigger] post.free_stack@[j] as int)) by {
        assert(post.free_stack@[j] == pre.free_stack@[j]);
        let e = pre.free_stack@[j] as int;
        assert(!is_initialized_unique(pre.slot_unique(e)));
        if e == i {
            assert(false);
        }
    }
    assert forall|k: int| 0 <= k < post.slots@.len() && !is_initialized_unique(
        #[trigger] post.slot_unique(k)) implies post.free_stack@.contains(k as u32) by {
        if k == i {
            assert(false);
        }
        assert(post.slot_unique(k) == pre.slot_unique(k));
        assert(pre.free_stack@.contains(k as u32));
    }
}

/// The three state predicates agree between two slots whose generation
/// word matches (and, for the value-carrying one, whose occupancy agrees).
spec fn pred_triple_eq<T>(a: IndexedData<T>, b: IndexedData<T>) -> bool {
    &&& slot_is_active(a) == slot_is_active(b)
    &&& slot_is_destroyed(a) == slot_is_destroyed(b)
    &&& slot_is_free(a) == slot_is_free(b)
}

/// Slot arrays that agree on the predicate at every index have the same
/// count.
proof fn lemma_count_congruence<T>(
    s1: Seq<IndexedData<T>>, s2: Seq<IndexedData<T>>, pred: spec_fn(IndexedData<T>) -> bool)
    requires
        s1.len() == s2.len(),
        forall|i: int| 0 <= i < s1.len() ==> pred(#[trigger] s1[i]) == pred(#[trigger] s2[i]),
    ensures
        count_slots(s1, pred) == count_slots(s2, pred),
    decreases s1.len(),
{
    if s1.len() > 0 {
        lemma_count_congruence(s1.drop_last(), s2.drop_last(), pred);
    }
}

/// Every slot is in exactly one of the three states, so the three counts
/// partition the slot array.
proof fn lemma_count_partition<T>(s: Seq<IndexedData<T>>)
    ensures
        count_slots(s, active_pred()) + count_slots(s, destroyed_pred())
            + count_slots(s, free_pred()) == s.len(),
    decreases s.len(),
{
    if s.len() > 0 {
        lemma_count_partition(s.drop_last());
    }
}

/// A plain, copyable, externally storable ticket for a stored value: slot
/// index plus the generation word observed at store time. Redeeming it
/// fails once the slot's generation has moved on.
#[derive(Copy, Clone, PartialEq, Eq, Structural, Debug, Hash)]
pub struct IndexedHandle {
    unique: u32,
    index: u32,
}

impl IndexedHandle {
    /// The slot this handle points into.
    pub closed spec fn spec_index(&self) -> u32 {
        self.index
    }

    /// The generation word observed when the handle was minted.
    pub closed spec fn spec_unique(&self) -> u32 {
        self.unique
    }
}

/// A live, ownership-carrying token obtained by redeeming a handle; it
/// holds one unit of its slot's reference count, and releasing it through
/// the arena is mandatory.
#[derive(PartialEq, Eq, Structural, Debug, Hash)]
pub struct IndexedRef {
    index: u32,
}

impl IndexedRef {
    /// The slot this reference keeps alive.
    pub closed spec fn spec_index(&self) -> u32 {
        self.index
    }
}

/// The single-owner generational handle arena: a fixed-capacity slot array
/// whose handles are validated against per-slot generation counters, with
/// destruction deferred until the last outstanding reference is released.
pub struct IndexedDataStore<T> {
    slots: Vec<IndexedData<T>>,
    capacity: u32,
    free_stack: Vec<u32>,
    active_count: u32,
    destroyed_count: u32,
}

impl<T> IndexedDataStore<T> {
    /// The packed generation word of slot `i`.
    pub closed spec fn slot_unique(&self, i: int) -> u32 {
        self.slots@[i].unique
    }

    /// The reference count of slot `i`.
    pub closed spec fn slot_ref_count(&self, i: int) -> u32 {
        self.slots@[i].ref_count
    }

    /// The value stored in slot `i`, if the slot is live.
    pub closed spec fn slot_value(&self, i: int) -> Option<T> {
        self.slots@[i].data
    }

    /// How much of the slot array has ever been used.
    pub closed spec fn spec_high_water_mark(&self) -> nat {
        self.slots@.len()
    }

    /// Total fixed capacity.
    pub closed spec fn spec_capacity(&self) -> nat {
        self.capacity as nat
    }

    /// Currently stored and accessible values.
    pub closed spec fn spec_active_count(&self) -> nat {
        self.active_count as nat
    }

    /// Values marked destroyed that still wait on outstanding references.
    pub closed spec fn spec_destroyed_count(&self) -> nat {
        self.destroyed_count as nat
    }

    /// The recycled slot indices waiting for reuse, most recent last.
    pub closed spec fn free_list(&self) -> Seq<u32> {
        self.free_stack@
    }

    /// The arena's invariant. Each slot is in exactly one of three states:
    /// free (no flags, no value, no references, on the free list exactly
    /// once), live (initialized, a value, at least one reference — the
    /// implicit store-time one), or destroy-requested (both flags, value
    /// and references still present until the last one departs).
    pub closed spec fn wf(&self) -> bool {
        &&& self.slots@.len() <= self.capacity
        &&& self.free_stack@.no_duplicates()
        &&& forall|j: int| 0 <= j < self.free_stack@.len()
                ==> #[trigger] self.free_stack@[j] < self.slots@.len()
        &&& forall|j: int| 0 <= j < self.free_stack@.len()
                ==> !is_initialized_unique(self.slot_unique(#[trigger] self.free_stack@[j] as int))
        &&& forall|i: int| 0 <= i < self.slots@.len() && !is_initialized_unique(
                #[trigger] self.slot_unique(i)) ==> self.free_stack@.contains(i as u32)
        &&& forall|i: int| 0 <= i < self.slots@.len() ==> {
                let u = #[trigger] self.slot_unique(i);
                &&& (self.slot_value(i) is Some <==> is_initialized_unique(u))
                &&& (is_initialized_unique(u) ==> self.slot_ref_count(i) >= 1)
                &&& (!is_initialized_unique(u) ==> self.slot_ref_count(i) == 0
                        && !is_destroyed_unique(u))
            }
        &&& self.active_count == count_slots(self.slots@, active_pred())
        &&& self.destroyed_count == count_slots(self.slots@, destroyed_pred())
        &&& self.free_stack@.len() == count_slots(self.slots@, free_pred())
    }

    /// A reference token is backed by a live slot holding its unit of the
    /// reference count.
    pub open spec fn ref_alive(&self, r: &IndexedRef) -> bool {
        &&& r.spec_index() < self.spec_high_water_mark()
        &&& self.slot_value(r.spec_index() as int) is Some
        &&& self.slot_ref_count(r.spec_index() as int) >= 1
    }

    /// A handle validates against the arena: in bounds and of the current
    /// generation.
    pub open spec fn handle_current(&self, h: IndexedHandle) -> bool {
        &&& h.spec_index() < self.spec_high_water_mark()
        &&& self.slot_unique(h.spec_index() as int) == h.spec_unique()
    }

    /// Create an arena of fixed `capacity` slots.
    pub fn new(capacity: u32) -> (r: IndexedDataStore<T>)
        ensures
            r.wf(),
            r.spec_capacity() == capacity,
            r.spec_high_water_mark() == 0,
            r.spec_active_count() == 0,
            r.spec_destroyed_count() == 0,
            r.free_list() == Seq::<u32>::empty(),
    {
        IndexedDataStore {
            slots: Vec::new(),
            capacity,
            free_stack: Vec::new(),
            active_count: 0,
            destroyed_count: 0,
        }
    }

    /// How much of the slot array has ever been used.
    pub fn high_water_mark(&self) -> (r: u32)
        requires
            self.wf(),
        ensures
            r == self.spec_high_water_mark(),
    {
        self.slots.len() as u32
    }

    /// How many values are currently stored and accessible.
    pub fn active_count(&self) -> (r: u32)
        ensures
            r == self.spec_active_count(),
    {
        self.active_count
    }

    /// How many values are marked destroyed but still referenced.
    pub fn destroyed_count(&self) -> (r: u32)
        ensures
            r == self.spec_destroyed_count(),
    {
        self.destroyed_count
    }

    /// Total fixed capacity.
    pub fn capacity(&self) -> (r: u32)
        ensures
            r == self.spec_capacity(),
    {
        self.capacity
    }

    /// How many more values can be stored: capacity less the active and the
    /// destroyed-but-referenced slots.
    pub fn available_count(&self) -> (r: u32)
        requires
            self.wf(),
        ensures
            r == self.spec_capacity() - self.spec_active_count()
                - self.spec_destroyed_count(),
    {
        proof {
            lemma_counts_in_range(*self);
        }
        self.capacity - self.active_count() - self.destroyed_count()
    }

    /// Store a value: a recycled slot is reused (its generation already
    /// advanced past every stale handle), else the high-water mark grows,
    /// up to the fixed capacity. The fresh slot carries the implicit
    /// store-time reference. Returns `None` exactly when the arena is full.
    pub fn store(&mut self, value: T) -> (r: Option<IndexedHandle>)
        requires
            old(self).wf(),
        ensures
            final(self).wf(),
            final(self).spec_capacity() == old(self).spec_capacity(),
            r is Some <==> old(self).spec_active_count() + old(self).spec_destroyed_count()
                < old(self).spec_capacity(),
            r is None ==> *final(self) == *old(self),
            r matches Some(h) ==> {
                &&& final(self).spec_active_count() == old(self).spec_active_count() + 1
                &&& final(self).spec_destroyed_count() == old(self).spec_destroyed_count()
                &&& h.spec_index() < final(self).spec_high_water_mark()
                &&& final(self).handle_current(h)
                &&& is_handle_unique(h.spec_unique())
                &&& final(self).slot_value(h.spec_index() as int) == Some(value)
                &&& final(self).slot_ref_count(h.spec_index() as int) == 1
                &&& unchanged_except(*old(self), *final(self), h.spec_index() as int)
                &&& (old(self).free_list().len() > 0 ==> {
                    &&& h.spec_index() == old(self).free_list().last()
                    &&& final(self).free_list() == old(self).free_list().drop_last()
                    &&& final(self).spec_high_water_mark()
                            == old(self).spec_high_water_mark()
                    &&& h.spec_unique()
                            == old(self).slot_unique(h.spec_index() as int) + UNIQUE_INITIALIZED
                })
                &&& (old(self).free_list().len() == 0 ==> {
                    &&& h.spec_index() == old(self).spec_high_water_mark()
                    &&& final(self).spec_high_water_mark()
                            == old(self).spec_high_water_mark() + 1
                    &&& h.spec_unique() == UNIQUE_INITIALIZED
                    &&& final(self).free_list() == old(self).free_list()
                })
            },
    {
        if self.free_stack.len() > 0 {
            let index = self.free_stack.pop().unwrap();
            {
                proof {
                    assert(old(self).free_stack@.last() == index);
                    assert(!is_initialized_unique(old(self).slot_unique(index as int)));
                    assert(old(self).slot_unique(index as int) % 2 == 0);
                }
                let mut slot = IndexedData { data: None, unique: 0, ref_count: 0 };
                self.slots.set_and_swap(index as usize, &mut slot);
                let unique = slot.unique + UNIQUE_INITIALIZED;
                let mut refreshed = IndexedData {
                    data: Some(value),
                    unique,
                    ref_count: 1,
                };
                self.slots.set_and_swap(index as usize, &mut refreshed);
                proof {
                    lemma_counts_in_range(*old(self));
                    lemma_count_one(old(self).slots@, free_pred(), index as int);
                }
                self.active_count = self.active_count + 1;
                let h = IndexedHandle { index, unique };
                proof {
                    let fin = *final(self);
                    assert(fin.slots@ =~= old(self).slots@.update(
                        index as int, fin.slots@[index as int]));
                    assert forall|i: int| 0 <= i < fin.slots@.len() && i != index as int implies
                        #[trigger] fin.slot_unique(i) == old(self).slot_unique(i)
                        && fin.slot_value(i) == old(self).slot_value(i)
                        && fin.slot_ref_count(i) == old(self).slot_ref_count(i) by {
                        assert(fin.slots@[i] == old(self).slots@[i]);
                    }

                    lemma_count_update(old(self).slots@, active_pred(),
                        index as int, fin.slots@[index as int]);
                    lemma_count_update(old(self).slots@, destroyed_pred(),
                        index as int, fin.slots@[index as int]);
                    lemma_count_update(old(self).slots@, free_pred(),
                        index as int, fin.slots@[index as int]);
                    assert forall|i: int| 0 <= i < fin.slots@.len()
                        && !is_initialized_unique(#[trigger] fin.slot_unique(i))
                        implies fin.free_stack@.contains(i as u32) by {
                        assert(fin.slot_unique(i) == old(self).slot_unique(i));
                        assert(old(self).free_stack@.contains(i as u32));
                        let j = choose|j: int| 0 <= j < old(self).free_stack@.len()
                            && old(self).free_stack@[j] == i as u32;
                        assert(j < old(self).free_stack@.len() - 1);
                        assert(fin.free_stack@[j] == i as u32);
                    }
                    assert forall|j: int| 0 <= j < fin.free_stack@.len()
                        implies !is_initialized_unique(
                            fin.slot_unique(#[trigger] fin.free_stack@[j] as int)) by {
                        assert(fin.free_stack@[j] == old(self).free_stack@[j]);
                        let e = old(self).free_stack@[j] as int;
                        assert(!is_initialized_unique(old(self).slot_unique(e)));
                        if fin.free_stack@[j] == index {
                            assert(old(self).free_stack@[j]
                                == old(self).free_stack@.last());
                            assert(false);
                        }
                        assert(fin.slot_unique(e) == old(self).slot_unique(e));
                    }
                    assert forall|i: int| 0 <= i < fin.slots@.len() implies {
                        let u = #[trigger] fin.slot_unique(i);
                        &&& (fin.slot_value(i) is Some <==> is_initialized_unique(u))
                        &&& (is_initialized_unique(u) ==> fin.slot_ref_count(i) >= 1)
                        &&& (!is_initialized_unique(u) ==> fin.slot_ref_count(i) == 0
                                && !is_destroyed_unique(u))
                    } by {
                        if i != index {
                            assert(fin.slots@[i] == old(self).slots@[i]);
                            assert(old(self).slot_unique(i) == fin.slot_unique(i));
                        }
                    }
                }
                Some(h)
            }
        } else {
            {
                let hwm = self.slots.len();
                if (hwm as u32) < self.capacity {
                    proof {
                        lemma_counts_in_range(*old(self));
                    }
                    self.slots.push(IndexedData {
                        data: Some(value),
                        unique: UNIQUE_INITIALIZED,
                        ref_count: 1,
                    });
                    self.active_count = self.active_count + 1;
                    let h = IndexedHandle { index: hwm as u32, unique: UNIQUE_INITIALIZED };
                    proof {
                        let fin = *final(self);
                        assert forall|i: int| 0 <= i < fin.slots@.len() && i != old(self).slots@.len() implies
                            #[trigger] fin.slot_unique(i) == old(self).slot_unique(i)
                            && fin.slot_value(i) == old(self).slot_value(i)
                            && fin.slot_ref_count(i) == old(self).slot_ref_count(i) by {
                            assert(fin.slots@[i] == old(self).slots@[i]);
                        }
                        lemma_count_push(old(self).slots@, active_pred(),
                            fin.slots@.last());
                        lemma_count_push(old(self).slots@, destroyed_pred(),
                            fin.slots@.last());
                        lemma_count_push(old(self).slots@, free_pred(),
                            fin.slots@.last());
                        assert(fin.slots@ =~= old(self).slots@.push(fin.slots@.last()));
                        assert forall|i: int| 0 <= i < fin.slots@.len()
                            && !is_initialized_unique(#[trigger] fin.slot_unique(i))
                            implies fin.free_stack@.contains(i as u32) by {
                            if i < old(self).slots@.len() {
                                assert(fin.slot_unique(i) == old(self).slot_unique(i));
                                assert(old(self).free_stack@.contains(i as u32));
                            }
                        }
                    }
                    Some(h)
                } else {
                    proof {
                        lemma_counts_in_range(*old(self));
                    }
                    None
                }
            }
        }
    }

    /// Retain a strong reference: validate the handle against the slot's
    /// current generation, and on a match bump the reference count and hand
    /// out a reference token. A stale handle — one whose slot was freed, or
    /// freed and reused — returns `None`. A reference count at its
    /// numeric limit also returns `None` rather than overflowing.
    pub fn retain(&mut self, handle: IndexedHandle) -> (r: Option<IndexedRef>)
        requires
            old(self).wf(),
        ensures
            final(self).wf(),
            final(self).spec_capacity() == old(self).spec_capacity(),
            r is Some <==> old(self).handle_current(handle)
                && is_initialized_unique(handle.spec_unique())
                && old(self).slot_ref_count(handle.spec_index() as int) < u32::MAX,
            r is None ==> *final(self) == *old(self),
            r matches Some(t) ==> {
                &&& t.spec_index() == handle.spec_index()
                &&& final(self).slot_ref_count(handle.spec_index() as int)
                        == old(self).slot_ref_count(handle.spec_index() as int) + 1
                &&& final(self).slot_unique(handle.spec_index() as int)
                        == old(self).slot_unique(handle.spec_index() as int)
                &&& final(self).slot_value(handle.spec_index() as int)
                        == old(self).slot_value(handle.spec_index() as int)
                &&& unchanged_except(*old(self), *final(self), handle.spec_index() as int)
                &&& final(self).free_list() == old(self).free_list()
                &&& final(self).spec_active_count() == old(self).spec_active_count()
                &&& final(self).spec_destroyed_count() == old(self).spec_destroyed_count()
                &&& final(self).spec_high_water_mark() == old(self).spec_high_water_mark()
            },
    {
        if handle.index >= self.slots.len() as u32 {
            return None;
        }
        let current = self.slots[handle.index as usize].unique;
        if current != handle.unique {
            return None;
        }
        if current % 2 != 1 {
            // no handle minted by the arena carries a generation word
            // without the initialized flag
            return None;
        }
        if self.slots[handle.index as usize].ref_count == u32::MAX {
            return None;
        }
        let mut slot = IndexedData { data: None, unique: 0, ref_count: 0 };
        self.slots.set_and_swap(handle.index as usize, &mut slot);
        let mut updated = IndexedData {
            ref_count: slot.ref_count + 1,
            ..slot
        };
        self.slots.set_and_swap(handle.index as usize, &mut updated);
        proof {
            let fin = *final(self);
            assert(fin.slots@ =~= old(self).slots@.update(
                handle.index as int, fin.slots@[handle.index as int]));
            assert forall|i: int| 0 <= i < fin.slots@.len() && i != handle.index as int implies
                #[trigger] fin.slot_unique(i) == old(self).slot_unique(i)
                && fin.slot_value(i) == old(self).slot_value(i)
                && fin.slot_ref_count(i) == old(self).slot_ref_count(i) by {
                assert(fin.slots@[i] == old(self).slots@[i]);
            }
            lemma_count_update(old(self).slots@, active_pred(),
                handle.index as int, fin.slots@[handle.index as int]);
            lemma_count_update(old(self).slots@, destroyed_pred(),
                handle.index as int, fin.slots@[handle.index as int]);
            lemma_count_update(old(self).slots@, free_pred(),
                handle.index as int, fin.slots@[handle.index as int]);
            lemma_stack_shape_after_update(*old(self), fin, handle.index as int);
        }
        Some(IndexedRef { index: handle.index })
    }

    /// Borrow the value a live reference keeps alive.
    pub fn get(&self, reference: &IndexedRef) -> (r: &T)
        requires
            self.wf(),
            self.ref_alive(reference),
        ensures
            Some(*r) == self.slot_value(reference.spec_index() as int),
    {
        self.slots[reference.index as usize].data.as_ref().unwrap()
    }

    /// Mutably borrow the value a live reference keeps alive. The arena
    /// does not itself arbitrate concurrent access to a payload — this is
    /// the single-owner variant, and the exclusive borrow is the
    /// arbitration. The returned borrow can only change the stored value,
    /// never the slot's bookkeeping; [`lemma_wf_after_value_update`]
    /// restores the arena's well-formedness from that shape.
    pub fn get_mut(&mut self, reference: &IndexedRef) -> (r: &mut T)
        requires
            old(self).wf(),
            old(self).ref_alive(reference),
        ensures
            Some(*r) == old(self).slot_value(reference.spec_index() as int),
            final(self).slot_value(reference.spec_index() as int) == Some(*final(r)),
            final(self).slot_unique(reference.spec_index() as int)
                == old(self).slot_unique(reference.spec_index() as int),
            final(self).slot_ref_count(reference.spec_index() as int)
                == old(self).slot_ref_count(reference.spec_index() as int),
            unchanged_except(*old(self), *final(self), reference.spec_index() as int),
            final(self).free_list() == old(self).free_list(),
            final(self).spec_high_water_mark() == old(self).spec_high_water_mark(),
            final(self).spec_capacity() == old(self).spec_capacity(),
            final(self).spec_active_count() == old(self).spec_active_count(),
            final(self).spec_destroyed_count() == old(self).spec_destroyed_count(),
    {
        proof {
            assert(is_initialized_unique(old(self).slot_unique(reference.index as int)));
        }
        let element = &mut self.slots[reference.index as usize];
        element.data.as_mut().unwrap()
    }

    /// The exclusive borrow of [`IndexedDataStore::get_mut`] can only have
    /// replaced the stored value: a state related to a well-formed one
    /// that way is well-formed again.
    pub proof fn lemma_wf_after_value_update(
        pre: IndexedDataStore<T>, post: IndexedDataStore<T>, idx: int)
        requires
            pre.wf(),
            0 <= idx < pre.spec_high_water_mark(),
            unchanged_except(pre, post, idx),
            post.spec_high_water_mark() == pre.spec_high_water_mark(),
            post.free_list() == pre.free_list(),
            post.spec_active_count() == pre.spec_active_count(),
            post.spec_destroyed_count() == pre.spec_destroyed_count(),
            post.spec_capacity() == pre.spec_capacity(),
            post.slot_unique(idx) == pre.slot_unique(idx),
            post.slot_ref_count(idx) == pre.slot_ref_count(idx),
            (post.slot_value(idx) is Some <==> pre.slot_value(idx) is Some),
        ensures
            post.wf(),
    {
        assert forall|i: int| 0 <= i < pre.slots@.len()
            implies pred_triple_eq(pre.slots@[i], post.slots@[i]) by {
            if i != idx {
                assert(post.slot_unique(i) == pre.slot_unique(i));
            }
        }
        lemma_count_congruence(pre.slots@, post.slots@, active_pred());
        lemma_count_congruence(pre.slots@, post.slots@, destroyed_pred());
        lemma_count_congruence(pre.slots@, post.slots@, free_pred());
        assert forall|j: int| 0 <= j < post.free_stack@.len()
            implies !is_initialized_unique(
                post.slot_unique(#[trigger] post.free_stack@[j] as int)) by {
            assert(post.free_stack@[j] == pre.free_stack@[j]);
            let e = pre.free_stack@[j] as int;
            assert(!is_initialized_unique(pre.slot_unique(e)));
            if e != idx {
                assert(post.slot_unique(e) == pre.slot_unique(e));
            }
        }
        assert forall|i: int| 0 <= i < post.slots@.len()
            && !is_initialized_unique(#[trigger] post.slot_unique(i))
            implies post.free_stack@.contains(i as u32) by {
            if i != idx {
                assert(post.slot_unique(i) == pre.slot_unique(i));
            }
            assert(pre.free_stack@.contains(i as u32));
        }
        assert forall|i: int| 0 <= i < post.slots@.len() implies {
            let u = #[trigger] post.slot_unique(i);
            &&& (post.slot_value(i) is Some <==> is_initialized_unique(u))
            &&& (is_initialized_unique(u) ==> post.slot_ref_count(i) >= 1)
            &&& (!is_initialized_unique(u) ==> post.slot_ref_count(i) == 0
                    && !is_destroyed_unique(u))
        } by {
            if i != idx {
                assert(post.slot_unique(i) == pre.slot_unique(i));
                assert(post.slot_value(i) == pre.slot_value(i));
                assert(post.slot_ref_count(i) == pre.slot_ref_count(i));
            }
            assert(pre.slot_value(i) is Some
                <==> is_initialized_unique(pre.slot_unique(i)));
        }
    }

    /// Mint a fresh handle for a held reference, carrying the slot's
    /// current generation word. If destruction was already requested, the
    /// minted word carries the destroy flag: `retain` still accepts it
    /// while the value lives, but `free` refuses it, so the deletion
    /// cannot be re-requested through it.
    pub fn handle(&self, reference: &IndexedRef) -> (h: IndexedHandle)
        requires
            self.wf(),
            self.ref_alive(reference),
        ensures
            h.spec_index() == reference.spec_index(),
            h.spec_unique() == self.slot_unique(reference.spec_index() as int),
    {
        IndexedHandle {
            index: reference.index,
            unique: self.slots[reference.index as usize].unique,
        }
    }

    /// Since the caller already holds a reference, the slot is alive and a
    /// second reference can be taken without a generation check.
    pub fn clone(&mut self, reference: &IndexedRef) -> (r: IndexedRef)
        requires
            old(self).wf(),
            old(self).ref_alive(reference),
            old(self).slot_ref_count(reference.spec_index() as int) < u32::MAX,
        ensures
            final(self).wf(),
            final(self).spec_capacity() == old(self).spec_capacity(),
            r.spec_index() == reference.spec_index(),
            final(self).slot_ref_count(reference.spec_index() as int)
                == old(self).slot_ref_count(reference.spec_index() as int) + 1,
            final(self).slot_unique(reference.spec_index() as int)
                == old(self).slot_unique(reference.spec_index() as int),
            final(self).slot_value(reference.spec_index() as int)
                == old(self).slot_value(reference.spec_index() as int),
            unchanged_except(*old(self), *final(self), reference.spec_index() as int),
            final(self).free_list() == old(self).free_list(),
            final(self).spec_active_count() == old(self).spec_active_count(),
            final(self).spec_destroyed_count() == old(self).spec_destroyed_count(),
            final(self).spec_high_water_mark() == old(self).spec_high_water_mark(),
    {
        let mut slot = IndexedData { data: None, unique: 0, ref_count: 0 };
        self.slots.set_and_swap(reference.index as usize, &mut slot);
        let mut updated = IndexedData {
            ref_count: slot.ref_count + 1,
            ..slot
        };
        self.slots.set_and_swap(reference.index as usize, &mut updated);
        proof {
            let fin = *final(self);
            assert(is_initialized_unique(old(self).slot_unique(reference.index as int)));
            assert(fin.slots@ =~= old(self).slots@.update(
                reference.index as int, fin.slots@[reference.index as int]));
            assert forall|i: int| 0 <= i < fin.slots@.len() && i != reference.index as int implies
                #[trigger] fin.slot_unique(i) == old(self).slot_unique(i)
                && fin.slot_value(i) == old(self).slot_value(i)
                && fin.slot_ref_count(i) == old(self).slot_ref_count(i) by {
                assert(fin.slots@[i] == old(self).slots@[i]);
            }
            lemma_count_update(old(self).slots@, active_pred(),
                reference.index as int, fin.slots@[reference.index as int]);
            lemma_count_update(old(self).slots@, destroyed_pred(),
                reference.index as int, fin.slots@[reference.index as int]);
            lemma_count_update(old(self).slots@, free_pred(),
                reference.index as int, fin.slots@[reference.index as int]);
            lemma_stack_shape_after_update(*old(self), fin, reference.index as int);
        }
        IndexedRef { index: reference.index }
    }

    /// Whether destruction of the referenced value was already requested.
    pub fn destroyed(&self, reference: &IndexedRef) -> (r: bool)
        requires
            self.wf(),
            self.ref_alive(reference),
        ensures
            r == is_destroyed_unique(self.slot_unique(reference.spec_index() as int)),
    {
        (self.slots[reference.index as usize].unique / 2) % 2 == 1
    }

    /// Drop one unit of a slot's reference count; when the count reaches
    /// zero on a destroy-requested slot, the value is dropped in place, the
    /// generation advances (invalidating every outstanding handle), and the
    /// slot index joins the free list.
    fn decrement_ref_count(&mut self, index: u32)
        requires
            old(self).wf(),
            index < old(self).spec_high_water_mark(),
            old(self).slot_ref_count(index as int) >= 1,
            old(self).slot_value(index as int) is Some,
            old(self).slot_ref_count(index as int) == 1
                ==> is_destroyed_unique(old(self).slot_unique(index as int)),
        ensures
            final(self).wf(),
            final(self).spec_capacity() == old(self).spec_capacity(),
            final(self).spec_high_water_mark() == old(self).spec_high_water_mark(),
            final(self).spec_active_count() == old(self).spec_active_count(),
            unchanged_except(*old(self), *final(self), index as int),
            old(self).slot_ref_count(index as int) > 1 ==> {
                &&& final(self).slot_ref_count(index as int)
                        == old(self).slot_ref_count(index as int) - 1
                &&& final(self).slot_unique(index as int) == old(self).slot_unique(index as int)
                &&& final(self).slot_value(index as int) == old(self).slot_value(index as int)
                &&& final(self).free_list() == old(self).free_list()
                &&& final(self).spec_destroyed_count() == old(self).spec_destroyed_count()
            },
            old(self).slot_ref_count(index as int) == 1 ==> {
                &&& final(self).slot_ref_count(index as int) == 0
                &&& final(self).slot_value(index as int) is None
                &&& final(self).slot_unique(index as int)
                        == next_generation(old(self).slot_unique(index as int))
                &&& final(self).free_list() == old(self).free_list().push(index)
                &&& final(self).spec_destroyed_count()
                        == old(self).spec_destroyed_count() - 1
            },
    {
        proof {
            if old(self).slot_ref_count(index as int) == 1 {
                lemma_count_one(old(self).slots@, destroyed_pred(), index as int);
            }
        }
        let mut slot = IndexedData { data: None, unique: 0, ref_count: 0 };
        self.slots.set_and_swap(index as usize, &mut slot);
        if slot.ref_count == 1 && (slot.unique / 2) % 2 == 1 {
            // the last reference departs a destroy-requested slot: drop the
            // value, advance the generation, recycle the index
            let mut cleared = IndexedData {
                data: None,
                unique: (slot.unique - slot.unique % 4).wrapping_add(UNIQUE_STEP),
                ref_count: 0,
            };
            self.slots.set_and_swap(index as usize, &mut cleared);
            self.free_stack.push(index);
            self.destroyed_count = self.destroyed_count - 1;
            proof {
                let fin = *final(self);
                assert(fin.slots@ =~= old(self).slots@.update(
                    index as int, fin.slots@[index as int]));
                assert forall|i: int| 0 <= i < fin.slots@.len() && i != index as int implies
                    #[trigger] fin.slot_unique(i) == old(self).slot_unique(i)
                    && fin.slot_value(i) == old(self).slot_value(i)
                    && fin.slot_ref_count(i) == old(self).slot_ref_count(i) by {
                    assert(fin.slots@[i] == old(self).slots@[i]);
                }
                lemma_count_update(old(self).slots@, active_pred(),
                    index as int, fin.slots@[index as int]);
                lemma_count_update(old(self).slots@, destroyed_pred(),
                    index as int, fin.slots@[index as int]);
                lemma_count_update(old(self).slots@, free_pred(),
                    index as int, fin.slots@[index as int]);
                assert(!is_initialized_unique(fin.slot_unique(index as int)));
                assert forall|i: int| 0 <= i < fin.slots@.len()
                    && !is_initialized_unique(#[trigger] fin.slot_unique(i))
                    implies fin.free_stack@.contains(i as u32) by {
                    if i != index {
                        assert(fin.slot_unique(i) == old(self).slot_unique(i));
                        assert(old(self).free_stack@.contains(i as u32));
                        let j = choose|j: int| 0 <= j < old(self).free_stack@.len()
                            && old(self).free_stack@[j] == i as u32;
                        assert(fin.free_stack@[j] == i as u32);
                    } else {
                        assert(fin.free_stack@.last() == index);
                    }
                }
                assert forall|j: int| 0 <= j < fin.free_stack@.len()
                    implies !is_initialized_unique(
                        fin.slot_unique(#[trigger] fin.free_stack@[j] as int)) by {
                    if j < old(self).free_stack@.len() {
                        assert(fin.free_stack@[j] == old(self).free_stack@[j]);
                        let e = old(self).free_stack@[j] as int;
                        assert(!is_initialized_unique(old(self).slot_unique(e)));
                        if e != index {
                            assert(fin.slot_unique(e) == old(self).slot_unique(e));
                        }
                    } else {
                        assert(fin.free_stack@[j] == index);
                    }
                }
                // the recycled index was not on the free list before, so
                // pushing it keeps the free list free of duplicates
                assert(!old(self).free_stack@.contains(index)) by {
                    if old(self).free_stack@.contains(index) {
                        let j = choose|j: int| 0 <= j < old(self).free_stack@.len()
                            && old(self).free_stack@[j] == index;
                        assert(!is_initialized_unique(old(self).slot_unique(index as int)));
                    }
                }
                assert(fin.free_stack@.no_duplicates()) by {
                    assert forall|p: int, q: int|
                        0 <= p < fin.free_stack@.len() && 0 <= q < fin.free_stack@.len()
                        && p != q implies fin.free_stack@[p] != fin.free_stack@[q] by {
                        if p < old(self).free_stack@.len() && q < old(self).free_stack@.len() {
                            assert(old(self).free_stack@[p] != old(self).free_stack@[q]);
                        }
                    }
                }
            }
        } else {
            let mut updated = IndexedData {
                ref_count: slot.ref_count - 1,
                ..slot
            };
            self.slots.set_and_swap(index as usize, &mut updated);
            proof {
                let fin = *final(self);
                assert(is_initialized_unique(old(self).slot_unique(index as int)));
                assert(fin.slots@ =~= old(self).slots@.update(
                    index as int, fin.slots@[index as int]));
                assert forall|i: int| 0 <= i < fin.slots@.len() && i != index as int implies
                    #[trigger] fin.slot_unique(i) == old(self).slot_unique(i)
                    && fin.slot_value(i) == old(self).slot_value(i)
                    && fin.slot_ref_count(i) == old(self).slot_ref_count(i) by {
                    assert(fin.slots@[i] == old(self).slots@[i]);
                }
                lemma_count_update(old(self).slots@, active_pred(),
                    index as int, fin.slots@[index as int]);
                lemma_count_update(old(self).slots@, destroyed_pred(),
                    index as int, fin.slots@[index as int]);
                lemma_count_update(old(self).slots@, free_pred(),
                    index as int, fin.slots@[index as int]);
                lemma_stack_shape_after_update(*old(self), fin, index as int);
            }
        }
    }

    /// Release a strong reference. The value is dropped only when this was
    /// the last reference to a destroy-requested slot — never while any
    /// other reference is outstanding.
    pub fn release(&mut self, reference: IndexedRef)
        requires
            old(self).wf(),
            old(self).ref_alive(&reference),
            old(self).slot_ref_count(reference.spec_index() as int) == 1
                ==> is_destroyed_unique(old(self).slot_unique(reference.spec_index() as int)),
        ensures
            final(self).wf(),
            final(self).spec_capacity() == old(self).spec_capacity(),
            final(self).spec_high_water_mark() == old(self).spec_high_water_mark(),
            final(self).spec_active_count() == old(self).spec_active_count(),
            unchanged_except(*old(self), *final(self), reference.spec_index() as int),
            old(self).slot_ref_count(reference.spec_index() as int) > 1 ==> {
                &&& final(self).slot_ref_count(reference.spec_index() as int)
                        == old(self).slot_ref_count(reference.spec_index() as int) - 1
                &&& final(self).slot_value(reference.spec_index() as int)
                        == old(self).slot_value(reference.spec_index() as int)
                &&& final(self).slot_unique(reference.spec_index() as int)
                        == old(self).slot_unique(reference.spec_index() as int)
                &&& final(self).free_list() == old(self).free_list()
                &&& final(self).spec_destroyed_count() == old(self).spec_destroyed_count()
            },
            old(self).slot_ref_count(reference.spec_index() as int) == 1 ==> {
                &&& final(self).slot_ref_count(reference.spec_index() as int) == 0
                &&& final(self).slot_value(reference.spec_index() as int) is None
                &&& final(self).slot_unique(reference.spec_index() as int)
                        == next_generation(old(self).slot_unique(reference.spec_index() as int))
                &&& final(self).free_list() == old(self).free_list().push(reference.spec_index())
                &&& final(self).spec_destroyed_count()
                        == old(self).spec_destroyed_count() - 1
            },
    {
        self.decrement_ref_count(reference.index);
    }

    /// Request destruction of the value a handle points at and give up the
    /// implicit store-time reference. Succeeds exactly when the handle is
    /// still current; a second `free` of the same handle, or of any stale
    /// handle, returns `false` and changes nothing. Outstanding references
    /// keep the value alive past this logical deletion.
    pub fn free(&mut self, handle: IndexedHandle) -> (r: bool)
        requires
            old(self).wf(),
        ensures
            final(self).wf(),
            final(self).spec_capacity() == old(self).spec_capacity(),
            final(self).spec_high_water_mark() == old(self).spec_high_water_mark(),
            r <==> old(self).handle_current(handle)
                && is_handle_unique(handle.spec_unique()),
            !r ==> *final(self) == *old(self),
            r ==> {
                &&& final(self).spec_active_count() == old(self).spec_active_count() - 1
                &&& unchanged_except(*old(self), *final(self), handle.spec_index() as int)
                &&& old(self).slot_ref_count(handle.spec_index() as int) > 1 ==> {
                    &&& final(self).spec_destroyed_count()
                            == old(self).spec_destroyed_count() + 1
                    &&& final(self).slot_value(handle.spec_index() as int)
                            == old(self).slot_value(handle.spec_index() as int)
                    &&& final(self).slot_unique(handle.spec_index() as int)
                            == mark_destroyed(handle.spec_unique())
                    &&& final(self).slot_ref_count(handle.spec_index() as int)
                            == old(self).slot_ref_count(handle.spec_index() as int) - 1
                    &&& final(self).free_list() == old(self).free_list()
                }
                &&& old(self).slot_ref_count(handle.spec_index() as int) == 1 ==> {
                    &&& final(self).spec_destroyed_count() == old(self).spec_destroyed_count()
                    &&& final(self).slot_value(handle.spec_index() as int) is None
                    &&& final(self).slot_unique(handle.spec_index() as int)
                            == next_generation(mark_destroyed(handle.spec_unique()))
                    &&& final(self).slot_ref_count(handle.spec_index() as int) == 0
                    &&& final(self).free_list()
                            == old(self).free_list().push(handle.spec_index())
                }
            },
    {
        if handle.index >= self.slots.len() as u32 {
            return false;
        }
        let current = self.slots[handle.index as usize].unique;
        if current != handle.unique {
            return false;
        }
        if handle.unique % 4 != 1 {
            // a slot can only show this word if it was never initialized or
            // already marked destroyed; no handle minted by store carries it
            return false;
        }
        let mut slot = IndexedData { data: None, unique: 0, ref_count: 0 };
        self.slots.set_and_swap(handle.index as usize, &mut slot);
        proof {
            lemma_count_one(old(self).slots@, active_pred(), handle.index as int);
            lemma_counts_in_range(*old(self));
        }
        let mut marked = IndexedData {
            unique: slot.unique + UNIQUE_DESTROYED,
            ..slot
        };
        self.slots.set_and_swap(handle.index as usize, &mut marked);
        self.active_count = self.active_count - 1;
        self.destroyed_count = self.destroyed_count + 1;
        proof {
            let midst = *self;
            assert(is_initialized_unique(old(self).slot_unique(handle.index as int)));
            assert(midst.slots@ =~= old(self).slots@.update(
                handle.index as int, midst.slots@[handle.index as int]));
            assert forall|i: int| 0 <= i < midst.slots@.len() && i != handle.index as int implies
                #[trigger] midst.slot_unique(i) == old(self).slot_unique(i)
                && midst.slot_value(i) == old(self).slot_value(i)
                && midst.slot_ref_count(i) == old(self).slot_ref_count(i) by {
                assert(midst.slots@[i] == old(self).slots@[i]);
            }
            lemma_count_update(old(self).slots@, active_pred(),
                handle.index as int, midst.slots@[handle.index as int]);
            lemma_count_update(old(self).slots@, destroyed_pred(),
                handle.index as int, midst.slots@[handle.index as int]);
            lemma_count_update(old(self).slots@, free_pred(),
                handle.index as int, midst.slots@[handle.index as int]);
            lemma_stack_shape_after_update(*old(self), midst, handle.index as int);
            assert(midst.wf());
        }
        self.decrement_ref_count(handle.index);
        true
    }

    /// No double free-list entry: however stores, frees and releases are
    /// interleaved, the recycled indices waiting for reuse are pairwise
    /// distinct slots of the arena — an index is never parked twice and a
    /// parked index is never lost to a live slot.
    pub proof fn lemma_free_list_distinct(&self)
        requires
            self.wf(),
        ensures
            self.free_list().no_duplicates(),
            forall|j: int| 0 <= j < self.free_list().len()
                ==> #[trigger] self.free_list()[j] < self.spec_high_water_mark(),
            forall|j: int| 0 <= j < self.free_list().len()
                ==> self.slot_value(#[trigger] self.free_list()[j] as int) is None,
    {
    }

    /// Drop every stored value and reset the arena to its initial state.
    pub fn clear(&mut self)
        requires
            old(self).wf(),
        ensures
            final(self).wf(),
            final(self).spec_capacity() == old(self).spec_capacity(),
            final(self).spec_high_water_mark() == 0,
            final(self).spec_active_count() == 0,
            final(self).spec_destroyed_count() == 0,
            final(self).free_list() == Seq::<u32>::empty(),
    {
        self.slots.clear();
        self.free_stack.clear();
        self.active_count = 0;
        self.destroyed_count = 0;
    }
}

} // verus!
