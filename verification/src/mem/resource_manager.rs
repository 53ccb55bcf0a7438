use vstd::prelude::*;

use crate::mem::nullable::MaybeNull;
use crate::mem::nullable::Nullable;
use crate::mem::queue::QueueU32;
use crate::mem::queue::QUEUE_MAX_CAPACITY;

verus! {

/// Low bit of a slot's generation word: the slot holds a live value.
pub const RESOURCE_INITIALIZED: u32 = 1;

/// Step of the generation counter above the initialized flag.
pub const RESOURCE_UNIQUE_OFFSET: u32 = 2;

/// The sentinel index of the null [`ResourceRef`].
pub const RESOURCE_REF_NULL: u32 = 0xFFFF_FFFF;

/// A generation word under which handles are minted: initialized flag set.
pub open spec fn is_live_unique(u: u32) -> bool {
    u % 2 == 1
}

/// The generation word after `free` succeeds against a live word `u`: the
/// initialized flag cleared and the generation advanced, so no stale handle
/// matches again until the 31-bit generation counter wraps around.
pub open spec fn mark_freed(u: u32) -> u32 {
    (((u - u % 2) + RESOURCE_UNIQUE_OFFSET) % 0x1_0000_0000) as u32
}

/// The generation word a reused slot shows to its next handle.
pub open spec fn next_live_unique(u: u32) -> u32 {
    (mark_freed(u) + RESOURCE_INITIALIZED) as u32
}

/// Generation round-trip for the thread-safe arena: once `free` succeeds
/// against the word `u`, neither the freed word nor the word of the next
/// occupant ever equals `u` again, short of the generation counter
/// wrapping around after about `2^31` recycles of the slot.
pub proof fn lemma_resource_generation_round_trip(u: u32)
    requires
        is_live_unique(u),
        u + RESOURCE_UNIQUE_OFFSET <= u32::MAX,
    ensures
        mark_freed(u) != u,
        next_live_unique(u) != u,
        next_live_unique(u) > u,
{
}

/// One slot of the arena: the stored value, an outstanding-reference count
/// and the generation word that stale handles are detected against.
pub struct ResourceData<T> {
    data: Option<T>,
    ref_count: u32,
    unique_id: u32,
}

/// A free slot, waiting on the shared free-list queue.
pub closed spec fn resource_slot_free<T>(d: ResourceData<T>) -> bool {
    d.ref_count == 0
}

/// The free-slot predicate, fixed once so every count denotes the same
/// function.
pub closed spec fn resource_free_pred<T>() -> spec_fn(ResourceData<T>) -> bool {
    |d: ResourceData<T>| resource_slot_free(d)
}

/// How many slots of `s` satisfy `pred`.
pub closed spec fn count_resource_slots<T>(
    s: Seq<ResourceData<T>>, pred: spec_fn(ResourceData<T>) -> bool) -> int
    decreases s.len(),
{
    if s.len() == 0 {
        0
    } else {
        count_resource_slots(s.drop_last(), pred) + if pred(s.last()) { 1int } else { 0 }
    }
}

/// The count is bounded by the length.
proof fn lemma_resource_count_bounds<T>(
    s: Seq<ResourceData<T>>, pred: spec_fn(ResourceData<T>) -> bool)
    ensures
        0 <= count_resource_slots(s, pred) <= s.len(),
    decreases s.len(),
{
    if s.len() > 0 {
        lemma_resource_count_bounds(s.drop_last(), pred);
    }
}

/// Replacing one slot changes the count by the difference at that slot.
proof fn lemma_resource_count_update<T>(
    s: Seq<ResourceData<T>>, pred: spec_fn(ResourceData<T>) -> bool, i: int, v: ResourceData<T>)
    requires
        0 <= i < s.len(),
    ensures
        count_resource_slots(s.update(i, v), pred) == count_resource_slots(s, pred)
            - (if pred(s[i]) { 1int } else { 0 }) + (if pred(v) { 1int } else { 0 }),
    decreases s.len(),
{
    if i == s.len() - 1 {
        assert(s.update(i, v).drop_last() =~= s.drop_last());
    } else {
        assert(s.update(i, v).drop_last() =~= s.drop_last().update(i, v));
        lemma_resource_count_update(s.drop_last(), pred, i, v);
    }
}

/// Appending a slot adds its contribution to the count.
proof fn lemma_resource_count_push<T>(
    s: Seq<ResourceData<T>>, pred: spec_fn(ResourceData<T>) -> bool, v: ResourceData<T>)
    ensures
        count_resource_slots(s.push(v), pred)
            == count_resource_slots(s, pred) + if pred(v) { 1int } else { 0 },
{
    assert(s.push(v).drop_last() =~= s);
}

/// A slot failing the predicate caps the count one below the length.
proof fn lemma_resource_count_missing_one<T>(
    s: Seq<ResourceData<T>>, pred: spec_fn(ResourceData<T>) -> bool, i: int)
    requires
        0 <= i < s.len(),
        !pred(s[i]),
    ensures
        count_resource_slots(s, pred) <= s.len() - 1,
    decreases s.len(),
{
    lemma_resource_count_bounds(s.drop_last(), pred);
    if i < s.len() - 1 {
        lemma_resource_count_missing_one(s.drop_last(), pred, i);
    }
}


/// When the queue view and every slot's state are unchanged, the free
/// list's shape conditions carry over.
proof fn lemma_rm_shape_views_equal<T>(pre: ResourceManager<T>, post: ResourceManager<T>)
    requires
        pre.wf(),
        post.free_queue@ == pre.free_queue@,
        post.buffer@ =~= pre.buffer@,
    ensures
        post.free_queue@.no_duplicates(),
        forall|j: int| 0 <= j < post.free_queue@.len()
            ==> #[trigger] post.free_queue@[j] < post.buffer@.len(),
        forall|j: int| 0 <= j < post.free_queue@.len()
            ==> post.slot_ref_count(#[trigger] post.free_queue@[j] as int) == 0,
        forall|i: int| 0 <= i < post.buffer@.len()
            && #[trigger] post.slot_ref_count(i) == 0
            ==> post.free_queue@.contains(i as u32),
        forall|i: int| 0 <= i < post.buffer@.len() ==> {
            &&& (post.slot_value(i) is Some <==> #[trigger] post.slot_ref_count(i) >= 1)
            &&& (is_live_unique(post.slot_unique(i)) ==> post.slot_ref_count(i) >= 1)
        },
{
    assert forall|j: int| 0 <= j < post.free_queue@.len()
        implies #[trigger] post.free_queue@[j] < post.buffer@.len()
            && post.slot_ref_count(post.free_queue@[j] as int) == 0 by {
        assert(post.free_queue@[j] == pre.free_queue@[j]);
        assert(pre.slot_ref_count(pre.free_queue@[j] as int) == 0);
    }
    assert forall|i: int| 0 <= i < post.buffer@.len()
        && #[trigger] post.slot_ref_count(i) == 0
        implies post.free_queue@.contains(i as u32) by {
        assert(pre.slot_ref_count(i) == post.slot_ref_count(i));
        assert(pre.free_queue@.contains(i as u32));
    }
    assert forall|i: int| 0 <= i < post.buffer@.len() implies {
        &&& (post.slot_value(i) is Some <==> #[trigger] post.slot_ref_count(i) >= 1)
        &&& (is_live_unique(post.slot_unique(i)) ==> post.slot_ref_count(i) >= 1)
    } by {
        assert(post.buffer@[i] == pre.buffer@[i]);
        assert(pre.slot_value(i) is Some <==> pre.slot_ref_count(i) >= 1);
        assert(is_live_unique(pre.slot_unique(i)) ==> pre.slot_ref_count(i) >= 1);
    }
}

/// Updating one slot that stays referenced, while the queue is untouched,
/// preserves the free list's shape conditions.
proof fn lemma_rm_shape_after_update<T>(
    pre: ResourceManager<T>, post: ResourceManager<T>, i: int)
    requires
        pre.wf(),
        post.free_queue@ == pre.free_queue@,
        post.buffer@.len() == pre.buffer@.len(),
        0 <= i < pre.buffer@.len(),
        forall|k: int| 0 <= k < pre.buffer@.len() && k != i
            ==> #[trigger] post.buffer@[k] == pre.buffer@[k],
        post.slot_ref_count(i) >= 1,
        pre.slot_ref_count(i) >= 1,
    ensures
        post.free_queue@.no_duplicates(),
        forall|j: int| 0 <= j < post.free_queue@.len()
            ==> #[trigger] post.free_queue@[j] < post.buffer@.len(),
        forall|j: int| 0 <= j < post.free_queue@.len()
            ==> post.slot_ref_count(#[trigger] post.free_queue@[j] as int) == 0,
        forall|k: int| 0 <= k < post.buffer@.len()
            && #[trigger] post.slot_ref_count(k) == 0
            ==> post.free_queue@.contains(k as u32),
        forall|k: int| 0 <= k < post.buffer@.len() && k != i ==> {
            &&& (post.slot_value(k) is Some <==> #[trigger] post.slot_ref_count(k) >= 1)
            &&& (is_live_unique(post.slot_unique(k)) ==> post.slot_ref_count(k) >= 1)
        },
{
    assert forall|j: int| 0 <= j < post.free_queue@.len()
        implies #[trigger] post.free_queue@[j] < post.buffer@.len()
            && post.slot_ref_count(post.free_queue@[j] as int) == 0 by {
        assert(post.free_queue@[j] == pre.free_queue@[j]);
        let e = pre.free_queue@[j] as int;
        assert(pre.slot_ref_count(e) == 0);
        if e == i {
            assert(false);
        }
    }
    assert forall|k: int| 0 <= k < post.buffer@.len()
        && #[trigger] post.slot_ref_count(k) == 0
        implies post.free_queue@.contains(k as u32) by {
        if k == i {
            assert(false);
        }
        assert(pre.slot_ref_count(k) == post.slot_ref_count(k));
        assert(pre.free_queue@.contains(k as u32));
    }
    assert forall|k: int| 0 <= k < post.buffer@.len() && k != i implies {
        &&& (post.slot_value(k) is Some <==> #[trigger] post.slot_ref_count(k) >= 1)
        &&& (is_live_unique(post.slot_unique(k)) ==> post.slot_ref_count(k) >= 1)
    } by {
        assert(post.buffer@[k] == pre.buffer@[k]);
        assert(pre.slot_value(k) is Some <==> pre.slot_ref_count(k) >= 1);
        assert(is_live_unique(pre.slot_unique(k)) ==> pre.slot_ref_count(k) >= 1);
    }
}

/// A plain, copyable ticket for a stored value: slot index plus the
/// generation word observed at store time.
#[derive(Copy, Clone, PartialEq, Eq, Structural, Debug, Hash)]
pub struct ResourceHandle {
    index: u32,
    unique: u32,
}

impl ResourceHandle {
    /// The slot this handle points into.
    pub closed spec fn spec_index(&self) -> u32 {
        self.index
    }

    /// The generation word observed when the handle was minted.
    pub closed spec fn spec_unique(&self) -> u32 {
        self.unique
    }
}

/// A live, ownership-carrying token holding one unit of a slot's reference
/// count; releasing it through the arena is mandatory. The sentinel index
/// [`RESOURCE_REF_NULL`] is its null value for [`Nullable`] storage.
#[derive(PartialEq, Eq, Structural, Debug, Hash)]
pub struct ResourceRef {
    index: u32,
}

impl ResourceRef {
    /// The slot this reference keeps alive.
    pub closed spec fn spec_index(&self) -> u32 {
        self.index
    }
}

impl MaybeNull for ResourceRef {
    closed spec fn is_null_spec(&self) -> bool {
        self.index == RESOURCE_REF_NULL
    }

    fn is_null(&self) -> (r: bool) {
        self.index == RESOURCE_REF_NULL
    }

    fn null() -> (r: ResourceRef) {
        ResourceRef { index: RESOURCE_REF_NULL }
    }

    fn take(&mut self) -> (r: ResourceRef) {
        let r = ResourceRef { index: self.index };
        self.index = RESOURCE_REF_NULL;
        r
    }

    fn replace(&mut self, new: ResourceRef) -> (r: ResourceRef) {
        let r = ResourceRef { index: self.index };
        self.index = new.index;
        r
    }
}

/// The thread-safe generational handle arena: the same slot, generation
/// and deferred-destruction state machine as the single-owner arena, with
/// the bounded MPMC queue as its shared free list — one ring slot per
/// arena slot, so a released index always finds room.
pub struct ResourceManager<T> {
    buffer: Vec<ResourceData<T>>,
    free_queue: QueueU32,
    high_water_mark: u32,
    capacity: u32,
}

impl<T> ResourceManager<T> {
    /// The generation word of slot `i`.
    pub closed spec fn slot_unique(&self, i: int) -> u32 {
        self.buffer@[i].unique_id
    }

    /// The reference count of slot `i`.
    pub closed spec fn slot_ref_count(&self, i: int) -> u32 {
        self.buffer@[i].ref_count
    }

    /// The value stored in slot `i`, if the slot is live.
    pub closed spec fn slot_value(&self, i: int) -> Option<T> {
        self.buffer@[i].data
    }

    /// How much of the slot array has ever been used.
    pub closed spec fn spec_high_water_mark(&self) -> nat {
        self.buffer@.len()
    }

    /// Total fixed capacity.
    pub closed spec fn spec_capacity(&self) -> nat {
        self.capacity as nat
    }

    /// The recycled slot indices waiting on the free-list queue, oldest
    /// first.
    pub closed spec fn free_list(&self) -> Seq<u32> {
        self.free_queue@
    }

    /// The arena's invariant. A slot is free (no references, no value, on
    /// the free-list queue exactly once), live (initialized generation
    /// word, a value, at least the implicit store-time reference), or
    /// freed-but-referenced (generation word already advanced past every
    /// handle, value and references still present).
    pub closed spec fn wf(&self) -> bool {
        &&& self.buffer@.len() == self.high_water_mark <= self.capacity
        &&& self.free_queue.wf()
        &&& self.free_queue.spec_capacity() == self.capacity
        &&& self.free_queue@.no_duplicates()
        &&& forall|j: int| 0 <= j < self.free_queue@.len()
                ==> #[trigger] self.free_queue@[j] < self.buffer@.len()
        &&& forall|j: int| 0 <= j < self.free_queue@.len()
                ==> self.slot_ref_count(#[trigger] self.free_queue@[j] as int) == 0
        &&& forall|i: int| 0 <= i < self.buffer@.len()
                && #[trigger] self.slot_ref_count(i) == 0
                ==> self.free_queue@.contains(i as u32)
        &&& forall|i: int| 0 <= i < self.buffer@.len() ==> {
                &&& (self.slot_value(i) is Some <==> #[trigger] self.slot_ref_count(i) >= 1)
                &&& (is_live_unique(self.slot_unique(i)) ==> self.slot_ref_count(i) >= 1)
            }
        &&& self.free_queue@.len() == count_resource_slots(self.buffer@, resource_free_pred())
    }

    /// A reference token is backed by a slot holding its unit of the
    /// reference count; while the slot is still live, the implicit
    /// store-time reference is a further unit on top of it.
    pub open spec fn ref_alive(&self, r: &ResourceRef) -> bool {
        &&& r.spec_index() < self.spec_high_water_mark()
        &&& self.slot_value(r.spec_index() as int) is Some
        &&& self.slot_ref_count(r.spec_index() as int) >= 1
        &&& (is_live_unique(self.slot_unique(r.spec_index() as int))
                ==> self.slot_ref_count(r.spec_index() as int) >= 2)
    }

    /// A handle validates against the arena: in bounds and of the current
    /// generation.
    pub open spec fn handle_current(&self, h: ResourceHandle) -> bool {
        &&& h.spec_index() < self.spec_high_water_mark()
        &&& self.slot_unique(h.spec_index() as int) == h.spec_unique()
    }

    /// Create an arena of fixed `capacity` slots. The capacity must be a
    /// non-zero power of two, the free-list queue's own requirement.
    pub fn new(capacity: u32) -> (r: ResourceManager<T>)
        requires
            0 < capacity <= QUEUE_MAX_CAPACITY,
            ((capacity as usize) & ((capacity as usize) - 1) as usize) == 0,
        ensures
            r.wf(),
            r.spec_capacity() == capacity,
            r.spec_high_water_mark() == 0,
            r.free_list() == Seq::<u32>::empty(),
    {
        ResourceManager {
            buffer: Vec::new(),
            free_queue: QueueU32::new(capacity as usize),
            high_water_mark: 0,
            capacity,
        }
    }

    /// Total fixed capacity.
    pub fn capacity(&self) -> (r: u32)
        ensures
            r == self.spec_capacity(),
    {
        self.capacity
    }

    /// How much of the slot array has ever been used.
    pub fn high_water_mark(&self) -> (r: u32)
        requires
            self.wf(),
        ensures
            r == self.spec_high_water_mark(),
    {
        self.high_water_mark
    }

    /// Store a value: the oldest recycled slot is reused from the shared
    /// free-list queue, else the high-water mark grows, up to the fixed
    /// capacity. Returns `None` exactly when no recycled slot waits and
    /// the high-water mark has reached capacity.
    pub fn store(&mut self, obj: T) -> (r: Option<ResourceHandle>)
        requires
            old(self).wf(),
        ensures
            final(self).wf(),
            final(self).spec_capacity() == old(self).spec_capacity(),
            r is Some <==> old(self).free_list().len() > 0
                || old(self).spec_high_water_mark() < old(self).spec_capacity(),
            r is None ==> {
                &&& resource_unchanged_except(*old(self), *final(self), -1)
                &&& final(self).free_list() == old(self).free_list()
                &&& final(self).spec_high_water_mark() == old(self).spec_high_water_mark()
            },
            r matches Some(h) ==> {
                &&& h.spec_index() < final(self).spec_high_water_mark()
                &&& final(self).handle_current(h)
                &&& is_live_unique(h.spec_unique())
                &&& final(self).slot_value(h.spec_index() as int) == Some(obj)
                &&& final(self).slot_ref_count(h.spec_index() as int) == 1
                &&& resource_unchanged_except(*old(self), *final(self), h.spec_index() as int)
                &&& (old(self).free_list().len() > 0 ==> {
                    &&& h.spec_index() == old(self).free_list()[0]
                    &&& final(self).free_list() == old(self).free_list().drop_first()
                    &&& final(self).spec_high_water_mark()
                            == old(self).spec_high_water_mark()
                    &&& h.spec_unique()
                            == old(self).slot_unique(h.spec_index() as int)
                                + RESOURCE_INITIALIZED
                })
                &&& (old(self).free_list().len() == 0 ==> {
                    &&& h.spec_index() == old(self).spec_high_water_mark()
                    &&& final(self).spec_high_water_mark()
                            == old(self).spec_high_water_mark() + 1
                    &&& h.spec_unique() == RESOURCE_INITIALIZED
                    &&& final(self).free_list() == old(self).free_list()
                })
            },
    {
        let tmp = self.free_queue.dequeue();
        match tmp {
            Some(index) => {
                proof {
                    assert(old(self).free_list()[0] == index);
                    assert(old(self).slot_ref_count(index as int) == 0);
                    assert(old(self).slot_value(index as int) is None);
                    assert(!is_live_unique(old(self).slot_unique(index as int)));
                }
                let mut slot = ResourceData { data: None, ref_count: 0, unique_id: 0 };
                self.buffer.set_and_swap(index as usize, &mut slot);
                let unique = slot.unique_id + RESOURCE_INITIALIZED;
                let mut refreshed = ResourceData {
                    data: Some(obj),
                    ref_count: 1,
                    unique_id: unique,
                };
                self.buffer.set_and_swap(index as usize, &mut refreshed);
                proof {
                    let fin = *final(self);
                    assert(fin.buffer@ =~= old(self).buffer@.update(
                        index as int, fin.buffer@[index as int]));
                    assert forall|i: int| 0 <= i < fin.buffer@.len() && i != index as int
                        implies #[trigger] fin.slot_unique(i) == old(self).slot_unique(i)
                        && fin.slot_value(i) == old(self).slot_value(i)
                        && fin.slot_ref_count(i) == old(self).slot_ref_count(i) by {
                        assert(fin.buffer@[i] == old(self).buffer@[i]);
                    }
                    lemma_resource_count_update(old(self).buffer@, resource_free_pred(),
                        index as int, fin.buffer@[index as int]);
                    assert forall|i: int| 0 <= i < fin.buffer@.len()
                        && #[trigger] fin.slot_ref_count(i) == 0
                        implies fin.free_queue@.contains(i as u32) by {
                        assert(fin.slot_ref_count(i) == old(self).slot_ref_count(i));
                        assert(old(self).free_queue@.contains(i as u32));
                        let j = choose|j: int| 0 <= j < old(self).free_queue@.len()
                            && old(self).free_queue@[j] == i as u32;
                        assert(old(self).free_queue@[0] == index);
                        assert(j != 0);
                        assert(fin.free_queue@[j - 1] == i as u32);
                    }
                    assert forall|j: int| 0 <= j < fin.free_queue@.len()
                        implies fin.slot_ref_count(#[trigger] fin.free_queue@[j] as int)
                            == 0 by {
                        assert(fin.free_queue@[j] == old(self).free_queue@[j + 1]);
                        if fin.free_queue@[j] == index {
                            assert(old(self).free_queue@[j + 1] == old(self).free_queue@[0]);
                            assert(false);
                        }
                    }
                    assert(fin.free_queue@.no_duplicates()) by {
                        assert forall|p: int, q: int|
                            0 <= p < fin.free_queue@.len() && 0 <= q < fin.free_queue@.len()
                            && p != q implies fin.free_queue@[p] != fin.free_queue@[q] by {
                            assert(fin.free_queue@[p] == old(self).free_queue@[p + 1]);
                            assert(fin.free_queue@[q] == old(self).free_queue@[q + 1]);
                        }
                    }
                    assert forall|j: int| 0 <= j < fin.free_queue@.len()
                        implies #[trigger] fin.free_queue@[j] < fin.buffer@.len() by {
                        assert(fin.free_queue@[j] == old(self).free_queue@[j + 1]);
                    }
                    assert forall|i: int| 0 <= i < fin.buffer@.len() implies {
                        &&& (fin.slot_value(i) is Some <==> #[trigger] fin.slot_ref_count(i)
                                >= 1)
                        &&& (is_live_unique(fin.slot_unique(i))
                                ==> fin.slot_ref_count(i) >= 1)
                    } by {
                        if i != index as int {
                            assert(fin.buffer@[i] == old(self).buffer@[i]);
                            assert(old(self).slot_value(i) is Some
                                <==> old(self).slot_ref_count(i) >= 1);
                            assert(is_live_unique(old(self).slot_unique(i))
                                ==> old(self).slot_ref_count(i) >= 1);
                        }
                    }
                }
                Some(ResourceHandle { index, unique })
            }
            None => {
                let next = self.high_water_mark;
                if next >= self.capacity {
                    proof {
                        let fin = *final(self);
                        assert(fin.buffer@ =~= old(self).buffer@);
                        lemma_rm_shape_views_equal(*old(self), fin);
                        assert forall|i: int| 0 <= i < fin.buffer@.len() && i != -1
                            implies #[trigger] fin.slot_unique(i) == old(self).slot_unique(i)
                            && fin.slot_value(i) == old(self).slot_value(i)
                            && fin.slot_ref_count(i) == old(self).slot_ref_count(i) by {
                        }
                        assert forall|i: int| 0 <= i < fin.buffer@.len() implies
                            (fin.slot_value(i) is Some <==> #[trigger] fin.slot_ref_count(i)
                                >= 1)
                            && (is_live_unique(fin.slot_unique(i))
                                ==> fin.slot_ref_count(i) >= 1) by {
                            assert(fin.buffer@[i] == old(self).buffer@[i]);
                            assert(old(self).slot_value(i) is Some
                                <==> old(self).slot_ref_count(i) >= 1);
                        }
                    }
                    return None;
                }
                self.buffer.push(ResourceData {
                    data: Some(obj),
                    ref_count: 1,
                    unique_id: RESOURCE_INITIALIZED,
                });
                self.high_water_mark = next + 1;
                proof {
                    let fin = *final(self);
                    lemma_resource_count_push(old(self).buffer@, resource_free_pred(),
                        fin.buffer@.last());
                    assert(fin.buffer@ =~= old(self).buffer@.push(fin.buffer@.last()));
                    assert forall|i: int| 0 <= i < fin.buffer@.len() && i != next as int
                        implies #[trigger] fin.slot_unique(i) == old(self).slot_unique(i)
                        && fin.slot_value(i) == old(self).slot_value(i)
                        && fin.slot_ref_count(i) == old(self).slot_ref_count(i) by {
                        assert(fin.buffer@[i] == old(self).buffer@[i]);
                    }
                    assert forall|i: int| 0 <= i < fin.buffer@.len()
                        && #[trigger] fin.slot_ref_count(i) == 0
                        implies fin.free_queue@.contains(i as u32) by {
                        assert(i < old(self).buffer@.len());
                        assert(fin.slot_ref_count(i) == old(self).slot_ref_count(i));
                        assert(old(self).free_queue@.contains(i as u32));
                    }
                    assert forall|j: int| 0 <= j < fin.free_queue@.len()
                        implies #[trigger] fin.free_queue@[j] < fin.buffer@.len()
                            && fin.slot_ref_count(fin.free_queue@[j] as int) == 0 by {
                        assert(fin.free_queue@[j] == old(self).free_queue@[j]);
                        let e = old(self).free_queue@[j] as int;
                        assert(old(self).slot_ref_count(e) == 0);
                        assert(fin.slot_ref_count(e) == old(self).slot_ref_count(e));
                    }
                    assert forall|i: int| 0 <= i < fin.buffer@.len() implies {
                        &&& (fin.slot_value(i) is Some <==> #[trigger] fin.slot_ref_count(i)
                                >= 1)
                        &&& (is_live_unique(fin.slot_unique(i))
                                ==> fin.slot_ref_count(i) >= 1)
                    } by {
                        if i != next as int {
                            assert(fin.buffer@[i] == old(self).buffer@[i]);
                            assert(old(self).slot_value(i) is Some
                                <==> old(self).slot_ref_count(i) >= 1);
                            assert(is_live_unique(old(self).slot_unique(i))
                                ==> old(self).slot_ref_count(i) >= 1);
                        }
                    }
                }
                Some(ResourceHandle { index: next, unique: RESOURCE_INITIALIZED })
            }
        }
    }

    /// Release the arena's own reference to the value at `handle`.
    /// Succeeds exactly when the handle is still current — a racing second
    /// free, or any stale handle, fails — and advances the slot's
    /// generation at once so no handle validates afterwards. The value is
    /// dropped only when no reference remains; outstanding references keep
    /// it alive past this logical deletion.
    pub fn free(&mut self, handle: ResourceHandle) -> (r: bool)
        requires
            old(self).wf(),
        ensures
            final(self).wf(),
            final(self).spec_capacity() == old(self).spec_capacity(),
            final(self).spec_high_water_mark() == old(self).spec_high_water_mark(),
            r <==> old(self).handle_current(handle) && is_live_unique(handle.spec_unique()),
            !r ==> *final(self) == *old(self),
            r ==> {
                &&& resource_unchanged_except(
                        *old(self), *final(self), handle.spec_index() as int)
                &&& final(self).slot_unique(handle.spec_index() as int)
                        == mark_freed(handle.spec_unique())
                &&& old(self).slot_ref_count(handle.spec_index() as int) > 1 ==> {
                    &&& final(self).slot_ref_count(handle.spec_index() as int)
                            == old(self).slot_ref_count(handle.spec_index() as int) - 1
                    &&& final(self).slot_value(handle.spec_index() as int)
                            == old(self).slot_value(handle.spec_index() as int)
                    &&& final(self).free_list() == old(self).free_list()
                }
                &&& old(self).slot_ref_count(handle.spec_index() as int) == 1 ==> {
                    &&& final(self).slot_ref_count(handle.spec_index() as int) == 0
                    &&& final(self).slot_value(handle.spec_index() as int) is None
                    &&& final(self).free_list()
                            == old(self).free_list().push(handle.spec_index())
                }
            },
    {
        if handle.index >= self.high_water_mark {
            return false;
        }
        let current = self.buffer[handle.index as usize].unique_id;
        if current != handle.unique {
            return false;
        }
        if handle.unique % 2 != 1 {
            // no handle minted by the arena carries an uninitialized word
            return false;
        }
        let next = (handle.unique - handle.unique % 2).wrapping_add(RESOURCE_UNIQUE_OFFSET);
        let mut slot = ResourceData { data: None, ref_count: 0, unique_id: 0 };
        self.buffer.set_and_swap(handle.index as usize, &mut slot);
        proof {
            assert(is_live_unique(old(self).slot_unique(handle.index as int)));
            assert(old(self).slot_ref_count(handle.index as int) >= 1);
        }
        if slot.ref_count == 1 {
            // the arena's reference was the last: drop the value in place
            // and push the slot onto the shared free list
            let mut cleared = ResourceData {
                data: None,
                ref_count: 0,
                unique_id: next,
            };
            self.buffer.set_and_swap(handle.index as usize, &mut cleared);
            proof {
                lemma_resource_count_missing_one(old(self).buffer@, resource_free_pred(),
                    handle.index as int);
            }
            let pushed = self.free_queue.enqueue(handle.index);
            proof {
                assert(pushed);
                let fin = *final(self);
                assert(fin.buffer@ =~= old(self).buffer@.update(
                    handle.index as int, fin.buffer@[handle.index as int]));
                assert forall|i: int| 0 <= i < fin.buffer@.len() && i != handle.index as int
                    implies #[trigger] fin.slot_unique(i) == old(self).slot_unique(i)
                    && fin.slot_value(i) == old(self).slot_value(i)
                    && fin.slot_ref_count(i) == old(self).slot_ref_count(i) by {
                    assert(fin.buffer@[i] == old(self).buffer@[i]);
                }
                lemma_resource_count_update(old(self).buffer@, resource_free_pred(),
                    handle.index as int, fin.buffer@[handle.index as int]);
                assert forall|i: int| 0 <= i < fin.buffer@.len()
                    && #[trigger] fin.slot_ref_count(i) == 0
                    implies fin.free_queue@.contains(i as u32) by {
                    if i != handle.index as int {
                        assert(fin.slot_ref_count(i) == old(self).slot_ref_count(i));
                        assert(old(self).free_queue@.contains(i as u32));
                        let j = choose|j: int| 0 <= j < old(self).free_queue@.len()
                            && old(self).free_queue@[j] == i as u32;
                        assert(fin.free_queue@[j] == i as u32);
                    } else {
                        assert(fin.free_queue@.last() == handle.index);
                    }
                }
                assert forall|j: int| 0 <= j < fin.free_queue@.len()
                    implies fin.slot_ref_count(#[trigger] fin.free_queue@[j] as int)
                        == 0 by {
                    if j < old(self).free_queue@.len() {
                        assert(fin.free_queue@[j] == old(self).free_queue@[j]);
                        let e = old(self).free_queue@[j] as int;
                        assert(old(self).slot_ref_count(e) == 0);
                        if e != handle.index as int {
                            assert(fin.slot_ref_count(e) == old(self).slot_ref_count(e));
                        }
                    } else {
                        assert(fin.free_queue@[j] == handle.index);
                    }
                }
                // the recycled index was not queued before, so the queue
                // stays free of duplicates
                assert(!old(self).free_queue@.contains(handle.index)) by {
                    if old(self).free_queue@.contains(handle.index) {
                        let j = choose|j: int| 0 <= j < old(self).free_queue@.len()
                            && old(self).free_queue@[j] == handle.index;
                        assert(old(self).slot_ref_count(handle.index as int) == 0);
                    }
                }
                assert(fin.free_queue@.no_duplicates()) by {
                    assert forall|p: int, q: int|
                        0 <= p < fin.free_queue@.len() && 0 <= q < fin.free_queue@.len()
                        && p != q implies fin.free_queue@[p] != fin.free_queue@[q] by {
                        if p < old(self).free_queue@.len() && q < old(self).free_queue@.len() {
                            assert(old(self).free_queue@[p] != old(self).free_queue@[q]);
                        }
                    }
                }
                assert forall|j: int| 0 <= j < fin.free_queue@.len()
                    implies #[trigger] fin.free_queue@[j] < fin.buffer@.len() by {
                    if j < old(self).free_queue@.len() {
                        assert(fin.free_queue@[j] == old(self).free_queue@[j]);
                    } else {
                        assert(fin.free_queue@[j] == handle.index);
                    }
                }
                assert forall|i: int| 0 <= i < fin.buffer@.len() implies {
                    &&& (fin.slot_value(i) is Some <==> #[trigger] fin.slot_ref_count(i)
                            >= 1)
                    &&& (is_live_unique(fin.slot_unique(i))
                            ==> fin.slot_ref_count(i) >= 1)
                } by {
                    if i != handle.index as int {
                        assert(fin.buffer@[i] == old(self).buffer@[i]);
                        assert(old(self).slot_value(i) is Some
                            <==> old(self).slot_ref_count(i) >= 1);
                        assert(is_live_unique(old(self).slot_unique(i))
                            ==> old(self).slot_ref_count(i) >= 1);
                    }
                }
            }
        } else {
            let mut updated = ResourceData {
                data: slot.data,
                ref_count: slot.ref_count - 1,
                unique_id: next,
            };
            self.buffer.set_and_swap(handle.index as usize, &mut updated);
            proof {
                let fin = *final(self);
                assert(fin.buffer@ =~= old(self).buffer@.update(
                    handle.index as int, fin.buffer@[handle.index as int]));
                assert forall|i: int| 0 <= i < fin.buffer@.len() && i != handle.index as int
                    implies #[trigger] fin.slot_unique(i) == old(self).slot_unique(i)
                    && fin.slot_value(i) == old(self).slot_value(i)
                    && fin.slot_ref_count(i) == old(self).slot_ref_count(i) by {
                    assert(fin.buffer@[i] == old(self).buffer@[i]);
                }
                lemma_resource_count_update(old(self).buffer@, resource_free_pred(),
                    handle.index as int, fin.buffer@[handle.index as int]);
                lemma_rm_shape_after_update(*old(self), fin, handle.index as int);
            }
        }
        true
    }

    /// Get a reference-counted reference to the value at `handle`, or null
    /// for a stale handle. The count is raised before the generation is
    /// compared and lowered again on a mismatch — the ordering that, under
    /// concurrency, pins the slot while it is being examined. A
    /// reference count at its numeric limit returns null rather than
    /// overflowing.
    pub fn retain(&mut self, handle: ResourceHandle) -> (r: Nullable<ResourceRef>)
        requires
            old(self).wf(),
        ensures
            final(self).wf(),
            final(self).spec_capacity() == old(self).spec_capacity(),
            !r@.is_null_spec() <==> old(self).handle_current(handle)
                && is_live_unique(handle.spec_unique())
                && old(self).slot_ref_count(handle.spec_index() as int) < u32::MAX,
            r@.is_null_spec() ==> {
                &&& resource_unchanged_except(*old(self), *final(self), -1)
                &&& final(self).free_list() == old(self).free_list()
                &&& final(self).spec_high_water_mark() == old(self).spec_high_water_mark()
                &&& final(self).spec_capacity() == old(self).spec_capacity()
            },
            !r@.is_null_spec() ==> {
                &&& r@.spec_index() == handle.spec_index()
                &&& final(self).slot_ref_count(handle.spec_index() as int)
                        == old(self).slot_ref_count(handle.spec_index() as int) + 1
                &&& final(self).slot_unique(handle.spec_index() as int)
                        == old(self).slot_unique(handle.spec_index() as int)
                &&& final(self).slot_value(handle.spec_index() as int)
                        == old(self).slot_value(handle.spec_index() as int)
                &&& resource_unchanged_except(
                        *old(self), *final(self), handle.spec_index() as int)
                &&& final(self).free_list() == old(self).free_list()
                &&& final(self).spec_high_water_mark() == old(self).spec_high_water_mark()
            },
    {
        if handle.index >= self.high_water_mark {
            return Nullable::null();
        }
        if self.buffer[handle.index as usize].ref_count == u32::MAX {
            return Nullable::null();
        }
        if handle.unique % 2 != 1 {
            // no handle minted by the arena carries an uninitialized word
            return Nullable::null();
        }
        // raise the count first, then trust the generation comparison
        let mut slot = ResourceData { data: None, ref_count: 0, unique_id: 0 };
        self.buffer.set_and_swap(handle.index as usize, &mut slot);
        let unique_seen = slot.unique_id;
        let mut raised = ResourceData {
            data: slot.data,
            ref_count: slot.ref_count + 1,
            unique_id: slot.unique_id,
        };
        self.buffer.set_and_swap(handle.index as usize, &mut raised);
        if unique_seen != handle.unique {
            // stale: lower the count again and report the miss
            let mut back = ResourceData { data: None, ref_count: 0, unique_id: 0 };
            self.buffer.set_and_swap(handle.index as usize, &mut back);
            let mut restored = ResourceData {
                data: back.data,
                ref_count: back.ref_count - 1,
                unique_id: back.unique_id,
            };
            self.buffer.set_and_swap(handle.index as usize, &mut restored);
            proof {
                let fin = *final(self);
                assert(fin.buffer@ =~= old(self).buffer@);
                lemma_rm_shape_views_equal(*old(self), fin);
                assert forall|i: int| 0 <= i < fin.buffer@.len() && i != -1
                    implies #[trigger] fin.slot_unique(i) == old(self).slot_unique(i)
                    && fin.slot_value(i) == old(self).slot_value(i)
                    && fin.slot_ref_count(i) == old(self).slot_ref_count(i) by {
                    assert(fin.buffer@[i] == old(self).buffer@[i]);
                }
            }
            return Nullable::null();
        }
        proof {
            let fin = *final(self);
            assert(is_live_unique(old(self).slot_unique(handle.index as int)));
            assert(old(self).slot_ref_count(handle.index as int) >= 1);
            assert(fin.buffer@ =~= old(self).buffer@.update(
                handle.index as int, fin.buffer@[handle.index as int]));
            assert forall|i: int| 0 <= i < fin.buffer@.len() && i != handle.index as int
                implies #[trigger] fin.slot_unique(i) == old(self).slot_unique(i)
                && fin.slot_value(i) == old(self).slot_value(i)
                && fin.slot_ref_count(i) == old(self).slot_ref_count(i) by {
                assert(fin.buffer@[i] == old(self).buffer@[i]);
            }
            lemma_resource_count_update(old(self).buffer@, resource_free_pred(),
                handle.index as int, fin.buffer@[handle.index as int]);
            lemma_rm_shape_after_update(*old(self), fin, handle.index as int);
        }
        Nullable::new(ResourceRef { index: handle.index })
    }

    /// Clones a reference, incrementing the reference count: a held
    /// reference cannot go stale, so no generation check is needed.
    pub fn clone(&mut self, resource: &ResourceRef) -> (r: ResourceRef)
        requires
            old(self).wf(),
            old(self).ref_alive(resource),
            old(self).slot_ref_count(resource.spec_index() as int) < u32::MAX,
        ensures
            final(self).wf(),
            final(self).spec_capacity() == old(self).spec_capacity(),
            r.spec_index() == resource.spec_index(),
            final(self).slot_ref_count(resource.spec_index() as int)
                == old(self).slot_ref_count(resource.spec_index() as int) + 1,
            final(self).slot_unique(resource.spec_index() as int)
                == old(self).slot_unique(resource.spec_index() as int),
            final(self).slot_value(resource.spec_index() as int)
                == old(self).slot_value(resource.spec_index() as int),
            resource_unchanged_except(*old(self), *final(self), resource.spec_index() as int),
            final(self).free_list() == old(self).free_list(),
            final(self).spec_high_water_mark() == old(self).spec_high_water_mark(),
    {
        let mut slot = ResourceData { data: None, ref_count: 0, unique_id: 0 };
        self.buffer.set_and_swap(resource.index as usize, &mut slot);
        let mut raised = ResourceData {
            data: slot.data,
            ref_count: slot.ref_count + 1,
            unique_id: slot.unique_id,
        };
        self.buffer.set_and_swap(resource.index as usize, &mut raised);
        proof {
            let fin = *final(self);
            assert(fin.buffer@ =~= old(self).buffer@.update(
                resource.index as int, fin.buffer@[resource.index as int]));
            assert forall|i: int| 0 <= i < fin.buffer@.len() && i != resource.index as int
                implies #[trigger] fin.slot_unique(i) == old(self).slot_unique(i)
                && fin.slot_value(i) == old(self).slot_value(i)
                && fin.slot_ref_count(i) == old(self).slot_ref_count(i) by {
                assert(fin.buffer@[i] == old(self).buffer@[i]);
            }
            lemma_resource_count_update(old(self).buffer@, resource_free_pred(),
                resource.index as int, fin.buffer@[resource.index as int]);
            lemma_rm_shape_after_update(*old(self), fin, resource.index as int);
        }
        ResourceRef { index: resource.index }
    }

    /// No double free-list entry: however stores, frees and releases are
    /// interleaved, the slot indices waiting on the shared free-list queue
    /// are pairwise distinct, in bounds, and all actually free — releasing
    /// N distinct references to N distinct slots yields exactly N entries.
    pub proof fn lemma_free_list_distinct(&self)
        requires
            self.wf(),
        ensures
            self.free_list().no_duplicates(),
            forall|j: int| 0 <= j < self.free_list().len()
                ==> #[trigger] self.free_list()[j] < self.spec_high_water_mark(),
            forall|j: int| 0 <= j < self.free_list().len()
                ==> self.slot_ref_count(#[trigger] self.free_list()[j] as int) == 0,
    {
    }

    /// Borrow the value a reference keeps alive.
    pub fn get(&self, resource: &ResourceRef) -> (r: &T)
        requires
            self.wf(),
            self.ref_alive(resource),
        ensures
            Some(*r) == self.slot_value(resource.spec_index() as int),
    {
        self.buffer[resource.index as usize].data.as_ref().unwrap()
    }

    /// Release a reference previously obtained from the arena. When the
    /// last reference to a freed slot departs, the value is dropped in
    /// place and the slot index joins the shared free list — never while
    /// any other reference, or the arena's own, is outstanding.
    pub fn release(&mut self, resource: ResourceRef)
        requires
            old(self).wf(),
            old(self).ref_alive(&resource),
        ensures
            final(self).wf(),
            final(self).spec_capacity() == old(self).spec_capacity(),
            final(self).spec_high_water_mark() == old(self).spec_high_water_mark(),
            resource_unchanged_except(*old(self), *final(self), resource.spec_index() as int),
            final(self).slot_unique(resource.spec_index() as int)
                == old(self).slot_unique(resource.spec_index() as int),
            old(self).slot_ref_count(resource.spec_index() as int) > 1 ==> {
                &&& final(self).slot_ref_count(resource.spec_index() as int)
                        == old(self).slot_ref_count(resource.spec_index() as int) - 1
                &&& final(self).slot_value(resource.spec_index() as int)
                        == old(self).slot_value(resource.spec_index() as int)
                &&& final(self).free_list() == old(self).free_list()
            },
            old(self).slot_ref_count(resource.spec_index() as int) == 1 ==> {
                &&& final(self).slot_ref_count(resource.spec_index() as int) == 0
                &&& final(self).slot_value(resource.spec_index() as int) is None
                &&& final(self).free_list()
                        == old(self).free_list().push(resource.spec_index())
            },
    {
        let index = resource.index;
        let mut slot = ResourceData { data: None, ref_count: 0, unique_id: 0 };
        self.buffer.set_and_swap(index as usize, &mut slot);
        if slot.ref_count == 1 {
            let mut cleared = ResourceData {
                data: None,
                ref_count: 0,
                unique_id: slot.unique_id,
            };
            self.buffer.set_and_swap(index as usize, &mut cleared);
            proof {
                lemma_resource_count_missing_one(old(self).buffer@, resource_free_pred(),
                    index as int);
            }
            let pushed = self.free_queue.enqueue(index);
            proof {
                assert(pushed);
                let fin = *final(self);
                assert(fin.buffer@ =~= old(self).buffer@.update(
                    index as int, fin.buffer@[index as int]));
                assert forall|i: int| 0 <= i < fin.buffer@.len() && i != index as int
                    implies #[trigger] fin.slot_unique(i) == old(self).slot_unique(i)
                    && fin.slot_value(i) == old(self).slot_value(i)
                    && fin.slot_ref_count(i) == old(self).slot_ref_count(i) by {
                    assert(fin.buffer@[i] == old(self).buffer@[i]);
                }
                lemma_resource_count_update(old(self).buffer@, resource_free_pred(),
                    index as int, fin.buffer@[index as int]);
                assert forall|i: int| 0 <= i < fin.buffer@.len()
                    && #[trigger] fin.slot_ref_count(i) == 0
                    implies fin.free_queue@.contains(i as u32) by {
                    if i != index as int {
                        assert(fin.slot_ref_count(i) == old(self).slot_ref_count(i));
                        assert(old(self).free_queue@.contains(i as u32));
                        let j = choose|j: int| 0 <= j < old(self).free_queue@.len()
                            && old(self).free_queue@[j] == i as u32;
                        assert(fin.free_queue@[j] == i as u32);
                    } else {
                        assert(fin.free_queue@.last() == index);
                    }
                }
                assert forall|j: int| 0 <= j < fin.free_queue@.len()
                    implies fin.slot_ref_count(#[trigger] fin.free_queue@[j] as int)
                        == 0 by {
                    if j < old(self).free_queue@.len() {
                        assert(fin.free_queue@[j] == old(self).free_queue@[j]);
                        let e = old(self).free_queue@[j] as int;
                        assert(old(self).slot_ref_count(e) == 0);
                        if e != index as int {
                            assert(fin.slot_ref_count(e) == old(self).slot_ref_count(e));
                        }
                    } else {
                        assert(fin.free_queue@[j] == index);
                    }
                }
                assert(!old(self).free_queue@.contains(index)) by {
                    if old(self).free_queue@.contains(index) {
                        let j = choose|j: int| 0 <= j < old(self).free_queue@.len()
                            && old(self).free_queue@[j] == index;
                        assert(old(self).slot_ref_count(index as int) == 0);
                    }
                }
                assert(fin.free_queue@.no_duplicates()) by {
                    assert forall|p: int, q: int|
                        0 <= p < fin.free_queue@.len() && 0 <= q < fin.free_queue@.len()
                        && p != q implies fin.free_queue@[p] != fin.free_queue@[q] by {
                        if p < old(self).free_queue@.len() && q < old(self).free_queue@.len() {
                            assert(old(self).free_queue@[p] != old(self).free_queue@[q]);
                        }
                    }
                }
                assert forall|j: int| 0 <= j < fin.free_queue@.len()
                    implies #[trigger] fin.free_queue@[j] < fin.buffer@.len() by {
                    if j < old(self).free_queue@.len() {
                        assert(fin.free_queue@[j] == old(self).free_queue@[j]);
                    } else {
                        assert(fin.free_queue@[j] == index);
                    }
                }
                assert forall|i: int| 0 <= i < fin.buffer@.len() implies {
                    &&& (fin.slot_value(i) is Some <==> #[trigger] fin.slot_ref_count(i)
                            >= 1)
                    &&& (is_live_unique(fin.slot_unique(i))
                            ==> fin.slot_ref_count(i) >= 1)
                } by {
                    if i != index as int {
                        assert(fin.buffer@[i] == old(self).buffer@[i]);
                        assert(old(self).slot_value(i) is Some
                            <==> old(self).slot_ref_count(i) >= 1);
                        assert(is_live_unique(old(self).slot_unique(i))
                            ==> old(self).slot_ref_count(i) >= 1);
                    }
                }
            }
        } else {
            let mut updated = ResourceData {
                data: slot.data,
                ref_count: slot.ref_count - 1,
                unique_id: slot.unique_id,
            };
            self.buffer.set_and_swap(index as usize, &mut updated);
            proof {
                let fin = *final(self);
                assert(fin.buffer@ =~= old(self).buffer@.update(
                    index as int, fin.buffer@[index as int]));
                assert forall|i: int| 0 <= i < fin.buffer@.len() && i != index as int
                    implies #[trigger] fin.slot_unique(i) == old(self).slot_unique(i)
                    && fin.slot_value(i) == old(self).slot_value(i)
                    && fin.slot_ref_count(i) == old(self).slot_ref_count(i) by {
                    assert(fin.buffer@[i] == old(self).buffer@[i]);
                }
                lemma_resource_count_update(old(self).buffer@, resource_free_pred(),
                    index as int, fin.buffer@[index as int]);
                lemma_rm_shape_after_update(*old(self), fin, index as int);
            }
        }
    }
}

/// All slots below `pre`'s high-water mark other than `idx` are untouched
/// between `pre` and `post`.
pub open spec fn resource_unchanged_except<T>(
    pre: ResourceManager<T>, post: ResourceManager<T>, idx: int) -> bool {
    forall|i: int| 0 <= i < pre.spec_high_water_mark() && i != idx
        ==> #[trigger] post.slot_unique(i) == pre.slot_unique(i)
            && post.slot_value(i) == pre.slot_value(i)
            && post.slot_ref_count(i) == pre.slot_ref_count(i)
}

} // verus!
