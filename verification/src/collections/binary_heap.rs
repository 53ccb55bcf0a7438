use vstd::prelude::*;

verus! {

/// The sentinel stored in the unused zeroth cell of the one-indexed heap
/// array.
pub const HEAP_NULL: u32 = 0xFFFF_FFFF;

/// A stable ticket for a value in the heap: the index of its storage slot
/// (which never moves) and the slot's reuse counter at push time, so that
/// handles to removed values stop validating.
#[derive(Copy, Clone, Debug)]
pub struct Handle {
    pub index: u32,
    pub unique: u32,
}

/// A min-heap that keeps each value at a stable storage slot, so a pushed
/// value can be retrieved, or its key replaced, in constant time through
/// its [`Handle`] while the heap array shuffles slot indices around.
///
/// The heap array is one-indexed: cell zero holds [`HEAP_NULL`]. Cells
/// past `heap_len` hold the slots freed by earlier removals, which `push`
/// reuses before growing the storage.
pub struct BinaryHeap {
    pub data: Vec<Option<i64>>,
    pub heap_index: Vec<Handle>,
    pub heap: Vec<u32>,
    pub heap_len: u32,
    pub reserved: u32,
}

impl BinaryHeap {
    /// Number of values currently on the heap.
    pub closed spec fn spec_len(&self) -> u32 {
        self.heap_len
    }

    /// The value at storage slot `s`, if the slot is occupied.
    pub closed spec fn slot_value(&self, s: int) -> Option<i64> {
        self.data@[s]
    }

    /// The reuse counter of storage slot `s`.
    pub closed spec fn slot_unique(&self, s: int) -> u32 {
        self.heap_index@[s].unique
    }

    /// The heap position of storage slot `s`.
    pub closed spec fn slot_pos(&self, s: int) -> u32 {
        self.heap_index@[s].index
    }

    /// The storage slot at heap position `p`.
    pub closed spec fn pos_slot(&self, p: int) -> u32 {
        self.heap@[p]
    }

    /// Total storage slots ever created.
    pub closed spec fn spec_slots(&self) -> nat {
        self.data@.len()
    }

    /// The value on the heap at position `p`.
    pub closed spec fn pos_value(&self, p: int) -> i64 {
        match self.slot_value(self.pos_slot(p) as int) {
            Some(v) => v,
            None => 0,
        }
    }

    /// The min-heap order: every node is at least its parent.
    pub closed spec fn ordered(&self) -> bool {
        forall|p: int| 2 <= p <= self.heap_len
            ==> self.pos_value(p / 2) <= #[trigger] self.pos_value(p)
    }

    /// The order holds everywhere except possibly between `x` and its
    /// parent: the state `sift_up` walks through.
    spec fn ordered_except_up(&self, x: int) -> bool {
        forall|p: int| 2 <= p <= self.heap_len && p != x
            ==> self.pos_value(p / 2) <= #[trigger] self.pos_value(p)
    }

    /// The order holds everywhere except possibly between `x` and its
    /// children: the state `heapify` walks through.
    spec fn ordered_except_down(&self, x: int) -> bool {
        forall|p: int| 2 <= p <= self.heap_len && p / 2 != x
            ==> self.pos_value(p / 2) <= #[trigger] self.pos_value(p)
    }

    /// `x`'s parent, if it has one, is at most `x`'s children: what makes
    /// a swap with either neighbour safe.
    spec fn parent_below_grandchildren(&self, x: int) -> bool {
        x >= 2 ==> forall|c: int| (c == 2 * x || c == 2 * x + 1) && c <= self.heap_len
            ==> self.pos_value(x / 2) <= #[trigger] self.pos_value(c)
    }

    /// The whole invariant: shape plus order.
    pub closed spec fn wf(&self) -> bool {
        self.shape() && self.ordered()
    }

    /// The heap's shape: the three arrays agree in length, the heap array
    /// and the slot-to-position map are inverse permutations, and exactly
    /// the slots at positions up to `heap_len` are occupied.
    pub closed spec fn shape(&self) -> bool {
        &&& self.data@.len() < 0x4000_0000
        &&& self.heap@.len() == self.data@.len() + 1
        &&& self.heap_index@.len() == self.data@.len()
        &&& self.heap_len <= self.data@.len()
        &&& self.heap@[0] == HEAP_NULL
        &&& forall|p: int| 1 <= p < self.heap@.len()
                ==> #[trigger] self.pos_slot(p) < self.data@.len()
        &&& forall|p: int| 1 <= p < self.heap@.len()
                ==> self.slot_pos(#[trigger] self.pos_slot(p) as int) == p
        &&& forall|s: int| 0 <= s < self.data@.len()
                ==> 1 <= #[trigger] self.slot_pos(s) < self.heap@.len()
                    && self.pos_slot(self.slot_pos(s) as int) == s
        &&& forall|s: int| 0 <= s < self.data@.len()
                ==> (#[trigger] self.slot_value(s) is Some <==> self.slot_pos(s) <= self.heap_len)
    }

    /// A handle that still points at its value: in range, of the slot's
    /// current reuse counter, and the slot is still on the heap.
    pub open spec fn valid_handle(&self, h: Handle) -> bool {
        &&& h.index < self.spec_slots()
        &&& self.slot_unique(h.index as int) == h.unique
        &&& self.slot_pos(h.index as int) <= self.spec_len()
    }

    /// Create an empty heap.
    pub fn new() -> (r: BinaryHeap)
        ensures
            r.wf(),
            r.spec_len() == 0,
            r.spec_slots() == 0,
    {
        let mut heap: Vec<u32> = Vec::with_capacity(1);
        heap.push(HEAP_NULL);
        BinaryHeap {
            data: Vec::new(),
            heap_index: Vec::new(),
            heap,
            heap_len: 0,
            reserved: 0,
        }
    }

    /// Create an empty heap with room reserved for `capacity` values.
    pub fn with_capacity(capacity: u32) -> (r: BinaryHeap)
        requires
            capacity < 0x4000_0000,
        ensures
            r.wf(),
            r.spec_len() == 0,
            r.spec_slots() == 0,
    {
        let mut heap: Vec<u32> = Vec::with_capacity(capacity as usize + 1);
        heap.push(HEAP_NULL);
        BinaryHeap {
            data: Vec::with_capacity(capacity as usize),
            heap_index: Vec::with_capacity(capacity as usize),
            heap,
            heap_len: 0,
            reserved: capacity,
        }
    }

    /// Number of values currently on the heap.
    pub fn len(&self) -> (r: u32)
        ensures
            r == self.spec_len(),
    {
        self.heap_len
    }

    /// The room reserved at construction.
    pub fn capacity(&self) -> (r: u32)
        ensures
            r == self.reserved,
    {
        self.reserved
    }

    /// Parent is `p / 2` because of one-indexing.
    fn get_parent_index(index: u32) -> (r: u32)
        ensures
            r == index / 2,
    {
        index / 2
    }

    /// Left child is `2 * p` because of one-indexing.
    fn get_left_index(index: u32) -> (r: u32)
        requires
            index < 0x8000_0000,
        ensures
            r == 2 * index,
    {
        index * 2
    }

    /// Right child is `2 * p + 1` because of one-indexing.
    fn get_right_index(index: u32) -> (r: u32)
        requires
            index < 0x8000_0000,
        ensures
            r == 2 * index + 1,
    {
        index * 2 + 1
    }

    /// Drop every value and every slot.
    pub fn clear(&mut self)
        ensures
            final(self).wf(),
            final(self).spec_len() == 0,
            final(self).spec_slots() == 0,
    {
        self.data.clear();
        self.heap_index.clear();
        self.heap.clear();
        self.heap.push(HEAP_NULL);
        self.heap_len = 0;
    }

    /// Swap the heap nodes at positions `p` and `q`, keeping the inverse
    /// permutation in step. Storage, values and reuse counters are
    /// untouched.
    fn swap_nodes(&mut self, p: u32, q: u32)
        requires
            old(self).shape(),
            1 <= p <= old(self).spec_len(),
            1 <= q <= old(self).spec_len(),
        ensures
            final(self).shape(),
            final(self).spec_len() == old(self).spec_len(),
            final(self).spec_slots() == old(self).spec_slots(),
            final(self).data@ == old(self).data@,
            forall|s: int| 0 <= s < old(self).spec_slots()
                ==> #[trigger] final(self).slot_unique(s) == old(self).slot_unique(s),
            final(self).pos_slot(p as int) == old(self).pos_slot(q as int),
            final(self).pos_slot(q as int) == old(self).pos_slot(p as int),
            forall|r: int| 1 <= r < old(self).heap@.len() && r != p && r != q
                ==> #[trigger] final(self).pos_slot(r) == old(self).pos_slot(r),
            final(self).pos_value(p as int) == old(self).pos_value(q as int),
            final(self).pos_value(q as int) == old(self).pos_value(p as int),
            forall|r: int| 1 <= r < old(self).heap@.len() && r != p && r != q
                ==> #[trigger] final(self).pos_value(r) == old(self).pos_value(r),
    {
        let sp = self.heap[p as usize];
        let sq = self.heap[q as usize];
        proof {
            assert(sp == old(self).pos_slot(p as int));
            assert(sq == old(self).pos_slot(q as int));
            assert(old(self).pos_slot(p as int) < old(self).data@.len());
            assert(old(self).pos_slot(q as int) < old(self).data@.len());
            assert(old(self).slot_pos(sp as int) == p);
            assert(old(self).slot_pos(sq as int) == q);
        }
        self.heap.set(p as usize, sq);
        self.heap.set(q as usize, sp);
        let hp = self.heap_index[sp as usize];
        let hq = self.heap_index[sq as usize];
        self.heap_index.set(sp as usize, Handle { index: hq.index, unique: hp.unique });
        self.heap_index.set(sq as usize, Handle { index: hp.index, unique: hq.unique });
        proof {
            let fin = *final(self);
            let pre = *old(self);
            if p == q {
                assert(fin.heap@ =~= pre.heap@);
                assert(fin.heap_index@ =~= pre.heap_index@);
            }
            assert forall|r: int| 1 <= r < fin.heap@.len()
                implies #[trigger] fin.pos_slot(r) < fin.data@.len()
                    && fin.slot_pos(fin.pos_slot(r) as int) == r by {
                if r == p {
                    assert(fin.pos_slot(r) == sq);
                } else if r == q {
                    assert(fin.pos_slot(r) == sp);
                } else {
                    assert(fin.pos_slot(r) == pre.pos_slot(r));
                    let s = pre.pos_slot(r);
                    assert(pre.slot_pos(s as int) == r);
                    if s == sp || s == sq {
                        assert(false);
                    }
                }
            }
            assert forall|s: int| 0 <= s < fin.data@.len()
                implies 1 <= #[trigger] fin.slot_pos(s) < fin.heap@.len()
                    && fin.pos_slot(fin.slot_pos(s) as int) == s by {
                if s == sp {
                    assert(fin.slot_pos(s) == q);
                } else if s == sq {
                    assert(fin.slot_pos(s) == p);
                } else {
                    assert(fin.slot_pos(s) == pre.slot_pos(s));
                    assert(pre.pos_slot(pre.slot_pos(s) as int) == s);
                    if pre.slot_pos(s) == p || pre.slot_pos(s) == q {
                        assert(false);
                    }
                }
            }
            assert forall|s: int| 0 <= s < fin.data@.len()
                implies (#[trigger] fin.slot_value(s) is Some
                    <==> fin.slot_pos(s) <= fin.heap_len) by {
                assert(fin.slot_value(s) == pre.slot_value(s));
                assert(pre.slot_value(s) is Some <==> pre.slot_pos(s) <= pre.heap_len);
                if s == sp {
                    assert(pre.slot_pos(s) == p);
                    assert(fin.slot_pos(s) == q);
                } else if s == sq {
                    assert(pre.slot_pos(s) == q);
                    assert(fin.slot_pos(s) == p);
                } else {
                    assert(fin.slot_pos(s) == pre.slot_pos(s));
                }
            }
            assert forall|r: int| 1 <= r < pre.heap@.len() && r != p && r != q
                implies #[trigger] fin.pos_value(r) == pre.pos_value(r) by {
                assert(fin.pos_slot(r) == pre.pos_slot(r));
                assert(fin.slot_value(pre.pos_slot(r) as int)
                    == pre.slot_value(pre.pos_slot(r) as int));
            }
            assert(fin.pos_value(p as int) == pre.pos_value(q as int));
            assert(fin.pos_value(q as int) == pre.pos_value(p as int));
        }
    }

    /// Read the value at heap position `p`.
    fn value_at_pos(&self, p: u32) -> (r: i64)
        requires
            self.shape(),
            1 <= p <= self.spec_len(),
        ensures
            Some(r) == self.slot_value(self.pos_slot(p as int) as int),
            r == self.pos_value(p as int),
    {
        let s = self.heap[p as usize];
        proof {
            assert(s == self.pos_slot(p as int));
            assert(self.pos_slot(p as int) < self.data@.len());
            assert(self.slot_pos(s as int) == p);
            assert(self.slot_value(s as int) is Some);
        }
        self.data[s as usize].unwrap()
    }

    /// Bubble the node at position `index` up towards the root while it is
    /// smaller than its parent, keeping values and handles attached to
    /// their storage slots and restoring the heap order.
    #[verifier::rlimit(100)]
    fn sift_up(&mut self, index: u32)
        requires
            old(self).shape(),
            1 <= index <= old(self).spec_len(),
            old(self).ordered_except_up(index as int),
            old(self).parent_below_grandchildren(index as int),
        ensures
            final(self).shape(),
            final(self).ordered(),
            final(self).spec_len() == old(self).spec_len(),
            final(self).spec_slots() == old(self).spec_slots(),
            final(self).data@ == old(self).data@,
            forall|s: int| 0 <= s < old(self).spec_slots()
                ==> #[trigger] final(self).slot_unique(s) == old(self).slot_unique(s),
    {
        let mut index = index;
        while index > 1
            invariant
                self.shape(),
                1 <= index <= self.spec_len(),
                self.spec_len() == old(self).spec_len(),
                self.spec_slots() == old(self).spec_slots(),
                self.data@ == old(self).data@,
                forall|s: int| 0 <= s < old(self).spec_slots()
                    ==> #[trigger] self.slot_unique(s) == old(self).slot_unique(s),
                self.ordered_except_up(index as int),
                self.parent_below_grandchildren(index as int),
            decreases index,
        {
            let parent_index = Self::get_parent_index(index);
            let data = self.value_at_pos(index);
            let parent_data = self.value_at_pos(parent_index);
            if data < parent_data {
                let ghost prev = *self;
                self.swap_nodes(index, parent_index);
                proof {
                    let cur = *self;
                    let x = index as int;
                    let y = parent_index as int;
                    assert forall|p: int| 2 <= p <= cur.heap_len && p != y
                        implies cur.pos_value(p / 2) <= #[trigger] cur.pos_value(p) by {
                        if p == x {
                            // the swapped pair itself is now in order
                            assert(cur.pos_value(x) == prev.pos_value(y));
                            assert(cur.pos_value(y) == prev.pos_value(x));
                        } else if p / 2 == x {
                            // the moved-up parent is below index's children
                            assert(prev.pos_value(p) == cur.pos_value(p));
                            assert(prev.pos_value(x / 2) <= prev.pos_value(p));
                        } else if p / 2 == y {
                            // the sibling only sees a smaller parent
                            assert(prev.pos_value(p / 2) <= prev.pos_value(p));
                            assert(cur.pos_value(p) == prev.pos_value(p));
                        } else {
                            assert(cur.pos_value(p) == prev.pos_value(p));
                            assert(cur.pos_value(p / 2) == prev.pos_value(p / 2));
                            assert(prev.pos_value(p / 2) <= prev.pos_value(p));
                        }
                    }
                    if y >= 2 {
                        assert forall|c: int| (c == 2 * y || c == 2 * y + 1)
                            && c <= cur.heap_len
                            implies cur.pos_value(y / 2) <= #[trigger] cur.pos_value(c) by {
                            assert(cur.pos_value(y / 2) == prev.pos_value(y / 2));
                            assert(prev.pos_value(y / 2) <= prev.pos_value(y));
                            if c == x {
                                assert(cur.pos_value(c) == prev.pos_value(y));
                            } else {
                                assert(cur.pos_value(c) == prev.pos_value(c));
                                assert(prev.pos_value(y) <= prev.pos_value(c));
                            }
                        }
                    }
                }
                index = parent_index;
            } else {
                proof {
                    assert forall|p: int| 2 <= p <= self.heap_len
                        implies self.pos_value(p / 2) <= #[trigger] self.pos_value(p) by {
                    }
                }
                return;
            }
        }
        proof {
            assert forall|p: int| 2 <= p <= self.heap_len
                implies self.pos_value(p / 2) <= #[trigger] self.pos_value(p) by {
            }
        }
    }

    /// Sink the node at position `index` down towards the leaves while a
    /// child is smaller, keeping values and handles attached to their
    /// storage slots and restoring the heap order.
    #[verifier::rlimit(60)]
    fn heapify(&mut self, index: u32)
        requires
            old(self).shape(),
            1 <= index,
            old(self).ordered_except_down(index as int),
            old(self).parent_below_grandchildren(index as int),
        ensures
            final(self).shape(),
            final(self).ordered(),
            final(self).spec_len() == old(self).spec_len(),
            final(self).spec_slots() == old(self).spec_slots(),
            final(self).data@ == old(self).data@,
            forall|s: int| 0 <= s < old(self).spec_slots()
                ==> #[trigger] final(self).slot_unique(s) == old(self).slot_unique(s),
        decreases old(self).heap@.len() - index,
    {
        proof {
            assert(self.heap_len < self.heap@.len());
        }
        if index >= self.heap_len {
            // a leaf, or past the live heap: every parent link is in order
            proof {
                assert forall|p: int| 2 <= p <= self.heap_len
                    implies self.pos_value(p / 2) <= #[trigger] self.pos_value(p) by {
                    assert(p / 2 != index);
                }
            }
            return;
        }
        let mut best_index = Self::get_left_index(index);
        if best_index > self.heap_len {
            proof {
                assert forall|p: int| 2 <= p <= self.heap_len
                    implies self.pos_value(p / 2) <= #[trigger] self.pos_value(p) by {
                    assert(p / 2 != index);
                }
            }
            return;
        }
        let mut best_data = self.value_at_pos(best_index);

        let right_index = Self::get_right_index(index);
        if right_index <= self.heap_len {
            let right_data = self.value_at_pos(right_index);
            if right_data < best_data {
                best_data = right_data;
                best_index = right_index;
            }
        }

        let data = self.value_at_pos(index);
        let ghost prev = *self;
        let did_swap = best_data < data;
        if did_swap {
            self.swap_nodes(index, best_index);
        }
        proof {
            lemma_heapify_step(prev, *self, index as int, best_index as int, did_swap);
        }

        self.heapify(best_index);
    }

    /// Push a value, reusing a freed storage slot if one waits past the
    /// live heap, and bubble it into place. The returned handle stays
    /// valid until the value is removed.
    #[verifier::rlimit(100)]
    pub fn push(&mut self, item: i64) -> (h: Handle)
        requires
            old(self).wf(),
            old(self).spec_slots() + 1 < 0x4000_0000,
        ensures
            final(self).wf(),
            final(self).spec_len() == old(self).spec_len() + 1,
            final(self).valid_handle(h),
            final(self).slot_value(h.index as int) == Some(item),
            forall|s: int| 0 <= s < old(self).spec_slots() && s != h.index
                ==> #[trigger] final(self).slot_value(s) == old(self).slot_value(s)
                    && final(self).slot_unique(s) == old(self).slot_unique(s),
            old(self).spec_len() == old(self).spec_slots() ==> {
                &&& final(self).spec_slots() == old(self).spec_slots() + 1
                &&& h.index == old(self).spec_slots()
                &&& h.unique == 0
            },
            old(self).spec_len() < old(self).spec_slots() ==> {
                &&& final(self).spec_slots() == old(self).spec_slots()
                &&& h.index == old(self).pos_slot(old(self).spec_len() + 1)
                &&& h.unique == old(self).slot_unique(h.index as int)
            },
    {
        let prev_heap_len = self.data.len() as u32;

        let handle: Handle;
        if self.heap_len == prev_heap_len {
            // no freed slot waits: grow the storage by one
            self.data.push(Some(item));
            self.heap_len = self.heap_len + 1;
            handle = Handle { index: prev_heap_len, unique: 0 };
            self.heap_index.push(Handle { index: self.heap_len, unique: 0 });
            self.heap.push(prev_heap_len);
            proof {
                let fin = *self;
                let pre = *old(self);
                assert forall|p: int| 1 <= p < fin.heap@.len()
                    implies #[trigger] fin.pos_slot(p) < fin.data@.len()
                        && fin.slot_pos(fin.pos_slot(p) as int) == p by {
                    if p < pre.heap@.len() {
                        assert(fin.pos_slot(p) == pre.pos_slot(p));
                        assert(pre.slot_pos(pre.pos_slot(p) as int) == p);
                    }
                }
                assert forall|s: int| 0 <= s < fin.data@.len()
                    implies 1 <= #[trigger] fin.slot_pos(s) < fin.heap@.len()
                        && fin.pos_slot(fin.slot_pos(s) as int) == s by {
                    if s < pre.data@.len() {
                        assert(fin.slot_pos(s) == pre.slot_pos(s));
                        assert(pre.pos_slot(pre.slot_pos(s) as int) == s);
                    }
                }
                assert forall|s: int| 0 <= s < fin.data@.len()
                    implies (#[trigger] fin.slot_value(s) is Some
                        <==> fin.slot_pos(s) <= fin.heap_len) by {
                    if s < pre.data@.len() {
                        assert(fin.slot_value(s) == pre.slot_value(s));
                        assert(fin.slot_pos(s) == pre.slot_pos(s));
                        if pre.slot_pos(s) == fin.heap_len {
                            assert(pre.pos_slot(pre.slot_pos(s) as int) == s);
                            assert(false);
                        }
                    }
                }
                assert forall|p: int| 2 <= p <= fin.heap_len && p != fin.heap_len
                    implies fin.pos_value(p / 2) <= #[trigger] fin.pos_value(p) by {
                    assert(fin.pos_slot(p) == pre.pos_slot(p));
                    assert(fin.pos_slot(p / 2) == pre.pos_slot(p / 2));
                    assert(fin.slot_value(pre.pos_slot(p) as int)
                        == pre.slot_value(pre.pos_slot(p) as int));
                    assert(fin.slot_value(pre.pos_slot(p / 2) as int)
                        == pre.slot_value(pre.pos_slot(p / 2) as int));
                    assert(pre.pos_value(p / 2) <= pre.pos_value(p));
                }
            }
        } else {
            // reuse the freed slot parked just past the live heap
            self.heap_len = self.heap_len + 1;
            let data_index = self.heap[self.heap_len as usize];
            proof {
                assert(old(self).pos_slot(old(self).heap_len + 1) < old(self).spec_slots());
                assert(old(self).slot_pos(data_index as int) == old(self).heap_len + 1);
            }
            let kept = self.heap_index[data_index as usize];
            self.heap_index.set(data_index as usize,
                Handle { index: self.heap_len, unique: kept.unique });
            handle = Handle { index: data_index, unique: kept.unique };
            self.data.set(data_index as usize, Some(item));
            proof {
                let fin = *self;
                let pre = *old(self);
                assert forall|p: int| 1 <= p < fin.heap@.len()
                    implies #[trigger] fin.pos_slot(p) < fin.data@.len()
                        && fin.slot_pos(fin.pos_slot(p) as int) == p by {
                    assert(fin.pos_slot(p) == pre.pos_slot(p));
                    assert(pre.slot_pos(pre.pos_slot(p) as int) == p);
                    if pre.pos_slot(p) == data_index {
                        assert(p == pre.heap_len + 1);
                    }
                }
                assert forall|s: int| 0 <= s < fin.data@.len()
                    implies 1 <= #[trigger] fin.slot_pos(s) < fin.heap@.len()
                        && fin.pos_slot(fin.slot_pos(s) as int) == s by {
                    if s != data_index {
                        assert(fin.slot_pos(s) == pre.slot_pos(s));
                        assert(pre.pos_slot(pre.slot_pos(s) as int) == s);
                    }
                }
                assert forall|s: int| 0 <= s < fin.data@.len()
                    implies (#[trigger] fin.slot_value(s) is Some
                        <==> fin.slot_pos(s) <= fin.heap_len) by {
                    if s != data_index {
                        assert(fin.slot_value(s) == pre.slot_value(s));
                        assert(fin.slot_pos(s) == pre.slot_pos(s));
                        if pre.slot_pos(s) == fin.heap_len {
                            assert(pre.pos_slot(pre.slot_pos(s) as int) == s);
                            assert(false);
                        }
                    }
                }
                assert forall|p: int| 2 <= p <= fin.heap_len && p != fin.heap_len
                    implies fin.pos_value(p / 2) <= #[trigger] fin.pos_value(p) by {
                    assert(fin.pos_slot(p) == pre.pos_slot(p));
                    assert(fin.pos_slot(p / 2) == pre.pos_slot(p / 2));
                    assert(pre.pos_slot(p) != data_index) by {
                        if pre.pos_slot(p) == data_index {
                            assert(pre.slot_pos(data_index as int) == p);
                        }
                    }
                    assert(pre.pos_slot(p / 2) != data_index) by {
                        if pre.pos_slot(p / 2) == data_index {
                            assert(pre.slot_pos(data_index as int) == p / 2);
                        }
                    }
                    assert(fin.slot_value(pre.pos_slot(p) as int)
                        == pre.slot_value(pre.pos_slot(p) as int));
                    assert(fin.slot_value(pre.pos_slot(p / 2) as int)
                        == pre.slot_value(pre.pos_slot(p / 2) as int));
                    assert(pre.pos_value(p / 2) <= pre.pos_value(p));
                }
            }
        }

        self.sift_up(self.heap_len);
        proof {
            assert(final(self).slot_unique(handle.index as int)
                == handle.unique);
        }
        handle
    }

    /// Retrieve the value a handle points at in constant time, or `None`
    /// once the handle is stale.
    pub fn get(&self, handle: Handle) -> (r: Option<i64>)
        requires
            self.wf(),
        ensures
            r is Some <==> self.valid_handle(handle),
            r matches Some(v) ==> Some(v) == self.slot_value(handle.index as int),
    {
        if handle.index >= self.heap_index.len() as u32 {
            return None;
        }
        let h = self.heap_index[handle.index as usize];
        if h.unique != handle.unique {
            return None;
        }
        if h.index > self.heap_len {
            // the slot was freed but not yet reused; its counter will have
            // moved on before any new handle is minted for it
            return None;
        }
        proof {
            assert(h == self.heap_index@[handle.index as int]);
            assert(self.slot_pos(handle.index as int) == h.index);
            assert(self.slot_value(handle.index as int) is Some);
        }
        Some(self.data[handle.index as usize].unwrap())
    }

    /// Replace the value a handle points at and move it to its correct
    /// position; returns `false`, changing nothing, for a stale handle.
    pub fn replace(&mut self, handle: Handle, item: i64) -> (r: bool)
        requires
            old(self).wf(),
        ensures
            final(self).wf(),
            final(self).spec_len() == old(self).spec_len(),
            final(self).spec_slots() == old(self).spec_slots(),
            r <==> old(self).valid_handle(handle),
            !r ==> *final(self) == *old(self),
            r ==> final(self).slot_value(handle.index as int) == Some(item),
            r ==> forall|s: int| 0 <= s < old(self).spec_slots() && s != handle.index
                ==> #[trigger] final(self).slot_value(s) == old(self).slot_value(s)
                    && final(self).slot_unique(s) == old(self).slot_unique(s),
    {
        if handle.index >= self.heap_index.len() as u32 {
            return false;
        }
        let h = self.heap_index[handle.index as usize];
        if h.unique != handle.unique {
            return false;
        }
        if h.index > self.heap_len {
            return false;
        }
        proof {
            assert(h == self.heap_index@[handle.index as int]);
            assert(self.slot_pos(handle.index as int) == h.index);
            assert(self.slot_value(handle.index as int) is Some);
            assert(1 <= h.index);
        }

        let previous = self.data[handle.index as usize].unwrap();
        self.data.set(handle.index as usize, Some(item));
        proof {
            let fin = *self;
            let pre = *old(self);
            assert(fin.heap@ == pre.heap@);
            assert(fin.heap_index@ == pre.heap_index@);
            assert(previous == pre.pos_value(h.index as int));
            assert(fin.pos_value(h.index as int) == item);
            assert forall|p: int| 1 <= p <= fin.heap_len && p != h.index
                implies #[trigger] fin.pos_value(p) == pre.pos_value(p) by {
                assert(fin.pos_slot(p) == pre.pos_slot(p));
                assert(pre.pos_slot(p) != handle.index) by {
                    if pre.pos_slot(p) == handle.index {
                        assert(pre.slot_pos(handle.index as int) == p);
                    }
                }
                assert(fin.slot_value(pre.pos_slot(p) as int)
                    == pre.slot_value(pre.pos_slot(p) as int));
            }
            assert forall|p: int| 1 <= p < fin.heap@.len()
                implies #[trigger] fin.pos_slot(p) < fin.data@.len()
                    && fin.slot_pos(fin.pos_slot(p) as int) == p by {
                assert(fin.pos_slot(p) == pre.pos_slot(p));
                assert(pre.pos_slot(p) < pre.data@.len());
                assert(pre.slot_pos(pre.pos_slot(p) as int) == p);
            }
            assert forall|s: int| 0 <= s < fin.data@.len()
                implies 1 <= #[trigger] fin.slot_pos(s) < fin.heap@.len()
                    && fin.pos_slot(fin.slot_pos(s) as int) == s by {
                assert(fin.slot_pos(s) == pre.slot_pos(s));
                assert(1 <= pre.slot_pos(s) < pre.heap@.len());
                assert(pre.pos_slot(pre.slot_pos(s) as int) == s);
            }
            assert forall|s: int| 0 <= s < fin.data@.len()
                implies (#[trigger] fin.slot_value(s) is Some
                    <==> fin.slot_pos(s) <= fin.heap_len) by {
                assert(pre.slot_value(s) is Some <==> pre.slot_pos(s) <= pre.heap_len);
                if s != handle.index {
                    assert(fin.slot_value(s) == pre.slot_value(s));
                }
                assert(fin.slot_pos(s) == pre.slot_pos(s));
            }
            assert(self.shape());
        }

        if item < previous {
            proof {
                let fin = *self;
                let pre = *old(self);
                let x = h.index as int;
                assert forall|p: int| 2 <= p <= fin.heap_len && p != x
                    implies fin.pos_value(p / 2) <= #[trigger] fin.pos_value(p) by {
                    if p / 2 == x {
                        assert(pre.pos_value(x) <= pre.pos_value(p));
                    } else {
                        assert(pre.pos_value(p / 2) <= pre.pos_value(p));
                    }
                }
                if x >= 2 {
                    assert forall|c: int| (c == 2 * x || c == 2 * x + 1)
                        && c <= fin.heap_len
                        implies fin.pos_value(x / 2) <= #[trigger] fin.pos_value(c) by {
                        assert(pre.pos_value(x / 2) <= pre.pos_value(x));
                        assert(pre.pos_value(x) <= pre.pos_value(c));
                    }
                }
            }
            self.sift_up(h.index);
        } else if item > previous {
            proof {
                let fin = *self;
                let pre = *old(self);
                let x = h.index as int;
                assert forall|p: int| 2 <= p <= fin.heap_len && p / 2 != x
                    implies fin.pos_value(p / 2) <= #[trigger] fin.pos_value(p) by {
                    if p == x {
                        assert(pre.pos_value(x / 2) <= pre.pos_value(x));
                    } else {
                        assert(pre.pos_value(p / 2) <= pre.pos_value(p));
                    }
                }
                if x >= 2 {
                    assert forall|c: int| (c == 2 * x || c == 2 * x + 1)
                        && c <= fin.heap_len
                        implies fin.pos_value(x / 2) <= #[trigger] fin.pos_value(c) by {
                        assert(pre.pos_value(x / 2) <= pre.pos_value(x));
                        assert(pre.pos_value(x) <= pre.pos_value(c));
                    }
                }
            }
            self.heapify(h.index);
        } else {
            proof {
                let fin = *self;
                let pre = *old(self);
                assert forall|p: int| 2 <= p <= fin.heap_len
                    implies fin.pos_value(p / 2) <= #[trigger] fin.pos_value(p) by {
                    assert(pre.pos_value(p / 2) <= pre.pos_value(p));
                }
            }
        }
        true
    }

    /// Remove the value at heap position `index`: swap it with the last
    /// live node, shrink the heap, restore the shape from the root, and
    /// advance the freed slot's reuse counter so stale handles miss.
    #[verifier::rlimit(100)]
    fn heap_remove(&mut self, index: u32) -> (r: i64)
        requires
            old(self).wf(),
            index == 1,
            1 <= index <= old(self).spec_len(),
        ensures
            final(self).wf(),
            final(self).spec_len() == old(self).spec_len() - 1,
            final(self).spec_slots() == old(self).spec_slots(),
            Some(r) == old(self).slot_value(old(self).pos_slot(index as int) as int),
            final(self).slot_value(old(self).pos_slot(index as int) as int) is None,
            final(self).slot_unique(old(self).pos_slot(index as int) as int)
                == old(self).slot_unique(old(self).pos_slot(index as int) as int)
                    .wrapping_add(1),
            forall|s: int| 0 <= s < old(self).spec_slots()
                && s != old(self).pos_slot(index as int)
                ==> #[trigger] final(self).slot_value(s) == old(self).slot_value(s)
                    && final(self).slot_unique(s) == old(self).slot_unique(s),
    {
        let last_index = self.heap_len;
        self.swap_nodes(index, last_index);
        let ghost swapped = *self;
        let data_index = self.heap[last_index as usize];
        self.heap_len = self.heap_len - 1;
        proof {
            assert(data_index == swapped.pos_slot(last_index as int));
            assert(swapped.pos_slot(last_index as int) == old(self).pos_slot(index as int));
            assert(swapped.slot_pos(data_index as int) == last_index);
            assert(swapped.slot_value(data_index as int) is Some);
        }
        let taken = self.data[data_index as usize].unwrap();
        self.data.set(data_index as usize, None);
        let kept = self.heap_index[data_index as usize];
        self.heap_index.set(data_index as usize,
            Handle { index: kept.index, unique: kept.unique.wrapping_add(1) });
        proof {
            let mid = *self;
            assert(mid.heap@ == swapped.heap@);
            assert(mid.data@ =~= swapped.data@.update(data_index as int, None));
            assert(mid.heap_index@ =~= swapped.heap_index@.update(
                data_index as int, mid.heap_index@[data_index as int]));
            assert forall|p: int| 1 <= p < mid.heap@.len()
                implies #[trigger] mid.pos_slot(p) < mid.data@.len()
                    && mid.slot_pos(mid.pos_slot(p) as int) == p by {
                assert(mid.pos_slot(p) == swapped.pos_slot(p));
                assert(swapped.pos_slot(p) < swapped.data@.len());
                assert(swapped.slot_pos(swapped.pos_slot(p) as int) == p);
                assert(mid.slot_pos(swapped.pos_slot(p) as int)
                    == swapped.slot_pos(swapped.pos_slot(p) as int));
            }
            assert forall|s: int| 0 <= s < mid.data@.len()
                implies 1 <= #[trigger] mid.slot_pos(s) < mid.heap@.len()
                    && mid.pos_slot(mid.slot_pos(s) as int) == s by {
                assert(mid.slot_pos(s) == swapped.slot_pos(s));
                assert(1 <= swapped.slot_pos(s) < swapped.heap@.len());
                assert(swapped.pos_slot(swapped.slot_pos(s) as int) == s);
            }
            assert forall|s: int| 0 <= s < mid.data@.len()
                implies (#[trigger] mid.slot_value(s) is Some
                    <==> mid.slot_pos(s) <= mid.heap_len) by {
                assert(mid.slot_pos(s) == swapped.slot_pos(s));
                assert(swapped.slot_value(s) is Some
                    <==> swapped.slot_pos(s) <= swapped.heap_len);
                if s != data_index {
                    assert(mid.slot_value(s) == swapped.slot_value(s));
                    if swapped.slot_pos(s) == last_index {
                        assert(swapped.pos_slot(swapped.slot_pos(s) as int) == s);
                        assert(false);
                    }
                }
            }
            // away from the root, every parent link was in order before the
            // removal and no involved position was touched
            assert forall|p: int| 2 <= p <= mid.heap_len && p / 2 != 1
                implies mid.pos_value(p / 2) <= #[trigger] mid.pos_value(p) by {
                assert(mid.pos_slot(p) == swapped.pos_slot(p));
                assert(mid.pos_slot(p / 2) == swapped.pos_slot(p / 2));
                assert(swapped.pos_slot(p) != data_index) by {
                    if swapped.pos_slot(p) == data_index {
                        assert(swapped.slot_pos(data_index as int) == p);
                    }
                }
                assert(swapped.pos_slot(p / 2) != data_index) by {
                    if swapped.pos_slot(p / 2) == data_index {
                        assert(swapped.slot_pos(data_index as int) == p / 2);
                    }
                }
                assert(mid.slot_value(swapped.pos_slot(p) as int)
                    == swapped.slot_value(swapped.pos_slot(p) as int));
                assert(mid.slot_value(swapped.pos_slot(p / 2) as int)
                    == swapped.slot_value(swapped.pos_slot(p / 2) as int));
                assert(swapped.pos_value(p) == old(self).pos_value(p));
                assert(swapped.pos_value(p / 2) == old(self).pos_value(p / 2));
                assert(old(self).pos_value(p / 2) <= old(self).pos_value(p));
            }
        }

        let ghost removed = *self;
        if self.heap_len > 0 {
            self.heapify(1);
        } else {
            proof {
                assert forall|p: int| 2 <= p <= self.heap_len
                    implies self.pos_value(p / 2) <= #[trigger] self.pos_value(p) by {
                }
            }
        }
        proof {
            let s0 = old(self).pos_slot(index as int);
            assert forall|s: int| 0 <= s < old(self).spec_slots() && s != s0
                implies #[trigger] final(self).slot_value(s) == old(self).slot_value(s)
                    && final(self).slot_unique(s) == old(self).slot_unique(s) by {
                assert(self.slot_unique(s) == removed.slot_unique(s));
                assert(self.slot_value(s) == removed.slot_value(s));
                assert(removed.slot_value(s) == swapped.slot_value(s));
                assert(removed.slot_unique(s) == swapped.slot_unique(s));
                assert(swapped.slot_unique(s) == old(self).slot_unique(s));
                assert(swapped.slot_value(s) == old(self).slot_value(s));
            }
            assert(self.slot_unique(s0 as int) == removed.slot_unique(s0 as int));
            assert(self.slot_value(s0 as int) == removed.slot_value(s0 as int));
            assert(swapped.slot_unique(s0 as int) == old(self).slot_unique(s0 as int));
        }
        taken
    }

    /// Remove and return the smallest value on the heap, or `None` when
    /// the heap is empty.
    pub fn pop(&mut self) -> (r: Option<i64>)
        requires
            old(self).wf(),
        ensures
            final(self).wf(),
            final(self).spec_slots() == old(self).spec_slots(),
            r is Some <==> old(self).spec_len() > 0,
            r is None ==> *final(self) == *old(self),
            r matches Some(v) ==> {
                &&& final(self).spec_len() == old(self).spec_len() - 1
                &&& Some(v) == old(self).slot_value(old(self).pos_slot(1) as int)
                &&& forall|p: int| 1 <= p <= old(self).spec_len()
                        ==> v <= #[trigger] old(self).pos_value(p)
                &&& forall|s: int| 0 <= s < old(self).spec_slots()
                        ==> (#[trigger] old(self).slot_value(s) matches Some(w) ==> v <= w)
                &&& final(self).slot_value(old(self).pos_slot(1) as int) is None
                &&& final(self).slot_unique(old(self).pos_slot(1) as int)
                        == old(self).slot_unique(old(self).pos_slot(1) as int)
                            .wrapping_add(1)
                &&& forall|s: int| 0 <= s < old(self).spec_slots()
                        && s != old(self).pos_slot(1)
                        ==> #[trigger] final(self).slot_value(s) == old(self).slot_value(s)
                            && final(self).slot_unique(s) == old(self).slot_unique(s)
            },
    {
        if self.heap_len == 0 {
            return None;
        }
        proof {
            assert forall|p: int| 1 <= p <= old(self).spec_len()
                implies old(self).pos_value(1) <= #[trigger] old(self).pos_value(p) by {
                lemma_root_below(old(self), p);
            }
            assert forall|s: int| 0 <= s < old(self).spec_slots()
                implies (#[trigger] old(self).slot_value(s) matches Some(w)
                    ==> old(self).pos_value(1) <= w) by {
                if old(self).slot_value(s) is Some {
                    let p = old(self).slot_pos(s) as int;
                    assert(old(self).pos_slot(p) == s);
                    assert(old(self).pos_value(p)
                        == old(self).slot_value(s).unwrap());
                    lemma_root_below(old(self), p);
                }
            }
        }
        Some(self.heap_remove(1))
    }
}

/// One `heapify` step: after the node at `x` is swapped with its smaller
/// child `b` (or left alone when already in order), the only parent links
/// possibly out of order are those below `b`, and `b`'s parent sits below
/// `b`'s children.
#[verifier::rlimit(100)]
proof fn lemma_heapify_step(prev: BinaryHeap, cur: BinaryHeap, x: int, b: int, swapped: bool)
    requires
        prev.shape(),
        cur.shape(),
        prev.ordered_except_down(x),
        prev.parent_below_grandchildren(x),
        1 <= x,
        b == 2 * x || b == 2 * x + 1,
        b <= prev.heap_len,
        cur.heap_len == prev.heap_len,
        b == 2 * x + 1 ==> prev.pos_value(b) <= prev.pos_value(2 * x),
        2 * x + 1 <= prev.heap_len ==> prev.pos_value(b) <= prev.pos_value(2 * x + 1),
        swapped ==> {
            &&& prev.pos_value(b) < prev.pos_value(x)
            &&& cur.pos_value(x) == prev.pos_value(b)
            &&& cur.pos_value(b) == prev.pos_value(x)
            &&& forall|r: int| 1 <= r <= prev.heap_len && r != x && r != b
                    ==> #[trigger] cur.pos_value(r) == prev.pos_value(r)
        },
        !swapped ==> {
            &&& prev.pos_value(x) <= prev.pos_value(b)
            &&& forall|r: int| 1 <= r <= prev.heap_len
                    ==> #[trigger] cur.pos_value(r) == prev.pos_value(r)
        },
    ensures
        cur.ordered_except_down(b),
        cur.parent_below_grandchildren(b),
{
    assert forall|p: int| 2 <= p <= cur.heap_len && p / 2 != b
        implies cur.pos_value(p / 2) <= #[trigger] cur.pos_value(p) by {
        if swapped {
            if p == x {
                assert(x < b && x <= prev.heap_len);
                assert(1 <= x / 2 <= prev.heap_len && x / 2 != x && x / 2 != b);
                assert(cur.pos_value(x) == prev.pos_value(b));
                assert(cur.pos_value(x / 2) == prev.pos_value(x / 2));
                assert(prev.pos_value(x / 2) <= prev.pos_value(b));
            } else if p == b {
                // the swapped pair itself is now in order
                assert(cur.pos_value(b) == prev.pos_value(x));
                assert(cur.pos_value(x) == prev.pos_value(b));
            } else if p / 2 == x {
                // the sibling sits above the smaller child that moved up
                assert(cur.pos_value(p) == prev.pos_value(p));
                assert(prev.pos_value(b) <= prev.pos_value(p));
            } else {
                assert(cur.pos_value(p) == prev.pos_value(p));
                assert(cur.pos_value(p / 2) == prev.pos_value(p / 2));
                assert(prev.pos_value(p / 2) <= prev.pos_value(p));
            }
        } else {
            assert(cur.pos_value(p) == prev.pos_value(p));
            assert(cur.pos_value(p / 2) == prev.pos_value(p / 2));
            if p / 2 == x {
                if p == b {
                    assert(prev.pos_value(x) <= prev.pos_value(b));
                } else {
                    assert(prev.pos_value(b) <= prev.pos_value(p));
                    assert(prev.pos_value(x) <= prev.pos_value(b));
                }
            } else {
                assert(prev.pos_value(p / 2) <= prev.pos_value(p));
            }
        }
    }
    assert forall|c: int| (c == 2 * b || c == 2 * b + 1) && c <= cur.heap_len
        implies cur.pos_value(b / 2) <= #[trigger] cur.pos_value(c) by {
        assert(cur.pos_value(c) == prev.pos_value(c));
        assert(c / 2 == b);
        assert(prev.pos_value(c / 2) <= prev.pos_value(c));
        if swapped {
            assert(cur.pos_value(x) == prev.pos_value(b));
        } else {
            assert(cur.pos_value(x) == prev.pos_value(x));
        }
    }
}

/// Handles and the heap array are inverse views of one another: a valid
/// handle's slot sits at a live position that maps back to the slot, so a
/// caller can connect what `push` stored with what `pop` measures.
pub proof fn lemma_handle_position(h: &BinaryHeap, handle: Handle)
    requires
        h.wf(),
        h.valid_handle(handle),
    ensures
        1 <= h.slot_pos(handle.index as int) <= h.spec_len(),
        h.pos_slot(h.slot_pos(handle.index as int) as int) == handle.index,
        h.slot_value(handle.index as int) is Some,
{
}

/// Every live heap position holds an occupied storage slot that maps back
/// to that position.
pub proof fn lemma_position_slot(h: &BinaryHeap, p: int)
    requires
        h.wf(),
        1 <= p <= h.spec_len(),
    ensures
        h.pos_slot(p) < h.spec_slots(),
        h.slot_pos(h.pos_slot(p) as int) == p,
        h.slot_value(h.pos_slot(p) as int) is Some,
        h.pos_value(p) == h.slot_value(h.pos_slot(p) as int).unwrap(),
{
}

/// In an ordered heap the root is at most the node at any live position.
proof fn lemma_root_below(h: &BinaryHeap, p: int)
    requires
        h.shape(),
        h.ordered(),
        1 <= p <= h.spec_len(),
    ensures
        h.pos_value(1) <= h.pos_value(p),
    decreases p,
{
    if p >= 2 {
        lemma_root_below(h, p / 2);
    }
}

} // verus!
