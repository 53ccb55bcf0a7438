use vstd::prelude::*;

verus! {

/// Granularity of the chunk mappings handed out by [`alloc_page_aligned`].
pub const PAGE_SIZE: usize = 4096;

/// One mapped chunk of memory: a run of zero-initialized bytes, or the null
/// sentinel when its size is zero.
///
/// This models the process's page-mapping primitive, whose whole contract is
/// to return zeroed memory of at least the requested size or a zero-size
/// sentinel on failure; the bytes are owned here so their contents can be
/// reasoned about.
pub struct MapAlloc {
    bytes: Vec<u8>,
}

impl MapAlloc {
    /// The bytes of the mapping.
    pub closed spec fn view(&self) -> Seq<u8> {
        self.bytes@
    }

    /// The zero-size sentinel standing for "no mapping".
    pub fn null() -> (r: MapAlloc)
        ensures
            r@.len() == 0,
    {
        MapAlloc { bytes: Vec::new() }
    }

    /// Whether this is the zero-size sentinel.
    pub fn is_null(&self) -> (r: bool)
        ensures
            r <==> self@.len() == 0,
    {
        self.bytes.len() == 0
    }

    /// Size of the mapping in bytes.
    pub fn len(&self) -> (r: usize)
        ensures
            r == self@.len(),
    {
        self.bytes.len()
    }

    /// Read the byte at `offset`.
    pub fn read_byte(&self, offset: usize) -> (r: u8)
        requires
            offset < self@.len(),
        ensures
            r == self@[offset as int],
    {
        self.bytes[offset]
    }

    /// Write the byte at `offset`.
    pub fn write_byte(&mut self, offset: usize, value: u8)
        requires
            offset < old(self)@.len(),
        ensures
            final(self)@ == old(self)@.update(offset as int, value),
    {
        self.bytes.set(offset, value);
    }
}

/// Return the mapping granularity.
pub fn page_size() -> (r: usize)
    ensures
        r == PAGE_SIZE,
{
    PAGE_SIZE
}

/// The least multiple of [`PAGE_SIZE`] that holds `size` bytes.
pub open spec fn spec_page_aligned_size(size: int) -> int {
    if size % (PAGE_SIZE as int) == 0 {
        size
    } else {
        size - size % (PAGE_SIZE as int) + PAGE_SIZE
    }
}

/// Round `size` up to the mapping granularity.
pub fn get_page_aligned_size(size: usize) -> (r: usize)
    requires
        size <= usize::MAX - PAGE_SIZE,
    ensures
        r == spec_page_aligned_size(size as int),
        r >= size,
        r % PAGE_SIZE == 0,
        size > 0 ==> r < size + PAGE_SIZE,
{
    if size % PAGE_SIZE == 0 {
        size
    } else {
        size - size % PAGE_SIZE + PAGE_SIZE
    }
}

/// Map a fresh chunk of `alloc_size` zeroed bytes.
///
/// Failure of the underlying allocation aborts the process, so the result
/// is never the null sentinel here; callers that keep a defensive null
/// check lose nothing.
pub fn alloc_page_aligned(alloc_size: usize) -> (r: MapAlloc)
    ensures
        r@.len() == alloc_size,
        forall|i: int| 0 <= i < alloc_size ==> r@[i] == 0u8,
{
    MapAlloc { bytes: vec![0u8; alloc_size] }
}

/// Return a chunk to the system, consuming it.
pub fn free_page_aligned(mapping: MapAlloc)
{
    let _ = mapping;
}

} // verus!
