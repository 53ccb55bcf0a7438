use genmem::mem::page;

#[test]
fn page_rounding() {
    assert_eq!(page::get_page_aligned_size(0), 0);
    assert_eq!(page::get_page_aligned_size(1), 4096);
    assert_eq!(page::get_page_aligned_size(4096), 4096);
    assert_eq!(page::get_page_aligned_size(4097), 8192);
    assert_eq!(page::get_page_aligned_size(130000), 131072);
    assert_eq!(page::page_size(), 4096);
}

#[test]
fn mapped_chunks_are_zeroed() {
    let size = page::get_page_aligned_size(1);
    let mut result = page::alloc_page_aligned(size);
    assert!(!result.is_null());
    assert_eq!(result.len(), 4096);
    for k in 0..4096 {
        assert_eq!(result.read_byte(k), 0);
    }
    result.write_byte(17, 42);
    assert_eq!(result.read_byte(17), 42);
    page::free_page_aligned(result);

    let null = genmem::mem::page::MapAlloc::null();
    assert!(null.is_null());
    assert_eq!(null.len(), 0);
}
