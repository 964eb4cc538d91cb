use custom_allocator::get_align;
use custom_allocator::get_block_head;
use custom_allocator::Allocator;

const HEAP: usize = 1 << 20;
const MAPS: usize = 1 << 20;

#[test]
fn test_align_values() {
    assert_eq!(get_align(0), 0);
    assert_eq!(get_align(1), 8);
    assert_eq!(get_align(7), 8);
    assert_eq!(get_align(8), 8);
    assert_eq!(get_align(13), 16);
    assert_eq!(get_align(512), 512);
    assert_eq!(get_align(513), 520);
}

#[test]
fn test_small_malloc_header() {
    let mut a = Allocator::new(HEAP, MAPS);
    let p = a.malloc(10);
    assert_ne!(p, 0);
    let header = get_block_head(p);
    assert_eq!(a.mem.load_word(header), 16);
    assert_eq!(a.mem.load_word(header + 8), 0);
}

#[test]
fn test_small_malloc_exact_class_sizes() {
    let mut a = Allocator::new(HEAP, MAPS);
    let p8 = a.malloc(8);
    let p16 = a.malloc(16);
    let p512 = a.malloc(512);
    assert_ne!(p8, 0);
    assert_ne!(p16, 0);
    assert_ne!(p512, 0);
    assert_eq!(a.mem.load_word(get_block_head(p8)), 8);
    assert_eq!(a.mem.load_word(get_block_head(p16)), 16);
    assert_eq!(a.mem.load_word(get_block_head(p512)), 512);
}

#[test]
fn test_large_malloc_header() {
    let mut a = Allocator::new(HEAP, MAPS);
    let p = a.malloc(600);
    assert_ne!(p, 0);
    let header = get_block_head(p);
    assert_eq!(a.mem.load_word(header), 624);
    assert_eq!(a.mem.load_word(header + 8), 1);
}

#[test]
fn test_free_list_reuse() {
    let mut a = Allocator::new(HEAP, MAPS);
    let p = a.malloc(16);
    assert_ne!(p, 0);
    a.free(p);
    let q = a.malloc(16);
    assert_eq!(q, p);
}

#[test]
fn test_free_list_reuse_is_lifo() {
    let mut a = Allocator::new(HEAP, MAPS);
    let p1 = a.malloc(8);
    let p2 = a.malloc(8);
    assert_ne!(p1, 0);
    assert_ne!(p2, 0);
    a.free(p1);
    a.free(p2);
    let q1 = a.malloc(8);
    let q2 = a.malloc(8);
    assert_eq!(q1, p2);
    assert_eq!(q2, p1);
}

#[test]
fn test_malloc_zero_returns_null() {
    let mut a = Allocator::new(HEAP, MAPS);
    assert_eq!(a.malloc(0), 0);
}

#[test]
fn test_free_null_is_noop() {
    let mut a = Allocator::new(HEAP, MAPS);
    a.free(0);
    let p = a.malloc(8);
    assert_ne!(p, 0);
    a.free(0);
    a.free(p);
    let q = a.malloc(8);
    assert_eq!(q, p);
}

#[test]
fn test_store_load_roundtrip() {
    let mut a = Allocator::new(HEAP, MAPS);
    let p = a.malloc(32);
    assert_ne!(p, 0);
    for i in 0..32 {
        a.store(p, i, (i as u8) * 3);
    }
    for i in 0..32 {
        assert_eq!(a.load(p, i), (i as u8) * 3);
    }
}

#[test]
fn test_realloc_growth_keeps_prefix() {
    let mut a = Allocator::new(HEAP, MAPS);
    let p = a.malloc(8);
    assert_ne!(p, 0);
    for i in 0..8 {
        a.store(p, i, 10 + i as u8);
    }
    let q = a.realloc(p, 64);
    assert_ne!(q, 0);
    for i in 0..8 {
        assert_eq!(a.load(q, i), 10 + i as u8);
    }
    assert_eq!(a.mem.load_word(get_block_head(q)), 64);
    assert_eq!(a.mem.load_word(get_block_head(q) + 8), 0);
}

#[test]
fn test_realloc_shrink_keeps_prefix() {
    let mut a = Allocator::new(HEAP, MAPS);
    let p = a.malloc(64);
    assert_ne!(p, 0);
    for i in 0..64 {
        a.store(p, i, i as u8);
    }
    let q = a.realloc(p, 8);
    assert_ne!(q, 0);
    for i in 0..8 {
        assert_eq!(a.load(q, i), i as u8);
    }
    assert_eq!(a.mem.load_word(get_block_head(q)), 8);
}

#[test]
fn test_realloc_null_behaves_as_malloc() {
    let mut a = Allocator::new(HEAP, MAPS);
    let p = a.realloc(0, 16);
    assert_ne!(p, 0);
    assert_eq!(a.mem.load_word(get_block_head(p)), 16);
    assert_eq!(a.mem.load_word(get_block_head(p) + 8), 0);
}

#[test]
fn test_realloc_null_unaligned_large_maps_exact_size() {
    let mut a = Allocator::new(HEAP, MAPS);
    let p = a.realloc(0, 515);
    assert_ne!(p, 0);
    assert_eq!(a.mem.load_word(get_block_head(p)), 539);
    assert_eq!(a.mem.load_word(get_block_head(p) + 8), 1);
}

#[test]
fn test_realloc_across_mapping_boundary() {
    let mut a = Allocator::new(HEAP, MAPS);
    let p = a.malloc(500);
    assert_ne!(p, 0);
    for i in 0..500 {
        a.store(p, i, (i % 251) as u8);
    }
    let q = a.realloc(p, 600);
    assert_ne!(q, 0);
    assert_eq!(a.mem.load_word(get_block_head(q) + 8), 1);
    for i in 0..500 {
        assert_eq!(a.load(q, i), (i % 251) as u8);
    }
}

#[test]
fn test_calloc_zero_fill() {
    let mut a = Allocator::new(HEAP, MAPS);
    let p = a.calloc(5, 10);
    assert_ne!(p, 0);
    for i in 0..50 {
        assert_eq!(a.load(p, i), 0);
    }
    assert_eq!(a.mem.load_word(get_block_head(p)), 56);
    assert_eq!(a.mem.load_word(get_block_head(p) + 8), 0);
}

#[test]
fn test_calloc_result_can_be_freed_and_reused() {
    let mut a = Allocator::new(HEAP, MAPS);
    let p = a.calloc(5, 10);
    assert_ne!(p, 0);
    a.free(p);
    let q = a.malloc(56);
    assert_eq!(q, p);
}

#[test]
fn test_calloc_zero_count_or_size() {
    let mut a = Allocator::new(HEAP, MAPS);
    assert_eq!(a.calloc(0, 10), 0);
    assert_eq!(a.calloc(10, 0), 0);
}

#[test]
fn test_calloc_overflow_returns_null() {
    let mut a = Allocator::new(HEAP, MAPS);
    assert_eq!(a.calloc(usize::MAX, 2), 0);
}

#[test]
fn test_end_to_end_scenario() {
    let mut a = Allocator::new(HEAP, MAPS);
    let p1 = a.malloc(10);
    let p2 = a.calloc(5, 10);
    let p3 = a.realloc(p1, 20);
    assert_ne!(p1, 0);
    assert_ne!(p2, 0);
    assert_ne!(p3, 0);
    assert_ne!(p1, p2);
    assert_ne!(p1, p3);
    assert_ne!(p2, p3);
    // p1 was consumed by the realloc and must not be freed again.
    a.free(p2);
    a.free(p3);
}

#[test]
fn test_malloc_fails_when_bootstrap_refused() {
    let mut a = Allocator::new(0, 0);
    assert_eq!(a.malloc(8), 0);
}

#[test]
fn test_large_malloc_fails_without_mapping_room() {
    let mut a = Allocator::new(1 << 18, 0);
    assert_eq!(a.malloc(600), 0);
    let p = a.malloc(8);
    assert_ne!(p, 0);
}

#[test]
fn test_mapped_block_lifecycle() {
    let mut a = Allocator::new(HEAP, MAPS);
    let p = a.malloc(1000);
    assert_ne!(p, 0);
    for i in 0..1000 {
        assert_eq!(a.load(p, i), 0);
    }
    a.store(p, 999, 7);
    assert_eq!(a.load(p, 999), 7);
    a.free(p);
    let q = a.malloc(1000);
    assert_ne!(q, 0);
    assert_ne!(q, p);
    a.free(q);
}
