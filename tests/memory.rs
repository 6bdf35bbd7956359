use os_core::frame_allocator::FirstFitAllocator;
use os_core::segment_tree::SegmentTreeAllocator;
use os_core::memory::{access_pa_via_va, init_allocator, PHYSICAL_MEMORY_OFFSET};

#[test]
fn alloc_exhausts_then_recovers_after_dealloc() {
    let mut a = FirstFitAllocator::new();
    a.init(10, 20);
    let mut got = Vec::new();
    for _ in 0..10 {
        let f = a.alloc_frame().expect("frame available");
        assert!((10..20).contains(&f));
        assert!(!got.contains(&f));
        got.push(f);
    }
    assert_eq!(a.alloc_frame(), None);
    a.dealloc_frame(got[3]);
    assert_eq!(a.alloc_frame(), Some(got[3]));
    assert_eq!(a.alloc_frame(), None);
}

#[test]
fn alloc_hands_out_frames_in_first_fit_order() {
    let mut a = init_allocator(10, 20);
    for f in 10..20usize {
        assert_eq!(a.alloc_frame(), Some(f));
    }
}

#[test]
fn alloc_resumes_after_last_allocation_and_wraps() {
    let mut a = init_allocator(0, 4);
    assert_eq!(a.alloc_frame(), Some(0));
    assert_eq!(a.alloc_frame(), Some(1));
    a.dealloc_frame(0);
    assert_eq!(a.alloc_frame(), Some(2));
    assert_eq!(a.alloc_frame(), Some(3));
    assert_eq!(a.alloc_frame(), Some(0));
    assert_eq!(a.alloc_frame(), None);
}

#[test]
fn alloc_on_empty_range_is_none() {
    let mut a = FirstFitAllocator::new();
    assert_eq!(a.alloc_frame(), None);
    let mut b = init_allocator(5, 5);
    assert_eq!(b.alloc_frame(), None);
}

#[test]
fn alloc_frames_takes_lowest_free_run() {
    let mut a = init_allocator(100, 108);
    assert_eq!(a.alloc_frames(3), Some(100));
    assert_eq!(a.alloc_frames(3), Some(103));
    assert_eq!(a.alloc_frames(3), None);
    assert_eq!(a.alloc_frames(2), Some(106));
    a.dealloc_frames(100, 3);
    assert_eq!(a.alloc_frames(2), Some(100));
    assert_eq!(a.alloc_frames(2), None);
    assert_eq!(a.alloc_frame(), Some(102));
}

#[test]
fn alloc_frames_skips_fragmented_gaps() {
    let mut a = init_allocator(0, 6);
    assert_eq!(a.alloc_frame(), Some(0));
    assert_eq!(a.alloc_frame(), Some(1));
    assert_eq!(a.alloc_frame(), Some(2));
    a.dealloc_frame(1);
    assert_eq!(a.alloc_frames(2), Some(3));
    assert_eq!(a.alloc_frames(9), None);
}

#[test]
fn physical_addresses_map_into_the_kernel_window() {
    assert_eq!(PHYSICAL_MEMORY_OFFSET, 0xffff_ffff_4000_0000);
    assert_eq!(access_pa_via_va(0x8020_0000), 0xffff_ffff_c020_0000);
    assert_eq!(access_pa_via_va(0), PHYSICAL_MEMORY_OFFSET);
}

#[test]
fn segment_tree_exhausts_then_recovers_after_dealloc() {
    let mut a = SegmentTreeAllocator::new();
    a.init(10, 20);
    let mut got = Vec::new();
    for _ in 0..10 {
        let f = a.alloc_frame().expect("frame available");
        assert!((10..20).contains(&f));
        assert!(!got.contains(&f));
        assert!(a.in_use(f));
        got.push(f);
    }
    assert_eq!(a.alloc_frame(), None);
    a.dealloc_frame(got[6]);
    assert!(!a.in_use(got[6]));
    assert_eq!(a.alloc_frame(), Some(got[6]));
    assert_eq!(a.alloc_frame(), None);
}

#[test]
fn segment_tree_takes_lowest_free_frame() {
    let mut a = SegmentTreeAllocator::new();
    a.init(0, 5);
    assert_eq!(a.alloc_frame(), Some(0));
    assert_eq!(a.alloc_frame(), Some(1));
    assert_eq!(a.alloc_frame(), Some(2));
    a.dealloc_frame(1);
    assert_eq!(a.alloc_frame(), Some(1));
    assert_eq!(a.alloc_frame(), Some(3));
    assert_eq!(a.alloc_frame(), Some(4));
    assert_eq!(a.alloc_frame(), None);
    assert!(!a.in_use(5));
}

#[test]
fn segment_tree_without_frames_is_empty() {
    let mut a = SegmentTreeAllocator::new();
    assert_eq!(a.alloc_frame(), None);
    a.init(7, 7);
    assert_eq!(a.alloc_frame(), None);
}
