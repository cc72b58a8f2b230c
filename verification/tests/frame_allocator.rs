use x64::paging::page_structs::mem::{MemTracer, SIZE};
use x64::palloc::{
    AllocError, KernelPhysicalMemoryAllocator, PageSource, PhysicalPageAllocator,
    SplitPhysicalAllocator, MAX_FRAMES,
};

fn allocator(total: u64, blocks: u64) -> KernelPhysicalMemoryAllocator {
    KernelPhysicalMemoryAllocator::new(total, PageSource::new(0x4000_0000, blocks))
}

#[test]
fn three_allocations_from_a_fresh_block_are_frames_0_1_2() {
    let mut a = allocator(64, 1);
    assert_eq!(a.allocate(), Some(0));
    assert_eq!(a.allocate(), Some(4096));
    assert_eq!(a.allocate(), Some(8192));
    assert!(a.is_frame_used(0));
    assert!(a.is_frame_used(4096));
    assert!(a.is_frame_used(8192));
    assert!(!a.is_frame_used(3 * 4096));
}

#[test]
fn full_chain_returns_none_and_keeps_its_state() {
    let mut a = allocator(64, 1);
    for f in 0..64u64 {
        assert_eq!(a.mark_as_used(f * 4096), Ok(()));
    }
    assert_eq!(a.allocate(), None);
    assert_eq!(a.allocate(), None);
    for f in 0..64u64 {
        assert!(a.is_frame_used(f * 4096));
    }
    assert!(!a.is_frame_used(64 * 4096));
    a.deallocate(17 * 4096);
    assert_eq!(a.allocate(), Some(17 * 4096));
    assert_eq!(a.allocate(), None);
}

#[test]
fn allocate_then_deallocate_restores_the_bitmap() {
    let mut a = allocator(200, 1);
    assert_eq!(a.mark_as_used(0), Ok(()));
    assert_eq!(a.mark_as_used(2 * 4096), Ok(()));
    let before: Vec<bool> = (0..200u64).map(|f| a.is_frame_used(f * 4096)).collect();
    let frame = a.allocate().unwrap();
    assert_eq!(frame, 4096);
    a.deallocate(frame);
    let after: Vec<bool> = (0..200u64).map(|f| a.is_frame_used(f * 4096)).collect();
    assert_eq!(before, after);
}

#[test]
fn sequential_allocations_never_repeat_a_frame() {
    let mut a = allocator(300, 1);
    let mut seen: Vec<u64> = Vec::new();
    for _ in 0..300 {
        let f = a.allocate().unwrap();
        assert!(!seen.contains(&f));
        seen.push(f);
    }
    assert_eq!(a.allocate(), None);
    a.deallocate(seen[5]);
    assert_eq!(a.allocate(), Some(seen[5]));
}

#[test]
fn allocation_takes_the_lowest_free_frame() {
    let mut a = allocator(1000, 1);
    for _ in 0..10 {
        a.allocate().unwrap();
    }
    a.deallocate(7 * 4096);
    a.deallocate(3 * 4096);
    assert_eq!(a.allocate(), Some(3 * 4096));
    assert_eq!(a.allocate(), Some(7 * 4096));
    assert_eq!(a.allocate(), Some(10 * 4096));
}

#[test]
fn chain_grows_by_one_block_at_a_time() {
    let mut a = allocator(3 * SIZE, 3);
    assert_eq!(a.get_block_addr(0), None);
    assert_eq!(a.mark_as_used((2 * SIZE + 5) * 4096), Ok(()));
    assert_eq!(a.get_block_addr(0), Some(0x4000_0000));
    assert_eq!(a.get_block_addr(2), Some(0x4000_2000));
    assert_eq!(a.get_block_addr(3), None);
    assert!(a.is_frame_used((2 * SIZE + 5) * 4096));
    assert!(!a.is_frame_used((2 * SIZE + 4) * 4096));
    assert_eq!(a.allocate(), Some(0));
}

#[test]
fn allocation_crosses_into_a_new_block() {
    let mut a = allocator(SIZE + 10, 2);
    for f in 0..SIZE {
        assert_eq!(a.allocate(), Some(f * 4096));
    }
    assert_eq!(a.allocate(), Some(SIZE * 4096));
}

#[test]
fn no_growth_without_a_page_source() {
    let mut a = KernelPhysicalMemoryAllocator::new(100, PageSource::empty());
    assert_eq!(a.allocate(), None);
    assert_eq!(a.mark_as_used(0), Err(AllocError::OutOfPhysicalMemory));
    let mut b = allocator(SIZE + 10, 1);
    for f in 0..SIZE {
        assert_eq!(b.allocate(), Some(f * 4096));
    }
    assert_eq!(b.allocate(), None);
    assert_eq!(b.mark_as_used(SIZE * 4096), Err(AllocError::OutOfPhysicalMemory));
}

#[test]
fn frames_past_the_end_of_memory_are_rejected() {
    let mut a = allocator(64, 4);
    assert_eq!(a.mark_as_used(64 * 4096), Err(AllocError::AddressOutOfRange));
    assert_eq!(a.mark_as_used(63 * 4096), Ok(()));
    assert_eq!(a.free_page(64 * 4096), Err(AllocError::AddressOutOfRange));
    assert_eq!(a.free_page(4097), Err(AllocError::AddressOutOfRange));
    assert!(a.check_free_page(63));
    assert!(!a.check_free_page(64));
    assert_eq!(a.total_frames(), 64);
}

#[test]
fn double_free_is_reported_and_changes_nothing() {
    let mut a = allocator(64, 1);
    let f = a.allocate().unwrap();
    assert_eq!(a.free_page(f), Ok(()));
    assert_eq!(a.free_page(f), Err(AllocError::DoubleFree));
    assert_eq!(a.free_page(5 * 4096), Err(AllocError::DoubleFree));
    assert!(!a.is_frame_used(f));
    a.deallocate(f);
    assert_eq!(a.allocate(), Some(f));
}

#[test]
fn mark_as_used_rounds_an_address_down_to_its_frame() {
    let mut a = allocator(64, 1);
    assert_eq!(a.mark_as_used(4096 + 123), Ok(()));
    assert!(a.is_frame_used(4096));
    assert_eq!(a.allocate(), Some(0));
    assert_eq!(a.allocate(), Some(8192));
}

#[test]
fn memory_is_cut_down_to_what_addresses_reach() {
    let a = KernelPhysicalMemoryAllocator::new(u64::MAX, PageSource::empty());
    assert_eq!(a.total_frames(), MAX_FRAMES);
}

#[test]
fn word_allocates_lowest_bit_first() {
    let mut w = SplitPhysicalAllocator::new();
    assert!(!w.is_full());
    assert_eq!(w.get_first_free_page(), Some(0));
    assert_eq!(w.alloc_page(), Some(0));
    assert_eq!(w.alloc_page(), Some(1));
    assert_eq!(w.alloc_page(), Some(2));
    w.dealloc(1);
    assert!(!w.is_used(1));
    assert!(w.is_used(0));
    assert_eq!(w.get_first_free_page(), Some(1));
    assert_eq!(w.alloc_page(), Some(1));
    w.mark(63);
    assert!(w.is_used(63));
    for i in 3..63u8 {
        assert_eq!(w.alloc_page(), Some(i));
    }
    assert!(w.is_full());
    assert_eq!(w.alloc_page(), None);
    assert_eq!(w.get_first_free_page(), None);
}

#[test]
fn word_alloc_then_dealloc_is_identity() {
    let mut w = SplitPhysicalAllocator::new();
    w.mark(0);
    w.mark(2);
    let before = w;
    let i = w.alloc_page().unwrap();
    assert_eq!(i, 1);
    w.dealloc(i);
    assert_eq!(w, before);
}

#[test]
fn block_tracks_its_frames() {
    let mut b = MemTracer::new(0x5000);
    assert_eq!(b.get_addr(), 0x5000);
    assert_eq!(b.first_free(), Some(0));
    assert_eq!(b.find_free_page(SIZE), Some(0));
    assert_eq!(b.find_free_page(SIZE), Some(1));
    assert_eq!(b.find_free_page(2), None);
    assert!(!b.is_used(2));
    assert_eq!(b.mark_as_used(70), Some(()));
    assert_eq!(b.mark_as_used(SIZE), None);
    assert!(b.is_used(70));
    assert!(!b.is_used(69));
    assert!(!b.is_used(SIZE));
    assert!(b.free_page(70));
    assert!(!b.free_page(70));
    assert!(!b.free_page(SIZE + 1));
    for f in 2..SIZE {
        assert_eq!(b.find_free_page(SIZE), Some(f));
    }
    assert_eq!(b.find_free_page(SIZE), None);
    assert_eq!(b.find_free_page(u64::MAX), None);
    assert_eq!(b.first_free(), None);
}

#[test]
fn page_source_hands_out_consecutive_pages() {
    let mut s = PageSource::new(0x10_0000, 4);
    assert_eq!(s.remaining(), 4);
    assert_eq!(s.allocate_contiguous_pages(0), None);
    assert_eq!(s.allocate_contiguous_pages(5), None);
    assert_eq!(s.allocate_contiguous_pages(1), Some(0x10_0000));
    assert_eq!(s.allocate_contiguous_pages(2), Some(0x10_1000));
    assert_eq!(s.remaining(), 1);
    assert_eq!(s.allocate_contiguous_pages(2), None);
    assert_eq!(s.allocate_contiguous_pages(1), Some(0x10_3000));
    assert_eq!(s.allocate_contiguous_pages(1), None);
    assert_eq!(PageSource::new(0x10_0001, 4).remaining(), 0);
    assert_eq!(PageSource::new(0x000f_ffff_ffff_f000, 2).remaining(), 0);
    assert_eq!(PageSource::new(0x000f_ffff_ffff_f000, 1).remaining(), 1);
    assert_eq!(PageSource::empty().remaining(), 0);
}
