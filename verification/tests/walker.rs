use x64::paging::page_structs::entry::{
    FrameError, PTEntry, PageTableFlags, HUGE_PAGE, NO_EXECUTE, PRESENT, WRITABLE,
};
use x64::paging::page_structs::table::PageTable;
use x64::paging::traits::{Level, Level1, Level2, Level3, Level4, Level5, LevelEnum};
use x64::paging::{get_page_walker, get_ptl4, PageWalker};
use x64::palloc::{KernelPhysicalMemoryAllocator, PageSource, PhysicalPageAllocator};

fn frames(total: u64) -> KernelPhysicalMemoryAllocator {
    KernelPhysicalMemoryAllocator::new(total, PageSource::new(0x4000_0000, 8))
}

fn used_count(a: &KernelPhysicalMemoryAllocator, upto: u64) -> usize {
    (0..upto).filter(|f| a.is_frame_used(f * 4096)).count()
}

#[test]
fn level_numbers_round_trip() {
    for l in 1..=5u8 {
        let level = LevelEnum::from_level(l).unwrap();
        assert_eq!(level.get_level(), l);
        assert_eq!(level.get_Level(), l);
    }
    assert_eq!(LevelEnum::from_level(0), None);
    assert_eq!(LevelEnum::from_level(6), None);
    assert_eq!(LevelEnum::default(), LevelEnum::Level1);
}

#[test]
fn next_lower_level_descends_to_the_leaf() {
    assert_eq!(LevelEnum::Level5.next_lower_level(), Some(LevelEnum::Level4));
    assert_eq!(LevelEnum::Level4.next_lower_level(), Some(LevelEnum::Level3));
    assert_eq!(LevelEnum::Level3.next_lower_level(), Some(LevelEnum::Level2));
    assert_eq!(LevelEnum::Level2.next_lower_level(), Some(LevelEnum::Level1));
    assert_eq!(LevelEnum::Level1.next_lower_level(), None);
    assert!(LevelEnum::Level1.is_leaf());
    assert!(!LevelEnum::Level2.is_leaf());
    assert!(LevelEnum::Level1 < LevelEnum::Level5);
}

#[test]
fn level_sizes_grow_by_512() {
    assert_eq!(LevelEnum::Level1.get_size(), 4096);
    assert_eq!(LevelEnum::Level2.get_size(), 2 * 1024 * 1024);
    assert_eq!(LevelEnum::Level3.get_size(), 1024 * 1024 * 1024);
    assert_eq!(LevelEnum::Level4.get_size(), 512 * 1024 * 1024 * 1024);
    assert_eq!(LevelEnum::Level5.get_size(), 256 * 1024 * 1024 * 1024 * 1024);
}

#[test]
fn marker_types_name_their_levels() {
    assert_eq!(<Level1 as Level>::get_level(), LevelEnum::Level1);
    assert_eq!(<Level2 as Level>::get_level(), LevelEnum::Level2);
    assert_eq!(<Level3 as Level>::get_level(), LevelEnum::Level3);
    assert_eq!(<Level4 as Level>::get_level(), LevelEnum::Level4);
    assert_eq!(<Level5 as Level>::get_level(), LevelEnum::Level5);
}

#[test]
fn indices_follow_the_shift_formula() {
    let a: u64 = 0x0000_7f12_3456_7abc;
    for l in 1..=5u8 {
        let level = LevelEnum::from_level(l).unwrap();
        let expected = ((a >> 12 >> ((l as u64 - 1) * 9)) & 0x1ff) as usize;
        assert_eq!(level.index_of(a), expected);
    }
    assert_eq!(LevelEnum::Level1.index_of(0x1ff000), 511);
    assert_eq!(LevelEnum::Level2.index_of(0x1ff000), 0);
    assert_eq!(LevelEnum::Level4.index_of(0xffff_ffff_ffff_ffff), 511);
}

#[test]
fn indices_recombine_to_the_page_base() {
    for a in [0u64, 0xfff, 0x1000, 0x0000_7f12_3456_7abc, 0x01ff_ffff_ffff_ffff] {
        let mut back = 0u64;
        for l in 1..=5u8 {
            let level = LevelEnum::from_level(l).unwrap();
            back |= (level.index_of(a) as u64) << (12 + 9 * (l as u64 - 1));
        }
        assert_eq!(back, a & !0xfff);
    }
}

#[test]
fn entry_holds_address_and_flags() {
    let mut e = PTEntry::new();
    assert!(e.is_unused());
    assert!(!e.is_present());
    assert_eq!(e.frame(), Err(FrameError::FrameNotPresent));
    let flags = PageTableFlags::from_bits_truncate(PRESENT | WRITABLE | NO_EXECUTE);
    e.set_addr(0x1234_5000, flags);
    assert_eq!(e.bits(), 0x8000_0000_1234_5003);
    assert_eq!(e.addr(), 0x1234_5000);
    assert_eq!(e.flags(), flags);
    assert_eq!(e.flags().bits(), PRESENT | WRITABLE | NO_EXECUTE);
    assert_eq!(e.frame(), Ok(0x1234_5000));
    assert!(e.flags().contains(PageTableFlags::from_bits_truncate(WRITABLE)));
    assert!(!e.flags().contains(PageTableFlags::from_bits_truncate(HUGE_PAGE)));
    e.set_flags(PageTableFlags::from_bits_truncate(PRESENT | HUGE_PAGE));
    assert_eq!(e.addr(), 0x1234_5000);
    assert_eq!(e.frame(), Err(FrameError::HugeFrame));
    e.set_frame(0x7000, PageTableFlags::from_bits_truncate(PRESENT));
    assert_eq!(e.bits(), 0x7001);
    assert!(e.is_valid());
    e.set_unused();
    assert!(e.is_unused());
    assert!(e.is_valid());
    assert!(!PTEntry::from_bits(0x7002).is_valid());
    assert_eq!(e, PTEntry::from_bits(0));
}

#[test]
fn flags_drop_address_bits() {
    let f = PageTableFlags::from_bits_truncate(0xffff_ffff_ffff_ffff);
    assert_eq!(f.bits(), 0xfff0_0000_0000_0fff);
    assert_eq!(PageTableFlags::empty().bits(), 0);
    let g = PageTableFlags::from_bits_truncate(PRESENT)
        .union(PageTableFlags::from_bits_truncate(WRITABLE));
    assert_eq!(g.bits(), 3);
}

#[test]
fn get_leaf_reports_the_failing_level() {
    let mut pw = get_page_walker(0x1000, false).unwrap();
    let mut a = frames(64);
    assert_eq!(pw.get_leaf(0x40_0000), Err(4));
    assert_eq!(pw.create_pt(0x40_0000, &mut a), Ok(()));
    assert_eq!(pw.get_leaf(0x40_0000), Err(3));
    assert_eq!(used_count(&a, 64), 1);
    let five = get_page_walker(0x1000, true).unwrap();
    assert_eq!(five.get_leaf(0), Err(5));
    assert!(get_page_walker(0, false).is_none());
    assert!(get_page_walker(0x1234, false).is_none());
}

#[test]
fn create_leaf_allocates_three_tables_in_descending_rank_order() {
    let mut pw = get_page_walker(0x10_0000, false).unwrap();
    let mut a = frames(64);
    let addr: u64 = 0x0000_0080_4020_1000;
    let leaf = pw.create_leaf(addr, &mut a).unwrap();
    assert!(leaf.is_unused());
    assert_eq!(used_count(&a, 64), 3);
    let l3 = pw.get_page(addr).unwrap();
    assert_eq!(l3.get_level(), LevelEnum::Level3);
    assert_eq!(l3.get_addr(), 0);
    let l2 = l3.get_page(addr).unwrap();
    assert_eq!(l2.get_level(), LevelEnum::Level2);
    assert_eq!(l2.get_addr(), 4096);
    let l1 = l2.get_page(addr).unwrap();
    assert_eq!(l1.get_level(), LevelEnum::Level1);
    assert_eq!(l1.get_addr(), 8192);
    assert!(l1.get_page(addr).is_err());
    let parent = pw.table().entry(LevelEnum::Level4.index_of(addr));
    assert_eq!(parent.bits(), PRESENT | WRITABLE);
    let e2 = l3.entry(LevelEnum::Level3.index_of(addr));
    assert_eq!(e2.bits(), 4096 | PRESENT | WRITABLE);
    assert_eq!(l1.get_free_pages_count(), 512);
    assert_eq!(pw.get_leaf(addr), Ok(PTEntry::new()));
}

#[test]
fn create_leaf_twice_allocates_nothing_more() {
    let mut pw = get_page_walker(0x10_0000, false).unwrap();
    let mut a = frames(64);
    let addr: u64 = 0x7000_0000;
    let sibling: u64 = 0x7000_1000;
    pw.create_leaf(addr, &mut a).unwrap();
    let mut entry = PTEntry::new();
    entry.set_addr(0x9000, PageTableFlags::from_bits_truncate(PRESENT | WRITABLE));
    assert_eq!(pw.set_leaf(addr, entry), Ok(()));
    let mut other = PTEntry::new();
    other.set_addr(0xa000, PageTableFlags::from_bits_truncate(PRESENT));
    assert_eq!(pw.set_leaf(sibling, other), Ok(()));
    let used = used_count(&a, 64);
    assert_eq!(pw.create_leaf(addr, &mut a), Ok(entry));
    assert_eq!(pw.set_leaf(addr, entry), Ok(()));
    assert_eq!(used_count(&a, 64), used);
    assert_eq!(pw.get_leaf(addr), Ok(entry));
    assert_eq!(pw.get_leaf(sibling), Ok(other));
    assert_eq!(pw.get_leaf(addr + 0xfff), Ok(entry));
}

#[test]
fn create_leaf_fails_without_frames_and_keeps_what_it_built() {
    let mut pw = get_page_walker(0x10_0000, false).unwrap();
    let mut a = frames(2);
    let addr: u64 = 0x7000_0000;
    assert_eq!(pw.create_leaf(addr, &mut a), Err(2));
    assert_eq!(used_count(&a, 64), 2);
    assert_eq!(pw.get_leaf(addr), Err(2));
    a.deallocate(0);
    assert_eq!(pw.create_leaf(addr, &mut a), Ok(PTEntry::new()));
}

#[test]
fn create_leaf_does_not_descend_through_a_used_entry() {
    let mut root = PageTable::new(LevelEnum::Level4, 0x10_0000);
    let mut huge = PTEntry::new();
    huge.set_addr(0x4000_0000, PageTableFlags::from_bits_truncate(PRESENT | HUGE_PAGE));
    root.set_entry(0, huge);
    let mut pw = PageWalker::new(root);
    let mut a = frames(64);
    assert!(pw.table().is_blocked(0x1000));
    assert_eq!(pw.create_leaf(0x1000, &mut a), Err(4));
    assert_eq!(pw.create_pt(0x1000, &mut a), Err(4));
    assert_eq!(used_count(&a, 64), 0);
}

#[test]
fn set_leaf_needs_the_path() {
    let mut pw = get_page_walker(0x10_0000, false).unwrap();
    assert_eq!(pw.set_leaf(0x5000, PTEntry::from_bits(0x9001)), Err(4));
}

#[test]
fn ptl4_is_the_root_or_its_first_table() {
    let mut a = frames(64);
    let mut four = get_page_walker(0x10_0000, false).unwrap();
    assert_eq!(get_ptl4(&mut four, &mut a).unwrap().get_addr(), 0x10_0000);
    assert_eq!(used_count(&a, 64), 0);
    let mut five = get_page_walker(0x10_0000, true).unwrap();
    let t = get_ptl4(&mut five, &mut a).unwrap();
    assert_eq!(t.get_level(), LevelEnum::Level4);
    assert_eq!(t.get_addr(), 0);
    assert_eq!(used_count(&a, 64), 1);
    let mut none = KernelPhysicalMemoryAllocator::new(0, PageSource::empty());
    let mut again = get_page_walker(0x10_0000, true).unwrap();
    assert!(get_ptl4(&mut again, &mut none).is_none());
}

#[test]
fn table_counts_and_finds_free_entries() {
    let mut t = PageTable::new(LevelEnum::Level1, 0x2000);
    assert_eq!(t.get_free_pages_count(), 512);
    assert_eq!(t.get_free_entry(), Some((0, PTEntry::new())));
    t.set_entry(0, PTEntry::from_bits(0x5001));
    t.set_entry(1, PTEntry::from_bits(0x6001));
    t.set_entry(511, PTEntry::from_bits(0x7001));
    assert_eq!(t.get_free_pages_count(), 509);
    assert_eq!(t.get_free_entry(), Some((2, PTEntry::new())));
    assert_eq!(t.entry(511), PTEntry::from_bits(0x7001));
    t.zero();
    assert_eq!(t.get_free_pages_count(), 512);
}

#[test]
fn create_sub_table_installs_an_empty_table() {
    let mut t = PageTable::new(LevelEnum::Level2, 0x2000);
    let mut a = frames(64);
    assert_eq!(t.create_sub_table(7, &mut a), Ok(()));
    assert_eq!(t.entry(7).bits(), PRESENT | WRITABLE);
    assert_eq!(t.create_sub_table(7, &mut a), Err(()));
    assert_eq!(t.create_sub_table(8, &mut a), Ok(()));
    assert_eq!(t.entry(8).bits(), 4096 | PRESENT | WRITABLE);
    assert_eq!(used_count(&a, 64), 2);
    let mut empty = KernelPhysicalMemoryAllocator::new(0, PageSource::empty());
    assert_eq!(t.create_sub_table(9, &mut empty), Err(()));
    assert!(t.entry(9).is_unused());
}

#[test]
fn table_iterator_runs_from_both_ends() {
    let mut t = PageTable::new(LevelEnum::Level1, 0x2000);
    t.set_entry(0, PTEntry::from_bits(0x5001));
    t.set_entry(511, PTEntry::from_bits(0x7001));
    let mut it = t.into_iter();
    assert_eq!(it.size_hint(), (512, Some(512)));
    assert_eq!(it.next(), Some(PTEntry::from_bits(0x5001)));
    assert_eq!(it.next_back(), Some(PTEntry::from_bits(0x7001)));
    assert_eq!(it.size_hint(), (510, Some(510)));
    let mut n = 0;
    while let Some(e) = it.next() {
        assert!(e.is_unused());
        n += 1;
    }
    assert_eq!(n, 510);
    assert_eq!(it.next_back(), None);
    assert_eq!(it.size_hint(), (0, Some(0)));
}

#[test]
fn five_level_root_needs_four_tables() {
    let mut pw = get_page_walker(0x10_0000, true).unwrap();
    let mut a = frames(64);
    let addr: u64 = 0x01ff_ffff_0000_0000;
    assert_eq!(pw.get_leaf(addr), Err(5));
    assert_eq!(pw.create_leaf(addr, &mut a), Ok(PTEntry::new()));
    assert_eq!(used_count(&a, 64), 4);
    let l4 = pw.get_page(addr).unwrap();
    assert_eq!(l4.get_level(), LevelEnum::Level4);
    assert_eq!(l4.get_addr(), 0);
    assert_eq!(pw.get_leaf(addr + 0x1000), Ok(PTEntry::new()));
    assert_eq!(pw.get_leaf(addr + 0x20_0000), Err(2));
    assert_eq!(pw.get_leaf(0), Err(5));
    assert_eq!(pw.create_leaf(addr + 0x20_0000, &mut a), Ok(PTEntry::new()));
    assert_eq!(used_count(&a, 64), 5);
}

#[test]
fn addresses_beyond_the_reach_of_the_root_alias() {
    let mut pw = get_page_walker(0x10_0000, false).unwrap();
    let mut a = frames(64);
    let low: u64 = 0x0000_0000_0040_3000;
    let high: u64 = 0xffff_0000_0040_3000;
    pw.create_leaf(low, &mut a).unwrap();
    assert_eq!(pw.set_leaf(low, PTEntry::from_bits(0x9001)), Ok(()));
    assert_eq!(pw.get_leaf(high), Ok(PTEntry::from_bits(0x9001)));
}

#[test]
fn create_leaf_without_frames_changes_nothing() {
    let mut pw = get_page_walker(0x10_0000, false).unwrap();
    let mut none = KernelPhysicalMemoryAllocator::new(0, PageSource::empty());
    let addr: u64 = 0x0000_0100_c080_5000;
    assert_eq!(pw.create_leaf(addr, &mut none), Err(4));
    assert_eq!(pw.table().get_free_pages_count(), 512);
    assert_eq!(pw.get_leaf(addr), Err(4));
}

#[test]
fn create_leaf_fails_at_the_rank_that_is_left() {
    let addr: u64 = 0x0000_0100_c080_5000;
    for (frames_left, expected) in [(0u64, Err(4)), (1, Err(3)), (2, Err(2)), (3, Ok(PTEntry::new()))] {
        let mut pw = get_page_walker(0x10_0000, false).unwrap();
        let mut a = frames(frames_left);
        assert_eq!(pw.create_leaf(addr, &mut a), expected);
        assert_eq!(used_count(&a, 64) as u64, frames_left);
        assert_eq!(pw.get_leaf(addr), expected);
    }
}

#[test]
fn fresh_tree_gets_its_tables_at_the_indices_of_the_address() {
    let mut pw = get_page_walker(0x10_0000, false).unwrap();
    let mut a = frames(64);
    let addr: u64 = 0x0000_0100_c080_5000;
    assert_eq!(LevelEnum::Level4.index_of(addr), 2);
    assert_eq!(LevelEnum::Level3.index_of(addr), 3);
    assert_eq!(LevelEnum::Level2.index_of(addr), 4);
    assert_eq!(LevelEnum::Level1.index_of(addr), 5);
    pw.create_leaf(addr, &mut a).unwrap();
    let mut leaf = PTEntry::new();
    leaf.set_addr(0x7000, PageTableFlags::from_bits_truncate(PRESENT));
    assert_eq!(pw.set_leaf(addr, leaf), Ok(()));
    let root = pw.table();
    assert_eq!(root.get_free_pages_count(), 511);
    assert_eq!(root.entry(2).addr(), 0);
    let l3 = root.sub_table(2).unwrap();
    assert_eq!(l3.get_free_pages_count(), 511);
    assert_eq!(l3.entry(3).addr(), 4096);
    let l2 = l3.sub_table(3).unwrap();
    assert_eq!(l2.get_free_pages_count(), 511);
    let l1 = l2.sub_table(4).unwrap();
    assert_eq!(l1.get_free_pages_count(), 511);
    assert_eq!(l1.entry(5).addr(), 0x7000);
    assert!(l1.entry(5).is_present());
}

#[test]
fn get_page_follows_exactly_the_entries_that_link() {
    let mut root = PageTable::new(LevelEnum::Level3, 0x10_0000);
    let mut a = frames(64);
    assert_eq!(root.create_pt(0, &mut a), Ok(()));
    let mut huge = PTEntry::new();
    huge.set_addr(0x4000_0000, PageTableFlags::from_bits_truncate(PRESENT | HUGE_PAGE));
    root.set_entry(1, huge);
    let below = root.get_page(0).unwrap();
    assert_eq!(below.get_addr(), root.entry(0).addr());
    assert_eq!(below.get_level(), LevelEnum::Level2);
    assert_eq!(root.get_page(0x4000_0000).err(), Some(3));
    assert_eq!(root.get_page(0x8000_0000).err(), Some(3));
}
