use x64::efi::gop::{
    get_best_gop_fb, get_bitmask, get_pixel_value, is_preferred, ModeInfo, PixelBitmask,
    PixelFormat, FB,
};
use x64::efi::mem::{get_mem, MemoryRegion};
use x64::bytes::{read_u16, read_u32, read_u64};
use x64::efi::rsdp::{RSDP, RSDP2};
use x64::lock::{LockState, RWLockState, MAX_READERS, WRITER};
use x64::paging::page_structs::entry::PTEntry;
use x64::paging::page_structs::table::PageTable;
use x64::paging::ptgetter::{get_or_create, LinearPageTableGetter, PageTableGetter, PageTableIndex};
use x64::paging::traits::LevelEnum;
use x64::paging::get_page_walker;
use x64::palloc::{
    range_mask, set_bits, GlobalAllocator, KernelPhysicalMemoryAllocator, PageSource,
    PhysicalPageAllocator,
};

fn frames(total: u64) -> KernelPhysicalMemoryAllocator {
    KernelPhysicalMemoryAllocator::new(total, PageSource::new(0x4000_0000, 8))
}

#[test]
fn range_mask_sets_the_bits_of_the_range() {
    assert_eq!(range_mask(0, 0), 0);
    assert_eq!(range_mask(0, 64), u64::MAX);
    assert_eq!(range_mask(0, 1), 1);
    assert_eq!(range_mask(63, 64), 1 << 63);
    assert_eq!(range_mask(4, 12), 0xff0);
    assert_eq!(range_mask(17, 17), 0);
}

#[test]
fn set_bits_marks_a_range_across_words() {
    let mut words = vec![0u64; 4];
    set_bits(&mut words, 60, 70);
    assert_eq!(words, vec![0xf << 60, u64::MAX, 0x3, 0]);
    set_bits(&mut words, 0, 4);
    assert_eq!(words[0], (0xf << 60) | 0xf);
    set_bits(&mut words, 128, 0);
    assert_eq!(words[2], 0x3);
    set_bits(&mut words, 192, 64);
    assert_eq!(words[3], u64::MAX);
}

#[test]
fn set_bits_leaves_out_what_lies_past_the_bitmap() {
    let mut words = vec![0u64; 2];
    set_bits(&mut words, 120, 1000);
    assert_eq!(words, vec![0, 0xff << 56]);
    set_bits(&mut words, 128, 5);
    set_bits(&mut words, 4000, 5);
    set_bits(&mut words, usize::MAX - 2, usize::MAX);
    assert_eq!(words, vec![0, 0xff << 56]);
    let mut none: Vec<u64> = Vec::new();
    set_bits(&mut none, 0, 10);
    assert!(none.is_empty());
    let mut all = vec![1u64 << 5; 3];
    set_bits(&mut all, 0, usize::MAX);
    assert_eq!(all, vec![u64::MAX; 3]);
}

#[test]
fn global_allocator_starts_with_all_frames_free() {
    let g = GlobalAllocator::new(128, PageSource::new(0x10_0000, 1));
    let mut a = g.into_frames();
    assert_eq!(a.total_frames(), 128);
    assert_eq!(a.allocate(), Some(0));
}

#[test]
fn cursor_counts_free_entries_up_to_a_limit() {
    let mut t = PageTable::new(LevelEnum::Level1, 0x2000);
    for i in [0usize, 3, 4, 100] {
        t.set_entry(i, PTEntry::from_bits(0x5001));
    }
    let high = PageTableIndex::new_high(&t);
    assert_eq!(high.get_index(), 511);
    assert_eq!(high.get_free_pages_lim_self(1000), 508);
    assert_eq!(high.get_free_pages_lim_self(4), 4);
    assert_eq!(high.get_free_pages_lim_self(0), 0);
    assert_eq!(high.get_free_pages_lim(1000), 508);
    let low = PageTableIndex::new(&t, 4);
    assert_eq!(low.get_free_pages_lim_self(1000), 2);
    assert_eq!(low.get_page_table_entry(), PTEntry::from_bits(0x5001));
    assert_eq!(low.get_ptl().get_addr(), 0x2000);
    assert!(low.get_next_level().is_none());
}

#[test]
fn cursor_moves_down() {
    let mut t = PageTable::new(LevelEnum::Level1, 0x2000);
    t.set_entry(510, PTEntry::from_bits(0x7001));
    let mut c = PageTableIndex::new_high(&t);
    assert_eq!(c.get_new_page_table_entry(), PTEntry::from_bits(0x7001));
    assert_eq!(c.get_index(), 510);
    assert_eq!(c.get_dec_index(), 510);
    assert_eq!(c.get_index(), 509);
    assert_eq!(c.dec_get_index(), 508);
    assert_eq!(c.get_page_table_entry(), PTEntry::new());
}

#[test]
fn cursor_counts_free_pages_below_tables() {
    let mut root = PageTable::new(LevelEnum::Level2, 0x2000);
    let mut a = frames(64);
    {
        let child = get_or_create(&mut root, 0, &mut a).unwrap();
        assert_eq!(child.get_level(), LevelEnum::Level1);
        assert_eq!(child.get_addr(), 0);
    }
    root.set_entry(1, PTEntry::from_bits(0x20_0081));
    let c = PageTableIndex::new(&root, 2);
    assert_eq!(c.get_free_pages_lim(10_000), 512 + 0 + 512);
    assert_eq!(c.get_free_pages_lim(512), 512);
    assert_eq!(c.get_free_pages_lim(513), 1024);
    assert_eq!(c.get_free_pages_lim_self(10), 1);
    let below = PageTableIndex::new(&root, 0).get_next_level().unwrap();
    assert_eq!(below.get_index(), 511);
    assert_eq!(below.get_free_pages_lim(4), 4);
    let l3 = PageTable::new(LevelEnum::Level3, 0x3000);
    assert_eq!(PageTableIndex::new(&l3, 1).get_free_pages_lim(u64::MAX), 2 * 512 * 512);
    assert_eq!(PageTableIndex::new(&l3, 1).get_free_pages_lim(5), 512 * 512);
}

#[test]
fn get_or_create_creates_once() {
    let mut root = PageTable::new(LevelEnum::Level3, 0x2000);
    let mut a = frames(64);
    assert_eq!(get_or_create(&mut root, 9, &mut a).unwrap().get_addr(), 0);
    assert_eq!(get_or_create(&mut root, 9, &mut a).unwrap().get_addr(), 0);
    assert_eq!(a.allocate(), Some(4096));
    root.set_entry(10, PTEntry::from_bits(0x4000_0081));
    assert!(get_or_create(&mut root, 10, &mut a).is_none());
    let mut none = KernelPhysicalMemoryAllocator::new(0, PageSource::empty());
    assert!(get_or_create(&mut root, 11, &mut none).is_none());
    let mut g = PageTableGetter::new(root);
    assert_eq!(g.get_entry_indexed(9, &mut a).unwrap().get_addr(), 0);
    assert_eq!(g.get_entry_indexed(12, &mut a).unwrap().get_addr(), 8192);
    assert_eq!(g.get_page(), Some((0, PTEntry::new())));
}

#[test]
fn linear_getter_hands_out_pages_from_the_top() {
    let pw = get_page_walker(0x10_0000, false).unwrap();
    let mut g = LinearPageTableGetter::new(pw, frames(64)).unwrap();
    let top: u64 = 0x0000_ffff_ffff_f000;
    assert_eq!(g.get_page(), Some((top, PTEntry::new())));
    assert_eq!(g.get_page(), Some((top - 4096, PTEntry::new())));
    let (pw, mut a) = g.into_parts();
    assert_eq!(pw.get_leaf(top), Ok(PTEntry::new()));
    assert_eq!(pw.get_leaf(0), Err(4));
    assert_eq!(a.allocate(), Some(3 * 4096));
    let five = get_page_walker(0x10_0000, true).unwrap();
    let mut h = LinearPageTableGetter::new(five, frames(64)).unwrap();
    assert_eq!(h.get_page().unwrap().0, 0x01ff_ffff_ffff_f000);
    let poor = get_page_walker(0x10_0000, false).unwrap();
    assert!(LinearPageTableGetter::new(poor, frames(2)).is_none());
}

fn mode(width: usize, height: usize, stride: usize, format: PixelFormat) -> ModeInfo {
    ModeInfo { width, height, stride, format }
}

#[test]
fn best_mode_prefers_size_then_format_then_stride() {
    let modes = vec![
        mode(640, 480, 640, PixelFormat::Bgr),
        mode(1024, 768, 1024, PixelFormat::BltOnly),
        mode(800, 600, 832, PixelFormat::Bgr),
        mode(800, 600, 832, PixelFormat::Rgb),
        mode(800, 600, 800, PixelFormat::Rgb),
        mode(800, 600, 800, PixelFormat::Bgr),
        mode(1024, 500, 1024, PixelFormat::Rgb),
    ];
    assert_eq!(get_best_gop_fb(&modes), Some(4));
    assert_eq!(get_best_gop_fb(&modes[..1].to_vec()), Some(0));
    assert_eq!(get_best_gop_fb(&modes[..3].to_vec()), Some(2));
    assert_eq!(get_best_gop_fb(&modes[..4].to_vec()), Some(3));
    assert_eq!(get_best_gop_fb(&vec![modes[1]]), None);
    assert_eq!(get_best_gop_fb(&Vec::new()), None);
    assert!(is_preferred(&modes[2], &modes[0]));
    assert!(!is_preferred(&modes[0], &modes[2]));
    assert!(!is_preferred(&modes[6], &modes[4]));
    assert_eq!(PixelFormat::Rgb.rank(), 0);
    assert_eq!(PixelFormat::BltOnly.rank(), 3);
    assert!(!PixelFormat::Bitmask.is_usable());
}

#[test]
fn pixel_values_follow_the_format() {
    assert_eq!(get_pixel_value(PixelFormat::Rgb, 0x11, 0x22, 0x33), Some(0x0033_2211));
    assert_eq!(get_pixel_value(PixelFormat::Bgr, 0x11, 0x22, 0x33), Some(0x0011_2233));
    assert_eq!(get_pixel_value(PixelFormat::Bitmask, 1, 2, 3), None);
    assert_eq!(get_pixel_value(PixelFormat::BltOnly, 1, 2, 3), None);
    assert_eq!(
        get_bitmask(PixelFormat::Rgb),
        Some(PixelBitmask { red: 0xff, green: 0xff00, blue: 0xff_0000, reserved: 0xff00_0000 })
    );
    assert_eq!(
        get_bitmask(PixelFormat::Bgr),
        Some(PixelBitmask { red: 0xff_0000, green: 0xff00, blue: 0xff, reserved: 0xff00_0000 })
    );
    assert_eq!(get_bitmask(PixelFormat::BltOnly), None);
    let fb = FB { base: 0x8000_0000, size: 4096 };
    assert_eq!(fb.size, 4096);
}

#[test]
fn conventional_memory_is_summed() {
    let map = vec![
        MemoryRegion { conventional: true, page_count: 100 },
        MemoryRegion { conventional: false, page_count: 1000 },
        MemoryRegion { conventional: true, page_count: 23 },
    ];
    assert_eq!(get_mem(&map), 123);
    assert_eq!(get_mem(&Vec::new()), 0);
    let huge = vec![
        MemoryRegion { conventional: true, page_count: u64::MAX },
        MemoryRegion { conventional: true, page_count: 1 },
        MemoryRegion { conventional: false, page_count: 7 },
    ];
    assert_eq!(get_mem(&huge), u64::MAX);
}

fn rsdp_bytes() -> Vec<u8> {
    let mut b: Vec<u8> = Vec::new();
    b.extend_from_slice(b"RSD PTR ");
    b.push(0x5a);
    b.extend_from_slice(b"OEMABC");
    b.push(2);
    b.extend_from_slice(&0x1234_5678u32.to_le_bytes());
    b.extend_from_slice(&36u32.to_le_bytes());
    b.extend_from_slice(&0x1122_3344_5566_7788u64.to_le_bytes());
    b.push(0xa5);
    b.extend_from_slice(&[1, 2, 3]);
    b
}

#[test]
fn rsdp_is_read_from_its_bytes() {
    let b = rsdp_bytes();
    let p = RSDP::from_bytes(&b).unwrap();
    assert_eq!(&p.Signature, b"RSD PTR ");
    assert_eq!(p.Checksum, 0x5a);
    assert_eq!(&p.OEMID, b"OEMABC");
    assert_eq!(p.Revision, 2);
    assert_eq!(p.RsdtAddress, 0x1234_5678);
    assert_eq!(RSDP::from_bytes(&b[..20]), Ok(p));
    assert_eq!(RSDP::from_bytes(&b[..19]), Err(()));
    let mut bad = b.clone();
    bad[7] = b'!';
    assert_eq!(RSDP::from_bytes(&bad), Err(()));
    assert_eq!(RSDP2::from_bytes(&bad), Err(()));
    assert_eq!(read_u16(&b, 16), 0x5678);
    assert_eq!(read_u32(&b, 16), 0x1234_5678);
    assert_eq!(read_u64(&b, 24), 0x1122_3344_5566_7788);
}

#[test]
fn rsdp2_needs_its_length() {
    let b = rsdp_bytes();
    let p = RSDP2::from_bytes(&b).unwrap();
    assert_eq!(p.rsdp, RSDP::from_bytes(&b).unwrap());
    assert_eq!(p.Length, 36);
    assert_eq!(p.XSdtAddress, 0x1122_3344_5566_7788);
    assert_eq!(p.ExtendedChecksum, 0xa5);
    assert_eq!(p.RESERVED, [1, 2, 3]);
    assert_eq!(RSDP2::from_bytes(&b[..35]), Err(()));
    let mut short = b.clone();
    short[20] = 35;
    assert_eq!(RSDP2::from_bytes(&short), Err(()));
}

#[test]
fn lock_has_one_holder() {
    let mut l = LockState::new();
    assert!(!l.word());
    assert!(l.try_lock());
    assert!(!l.try_lock());
    assert!(l.word());
    l.unlock();
    assert!(l.try_lock());
    assert_eq!(LockState::from_word(true), l);
}

#[test]
fn rwlock_takes_readers_or_a_writer() {
    let mut l = RWLockState::new();
    assert!(l.try_read_lock());
    assert!(l.try_read_lock());
    assert_eq!(l.word(), 2);
    assert!(!l.try_write_lock());
    l.unlock_read();
    l.unlock_read();
    assert!(l.try_write_lock());
    assert_eq!(l.word(), WRITER);
    assert!(!l.try_read_lock());
    assert!(!l.try_write_lock());
    l.unlock_write();
    assert_eq!(l.word(), 0);
    let mut full = RWLockState::from_word(MAX_READERS - 1);
    assert!(full.try_read_lock());
    assert!(!full.try_read_lock());
    assert_eq!(full.word(), MAX_READERS);
}
