use x64::elf::{
    check_header, check_segments, get_pte, map_elf, map_page, map_segments, read_load_segments, stage_segments,
    MapElfRet, MapError, ProgramHeader, PF_EXECUTE, PF_WRITE,
};
use x64::paging::page_structs::entry::{PTEntry, PageTableFlags, NO_EXECUTE, PRESENT, WRITABLE};
use x64::paging::{get_page_walker, PageWalker};
use x64::palloc::{KernelPhysicalMemoryAllocator, PageSource};

struct Segment {
    kind: u32,
    flags: u32,
    vaddr: u64,
    align: u64,
    memsz: u64,
    data: Vec<u8>,
}

fn image(entry: u64, segments: &[Segment]) -> Vec<u8> {
    let mut out: Vec<u8> = Vec::new();
    out.extend_from_slice(&[0x7f, b'E', b'L', b'F', 2, 1, 1, 0]);
    out.extend_from_slice(&[0u8; 8]);
    out.extend_from_slice(&2u16.to_le_bytes());
    out.extend_from_slice(&0x3eu16.to_le_bytes());
    out.extend_from_slice(&1u32.to_le_bytes());
    out.extend_from_slice(&entry.to_le_bytes());
    out.extend_from_slice(&64u64.to_le_bytes());
    out.extend_from_slice(&0u64.to_le_bytes());
    out.extend_from_slice(&0u32.to_le_bytes());
    out.extend_from_slice(&64u16.to_le_bytes());
    out.extend_from_slice(&56u16.to_le_bytes());
    out.extend_from_slice(&(segments.len() as u16).to_le_bytes());
    out.extend_from_slice(&64u16.to_le_bytes());
    out.extend_from_slice(&0u16.to_le_bytes());
    out.extend_from_slice(&0u16.to_le_bytes());
    assert_eq!(out.len(), 64);
    let mut offset = 64 + 56 * segments.len() as u64;
    for s in segments {
        out.extend_from_slice(&s.kind.to_le_bytes());
        out.extend_from_slice(&s.flags.to_le_bytes());
        out.extend_from_slice(&offset.to_le_bytes());
        out.extend_from_slice(&s.vaddr.to_le_bytes());
        out.extend_from_slice(&s.vaddr.to_le_bytes());
        out.extend_from_slice(&(s.data.len() as u64).to_le_bytes());
        out.extend_from_slice(&s.memsz.to_le_bytes());
        out.extend_from_slice(&s.align.to_le_bytes());
        offset += s.data.len() as u64;
    }
    for s in segments {
        out.extend_from_slice(&s.data);
    }
    out
}

fn load(flags: u32, vaddr: u64, memsz: u64, data: Vec<u8>) -> Segment {
    Segment { kind: 1, flags, vaddr, align: 0x1000, memsz, data }
}

struct Machine {
    pw: PageWalker,
    frames: KernelPhysicalMemoryAllocator,
    source: PageSource,
    staging: Vec<u8>,
}

fn machine(pages: u64) -> Machine {
    Machine {
        pw: get_page_walker(0x10_0000, false).unwrap(),
        frames: KernelPhysicalMemoryAllocator::new(4096, PageSource::new(0x800_0000, 4)),
        source: PageSource::new(0x200_0000, pages),
        staging: Vec::new(),
    }
}

const BASE: u64 = 0x0000_7f00_0000_0000;

#[test]
fn segment_with_nobits_is_staged_with_zero_fill() {
    let data: Vec<u8> = (1..=16u8).collect();
    let file = image(0x1004, &[load(4 | PF_EXECUTE, 0x1000, 0x2000, data.clone())]);
    let mut m = machine(16);
    m.staging = vec![0xff; 0x3000];
    let ret = map_elf(&file, BASE, &mut m.pw, &mut m.frames, &mut m.source, &mut m.staging)
        .unwrap();
    assert_eq!(ret, MapElfRet { base: 0x200_0000, pages: 2, entry_point: BASE + 0x1004 });
    assert_eq!(m.staging.len(), 0x2000);
    assert_eq!(&m.staging[..0x10], &data[..]);
    assert!(m.staging[0x10..].iter().all(|b| *b == 0));
    assert_eq!(m.staging[0x10..].len(), 0x1ff0);
    assert_eq!(m.source.remaining(), 14);
    let first = m.pw.get_leaf(BASE + 0x1000).unwrap();
    assert_eq!(first.bits(), 0x200_0000 | PRESENT);
    let second = m.pw.get_leaf(BASE + 0x2000).unwrap();
    assert_eq!(second.bits(), 0x200_1000 | PRESENT);
    assert!(m.pw.get_leaf(BASE + 0x3000).unwrap().is_unused());
    assert!(m.pw.get_leaf(BASE).unwrap().is_unused());
}

#[test]
fn segments_map_the_union_of_their_spans_with_their_permissions() {
    let text = load(4 | PF_EXECUTE, 0x0, 0x1800, vec![0xcc; 0x1800]);
    let rodata = load(4, 0x2000, 0x10, vec![7; 0x10]);
    let data = load(4 | PF_WRITE, 0x5000, 0x3000, vec![9; 0x200]);
    let note = Segment { kind: 4, flags: 4, vaddr: 0x9000, align: 4, memsz: 8, data: vec![1; 8] };
    let file = image(0x10, &[text, note, rodata, data]);
    let mut m = machine(16);
    let ret = map_elf(&file, BASE, &mut m.pw, &mut m.frames, &mut m.source, &mut m.staging)
        .unwrap();
    assert_eq!(ret.pages, 6);
    assert_eq!(ret.base, 0x200_0000);
    assert_eq!(ret.entry_point, BASE + 0x10);
    let expect = [
        (0x0000u64, 0u64, PRESENT),
        (0x1000, 1, PRESENT),
        (0x2000, 2, PRESENT | NO_EXECUTE),
        (0x5000, 3, PRESENT | WRITABLE | NO_EXECUTE),
        (0x6000, 4, PRESENT | WRITABLE | NO_EXECUTE),
        (0x7000, 5, PRESENT | WRITABLE | NO_EXECUTE),
    ];
    for (vaddr, page, flags) in expect {
        let e = m.pw.get_leaf(BASE + vaddr).unwrap();
        assert_eq!(e.bits(), (ret.base + page * 4096) | flags);
        assert_eq!(e.addr(), ret.base + page * 4096);
        assert_eq!(e.flags().bits(), flags);
    }
    for vaddr in [0x3000u64, 0x4000, 0x8000, 0x9000] {
        assert!(!m.pw.get_leaf(BASE + vaddr).unwrap().is_present());
    }
    assert_eq!(m.staging.len(), 6 * 4096);
    assert!(m.staging[..0x1800].iter().all(|b| *b == 0xcc));
    assert!(m.staging[0x1800..0x2000].iter().all(|b| *b == 0));
    assert!(m.staging[0x2000..0x2010].iter().all(|b| *b == 7));
    assert!(m.staging[0x2010..0x3000].iter().all(|b| *b == 0));
    assert!(m.staging[0x3000..0x3200].iter().all(|b| *b == 9));
    assert!(m.staging[0x3200..].iter().all(|b| *b == 0));
}

#[test]
fn unaligned_segment_is_copied_to_its_offset_in_the_span() {
    let file = image(0, &[load(4, 0x1234, 0x20, vec![5; 0x20])]);
    let mut m = machine(16);
    let ret = map_elf(&file, BASE, &mut m.pw, &mut m.frames, &mut m.source, &mut m.staging)
        .unwrap();
    assert_eq!(ret.pages, 1);
    assert!(m.staging[..0x234].iter().all(|b| *b == 0));
    assert!(m.staging[0x234..0x254].iter().all(|b| *b == 5));
    assert!(m.staging[0x254..].iter().all(|b| *b == 0));
    assert_eq!(m.pw.get_leaf(BASE + 0x1000).unwrap().addr(), ret.base);
}

#[test]
fn bad_magic_is_a_corrupt_image() {
    let mut file = image(0, &[load(4, 0x1000, 0x10, vec![1; 0x10])]);
    file[0] = 0x7e;
    let mut m = machine(16);
    let r = map_elf(&file, BASE, &mut m.pw, &mut m.frames, &mut m.source, &mut m.staging);
    assert_eq!(r, Err(MapError::CorruptImage));
    assert_eq!(read_load_segments(&file), Err(MapError::CorruptImage));
    assert_eq!(read_load_segments(&[0u8; 8]), Err(MapError::CorruptImage));
    assert_eq!(m.source.remaining(), 16);
    assert!(m.staging.is_empty());
    assert_eq!(m.pw.get_leaf(BASE + 0x1000), Err(4));
}

#[test]
fn segment_outside_the_file_is_a_corrupt_image() {
    let mut file = image(0, &[load(4, 0x1000, 0x10, vec![1; 0x10])]);
    file.truncate(file.len() - 1);
    let mut m = machine(16);
    let r = map_elf(&file, BASE, &mut m.pw, &mut m.frames, &mut m.source, &mut m.staging);
    assert_eq!(r, Err(MapError::CorruptImage));
}

#[test]
fn bad_alignment_is_an_unsupported_segment() {
    for align in [0u64, 1, 0x800, 0x3000] {
        let seg = Segment { kind: 1, flags: 4, vaddr: 0x3000, align, memsz: 0x10, data: vec![1; 0x10] };
        let file = image(0, &[seg]);
        let mut m = machine(16);
        let r = map_elf(&file, BASE, &mut m.pw, &mut m.frames, &mut m.source, &mut m.staging);
        assert_eq!(r, Err(MapError::UnsupportedSegment));
    }
    let big = Segment { kind: 1, flags: 4, vaddr: 0x3000, align: 0x4000, memsz: 0x10, data: vec![1; 0x10] };
    let file = image(0, &[big]);
    let mut m = machine(16);
    let ret = map_elf(&file, BASE, &mut m.pw, &mut m.frames, &mut m.source, &mut m.staging)
        .unwrap();
    assert_eq!(ret.pages, 4);
    assert!(m.staging[0x3000..0x3010].iter().all(|b| *b == 1));
    assert_eq!(m.pw.get_leaf(BASE).unwrap().addr(), ret.base);
    assert_eq!(m.pw.get_leaf(BASE + 0x3000).unwrap().addr(), ret.base + 0x3000);
}

#[test]
fn overlapping_segments_are_unsupported() {
    let a = load(4, 0x1000, 0x1800, vec![1; 0x10]);
    let b = load(4 | PF_WRITE, 0x2800, 0x100, vec![2; 0x10]);
    let file = image(0, &[a, b]);
    let mut m = machine(16);
    let r = map_elf(&file, BASE, &mut m.pw, &mut m.frames, &mut m.source, &mut m.staging);
    assert_eq!(r, Err(MapError::UnsupportedSegment));
}

#[test]
fn file_bytes_beyond_memory_size_are_unsupported() {
    let file = image(0, &[load(4, 0x1000, 0x8, vec![1; 0x10])]);
    let mut m = machine(16);
    let r = map_elf(&file, BASE, &mut m.pw, &mut m.frames, &mut m.source, &mut m.staging);
    assert_eq!(r, Err(MapError::UnsupportedSegment));
}

#[test]
fn span_past_the_address_space_is_unsupported() {
    let file = image(0, &[load(4, 0x1000, 0x10, vec![1; 0x10])]);
    let mut m = machine(16);
    let r = map_elf(&file, u64::MAX - 0xfff, &mut m.pw, &mut m.frames, &mut m.source, &mut m.staging);
    assert_eq!(r, Err(MapError::UnsupportedSegment));
}

#[test]
fn staging_larger_than_the_source_is_out_of_memory() {
    let file = image(0, &[load(4, 0x1000, 0x5000, vec![1; 0x10])]);
    let mut m = machine(4);
    let r = map_elf(&file, BASE, &mut m.pw, &mut m.frames, &mut m.source, &mut m.staging);
    assert_eq!(r, Err(MapError::OutOfPhysicalMemory));
    assert_eq!(m.source.remaining(), 4);
    let none = image(0, &[]);
    let r = map_elf(&none, BASE, &mut m.pw, &mut m.frames, &mut m.source, &mut m.staging);
    assert_eq!(r, Err(MapError::OutOfPhysicalMemory));
}

#[test]
fn page_mapped_to_another_frame_is_a_conflict() {
    let file = image(0, &[load(4, 0x1000, 0x10, vec![1; 0x10])]);
    let mut m = machine(16);
    let flags = PageTableFlags::from_bits_truncate(PRESENT);
    assert_eq!(map_page(&mut m.pw, &mut m.frames, BASE + 0x1000, 0x9000, flags), Ok(()));
    let r = map_elf(&file, BASE, &mut m.pw, &mut m.frames, &mut m.source, &mut m.staging);
    assert_eq!(r, Err(MapError::PageTableConflict));
    assert_eq!(m.pw.get_leaf(BASE + 0x1000).unwrap().addr(), 0x9000);
}

#[test]
fn mapping_without_frames_reports_level_and_address() {
    let file = image(0, &[load(4, 0x1000, 0x10, vec![1; 0x10])]);
    let mut m = machine(16);
    m.frames = KernelPhysicalMemoryAllocator::new(1, PageSource::new(0x800_0000, 1));
    let r = map_elf(&file, BASE, &mut m.pw, &mut m.frames, &mut m.source, &mut m.staging);
    assert_eq!(r, Err(MapError::MappingFailed { level: 3, vaddr: BASE + 0x1000 }));
}

#[test]
fn map_page_is_idempotent() {
    let mut m = machine(1);
    let flags = PageTableFlags::from_bits_truncate(PRESENT | WRITABLE);
    assert_eq!(map_page(&mut m.pw, &mut m.frames, 0x40_0000, 0x9000, flags), Ok(()));
    let used: Vec<bool> = (0..64u64).map(|f| m.frames.is_frame_used(f * 4096)).collect();
    assert_eq!(map_page(&mut m.pw, &mut m.frames, 0x40_0000, 0x9000, flags), Ok(()));
    let after: Vec<bool> = (0..64u64).map(|f| m.frames.is_frame_used(f * 4096)).collect();
    assert_eq!(used, after);
    assert_eq!(m.pw.get_leaf(0x40_0000).unwrap().bits(), 0x9003);
    assert_eq!(get_pte(&mut m.pw, &mut m.frames, 0x40_0000), Ok(PTEntry::from_bits(0x9003)));
    assert_eq!(
        map_page(&mut m.pw, &mut m.frames, 0x40_0000, 0xa000, flags),
        Err(MapError::PageTableConflict)
    );
}

#[test]
fn program_headers_are_read_in_order() {
    let a = load(4 | PF_EXECUTE, 0x1000, 0x20, vec![1; 0x10]);
    let note = Segment { kind: 4, flags: 4, vaddr: 0x9000, align: 4, memsz: 8, data: vec![1; 8] };
    let b = load(4 | PF_WRITE, 0x4000, 0x30, vec![2; 0x20]);
    let file = image(0x1234, &[a, note, b]);
    let (entry, segs) = read_load_segments(&file).unwrap();
    assert_eq!(entry, 0x1234);
    assert_eq!(segs.len(), 2);
    assert_eq!(
        segs[0],
        ProgramHeader {
            load: true,
            flags: 5,
            offset: 64 + 3 * 56,
            vaddr: 0x1000,
            filesz: 0x10,
            memsz: 0x20,
            align: 0x1000,
        }
    );
    assert_eq!(segs[1].vaddr, 0x4000);
    assert_eq!(segs[1].offset, 64 + 3 * 56 + 0x10 + 8);
    assert!(segs[0].is_executable() && !segs[0].is_writable());
    assert!(segs[1].is_writable() && !segs[1].is_executable());
    assert_eq!(segs[0].span(), Some((0x1000, 0x2000)));
    assert_eq!(segs[1].page_table_flags().bits(), PRESENT | WRITABLE | NO_EXECUTE);
    assert_eq!(check_segments(&segs, file.len(), BASE), Ok(2));
    let staged = stage_segments(&file, &segs);
    assert_eq!(staged.len(), 0x2000);
    assert_eq!(staged[0], 1);
    assert_eq!(staged[0x1000], 2);
}

#[test]
fn given_segments_load_without_an_image() {
    let file: Vec<u8> = (0..=255u8).collect();
    let segs = vec![ProgramHeader {
        load: true,
        flags: PF_WRITE,
        offset: 0x10,
        vaddr: 0x2000,
        filesz: 0x20,
        memsz: 0x1000,
        align: 0x1000,
    }];
    let mut m = machine(2);
    let ret = map_segments(
        &file,
        0x2008,
        &segs,
        0x1_0000,
        &mut m.pw,
        &mut m.frames,
        &mut m.source,
        &mut m.staging,
    )
    .unwrap();
    assert_eq!(ret, MapElfRet { base: 0x200_0000, pages: 1, entry_point: 0x1_2008 });
    assert_eq!(&m.staging[..0x20], &file[0x10..0x30]);
    assert_eq!(
        m.pw.get_leaf(0x1_2000).unwrap().bits(),
        0x200_0000 | PRESENT | WRITABLE | NO_EXECUTE
    );
    let r = map_segments(
        &file,
        u64::MAX,
        &segs,
        0x1_0000,
        &mut m.pw,
        &mut m.frames,
        &mut m.source,
        &mut m.staging,
    );
    assert_eq!(r, Err(MapError::UnsupportedSegment));
}

#[test]
fn image_is_read_wherever_it_lies_in_memory() {
    let file = image(0x1234, &[load(4, 0x1000, 0x20, vec![3; 0x10])]);
    for shift in 0..8usize {
        let mut moved = vec![0u8; shift];
        moved.extend_from_slice(&file);
        let (entry, segs) = read_load_segments(&moved[shift..]).unwrap();
        assert_eq!(entry, 0x1234);
        assert_eq!(segs.len(), 1);
        assert_eq!(segs[0].vaddr, 0x1000);
        assert_eq!(segs[0].filesz, 0x10);
    }
}

#[test]
fn program_header_table_may_start_anywhere() {
    let mut file = image(0x44, &[load(4, 0x1000, 0x10, vec![1; 0x10])]);
    let tail = file.split_off(64);
    file.extend_from_slice(&[0u8; 3]);
    file.extend_from_slice(&tail);
    file[32..40].copy_from_slice(&67u64.to_le_bytes());
    let (entry, segs) = read_load_segments(&file).unwrap();
    assert_eq!(entry, 0x44);
    assert_eq!(segs.len(), 1);
    assert_eq!(segs[0].vaddr, 0x1000);
    assert_eq!(segs[0].align, 0x1000);
}

#[test]
fn program_header_table_outside_the_file_is_a_corrupt_image() {
    let mut file = image(0, &[load(4, 0x1000, 0x10, vec![1; 0x10])]);
    file[56..58].copy_from_slice(&1000u16.to_le_bytes());
    assert_eq!(read_load_segments(&file), Err(MapError::CorruptImage));
    let mut far = image(0, &[load(4, 0x1000, 0x10, vec![1; 0x10])]);
    far[32..40].copy_from_slice(&u64::MAX.to_le_bytes());
    assert_eq!(read_load_segments(&far), Err(MapError::CorruptImage));
    let mut m = machine(16);
    let r = map_elf(&file, BASE, &mut m.pw, &mut m.frames, &mut m.source, &mut m.staging);
    assert_eq!(r, Err(MapError::CorruptImage));
}

#[test]
fn header_must_be_whole_and_of_a_known_class() {
    let file = image(0, &[]);
    assert!(check_header(&file));
    assert!(!check_header(&file[..63]));
    let mut class = file.clone();
    class[4] = 3;
    assert!(!check_header(&class));
    let mut long = file.clone();
    long[52..54].copy_from_slice(&65u16.to_le_bytes());
    assert!(!check_header(&long));
    assert_eq!(read_load_segments(&file), Ok((0, Vec::new())));
}

#[test]
fn narrow_image_is_read_with_its_own_layout() {
    let mut file: Vec<u8> = Vec::new();
    file.extend_from_slice(&[0x7f, b'E', b'L', b'F', 1, 1, 1, 0]);
    file.extend_from_slice(&[0u8; 8]);
    file.extend_from_slice(&2u16.to_le_bytes());
    file.extend_from_slice(&3u16.to_le_bytes());
    file.extend_from_slice(&1u32.to_le_bytes());
    file.extend_from_slice(&0x8004u32.to_le_bytes());
    file.extend_from_slice(&52u32.to_le_bytes());
    file.extend_from_slice(&0u32.to_le_bytes());
    file.extend_from_slice(&0u32.to_le_bytes());
    file.extend_from_slice(&52u16.to_le_bytes());
    file.extend_from_slice(&32u16.to_le_bytes());
    file.extend_from_slice(&1u16.to_le_bytes());
    file.extend_from_slice(&[0u8; 6]);
    assert_eq!(file.len(), 52);
    for field in [1u32, 84, 0x8000, 0x8000, 4, 0x20, 6, 0x1000] {
        file.extend_from_slice(&field.to_le_bytes());
    }
    file.extend_from_slice(&[9, 9, 9, 9]);
    let (entry, segs) = read_load_segments(&file).unwrap();
    assert_eq!(entry, 0x8004);
    assert_eq!(
        segs,
        vec![ProgramHeader {
            load: true,
            flags: 6,
            offset: 84,
            vaddr: 0x8000,
            filesz: 4,
            memsz: 0x20,
            align: 0x1000,
        }]
    );
    assert!(segs[0].is_writable());
    assert!(!segs[0].is_executable());
}
