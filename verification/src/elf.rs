//! Loading an ELF image: reading its program headers, laying its LOAD
//! segments out in staging memory, and mapping their pages.
use crate::paging::page_structs::entry::{
    is_frame_addr, lemma_mapping_parts, word_addr, word_has, PTEntry, PageTableFlags, ADDR_MASK,
    NO_EXECUTE, PRESENT, WRITABLE,
};
use crate::paging::page_structs::table::leaf_created;
use crate::paging::traits::{
    address_space, lemma_same_path_is_same_page, lemma_same_path_refl_sym, same_path,
};
use crate::paging::PageWalker;
use crate::palloc::{PageSource, PhysicalPageAllocator, MAX_FRAMES};
use crate::bytes::{le_u16, le_u32, le_u64, read_u16, read_u32, read_u64};
use elf_rs::{ProgramHeaderFlags, ProgramType};
use vstd::prelude::*;

verus! {

/// The permission bit of a segment that allows execution.
pub const PF_EXECUTE: u32 = 1;

/// The permission bit of a segment that allows writing.
pub const PF_WRITE: u32 = 2;

/// One entry of the program header table of an ELF image.
#[derive(Copy, Clone, Debug, PartialEq, Eq, Structural)]
pub struct ProgramHeader {
    /// The entry describes a LOAD segment.
    pub load: bool,
    /// The permission bits of the segment.
    pub flags: u32,
    /// Where the segment's bytes start in the file.
    pub offset: u64,
    /// The virtual address of the segment's first byte, relative to the
    /// base that the image is loaded at.
    pub vaddr: u64,
    /// The number of bytes that the file holds for the segment.
    pub filesz: u64,
    /// The number of bytes that the segment takes in memory.
    pub memsz: u64,
    /// The alignment of the segment.
    pub align: u64,
}

/// What is handed on about a loaded image: where its staging memory lies,
/// how many pages that is, and the virtual address of its entry point.
#[derive(Copy, Clone, Debug, PartialEq, Eq, Structural)]
pub struct MapElfRet {
    pub base: u64,
    pub pages: usize,
    pub entry_point: u64,
}

/// Why an image was not loaded.
#[derive(Copy, Clone, Debug, PartialEq, Eq, Structural)]
pub enum MapError {
    /// The bytes are no ELF image, or their program header table or a LOAD
    /// segment lies outside the file.
    CorruptImage,
    /// A LOAD segment cannot be laid out: its alignment is no power of two
    /// of at least a page, it holds more bytes in the file than in memory,
    /// it reaches past the end of the address space, or it shares a page
    /// with another segment.
    UnsupportedSegment,
    /// The page source could not supply the staging memory.
    OutOfPhysicalMemory,
    /// A page of the image was already mapped to another frame.
    PageTableConflict,
    /// No leaf entry could be created for the virtual address `vaddr`: the
    /// walker stopped at the level of rank `level`.
    MappingFailed { level: u8, vaddr: u64 },
}

/// The type code of a LOAD segment.
pub const PT_LOAD: u32 = 1;

/// Calls `elf_rs::ProgramType::from` on the type code of a program header
/// and compares the result with `ProgramType::LOAD`. That conversion gives
/// `LOAD` for the code 1 and for no other.
#[verifier::external_body]
fn is_load_type(code: u32) -> (r: bool)
    ensures
        r == (code == PT_LOAD),
{
    ProgramType::from(code) == ProgramType::LOAD
}

/// Calls `contains` of `elf_rs::ProgramHeaderFlags` on the permission bits
/// of a segment, with the flag `WRITE`, whose bit is 2. As every flag type
/// of `bitflags`, it says whether all bits of the flag are among the bits.
#[verifier::external_body]
fn flags_allow_write(bits: u32) -> (r: bool)
    ensures
        r == (bits & PF_WRITE == PF_WRITE),
{
    ProgramHeaderFlags::from_bits_retain(bits).contains(ProgramHeaderFlags::WRITE)
}

/// Calls `contains` of `elf_rs::ProgramHeaderFlags` on the permission bits
/// of a segment, with the flag `EXECUTE`, whose bit is 1.
#[verifier::external_body]
fn flags_allow_execute(bits: u32) -> (r: bool)
    ensures
        r == (bits & PF_EXECUTE == PF_EXECUTE),
{
    ProgramHeaderFlags::from_bits_retain(bits).contains(ProgramHeaderFlags::EXECUTE)
}

/// The class of an image is that of 64-bit images.
pub open spec fn wide(bytes: Seq<u8>) -> bool {
    bytes[4] == 2
}

/// The size that the header of an image states for itself.
pub open spec fn stated_header_size(bytes: Seq<u8>) -> int {
    if wide(bytes) {
        le_u16(bytes.subrange(52, 54)) as int
    } else {
        le_u16(bytes.subrange(40, 42)) as int
    }
}

/// The bytes start with the header of an ELF image: the four bytes of the
/// magic, the class of 32-bit or of 64-bit images, and all of the header of
/// that class, which is 52 or 64 bytes and no less than it states itself.
/// Numbers are read with the lowest byte first, whatever the header says of
/// the byte order.
pub open spec fn has_header(bytes: Seq<u8>) -> bool {
    &&& bytes.len() >= 52
    &&& bytes[0] == 0x7f && bytes[1] == 0x45 && bytes[2] == 0x4c && bytes[3] == 0x46
    &&& bytes[4] == 1 || bytes[4] == 2
    &&& wide(bytes) ==> bytes.len() >= 64
    &&& bytes.len() >= stated_header_size(bytes)
}

/// The entry point that the header states.
pub open spec fn entry_point(bytes: Seq<u8>) -> u64 {
    if wide(bytes) {
        le_u64(bytes.subrange(24, 32))
    } else {
        le_u32(bytes.subrange(24, 28)) as u64
    }
}

/// The offset of the program header table that the header states.
pub open spec fn table_offset(bytes: Seq<u8>) -> u64 {
    if wide(bytes) {
        le_u64(bytes.subrange(32, 40))
    } else {
        le_u32(bytes.subrange(28, 32)) as u64
    }
}

/// The number of entries of the program header table that the header
/// states.
pub open spec fn table_count(bytes: Seq<u8>) -> u16 {
    if wide(bytes) {
        le_u16(bytes.subrange(56, 58))
    } else {
        le_u16(bytes.subrange(44, 46))
    }
}

/// The size of one entry of the program header table: 56 bytes in a 64-bit
/// image, 32 bytes in a 32-bit one.
pub open spec fn entry_size(bytes: Seq<u8>) -> int {
    if wide(bytes) {
        56
    } else {
        32
    }
}

/// The program header table lies within the file.
pub open spec fn table_in_file(bytes: Seq<u8>) -> bool {
    table_offset(bytes) + table_count(bytes) * entry_size(bytes) <= bytes.len()
}

/// The bytes can be read as an image: they start with a header, and the
/// program header table that it states lies within them.
pub open spec fn readable(bytes: Seq<u8>) -> bool {
    has_header(bytes) && table_in_file(bytes)
}

/// Entry `i` of the program header table. The fields of an entry follow one
/// another in the order that the class of the image fixes.
pub open spec fn program_header(bytes: Seq<u8>, i: int) -> ProgramHeader {
    let at = table_offset(bytes) + i * entry_size(bytes);
    if wide(bytes) {
        ProgramHeader {
            load: le_u32(bytes.subrange(at, at + 4)) == PT_LOAD,
            flags: le_u32(bytes.subrange(at + 4, at + 8)),
            offset: le_u64(bytes.subrange(at + 8, at + 16)),
            vaddr: le_u64(bytes.subrange(at + 16, at + 24)),
            filesz: le_u64(bytes.subrange(at + 32, at + 40)),
            memsz: le_u64(bytes.subrange(at + 40, at + 48)),
            align: le_u64(bytes.subrange(at + 48, at + 56)),
        }
    } else {
        ProgramHeader {
            load: le_u32(bytes.subrange(at, at + 4)) == PT_LOAD,
            flags: le_u32(bytes.subrange(at + 24, at + 28)),
            offset: le_u32(bytes.subrange(at + 4, at + 8)) as u64,
            vaddr: le_u32(bytes.subrange(at + 8, at + 12)) as u64,
            filesz: le_u32(bytes.subrange(at + 16, at + 20)) as u64,
            memsz: le_u32(bytes.subrange(at + 20, at + 24)) as u64,
            align: le_u32(bytes.subrange(at + 28, at + 32)) as u64,
        }
    }
}

/// The program header table of an image, in the order of the file.
pub open spec fn program_headers(bytes: Seq<u8>) -> Seq<ProgramHeader> {
    Seq::new(table_count(bytes) as nat, |i: int| program_header(bytes, i))
}

/// Whether the bytes start with the header of an ELF image.
pub fn check_header(file: &[u8]) -> (ok: bool)
    ensures
        ok == has_header(file@),
{
    if file.len() < 52 {
        return false;
    }
    if file[0] != 0x7f || file[1] != 0x45 || file[2] != 0x4c || file[3] != 0x46 {
        return false;
    }
    if file[4] == 2 {
        file.len() >= 64 && file.len() >= read_u16(file, 52) as usize
    } else if file[4] == 1 {
        file.len() >= read_u16(file, 40) as usize
    } else {
        false
    }
}

/// Reads entry `index` of the program header table of an image.
pub fn read_program_header(file: &[u8], index: u16) -> (h: ProgramHeader)
    requires
        readable(file@),
        index < table_count(file@),
    ensures
        h == program_header(file@, index as int),
{
    let len = file.len();
    if file[4] == 2 {
        let at = read_u64(file, 32) as usize + (index as usize) * 56;
        ProgramHeader {
            load: is_load_type(read_u32(file, at)),
            flags: read_u32(file, at + 4),
            offset: read_u64(file, at + 8),
            vaddr: read_u64(file, at + 16),
            filesz: read_u64(file, at + 32),
            memsz: read_u64(file, at + 40),
            align: read_u64(file, at + 48),
        }
    } else {
        let at = read_u32(file, 28) as usize + (index as usize) * 32;
        ProgramHeader {
            load: is_load_type(read_u32(file, at)),
            flags: read_u32(file, at + 24),
            offset: read_u32(file, at + 4) as u64,
            vaddr: read_u32(file, at + 8) as u64,
            filesz: read_u32(file, at + 16) as u64,
            memsz: read_u32(file, at + 20) as u64,
            align: read_u32(file, at + 28) as u64,
        }
    }
}

/// `a` is a power of two.
pub open spec fn is_power_of_two(a: u64) -> bool {
    a != 0 && a & ((a - 1) as u64) == 0
}

/// `x` rounded down to a multiple of `a`.
pub open spec fn align_down(x: int, a: int) -> int {
    x - x % a
}

/// `x` rounded up to a multiple of `a`.
pub open spec fn align_up(x: int, a: int) -> int {
    if x % a == 0 {
        x
    } else {
        x - x % a + a
    }
}

impl ProgramHeader {
    /// The first address of the aligned span of the segment.
    pub open spec fn span_lo(self) -> int {
        align_down(self.vaddr as int, self.align as int)
    }

    /// The address after the last of the aligned span of the segment.
    pub open spec fn span_hi(self) -> int {
        align_up(self.vaddr + self.memsz, self.align as int)
    }

    /// The number of pages of the aligned span.
    pub open spec fn pages(self) -> int {
        (self.span_hi() - self.span_lo()) / 4096
    }

    /// The segment can be laid out: its alignment is a power of two of at
    /// least a page, the file holds no more bytes for it than it takes in
    /// memory, and its aligned span ends within the address space.
    pub open spec fn supported(self) -> bool {
        &&& is_power_of_two(self.align)
        &&& self.align >= 4096
        &&& self.filesz <= self.memsz
        &&& self.span_hi() <= u64::MAX
    }

    /// The bytes of the segment lie within a file of `len` bytes.
    pub open spec fn in_file(self, len: int) -> bool {
        self.offset + self.filesz <= len
    }

    /// The flag bits of the pages of the segment: present; writable if the
    /// segment may be written; no-execute unless it may be executed.
    pub open spec fn page_flags(self) -> u64 {
        PRESENT | (if self.flags & PF_WRITE == PF_WRITE {
            WRITABLE
        } else {
            0
        }) | (if self.flags & PF_EXECUTE == PF_EXECUTE {
            0
        } else {
            NO_EXECUTE
        })
    }

    /// Whether the segment may be written.
    pub fn is_writable(&self) -> (b: bool)
        ensures
            b == (self.flags & PF_WRITE == PF_WRITE),
    {
        flags_allow_write(self.flags)
    }

    /// Whether the segment may be executed.
    pub fn is_executable(&self) -> (b: bool)
        ensures
            b == (self.flags & PF_EXECUTE == PF_EXECUTE),
    {
        flags_allow_execute(self.flags)
    }

    /// The flags of the pages of the segment.
    pub fn page_table_flags(&self) -> (f: PageTableFlags)
        ensures
            f@ == self.page_flags(),
    {
        let w: u64 = if self.is_writable() {
            WRITABLE
        } else {
            0
        };
        let x: u64 = if self.is_executable() {
            0
        } else {
            NO_EXECUTE
        };
        let bits = PRESENT | w | x;
        proof {
            assert((w == 0 || w == 2) && (x == 0 || x == 0x8000_0000_0000_0000) ==> (1u64 | w | x)
                & 0xfff0_0000_0000_0fffu64 == 1u64 | w | x) by (bit_vector);
        }
        PageTableFlags::from_bits_truncate(bits)
    }

    /// The pages of a segment are present, writable exactly if the segment
    /// may be written, and closed to execution exactly if it may not be
    /// executed. Their flags hold no bit of the address.
    pub proof fn lemma_page_flags(self)
        ensures
            word_has(self.page_flags(), PRESENT),
            word_has(self.page_flags(), WRITABLE) == (self.flags & PF_WRITE == PF_WRITE),
            word_has(self.page_flags(), NO_EXECUTE) == !(self.flags & PF_EXECUTE == PF_EXECUTE),
            self.page_flags() & ADDR_MASK == 0,
    {
        let w: u64 = if self.flags & PF_WRITE == PF_WRITE {
            WRITABLE
        } else {
            0
        };
        let x: u64 = if self.flags & PF_EXECUTE == PF_EXECUTE {
            0
        } else {
            NO_EXECUTE
        };
        assert((w == 0 || w == 2) && (x == 0 || x == 0x8000_0000_0000_0000) ==> {
            &&& (1u64 | w | x) & 1 == 1
            &&& ((1u64 | w | x) & 2 == 2) == (w == 2)
            &&& ((1u64 | w | x) & 0x8000_0000_0000_0000 == 0x8000_0000_0000_0000) == (x
                == 0x8000_0000_0000_0000)
            &&& (1u64 | w | x) & 0x000f_ffff_ffff_f000 == 0
        }) by (bit_vector);
    }

    /// The bounds of the aligned span of the segment, or `None` if the
    /// segment is not supported.
    pub fn span(&self) -> (r: Option<(u64, u64)>)
        ensures
            r is Some <==> self.supported(),
            r matches Some((lo, hi)) ==> {
                &&& lo == self.span_lo()
                &&& hi == self.span_hi()
                &&& lo % 4096 == 0
                &&& hi % 4096 == 0
                &&& lo <= self.vaddr
                &&& self.vaddr + self.memsz <= hi
            },
    {
        let a = self.align;
        if a < 4096 || a & (a - 1) != 0 || self.filesz > self.memsz {
            return None;
        }
        let v = self.vaddr;
        let lo = v & !(a - 1);
        proof {
            lemma_align_down_bits(v, a);
        }
        if self.memsz > u64::MAX - v {
            proof {
                assert(self.span_hi() >= self.vaddr + self.memsz) by (nonlinear_arith)
                    requires
                        self.span_hi() == align_up(self.vaddr + self.memsz, a as int),
                        a > 0,
                ;
            }
            return None;
        }
        let e = v + self.memsz;
        let e_lo = e & !(a - 1);
        proof {
            lemma_align_down_bits(e, a);
        }
        if e_lo == e {
            proof {
                lemma_span_order(v as int, e as int, a as int);
            }
            return Some((lo, e));
        }
        if e_lo > u64::MAX - a {
            return None;
        }
        let hi = e_lo + a;
        proof {
            lemma_span_order(v as int, e as int, a as int);
            assert(hi % 4096 == 0) by (bit_vector)
                requires
                    e_lo % 4096 == 0,
                    a != 0 && a & ((a - 1) as u64) == 0,
                    a >= 4096,
                    hi == e_lo + a,
                    e_lo <= 0xffff_ffff_ffff_ffffu64 - a,
            ;
        }
        Some((lo, hi))
    }
}

/// Clearing the low bits of `x` below a power of two `a` rounds `x` down to
/// a multiple of `a`; where `a` is at least a page, the result is a
/// multiple of the page size.
pub proof fn lemma_align_down_bits(x: u64, a: u64)
    requires
        is_power_of_two(a),
    ensures
        x & !((a - 1) as u64) == align_down(x as int, a as int),
        (x & !((a - 1) as u64) == x) <==> x as int % a as int == 0,
        a >= 4096 ==> (x & !((a - 1) as u64)) % 4096 == 0,
{
    let m = (a - 1) as u64;
    let n = vstd::std_specs::bits::u64_trailing_zeros(a) as u64;
    vstd::std_specs::bits::axiom_u64_trailing_zeros(a);
    assert(a == 1u64 << n) by (bit_vector)
        requires
            a != 0,
            a & m == 0,
            m == a - 1,
            n < 64,
            (a >> n) & 1 == 1,
    ;
    vstd::bits::lemma_u64_pow2_no_overflow(n as nat);
    vstd::bits::lemma_u64_shl_is_mul(1, n);
    vstd::bits::lemma_u64_low_bits_mask_is_mod(x, n as nat);
    assert(x & !m == x - (x & m)) by (bit_vector);
    assert(a != 0 && a & m == 0 && m == a - 1 && a >= 4096 ==> (x & !m) % 4096 == 0)
        by (bit_vector);
}

/// Rounding keeps the order: the span of a segment that runs from `v` to
/// `e` starts at or before `v` and ends at or after `e`.
pub proof fn lemma_span_order(v: int, e: int, a: int)
    requires
        a > 0,
        0 <= v <= e,
    ensures
        align_down(v, a) <= v,
        e <= align_up(e, a),
        align_down(v, a) <= align_up(e, a),
        align_up(e, a) - e < a,
        v - align_down(v, a) < a,
        align_down(v, a) >= 0,
{
    assert(0 <= v % a < a && v % a <= v) by (nonlinear_arith)
        requires
            a > 0,
            0 <= v,
    ;
    assert(0 <= e % a < a) by (nonlinear_arith)
        requires
            a > 0,
    ;
}

/// The LOAD entries of a program header table, in the order of the table.
pub open spec fn load_segments(headers: Seq<ProgramHeader>) -> Seq<ProgramHeader>
    decreases headers.len(),
{
    if headers.len() == 0 {
        Seq::empty()
    } else if headers.last().load {
        load_segments(headers.drop_last()).push(headers.last())
    } else {
        load_segments(headers.drop_last())
    }
}

/// The number of pages that the spans of the first `i` segments take.
pub open spec fn pages_before(segs: Seq<ProgramHeader>, i: int) -> int
    decreases i,
{
    if i <= 0 {
        0
    } else {
        pages_before(segs, i - 1) + segs[i - 1].pages()
    }
}

/// The number of pages that the spans of all segments take: the size of the
/// staging memory.
pub open spec fn total_pages(segs: Seq<ProgramHeader>) -> int {
    pages_before(segs, segs.len() as int)
}

/// The bytes of every segment lie within a file of `len` bytes.
pub open spec fn all_in_file(segs: Seq<ProgramHeader>, len: int) -> bool {
    forall|i: int| 0 <= i < segs.len() ==> (#[trigger] segs[i]).in_file(len)
}

/// Every segment can be laid out, and its span, moved to the base `addr`,
/// ends within the address space.
pub open spec fn all_supported(segs: Seq<ProgramHeader>, addr: u64) -> bool {
    forall|i: int|
        0 <= i < segs.len() ==> (#[trigger] segs[i]).supported() && addr + segs[i].span_hi()
            <= u64::MAX
}

/// The spans of the segments `a` and `b` share no page.
pub open spec fn apart(a: ProgramHeader, b: ProgramHeader) -> bool {
    ||| a.span_hi() <= b.span_lo()
    ||| b.span_hi() <= a.span_lo()
    ||| a.span_hi() == a.span_lo()
    ||| b.span_hi() == b.span_lo()
}

/// No two segments share a page.
pub open spec fn all_apart(segs: Seq<ProgramHeader>) -> bool {
    forall|i: int, j: int| 0 <= i < j < segs.len() ==> apart(#[trigger] segs[i], #[trigger] segs[j])
}

/// The staging bytes of one segment: its aligned span, holding the bytes
/// of the file where the segment lies and zero everywhere else.
pub open spec fn segment_bytes(h: ProgramHeader, file: Seq<u8>) -> Seq<u8> {
    Seq::new(
        (h.span_hi() - h.span_lo()) as nat,
        |p: int|
            if h.vaddr - h.span_lo() <= p < h.vaddr - h.span_lo() + h.filesz {
                file[h.offset + (p - (h.vaddr - h.span_lo()))]
            } else {
                0u8
            },
    )
}

/// The staging bytes of the first `i` segments: their spans one after the
/// other, in the order of the segments.
pub open spec fn image_bytes(segs: Seq<ProgramHeader>, file: Seq<u8>, i: int) -> Seq<u8>
    decreases i,
{
    if i <= 0 {
        Seq::empty()
    } else {
        image_bytes(segs, file, i - 1) + segment_bytes(segs[i - 1], file)
    }
}

/// The spans of supported segments are whole pages, so the pages before a
/// segment are a whole number, and the staging bytes before it are as many
/// pages.
pub proof fn lemma_pages_before(segs: Seq<ProgramHeader>, file: Seq<u8>, i: int)
    requires
        0 <= i <= segs.len(),
        forall|j: int| 0 <= j < segs.len() ==> (#[trigger] segs[j]).supported(),
    ensures
        pages_before(segs, i) >= 0,
        image_bytes(segs, file, i).len() == 4096 * pages_before(segs, i),
        forall|j: int| 0 <= j <= i ==> pages_before(segs, j) <= pages_before(segs, i),
    decreases i,
{
    if i > 0 {
        lemma_pages_before(segs, file, i - 1);
        lemma_span_pages(segs[i - 1]);
    }
}

/// The span of a supported segment starts and ends at page boundaries and
/// holds the segment.
pub proof fn lemma_span_pages(h: ProgramHeader)
    requires
        h.supported(),
    ensures
        h.span_lo() % 4096 == 0,
        h.span_hi() % 4096 == 0,
        0 <= h.span_lo() <= h.vaddr,
        h.vaddr + h.memsz <= h.span_hi(),
        h.pages() >= 0,
        h.span_hi() - h.span_lo() == 4096 * h.pages(),
{
    lemma_span_order(h.vaddr as int, h.vaddr + h.memsz, h.align as int);
    lemma_align_down_bits(h.vaddr, h.align);
    let e = (h.vaddr + h.memsz) as u64;
    lemma_align_down_bits(e, h.align);
    let a = h.align;
    let e_lo = e & !((a - 1) as u64);
    if e as int % a as int != 0 {
        let hi = (e_lo + a) as u64;
        assert(hi % 4096 == 0) by (bit_vector)
            requires
                e_lo % 4096 == 0,
                a != 0 && a & ((a - 1) as u64) == 0,
                a >= 4096,
                hi == e_lo + a,
                e_lo <= 0xffff_ffff_ffff_ffffu64 - a,
        ;
    }
}

/// Reads the entry point and the LOAD segments of an image. The error is
/// `CorruptImage`, for bytes that cannot be read as an image.
pub fn read_load_segments(file: &[u8]) -> (r: Result<(u64, Vec<ProgramHeader>), MapError>)
    ensures
        match r {
            Ok((entry, segs)) => {
                &&& readable(file@)
                &&& entry == entry_point(file@)
                &&& segs@ == load_segments(program_headers(file@))
            },
            Err(e) => e == MapError::CorruptImage && !readable(file@),
        },
{
    if !check_header(file) {
        return Err(MapError::CorruptImage);
    }
    let len = file.len();
    let wide = file[4] == 2;
    let entry = if wide {
        read_u64(file, 24)
    } else {
        read_u32(file, 24) as u64
    };
    let offset = if wide {
        read_u64(file, 32)
    } else {
        read_u32(file, 28) as u64
    };
    let count = if wide {
        read_u16(file, 56)
    } else {
        read_u16(file, 44)
    };
    let size: u64 = if wide {
        56
    } else {
        32
    };
    if offset > len as u64 || (count as u64) * size > len as u64 - offset {
        return Err(MapError::CorruptImage);
    }
    let ghost headers = program_headers(file@);
    let mut segs: Vec<ProgramHeader> = Vec::new();
    let mut i: u16 = 0;
    while i < count
        invariant
            readable(file@),
            count == table_count(file@),
            headers == program_headers(file@),
            i <= count,
            segs@ == load_segments(headers.take(i as int)),
        decreases count - i,
    {
        let ph = read_program_header(file, i);
        proof {
            assert(headers.take(i + 1).drop_last() =~= headers.take(i as int));
            assert(headers.take(i + 1).last() == headers[i as int]);
        }
        if ph.load {
            segs.push(ph);
        }
        i += 1;
    }
    proof {
        assert(headers.take(i as int) =~= headers);
    }
    Ok((entry, segs))
}

/// The segments can be staged: their spans take at least one page, no more
/// pages than a physical memory can have, and no more bytes than a buffer
/// can hold.
pub open spec fn stageable(segs: Seq<ProgramHeader>) -> bool {
    &&& 0 < total_pages(segs) <= MAX_FRAMES
    &&& total_pages(segs) * 4096 <= usize::MAX
}

/// What stands against loading the segments `segs` of a file of `len`
/// bytes at the base `addr`, before any memory is asked for: `CorruptImage`
/// if a segment lies outside the file; else `UnsupportedSegment` if a
/// segment cannot be laid out or two segments share a page; else
/// `OutOfPhysicalMemory` if the spans cannot be staged.
pub open spec fn layout_error(segs: Seq<ProgramHeader>, len: int, addr: u64) -> Option<MapError> {
    if !all_in_file(segs, len) {
        Some(MapError::CorruptImage)
    } else if !all_supported(segs, addr) || !all_apart(segs) {
        Some(MapError::UnsupportedSegment)
    } else if !stageable(segs) {
        Some(MapError::OutOfPhysicalMemory)
    } else {
        None
    }
}

/// Checks that the segments can be loaded at the base `addr` from a file of
/// `len` bytes, and returns the number of pages of staging memory that they
/// take.
pub fn check_segments(segs: &Vec<ProgramHeader>, len: usize, addr: u64) -> (r: Result<
    u64,
    MapError,
>)
    ensures
        match r {
            Ok(pages) => layout_error(segs@, len as int, addr) is None && pages == total_pages(
                segs@,
            ),
            Err(e) => layout_error(segs@, len as int, addr) == Some(e),
        },
{
    let n = segs.len();
    let mut i: usize = 0;
    while i < n
        invariant
            i <= n,
            n == segs@.len(),
            forall|j: int| 0 <= j < i ==> (#[trigger] segs@[j]).in_file(len as int),
        decreases n - i,
    {
        let h = segs[i];
        if h.filesz > len as u64 || h.offset > len as u64 - h.filesz {
            assert(!segs@[i as int].in_file(len as int));
            return Err(MapError::CorruptImage);
        }
        i += 1;
    }
    i = 0;
    while i < n
        invariant
            i <= n,
            n == segs@.len(),
            all_in_file(segs@, len as int),
            forall|j: int|
                0 <= j < i ==> (#[trigger] segs@[j]).supported() && addr + segs@[j].span_hi()
                    <= u64::MAX,
        decreases n - i,
    {
        match segs[i].span() {
            None => {
                assert(!segs@[i as int].supported());
                return Err(MapError::UnsupportedSegment);
            },
            Some((_, hi)) => {
                if hi > u64::MAX - addr {
                    assert(!(addr + segs@[i as int].span_hi() <= u64::MAX));
                    return Err(MapError::UnsupportedSegment);
                }
            },
        }
        i += 1;
    }
    i = 0;
    while i < n
        invariant
            i <= n,
            n == segs@.len(),
            all_in_file(segs@, len as int),
            all_supported(segs@, addr),
            forall|a: int, b: int|
                0 <= a < b < n && b < i ==> apart(#[trigger] segs@[a], #[trigger] segs@[b]),
        decreases n - i,
    {
        let (lo_i, hi_i) = segs[i].span().unwrap();
        let mut j: usize = 0;
        while j < i
            invariant
                j <= i < n,
                n == segs@.len(),
                all_in_file(segs@, len as int),
                all_supported(segs@, addr),
                lo_i == segs@[i as int].span_lo(),
                hi_i == segs@[i as int].span_hi(),
                forall|a: int| 0 <= a < j ==> apart(#[trigger] segs@[a], segs@[i as int]),
            decreases i - j,
        {
            let (lo_j, hi_j) = segs[j].span().unwrap();
            if !(hi_j <= lo_i || hi_i <= lo_j || lo_i == hi_i || lo_j == hi_j) {
                assert(!apart(segs@[j as int], segs@[i as int]));
                return Err(MapError::UnsupportedSegment);
            }
            j += 1;
        }
        i += 1;
    }
    let mut total: u64 = 0;
    i = 0;
    while i < n
        invariant
            i <= n,
            n == segs@.len(),
            all_in_file(segs@, len as int),
            all_supported(segs@, addr),
            all_apart(segs@),
            total == pages_before(segs@, i as int),
            total <= MAX_FRAMES,
        decreases n - i,
    {
        let (lo, hi) = segs[i].span().unwrap();
        let pages = (hi - lo) / 4096;
        proof {
            lemma_span_pages(segs@[i as int]);
            lemma_pages_before(segs@, Seq::<u8>::empty(), n as int);
            assert(pages_before(segs@, i + 1) == total + pages);
        }
        if pages > MAX_FRAMES - total {
            return Err(MapError::OutOfPhysicalMemory);
        }
        total = total + pages;
        i += 1;
    }
    if total == 0 || total > (usize::MAX / 4096) as u64 {
        return Err(MapError::OutOfPhysicalMemory);
    }
    Ok(total)
}

/// Lays the segments out in staging memory: the span of each segment after
/// that of the one before, with the segment's bytes copied from the file to
/// their place in the span and every other byte zero.
pub fn stage_segments(file: &[u8], segs: &Vec<ProgramHeader>) -> (staging: Vec<u8>)
    requires
        all_in_file(segs@, file@.len() as int),
        forall|j: int| 0 <= j < segs@.len() ==> (#[trigger] segs@[j]).supported(),
        total_pages(segs@) * 4096 <= usize::MAX,
    ensures
        staging@ == image_bytes(segs@, file@, segs@.len() as int),
        staging@.len() == 4096 * total_pages(segs@),
{
    let n = segs.len();
    let len = file.len();
    let mut staging: Vec<u8> = Vec::new();
    let mut i: usize = 0;
    proof {
        lemma_pages_before(segs@, file@, n as int);
    }
    while i < n
        invariant
            i <= n,
            n == segs@.len(),
            len == file@.len(),
            all_in_file(segs@, file@.len() as int),
            forall|j: int| 0 <= j < segs@.len() ==> (#[trigger] segs@[j]).supported(),
            total_pages(segs@) * 4096 <= usize::MAX,
            staging@ == image_bytes(segs@, file@, i as int),
        decreases n - i,
    {
        let h = segs[i];
        let (lo, hi) = h.span().unwrap();
        let pad = h.vaddr - lo;
        let size = hi - lo;
        let ghost before = staging@;
        proof {
            lemma_pages_before(segs@, file@, i as int);
            lemma_pages_before(segs@, file@, i + 1);
            lemma_pages_before(segs@, file@, n as int);
            lemma_span_pages(h);
        }
        let mut p: u64 = 0;
        while p < size
            invariant
                p <= size,
                h == segs@[i as int],
                i < n,
                n == segs@.len(),
                len == file@.len(),
                h.in_file(file@.len() as int),
                h.supported(),
                lo == h.span_lo(),
                hi == h.span_hi(),
                pad == h.vaddr - lo,
                size == hi - lo,
                before.len() + size <= usize::MAX,
                staging@ == before + segment_bytes(h, file@).take(p as int),
            decreases size - p,
        {
            let byte = if pad <= p && p - pad < h.filesz {
                file[(h.offset + (p - pad)) as usize]
            } else {
                0u8
            };
            staging.push(byte);
            proof {
                assert(segment_bytes(h, file@).take(p + 1) =~= segment_bytes(h, file@).take(
                    p as int,
                ).push(byte));
                assert(staging@ =~= before + segment_bytes(h, file@).take(p + 1));
            }
            p += 1;
        }
        proof {
            assert(segment_bytes(h, file@).take(size as int) =~= segment_bytes(h, file@));
        }
        i += 1;
    }
    staging
}

/// Resolves `addr` from the root of `pw`, creating the tables that are
/// missing in frames from `palloc`, and returns the leaf entry, or the rank
/// of the level at which the walk had to stop. What holds afterwards is
/// stated by [`leaf_created`].
pub fn get_pte<A: PhysicalPageAllocator>(pw: &mut PageWalker, palloc: &mut A, addr: u64) -> (r:
    Result<PTEntry, u8>)
    requires
        old(pw).wf(),
        old(palloc).inv(),
    ensures
        final(pw).wf(),
        final(palloc).inv(),
        leaf_created(old(pw).root(), final(pw).root(), old(palloc), final(palloc), addr, r),
{
    pw.create_leaf(addr, palloc)
}

/// The entry that maps a page to the frame `frame` with the flags `flags`.
pub open spec fn page_entry(frame: u64, flags: u64) -> Option<PTEntry> {
    if word_has(flags, PRESENT) {
        Some(PTEntry::from_word(PTEntry::mapping(frame, flags)))
    } else {
        None
    }
}

/// What `map_page` promises when it is asked to map the page of `vaddr` to
/// `frame` with `flags`, returns `r`, and takes the walker from `pw0` to
/// `pw1` and the allocator from `a0` to `a1`.
///
/// The error is `PageTableConflict` exactly if the page was mapped to
/// another frame, and otherwise `MappingFailed`, with the address and the
/// rank of the level at which the walk stops; after an error no address has
/// gained, lost or changed a mapping. After success every address on the
/// page of `vaddr` is mapped by the new entry and every other address as
/// before. Where the leaf entry of the page existed before, nothing is
/// allocated, and the call succeeds unless there is a conflict. Which way
/// the call ends is stated by [`map_outcome`].
pub open spec fn page_mapping<A: PhysicalPageAllocator>(
    pw0: PageWalker,
    pw1: PageWalker,
    a0: &A,
    a1: &A,
    vaddr: u64,
    frame: u64,
    flags: u64,
    r: Result<(), MapError>,
) -> bool {
    &&& r == Err::<(), MapError>(MapError::PageTableConflict) <==> (pw0.mapped(vaddr) matches Some(
        e,
    ) && word_addr(e@) != frame)
    &&& r matches Err(MapError::MappingFailed { level, vaddr: v }) ==> {
        &&& v == vaddr
        &&& pw1.walk(vaddr) == Err::<PTEntry, u8>(level)
        &&& pw0.walk(vaddr) is Err
    }
    &&& r is Err ==> (r == Err::<(), MapError>(MapError::PageTableConflict) || r matches Err(
        MapError::MappingFailed { .. },
    ))
    &&& r is Err ==> forall|v: u64| #[trigger] pw1.mapped(v) == pw0.mapped(v)
    &&& r is Ok ==> pw1.walk(vaddr) is Ok && forall|v: u64|
        #[trigger] pw1.mapped(v) == if same_path(v, vaddr, pw0.root().level().rank()) {
            page_entry(frame, flags)
        } else {
            pw0.mapped(v)
        }
    &&& pw0.walk(vaddr) is Ok ==> *a1 == *a0 && (r is Ok || r == Err::<(), MapError>(
        MapError::PageTableConflict,
    ))
    &&& forall|v: u64| #[trigger] pw1.root().blocked(v) == pw0.root().blocked(v)
    &&& r == map_outcome(pw0, a0, vaddr, frame)
    &&& r matches Err(MapError::MappingFailed { .. }) ==> pw1.root().blocked(vaddr) || a1.next()
        is None
    &&& pw0.walk(vaddr) matches Err(l0) ==> !pw0.root().blocked(vaddr) ==> a1.available() == if r
        is Ok {
        a0.available() - (l0 - 1)
    } else {
        0
    }
}

/// How mapping the page of `vaddr` to `frame` ends, from the walker and the
/// allocator as they are before: with a conflict if the page is mapped to
/// another frame; else well if its leaf entry exists; else, where the walk
/// stops at the level of rank `l0`, with a failure at that rank if the entry
/// there is in use, well if the allocator has the `l0 - 1` frames for the
/// missing tables, and with a failure at the rank that is left if it has
/// fewer.
pub open spec fn map_outcome<A: PhysicalPageAllocator>(
    pw0: PageWalker,
    a0: &A,
    vaddr: u64,
    frame: u64,
) -> Result<(), MapError> {
    match pw0.walk(vaddr) {
        Ok(e) => if e.present() && word_addr(e@) != frame {
            Err(MapError::PageTableConflict)
        } else {
            Ok(())
        },
        Err(l0) => if pw0.root().blocked(vaddr) {
            Err(MapError::MappingFailed { level: l0, vaddr })
        } else if a0.available() >= l0 - 1 {
            Ok(())
        } else {
            Err(MapError::MappingFailed { level: (l0 - a0.available()) as u8, vaddr })
        },
    }
}

/// Mapping a page a second time to the same frame with the same flags
/// succeeds, allocates nothing and leaves every address mapped as the first
/// time left it.
pub proof fn lemma_map_page_twice<A: PhysicalPageAllocator>(
    pw0: PageWalker,
    pw1: PageWalker,
    pw2: PageWalker,
    a0: &A,
    a1: &A,
    a2: &A,
    vaddr: u64,
    frame: u64,
    flags: u64,
    second: Result<(), MapError>,
)
    requires
        pw0.wf(),
        pw1.wf(),
        pw1.root().level() == pw0.root().level(),
        is_frame_addr(frame),
        flags & ADDR_MASK == 0,
        page_mapping(pw0, pw1, a0, a1, vaddr, frame, flags, Ok(())),
        page_mapping(pw1, pw2, a1, a2, vaddr, frame, flags, second),
    ensures
        second is Ok,
        *a2 == *a1,
        forall|v: u64| #[trigger] pw2.mapped(v) == pw1.mapped(v),
{
    let rank = pw0.root().level().rank();
    lemma_same_path_refl_sym(vaddr, vaddr, rank);
    assert(pw1.mapped(vaddr) == page_entry(frame, flags));
    lemma_mapping_parts(frame, flags);
    PTEntry::lemma_from_word(PTEntry::mapping(frame, flags));
    assert forall|v: u64| #[trigger] pw2.mapped(v) == pw1.mapped(v) by {
        if same_path(v, vaddr, rank) {
            assert(pw1.mapped(v) == page_entry(frame, flags));
        }
    }
}

/// Maps the page of `vaddr` to the frame `frame` with the flags `flags`,
/// which must include `PRESENT`, creating the tables on the way to its leaf
/// entry in frames from `palloc`. What holds afterwards is stated by
/// [`page_mapping`].
pub fn map_page<A: PhysicalPageAllocator>(
    pw: &mut PageWalker,
    palloc: &mut A,
    vaddr: u64,
    frame: u64,
    flags: PageTableFlags,
) -> (r: Result<(), MapError>)
    requires
        old(pw).wf(),
        old(palloc).inv(),
        is_frame_addr(frame),
        flags.has(PRESENT),
    ensures
        final(pw).wf(),
        final(palloc).inv(),
        final(pw).root().level() == old(pw).root().level(),
        final(pw).root().frame() == old(pw).root().frame(),
        page_mapping(*old(pw), *final(pw), old(palloc), final(palloc), vaddr, frame, flags@, r),
{
    let leaf = match pw.create_leaf(vaddr, palloc) {
        Ok(e) => e,
        Err(level) => {
            return Err(MapError::MappingFailed { level, vaddr });
        },
    };
    assert(pw.mapped(vaddr) == old(pw).mapped(vaddr));
    if leaf.is_present() && leaf.addr() != frame {
        return Err(MapError::PageTableConflict);
    }
    let ghost mid = *pw;
    let mut entry = PTEntry::new();
    entry.set_addr(frame, flags);
    let bits = flags.bits();
    proof {
        lemma_mapping_parts(frame, bits);
    }
    let set = pw.set_leaf(vaddr, entry);
    proof {
        PTEntry::lemma_word(entry);
        assert forall|v: u64|
            #[trigger] pw.mapped(v) == if same_path(v, vaddr, old(pw).root().level().rank()) {
                page_entry(frame, flags@)
            } else {
                old(pw).mapped(v)
            } by {
            assert(mid.mapped(v) == old(pw).mapped(v));
            assert(pw.walk(v) == if same_path(v, vaddr, old(pw).root().level().rank()) {
                Ok::<PTEntry, u8>(entry)
            } else {
                mid.walk(v)
            });
        }
    }
    Ok(())
}

/// Segment `i` has a page with number `k`.
pub open spec fn is_page(segs: Seq<ProgramHeader>, i: int, k: int) -> bool {
    0 <= i < segs.len() && 0 <= k < segs[i].pages()
}

/// The virtual address of page `k` of segment `i` of an image loaded at
/// `addr`.
pub open spec fn page_vaddr(segs: Seq<ProgramHeader>, addr: u64, i: int, k: int) -> u64 {
    (addr + segs[i].span_lo() + 4096 * k) as u64
}

/// The frame of page `k` of segment `i` in staging memory that starts at
/// `base`.
pub open spec fn page_frame(segs: Seq<ProgramHeader>, base: u64, i: int, k: int) -> u64 {
    (base + 4096 * (pages_before(segs, i) + k)) as u64
}

/// Page `k` of segment `i` comes before page `k2` of segment `i2`.
pub open spec fn page_before(i: int, k: int, i2: int, k2: int) -> bool {
    i < i2 || (i == i2 && k < k2)
}

/// Page `k` of segment `i` is mapped to its frame with the flags of its
/// segment.
pub open spec fn page_mapped(
    pw: PageWalker,
    segs: Seq<ProgramHeader>,
    addr: u64,
    base: u64,
    i: int,
    k: int,
) -> bool {
    pw.mapped(page_vaddr(segs, addr, i, k)) == page_entry(
        page_frame(segs, base, i, k),
        segs[i].page_flags(),
    )
}

/// All pages of the image before page `k2` of segment `i2` are mapped.
pub open spec fn pages_mapped(
    pw: PageWalker,
    segs: Seq<ProgramHeader>,
    addr: u64,
    base: u64,
    i2: int,
    k2: int,
) -> bool {
    forall|i: int, k: int|
        is_page(segs, i, k) && page_before(i, k, i2, k2) ==> #[trigger] page_mapped(
            pw,
            segs,
            addr,
            base,
            i,
            k,
        )
}

/// The address `v` resolves like a page of the image before page `k2` of
/// segment `i2`.
pub open spec fn on_image_page(
    v: u64,
    segs: Seq<ProgramHeader>,
    addr: u64,
    rank: nat,
    i2: int,
    k2: int,
) -> bool {
    exists|i: int, k: int|
        is_page(segs, i, k) && page_before(i, k, i2, k2) && #[trigger] same_path(
            v,
            page_vaddr(segs, addr, i, k),
            rank,
        )
}

/// Every address that is on none of the pages of the image before page
/// `k2` of segment `i2` is mapped in `pw` as it is in `pre`.
pub open spec fn others_kept(
    pw: PageWalker,
    pre: PageWalker,
    segs: Seq<ProgramHeader>,
    addr: u64,
    i2: int,
    k2: int,
) -> bool {
    forall|v: u64|
        !on_image_page(v, segs, addr, pre.root().level().rank(), i2, k2) ==> #[trigger] pw.mapped(
            v,
        ) == pre.mapped(v)
}

/// Mapping the next page of the image keeps the pages before it mapped and
/// all other addresses as they were.
proof fn lemma_map_step(
    pw0: PageWalker,
    pw1: PageWalker,
    pre: PageWalker,
    segs: Seq<ProgramHeader>,
    addr: u64,
    base: u64,
    i: int,
    k: int,
)
    requires
        pw0.wf(),
        pw0.root().level() == pre.root().level(),
        is_page(segs, i, k),
        forall|j: int| 0 <= j < segs.len() ==> (#[trigger] segs[j]).supported(),
        is_frame_addr(base),
        base + 4096 * total_pages(segs) <= ADDR_MASK + 4096,
        pages_mapped(pw0, segs, addr, base, i, k),
        others_kept(pw0, pre, segs, addr, i, k),
        !(pw0.mapped(page_vaddr(segs, addr, i, k)) matches Some(e) && word_addr(e@) != page_frame(
            segs,
            base,
            i,
            k,
        )),
        forall|v: u64|
            #[trigger] pw1.mapped(v) == if same_path(
                v,
                page_vaddr(segs, addr, i, k),
                pw0.root().level().rank(),
            ) {
                page_entry(page_frame(segs, base, i, k), segs[i].page_flags())
            } else {
                pw0.mapped(v)
            },
    ensures
        pages_mapped(pw1, segs, addr, base, i, k + 1),
        others_kept(pw1, pre, segs, addr, i, k + 1),
{
    let rank = pw0.root().level().rank();
    let va = page_vaddr(segs, addr, i, k);
    let fr = page_frame(segs, base, i, k);
    lemma_pages_before(segs, Seq::<u8>::empty(), segs.len() as int);
    lemma_pages_before(segs, Seq::<u8>::empty(), i);
    lemma_pages_before(segs, Seq::<u8>::empty(), i + 1);
    assert forall|j: int, l: int|
        is_page(segs, j, l) && page_before(j, l, i, k + 1) implies #[trigger] page_mapped(
        pw1,
        segs,
        addr,
        base,
        j,
        l,
    ) by {
        let vj = page_vaddr(segs, addr, j, l);
        if j == i && l == k {
            lemma_same_path_refl_sym(va, va, rank);
        } else {
            assert(page_mapped(pw0, segs, addr, base, j, l));
            if same_path(vj, va, rank) {
                pw0.root().lemma_same_path_walk(vj, va);
                let fj = page_frame(segs, base, j, l);
                segs[j].lemma_page_flags();
                lemma_pages_before(segs, Seq::<u8>::empty(), j + 1);
                assert(pages_before(segs, j) + l < pages_before(segs, i) + k);
                assert(pages_before(segs, i) + k < total_pages(segs));
                lemma_frame_in_range(base, pages_before(segs, j) + l, total_pages(segs));
                lemma_mapping_parts(fj, segs[j].page_flags());
                PTEntry::lemma_from_word(PTEntry::mapping(fj, segs[j].page_flags()));
                assert(false);
            }
        }
    }
    assert forall|v: u64|
        !on_image_page(v, segs, addr, pre.root().level().rank(), i, k + 1) implies #[trigger] pw1.mapped(
        v,
    ) == pre.mapped(v) by {
        if same_path(v, va, rank) {
            assert(on_image_page(v, segs, addr, rank, i, k + 1));
        }
        if on_image_page(v, segs, addr, rank, i, k) {
            let (j, l) = choose|j: int, l: int|
                is_page(segs, j, l) && page_before(j, l, i, k) && #[trigger] same_path(
                    v,
                    page_vaddr(segs, addr, j, l),
                    rank,
                );
            assert(is_page(segs, j, l) && page_before(j, l, i, k + 1) && same_path(
                v,
                page_vaddr(segs, addr, j, l),
                rank,
            ));
        }
    }
}

/// A page within staging memory of `total` pages from the frame address
/// `base` on lies at a frame address.
pub proof fn lemma_frame_in_range(base: u64, n: int, total: int)
    requires
        is_frame_addr(base),
        0 <= n < total,
        base + 4096 * total <= ADDR_MASK + 4096,
    ensures
        is_frame_addr((base + 4096 * n) as u64),
        base + 4096 * n <= ADDR_MASK,
{
    let f = (base + 4096 * n) as u64;
    let m = n as u64;
    assert(f & ADDR_MASK == f) by (bit_vector)
        requires
            base & ADDR_MASK == base,
            m < 0x100_0000_0000,
            f == base + 4096 * m,
            f <= ADDR_MASK,
    ;
}

/// Mapping has come as far as page `k` of segment `i` and no further: all
/// pages before that one are mapped, and every address on none of them is
/// mapped as it was in `pw0`.
pub open spec fn stopped_at(
    pw1: PageWalker,
    pw0: PageWalker,
    segs: Seq<ProgramHeader>,
    addr: u64,
    base: u64,
    i: int,
    k: int,
) -> bool {
    pages_mapped(pw1, segs, addr, base, i, k) && others_kept(pw1, pw0, segs, addr, i, k)
}

/// What stands against loading an image before any page is mapped: what
/// stands against its layout; else `UnsupportedSegment` if the entry point,
/// moved to the base `addr`, lies past the end of the address space; else
/// `OutOfPhysicalMemory` if the page source has fewer than the pages of the
/// staging memory left.
pub open spec fn early_error(
    segs: Seq<ProgramHeader>,
    len: int,
    addr: u64,
    entry: u64,
    source: PageSource,
) -> Option<MapError> {
    if layout_error(segs, len, addr) is Some {
        layout_error(segs, len, addr)
    } else if addr + entry > u64::MAX {
        Some(MapError::UnsupportedSegment)
    } else if total_pages(segs) > source.spec_remaining() {
        Some(MapError::OutOfPhysicalMemory)
    } else {
        None
    }
}

/// What loading an image with the entry point `entry` and the LOAD
/// segments `segs` at the base `addr` comes to.
///
/// Where something stands against it early, that is the error, and nothing
/// has changed. Otherwise the staging memory was taken from the page source
/// and holds the image, and then either every page of every segment is
/// mapped to its frame of the staging memory with the flags of its segment,
/// and every address on none of these pages is mapped as before; or mapping
/// stopped at a page that was mapped to another frame, or at one whose leaf
/// entry could not be created, with all pages before that one mapped.
pub open spec fn loaded(
    r: Result<MapElfRet, MapError>,
    file: Seq<u8>,
    entry: u64,
    segs: Seq<ProgramHeader>,
    addr: u64,
    pw0: PageWalker,
    pw1: PageWalker,
    source0: PageSource,
    source1: PageSource,
    staging0: Seq<u8>,
    staging1: Seq<u8>,
) -> bool {
    match early_error(segs, file.len() as int, addr, entry, source0) {
        Some(e) => {
            &&& r == Err::<MapElfRet, MapError>(e)
            &&& pw1 == pw0
            &&& source1 == source0
            &&& staging1 == staging0
        },
        None => {
            &&& staging1 == image_bytes(segs, file, segs.len() as int)
            &&& staging1.len() == 4096 * total_pages(segs)
            &&& source1.spec_remaining() == source0.spec_remaining() - total_pages(segs)
            &&& match r {
                Ok(ret) => {
                    &&& ret.base == source0.spec_next()
                    &&& is_frame_addr(ret.base)
                    &&& ret.base + 4096 * total_pages(segs) <= ADDR_MASK + 4096
                    &&& ret.pages == total_pages(segs)
                    &&& ret.entry_point == addr + entry
                    &&& pages_mapped(pw1, segs, addr, ret.base, segs.len() as int, 0)
                    &&& others_kept(pw1, pw0, segs, addr, segs.len() as int, 0)
                },
                Err(MapError::PageTableConflict) => exists|i: int, k: int|
                    {
                        &&& #[trigger] is_page(segs, i, k)
                        &&& stopped_at(pw1, pw0, segs, addr, source0.spec_next(), i, k)
                        &&& pw1.mapped(page_vaddr(segs, addr, i, k)) matches Some(e) && word_addr(
                            e@,
                        ) != page_frame(segs, source0.spec_next(), i, k)
                    },
                Err(MapError::MappingFailed { level, vaddr }) => exists|i: int, k: int|
                    {
                        &&& #[trigger] is_page(segs, i, k)
                        &&& stopped_at(pw1, pw0, segs, addr, source0.spec_next(), i, k)
                        &&& vaddr == page_vaddr(segs, addr, i, k)
                        &&& pw1.walk(vaddr) == Err::<PTEntry, u8>(level)
                    },
                Err(_) => false,
            }
        },
    }
}

/// In a loaded image every page of every segment is present and mapped to
/// its frame of the staging memory; it is writable exactly if its segment
/// may be written, and closed to execution exactly if its segment may not
/// be executed.
pub proof fn lemma_loaded_page(
    ret: MapElfRet,
    file: Seq<u8>,
    entry: u64,
    segs: Seq<ProgramHeader>,
    addr: u64,
    pw0: PageWalker,
    pw1: PageWalker,
    source0: PageSource,
    source1: PageSource,
    staging0: Seq<u8>,
    staging1: Seq<u8>,
    i: int,
    k: int,
)
    requires
        loaded(Ok(ret), file, entry, segs, addr, pw0, pw1, source0, source1, staging0, staging1),
        is_page(segs, i, k),
    ensures
        pw1.mapped(page_vaddr(segs, addr, i, k)) matches Some(e) && {
            &&& e.present()
            &&& word_addr(e@) == ret.base + 4096 * (pages_before(segs, i) + k)
            &&& word_has(e@, WRITABLE) == (segs[i].flags & PF_WRITE == PF_WRITE)
            &&& word_has(e@, NO_EXECUTE) == !(segs[i].flags & PF_EXECUTE == PF_EXECUTE)
        },
        page_vaddr(segs, addr, i, k) == addr + segs[i].span_lo() + 4096 * k,
        segs[i].span_lo() + 4096 * k < segs[i].span_hi(),
{
    assert(page_mapped(pw1, segs, addr, ret.base, i, k));
    segs[i].lemma_page_flags();
    lemma_span_pages(segs[i]);
    lemma_pages_before(segs, file, segs.len() as int);
    lemma_pages_before(segs, file, i + 1);
    lemma_frame_in_range(ret.base, pages_before(segs, i) + k, total_pages(segs));
    let frame = page_frame(segs, ret.base, i, k);
    lemma_mapping_parts(frame, segs[i].page_flags());
    PTEntry::lemma_from_word(PTEntry::mapping(frame, segs[i].page_flags()));
}

/// The image can be mapped without a conflict: moved to the base `addr`,
/// every span ends within the reach of the walker, and no page of the
/// image is mapped or lies behind an entry that is in use without a table
/// below it.
pub open spec fn clear_ground(pw0: PageWalker, segs: Seq<ProgramHeader>, addr: u64) -> bool {
    &&& forall|i: int|
        0 <= i < segs.len() ==> addr + (#[trigger] segs[i]).span_hi() <= address_space(
            pw0.root().level().rank(),
        )
    &&& forall|i: int, k: int| #[trigger]
        is_page(segs, i, k) ==> pw0.mapped(page_vaddr(segs, addr, i, k)) is None
            && !pw0.root().blocked(page_vaddr(segs, addr, i, k))
}

/// The allocator has a frame for every table that the pages of the image
/// can need: one for each level below the root and each page.
pub open spec fn frames_suffice<A: PhysicalPageAllocator>(
    pw0: PageWalker,
    a0: &A,
    segs: Seq<ProgramHeader>,
) -> bool {
    a0.available() >= (pw0.root().level().rank() - 1) * total_pages(segs)
}

/// Two different pages of an image whose segments share no page lie at
/// different page addresses.
proof fn lemma_pages_distinct(
    segs: Seq<ProgramHeader>,
    addr: u64,
    i: int,
    k: int,
    j: int,
    l: int,
)
    requires
        all_supported(segs, addr),
        all_apart(segs),
        is_page(segs, i, k),
        is_page(segs, j, l),
        i != j || k != l,
    ensures
        page_vaddr(segs, addr, i, k) >> 12 != page_vaddr(segs, addr, j, l) >> 12,
        page_vaddr(segs, addr, i, k) == addr + segs[i].span_lo() + 4096 * k,
        page_vaddr(segs, addr, i, k) < addr + segs[i].span_hi(),
{
    lemma_span_pages(segs[i]);
    lemma_span_pages(segs[j]);
    let a = page_vaddr(segs, addr, i, k);
    let b = page_vaddr(segs, addr, j, l);
    assert(a >> 12 == a / 4096) by (bit_vector);
    assert(b >> 12 == b / 4096) by (bit_vector);
    let p = segs[i].span_lo() + 4096 * k;
    let q = segs[j].span_lo() + 4096 * l;
    if i < j {
        assert(apart(segs[i], segs[j]));
    } else if j < i {
        assert(apart(segs[j], segs[i]));
    }
    assert(p % 4096 == 0 && q % 4096 == 0);
    assert(p != q);
}

/// Where the ground is clear and a frame is at hand for every level below
/// the root, mapping the next page of the image ends well.
proof fn lemma_step_owed<A: PhysicalPageAllocator>(
    pw: PageWalker,
    pre: PageWalker,
    a: &A,
    segs: Seq<ProgramHeader>,
    addr: u64,
    i: int,
    k: int,
    frame: u64,
)
    requires
        pw.wf(),
        pw.root().level() == pre.root().level(),
        all_supported(segs, addr),
        all_apart(segs),
        is_page(segs, i, k),
        clear_ground(pre, segs, addr),
        others_kept(pw, pre, segs, addr, i, k),
        forall|v: u64| #[trigger] pw.root().blocked(v) == pre.root().blocked(v),
        a.available() >= pw.root().level().rank() - 1,
    ensures
        map_outcome(pw, a, page_vaddr(segs, addr, i, k), frame) is Ok,
{
    let rank = pre.root().level().rank();
    let v = page_vaddr(segs, addr, i, k);
    lemma_span_pages(segs[i]);
    assert(!on_image_page(v, segs, addr, rank, i, k)) by {
        assert forall|j: int, l: int|
            is_page(segs, j, l) && page_before(j, l, i, k) implies !#[trigger] same_path(
            v,
            page_vaddr(segs, addr, j, l),
            rank,
        ) by {
            lemma_pages_distinct(segs, addr, i, k, j, l);
            lemma_pages_distinct(segs, addr, j, l, i, k);
            lemma_same_path_is_same_page(v, page_vaddr(segs, addr, j, l), rank);
        }
    }
    assert(pw.mapped(v) == pre.mapped(v));
    assert(pre.mapped(v) is None);
    assert(!pre.root().blocked(v));
    if pw.walk(v) is Err {
        pw.root().lemma_walk_err_rank(v);
    }
}

/// Loads an image whose entry point and LOAD segments are given, at the
/// virtual base `addr`: checks the segments, takes the staging memory from
/// `source`, lays the segments out in `staging`, which stands for that
/// memory, and maps every page of every segment through `pw`, with tables
/// in frames from `palloc`. Nothing is unmapped after a failure.
///
/// Once nothing stands against the image early, loading succeeds wherever
/// the ground is clear and `palloc` has a frame for every table that the
/// pages can need.
pub fn map_segments<A: PhysicalPageAllocator>(
    file: &[u8],
    entry: u64,
    segs: &Vec<ProgramHeader>,
    addr: u64,
    pw: &mut PageWalker,
    palloc: &mut A,
    source: &mut PageSource,
    staging: &mut Vec<u8>,
) -> (r: Result<MapElfRet, MapError>)
    requires
        old(pw).wf(),
        old(palloc).inv(),
    ensures
        final(pw).wf(),
        final(palloc).inv(),
        final(pw).root().level() == old(pw).root().level(),
        final(pw).root().frame() == old(pw).root().frame(),
        loaded(
            r,
            file@,
            entry,
            segs@,
            addr,
            *old(pw),
            *final(pw),
            *old(source),
            *final(source),
            old(staging)@,
            final(staging)@,
        ),
        early_error(segs@, file@.len() as int, addr, entry, *old(source)) is Some ==> *final(palloc)
            == *old(palloc),
        early_error(segs@, file@.len() as int, addr, entry, *old(source)) is None && clear_ground(
            *old(pw),
            segs@,
            addr,
        ) && frames_suffice(*old(pw), old(palloc), segs@) ==> r is Ok,
{
    let ghost owed = clear_ground(*old(pw), segs@, addr) && frames_suffice(
        *old(pw),
        old(palloc),
        segs@,
    );
    let ghost rank = old(pw).root().level().rank() as int;
    let total = match check_segments(segs, file.len(), addr) {
        Ok(t) => t,
        Err(e) => {
            return Err(e);
        },
    };
    if entry > u64::MAX - addr {
        return Err(MapError::UnsupportedSegment);
    }
    let base = match source.allocate_contiguous_pages(total) {
        Some(b) => b,
        None => {
            return Err(MapError::OutOfPhysicalMemory);
        },
    };
    *staging = stage_segments(file, segs);
    let n = segs.len();
    let mut done: u64 = 0;
    let mut i: usize = 0;
    proof {
        lemma_pages_before(segs@, file@, n as int);
    }
    while i < n
        invariant
            i <= n,
            n == segs@.len(),
            pw.wf(),
            palloc.inv(),
            pw.root().level() == old(pw).root().level(),
            pw.root().frame() == old(pw).root().frame(),
            all_supported(segs@, addr),
            is_frame_addr(base),
            base + 4096 * total_pages(segs@) <= ADDR_MASK + 4096,
            early_error(segs@, file@.len() as int, addr, entry, *old(source)) is None,
            staging@ == image_bytes(segs@, file@, segs@.len() as int),
            staging@.len() == 4096 * total_pages(segs@),
            source.spec_remaining() == old(source).spec_remaining() - total_pages(segs@),
            base == old(source).spec_next(),
            total == total_pages(segs@),
            done == pages_before(segs@, i as int),
            pages_mapped(*pw, segs@, addr, base, i as int, 0),
            others_kept(*pw, *old(pw), segs@, addr, i as int, 0),
            rank == old(pw).root().level().rank(),
            owed == (clear_ground(*old(pw), segs@, addr) && frames_suffice(
                *old(pw),
                old(palloc),
                segs@,
            )),
            owed ==> palloc.available() >= (rank - 1) * (total - done),
            forall|v: u64| #[trigger] pw.root().blocked(v) == old(pw).root().blocked(v),
        decreases n - i,
    {
        let h = segs[i];
        let (lo, hi) = h.span().unwrap();
        let count = (hi - lo) / 4096;
        let flags = h.page_table_flags();
        proof {
            h.lemma_page_flags();
            lemma_span_pages(h);
            lemma_pages_before(segs@, Seq::<u8>::empty(), n as int);
            lemma_pages_before(segs@, Seq::<u8>::empty(), i + 1);
        }
        let mut k: u64 = 0;
        while k < count
            invariant
                k <= count,
                i < n,
                n == segs@.len(),
                h == segs@[i as int],
                count == h.pages(),
                lo == h.span_lo(),
                hi == h.span_hi(),
                hi - lo == 4096 * count,
                flags@ == h.page_flags(),
                flags.has(PRESENT),
                pw.wf(),
                palloc.inv(),
                pw.root().level() == old(pw).root().level(),
                pw.root().frame() == old(pw).root().frame(),
                all_supported(segs@, addr),
                is_frame_addr(base),
                base + 4096 * total_pages(segs@) <= ADDR_MASK + 4096,
                early_error(segs@, file@.len() as int, addr, entry, *old(source)) is None,
                staging@ == image_bytes(segs@, file@, segs@.len() as int),
                staging@.len() == 4096 * total_pages(segs@),
                source.spec_remaining() == old(source).spec_remaining() - total_pages(segs@),
                base == old(source).spec_next(),
                total == total_pages(segs@),
                done == pages_before(segs@, i as int),
                done + count <= total,
                pages_mapped(*pw, segs@, addr, base, i as int, k as int),
                others_kept(*pw, *old(pw), segs@, addr, i as int, k as int),
                rank == old(pw).root().level().rank(),
                owed == (clear_ground(*old(pw), segs@, addr) && frames_suffice(
                    *old(pw),
                    old(palloc),
                    segs@,
                )),
                owed ==> palloc.available() >= (rank - 1) * (total - done - k),
                forall|v: u64| #[trigger] pw.root().blocked(v) == old(pw).root().blocked(v),
            decreases count - k,
        {
            let vaddr = addr + lo + 4096 * k;
            let frame = base + 4096 * (done + k);
            proof {
                lemma_frame_in_range(base, done + k, total as int);
                assert(is_page(segs@, i as int, k as int));
                assert(vaddr == page_vaddr(segs@, addr, i as int, k as int));
                assert(frame == page_frame(segs@, base, i as int, k as int));
            }
            let ghost pw0 = *pw;
            let ghost a0 = palloc.available() as int;
            proof {
                if owed {
                    assert(all_apart(segs@));
                    assert(1 <= rank <= 5);
                    assert((rank - 1) * (total - done - k) >= rank - 1) by (nonlinear_arith)
                        requires
                            rank >= 1,
                            total - done - k >= 1,
                    ;
                    lemma_step_owed(
                        pw0,
                        *old(pw),
                        palloc,
                        segs@,
                        addr,
                        i as int,
                        k as int,
                        frame,
                    );
                }
            }
            match map_page(pw, palloc, vaddr, frame, flags) {
                Ok(()) => {},
                Err(e) => {
                    proof {
                        assert(is_page(segs@, i as int, k as int));
                        assert forall|j: int, l: int|
                            is_page(segs@, j, l) && page_before(
                                j,
                                l,
                                i as int,
                                k as int,
                            ) implies #[trigger] page_mapped(*pw, segs@, addr, base, j, l) by {
                            assert(page_mapped(pw0, segs@, addr, base, j, l));
                        }
                        assert(stopped_at(*pw, *old(pw), segs@, addr, base, i as int, k as int));
                    }
                    return Err(e);
                },
            }
            proof {
                lemma_map_step(pw0, *pw, *old(pw), segs@, addr, base, i as int, k as int);
                if owed {
                    if pw0.walk(vaddr) is Err {
                        pw0.root().lemma_walk_err_rank(vaddr);
                    }
                    assert(palloc.available() >= a0 - (rank - 1));
                    assert((rank - 1) * (total - done - k) - (rank - 1) == (rank - 1) * (total
                        - done - (k + 1))) by (nonlinear_arith);
                }
            }
            k += 1;
        }
        proof {
            assert forall|j: int, l: int|
                is_page(segs@, j, l) && page_before(j, l, i + 1, 0) implies #[trigger] page_mapped(
                *pw,
                segs@,
                addr,
                base,
                j,
                l,
            ) by {
                assert(page_before(j, l, i as int, count as int));
            }
            assert forall|v: u64|
                !on_image_page(
                    v,
                    segs@,
                    addr,
                    old(pw).root().level().rank(),
                    i + 1,
                    0,
                ) implies #[trigger] pw.mapped(v) == old(pw).mapped(v) by {
                let rank = old(pw).root().level().rank();
                if on_image_page(v, segs@, addr, rank, i as int, count as int) {
                    let (j, l) = choose|j: int, l: int|
                        is_page(segs@, j, l) && page_before(j, l, i as int, count as int)
                            && #[trigger] same_path(v, page_vaddr(segs@, addr, j, l), rank);
                    assert(is_page(segs@, j, l) && page_before(j, l, i + 1, 0) && same_path(
                        v,
                        page_vaddr(segs@, addr, j, l),
                        rank,
                    ));
                }
            }
        }
        done = done + count;
        i += 1;
    }
    Ok(MapElfRet { base, pages: total as usize, entry_point: addr + entry })
}

/// Maps an ELF image into the address space of `pw` at the virtual base
/// `addr`. The error is `CorruptImage` where the bytes cannot be read as an
/// image. The rest is the work of
/// [`map_segments`] on the entry point and the LOAD segments that were
/// read.
pub fn map_elf<A: PhysicalPageAllocator>(
    file: &[u8],
    addr: u64,
    pw: &mut PageWalker,
    palloc: &mut A,
    source: &mut PageSource,
    staging: &mut Vec<u8>,
) -> (r: Result<MapElfRet, MapError>)
    requires
        old(pw).wf(),
        old(palloc).inv(),
    ensures
        final(pw).wf(),
        final(palloc).inv(),
        final(pw).root().level() == old(pw).root().level(),
        final(pw).root().frame() == old(pw).root().frame(),
        if !readable(file@) {
            &&& r == Err::<MapElfRet, MapError>(MapError::CorruptImage)
            &&& *final(pw) == *old(pw)
            &&& *final(palloc) == *old(palloc)
            &&& *final(source) == *old(source)
            &&& final(staging)@ == old(staging)@
        } else {
            loaded(
                r,
                file@,
                entry_point(file@),
                load_segments(program_headers(file@)),
                addr,
                *old(pw),
                *final(pw),
                *old(source),
                *final(source),
                old(staging)@,
                final(staging)@,
            )
        },
        ({
            let segs = load_segments(program_headers(file@));
            readable(file@) && early_error(
                segs,
                file@.len() as int,
                addr,
                entry_point(file@),
                *old(source),
            ) is None && clear_ground(*old(pw), segs, addr) && frames_suffice(
                *old(pw),
                old(palloc),
                segs,
            ) ==> r is Ok
        }),
{
    match read_load_segments(file) {
        Err(e) => Err(e),
        Ok((entry, segs)) => map_segments(file, entry, &segs, addr, pw, palloc, source, staging),
    }
}

} // verus!
