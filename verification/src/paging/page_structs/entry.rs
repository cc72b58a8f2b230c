//! Page-table entries: a physical address and flag bits in one 64-bit word.
use vstd::prelude::*;

verus! {

/// The bits of an entry that hold the physical address: bits 12 to 51.
pub const ADDR_MASK: u64 = 0x000f_ffff_ffff_f000;

/// The bits of an entry that hold flags: all bits outside the address.
pub const FLAGS_MASK: u64 = 0xfff0_0000_0000_0fff;

/// The mapping is valid.
pub const PRESENT: u64 = 0x1;

/// Writes through the mapping are allowed.
pub const WRITABLE: u64 = 0x2;

/// The mapping may be used from user mode.
pub const USER_ACCESSIBLE: u64 = 0x4;

/// In a table above the leaf level, the entry maps a huge page and does not
/// point to a table.
pub const HUGE_PAGE: u64 = 0x80;

/// Instructions must not be fetched through the mapping.
pub const NO_EXECUTE: u64 = 0x8000_0000_0000_0000;

/// The address part of an entry word.
pub open spec fn word_addr(w: u64) -> u64 {
    w & ADDR_MASK
}

/// The flag part of an entry word.
pub open spec fn word_flags(w: u64) -> u64 {
    w & FLAGS_MASK
}

/// Whether the entry word has every bit of `mask` set.
pub open spec fn word_has(w: u64, mask: u64) -> bool {
    w & mask == mask
}

/// Whether `addr` can stand in an entry: aligned to a frame and within the
/// 52 bits of a physical address.
pub open spec fn is_frame_addr(addr: u64) -> bool {
    addr & ADDR_MASK == addr
}

/// A set of flag bits of a page-table entry. It never holds a bit of the
/// address part.
#[derive(Copy, Clone, Debug, PartialEq, Eq, Structural)]
pub struct PageTableFlags {
    bits: u64,
}

impl PageTableFlags {
    #[verifier::type_invariant]
    spec fn inv(self) -> bool {
        self.bits & ADDR_MASK == 0
    }

    /// The flag bits as a word.
    pub closed spec fn view(self) -> u64 {
        self.bits
    }

    /// Whether every flag of `mask` is set.
    pub open spec fn has(self, mask: u64) -> bool {
        word_has(self@, mask)
    }

    /// The empty set of flags.
    pub fn empty() -> (f: Self)
        ensures
            f@ == 0,
    {
        assert(0u64 & ADDR_MASK == 0) by (bit_vector);
        PageTableFlags { bits: 0 }
    }

    /// The flags among `bits`; bits of the address part are dropped.
    pub fn from_bits_truncate(bits: u64) -> (f: Self)
        ensures
            f@ == word_flags(bits),
    {
        assert((bits & FLAGS_MASK) & ADDR_MASK == 0) by (bit_vector);
        PageTableFlags { bits: bits & FLAGS_MASK }
    }

    /// The flag bits as a word.
    pub fn bits(&self) -> (b: u64)
        ensures
            b == self@,
            b & ADDR_MASK == 0,
            word_flags(b) == b,
    {
        proof {
            use_type_invariant(self);
            let b = self.bits;
            assert(b & ADDR_MASK == 0 ==> b & FLAGS_MASK == b) by (bit_vector);
        }
        self.bits
    }

    /// Whether every flag of `other` is set in `self`.
    pub fn contains(&self, other: PageTableFlags) -> (b: bool)
        ensures
            b == self.has(other@),
    {
        self.bits & other.bits == other.bits
    }

    /// The flags of `self` together with those of `other`.
    pub fn union(self, other: PageTableFlags) -> (f: Self)
        ensures
            f@ == self@ | other@,
    {
        proof {
            use_type_invariant(self);
            use_type_invariant(other);
            let a = self.bits;
            let b = other.bits;
            assert(a & ADDR_MASK == 0 && b & ADDR_MASK == 0 ==> (a | b) & ADDR_MASK == 0)
                by (bit_vector);
        }
        PageTableFlags { bits: self.bits | other.bits }
    }
}

/// Why an entry does not name a frame.
#[derive(Copy, Clone, Debug, PartialEq, Eq, Structural)]
pub enum FrameError {
    /// The entry does not have the `PRESENT` flag.
    FrameNotPresent,
    /// The entry has the `HUGE_PAGE` flag; its address is that of a huge
    /// page, to be read with [`PTEntry::addr`].
    HugeFrame,
}

/// A page-table entry.
#[derive(Copy, Clone, Debug, PartialEq, Eq, Structural)]
pub struct PTEntry {
    entry: u64,
}

impl PTEntry {
    /// The entry as a 64-bit word.
    pub closed spec fn view(self) -> u64 {
        self.entry
    }

    /// The entry is unused: all its bits are zero.
    pub open spec fn unused(self) -> bool {
        self@ == 0
    }

    /// The entry has the `PRESENT` flag.
    pub open spec fn present(self) -> bool {
        word_has(self@, PRESENT)
    }

    /// The entry can stand in a table: it is unused or present.
    pub open spec fn valid(self) -> bool {
        self.unused() || self.present()
    }

    /// The entry points to a table, where it stands above the leaf level:
    /// it is present and maps no huge page.
    pub open spec fn links(self) -> bool {
        self.present() && !self.huge()
    }

    /// The entry has the `HUGE_PAGE` flag.
    pub open spec fn huge(self) -> bool {
        word_has(self@, HUGE_PAGE)
    }

    /// The entry that maps `addr` with the flags `flags`.
    pub open spec fn mapping(addr: u64, flags: u64) -> u64 {
        addr | flags
    }

    /// Two entries with the same word are the same entry.
    pub broadcast proof fn lemma_view_injective(a: PTEntry, b: PTEntry)
        requires
            #[trigger] a@ == #[trigger] b@,
        ensures
            a == b,
    {
    }

    /// The entry with the word `w`.
    pub closed spec fn from_word(w: u64) -> PTEntry {
        PTEntry { entry: w }
    }

    /// An entry is the entry of its word.
    pub broadcast proof fn lemma_word(e: PTEntry)
        ensures
            #[trigger] PTEntry::from_word(e@) == e,
            PTEntry::from_word(e@)@ == e@,
    {
    }

    /// The word of the entry with the word `w` is `w`.
    pub broadcast proof fn lemma_from_word(w: u64)
        ensures
            (#[trigger] PTEntry::from_word(w))@ == w,
    {
    }

    /// Creates an unused page table entry.
    pub fn new() -> (e: Self)
        ensures
            e@ == 0,
    {
        PTEntry { entry: 0 }
    }

    /// The entry with the given word.
    pub fn from_bits(bits: u64) -> (e: Self)
        ensures
            e@ == bits,
    {
        PTEntry { entry: bits }
    }

    /// The entry as a word.
    pub fn bits(&self) -> (b: u64)
        ensures
            b == self@,
    {
        self.entry
    }

    /// Returns whether this entry is zero.
    pub fn is_unused(&self) -> (b: bool)
        ensures
            b == self.unused(),
    {
        self.entry == 0
    }

    /// Returns whether this entry has the `PRESENT` flag.
    pub fn is_present(&self) -> (b: bool)
        ensures
            b == self.present(),
    {
        self.entry & PRESENT == PRESENT
    }

    /// Returns whether this entry can stand in a table: whether it is
    /// unused or present.
    pub fn is_valid(&self) -> (b: bool)
        ensures
            b == self.valid(),
    {
        self.entry == 0 || self.entry & PRESENT == PRESENT
    }

    /// Sets this entry to zero.
    pub fn set_unused(&mut self)
        ensures
            final(self)@ == 0,
    {
        self.entry = 0;
    }

    /// Returns the flags of this entry.
    pub fn flags(&self) -> (f: PageTableFlags)
        ensures
            f@ == word_flags(self@),
    {
        PageTableFlags::from_bits_truncate(self.entry)
    }

    /// Returns the physical address mapped by this entry, which may be zero.
    pub fn addr(&self) -> (a: u64)
        ensures
            a == word_addr(self@),
            is_frame_addr(a),
    {
        let e = self.entry;
        assert((e & ADDR_MASK) & ADDR_MASK == e & ADDR_MASK) by (bit_vector);
        self.entry & ADDR_MASK
    }

    /// Returns the address of the physical frame mapped by this entry.
    ///
    /// The error is `FrameNotPresent` if the entry does not have the
    /// `PRESENT` flag, and `HugeFrame` if it is present with the `HUGE_PAGE`
    /// flag.
    pub fn frame(&self) -> (r: Result<u64, FrameError>)
        ensures
            r == if !self.present() {
                Err::<u64, FrameError>(FrameError::FrameNotPresent)
            } else if self.huge() {
                Err(FrameError::HugeFrame)
            } else {
                Ok(word_addr(self@))
            },
    {
        if self.entry & PRESENT != PRESENT {
            Err(FrameError::FrameNotPresent)
        } else if self.entry & HUGE_PAGE == HUGE_PAGE {
            Err(FrameError::HugeFrame)
        } else {
            Ok(self.addr())
        }
    }

    /// Maps the entry to the physical address `addr` with the flags `flags`.
    pub fn set_addr(&mut self, addr: u64, flags: PageTableFlags)
        requires
            is_frame_addr(addr),
        ensures
            final(self)@ == Self::mapping(addr, flags@),
            word_addr(final(self)@) == addr,
            word_flags(final(self)@) == flags@,
    {
        let f = flags.bits();
        assert(addr & ADDR_MASK == addr && f & ADDR_MASK == 0 ==> (addr | f) & ADDR_MASK == addr
            && (addr | f) & FLAGS_MASK == f) by (bit_vector);
        self.entry = addr | f;
    }

    /// Maps the entry to the frame at `frame` with the flags `flags`, which
    /// must not mark a huge page.
    pub fn set_frame(&mut self, frame: u64, flags: PageTableFlags)
        requires
            is_frame_addr(frame),
            !flags.has(HUGE_PAGE),
        ensures
            final(self)@ == Self::mapping(frame, flags@),
            word_addr(final(self)@) == frame,
            word_flags(final(self)@) == flags@,
    {
        self.set_addr(frame, flags)
    }

    /// Sets the flags of this entry and keeps its address.
    pub fn set_flags(&mut self, flags: PageTableFlags)
        ensures
            final(self)@ == Self::mapping(word_addr(old(self)@), flags@),
            word_addr(final(self)@) == word_addr(old(self)@),
            word_flags(final(self)@) == flags@,
    {
        let a = self.addr();
        self.set_addr(a, flags)
    }
}

/// An unused entry is not present.
pub proof fn lemma_unused_not_present()
    ensures
        !word_has(0u64, PRESENT),
{
    assert(0u64 & 1 != 1) by (bit_vector);
}

/// An entry that holds a frame address and flags gives both back, and is
/// present, writable or executable exactly as its flags say.
pub proof fn lemma_mapping_parts(addr: u64, flags: u64)
    requires
        is_frame_addr(addr),
        flags & ADDR_MASK == 0,
    ensures
        word_addr(PTEntry::mapping(addr, flags)) == addr,
        word_flags(PTEntry::mapping(addr, flags)) == flags,
        word_has(PTEntry::mapping(addr, flags), PRESENT) == word_has(flags, PRESENT),
        word_has(PTEntry::mapping(addr, flags), WRITABLE) == word_has(flags, WRITABLE),
        word_has(PTEntry::mapping(addr, flags), HUGE_PAGE) == word_has(flags, HUGE_PAGE),
        word_has(PTEntry::mapping(addr, flags), NO_EXECUTE) == word_has(flags, NO_EXECUTE),
{
    assert(addr & ADDR_MASK == addr && flags & ADDR_MASK == 0 ==> {
        &&& (addr | flags) & ADDR_MASK == addr
        &&& (addr | flags) & FLAGS_MASK == flags
        &&& ((addr | flags) & 0x1 == 0x1) == (flags & 0x1 == 0x1)
        &&& ((addr | flags) & 0x2 == 0x2) == (flags & 0x2 == 0x2)
        &&& ((addr | flags) & 0x80 == 0x80) == (flags & 0x80 == 0x80)
        &&& ((addr | flags) & 0x8000_0000_0000_0000 == 0x8000_0000_0000_0000) == (flags
            & 0x8000_0000_0000_0000 == 0x8000_0000_0000_0000)
    }) by (bit_vector);
}

} // verus!
