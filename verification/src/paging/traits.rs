//! The closed hierarchy of paging levels and the address arithmetic that
//! belongs to it.
use vstd::prelude::*;

verus! {

/// Number of entries in a page table of any level.
pub const ENTRY_COUNT: usize = 512;

/// Size in bytes of a frame, the unit of physical memory.
pub const FRAME_SIZE: u64 = 4096;

/// One of the five paging levels. `Level1` tables hold leaf entries; every
/// higher level holds entries that point to tables of the next lower level.
#[derive(Copy, Clone, Debug, PartialEq, Eq, PartialOrd, Ord, Hash, Structural)]
pub enum LevelEnum {
    Level1,
    Level2,
    Level3,
    Level4,
    Level5,
}

/// The number of address bits below the index of a level of the given rank:
/// twelve bits of page offset and nine bits for each lower level.
pub open spec fn index_shift(rank: nat) -> nat {
    (12 + 9 * (rank - 1)) as nat
}

/// The nine-bit index that a virtual address selects in a table of the given
/// rank.
pub open spec fn page_index(addr: u64, rank: nat) -> nat
    recommends
        1 <= rank <= 5,
{
    ((addr >> (index_shift(rank) as u64)) & 0x1ffu64) as nat
}

/// The address bits contributed by the levels of rank `1..=rank`, put back at
/// the positions they were taken from.
pub open spec fn recombine(addr: u64, rank: nat) -> u64
    recommends
        rank <= 5,
    decreases rank,
{
    if rank == 0 {
        0u64
    } else {
        recombine(addr, (rank - 1) as nat) | ((page_index(addr, rank) as u64) << (index_shift(
            rank,
        ) as u64))
    }
}

/// The first address that a hierarchy rooted at the given rank cannot reach.
pub open spec fn address_space(rank: nat) -> int
    recommends
        1 <= rank <= 5,
{
    if rank == 1 {
        0x20_0000
    } else if rank == 2 {
        0x4000_0000
    } else if rank == 3 {
        0x80_0000_0000
    } else if rank == 4 {
        0x1_0000_0000_0000
    } else {
        0x200_0000_0000_0000
    }
}

/// Two addresses select the same entry at every level from `rank` down to
/// the leaf level, so a walk from a table of that rank ends at the same leaf
/// for both.
pub open spec fn same_path(a: u64, b: u64, rank: nat) -> bool
    decreases rank,
{
    if rank == 0 {
        true
    } else {
        page_index(a, rank) == page_index(b, rank) && same_path(a, b, (rank - 1) as nat)
    }
}

impl LevelEnum {
    /// The rank of the level, from 1 for the leaf level to 5.
    pub open spec fn rank(self) -> nat {
        match self {
            LevelEnum::Level1 => 1,
            LevelEnum::Level2 => 2,
            LevelEnum::Level3 => 3,
            LevelEnum::Level4 => 4,
            LevelEnum::Level5 => 5,
        }
    }

    /// The level of a given rank, where there is one.
    pub open spec fn of_rank(l: nat) -> Option<LevelEnum> {
        if l == 1 {
            Some(LevelEnum::Level1)
        } else if l == 2 {
            Some(LevelEnum::Level2)
        } else if l == 3 {
            Some(LevelEnum::Level3)
        } else if l == 4 {
            Some(LevelEnum::Level4)
        } else if l == 5 {
            Some(LevelEnum::Level5)
        } else {
            None
        }
    }

    /// The level that the entries of a table of this level point to.
    pub open spec fn down(self) -> Option<LevelEnum> {
        Self::of_rank((self.rank() - 1) as nat)
    }

    /// Whether tables of this level hold leaf entries only.
    pub open spec fn leaf(self) -> bool {
        self.rank() == 1
    }

    /// Constructs a level from its rank, if the rank is one of 1 to 5.
    pub fn from_level(l: u8) -> (r: Option<Self>)
        ensures
            r == Self::of_rank(l as nat),
    {
        match l {
            1 => Some(LevelEnum::Level1),
            2 => Some(LevelEnum::Level2),
            3 => Some(LevelEnum::Level3),
            4 => Some(LevelEnum::Level4),
            5 => Some(LevelEnum::Level5),
            _ => None,
        }
    }

    /// The rank of the level as a number.
    pub fn get_level(&self) -> (l: u8)
        ensures
            l == self.rank(),
            1 <= l <= 5,
    {
        match self {
            LevelEnum::Level5 => 5,
            LevelEnum::Level4 => 4,
            LevelEnum::Level3 => 3,
            LevelEnum::Level2 => 2,
            LevelEnum::Level1 => 1,
        }
    }

    /// The rank of the level as a number; the same as [`LevelEnum::get_level`].
    #[allow(non_snake_case)]
    pub fn get_Level(&self) -> (l: u8)
        ensures
            l == self.rank(),
            1 <= l <= 5,
    {
        self.get_level()
    }

    /// Whether this is the leaf level.
    pub fn is_leaf(&self) -> (b: bool)
        ensures
            b == self.leaf(),
    {
        match self {
            LevelEnum::Level1 => true,
            _ => false,
        }
    }

    /// The next lower level, or `None` for the leaf level.
    pub fn next_lower_level(&self) -> (r: Option<LevelEnum>)
        ensures
            r == self.down(),
            r is None <==> self.leaf(),
            r matches Some(d) ==> d.rank() + 1 == self.rank(),
    {
        match self {
            LevelEnum::Level5 => Some(LevelEnum::Level4),
            LevelEnum::Level4 => Some(LevelEnum::Level3),
            LevelEnum::Level3 => Some(LevelEnum::Level2),
            LevelEnum::Level2 => Some(LevelEnum::Level1),
            LevelEnum::Level1 => None,
        }
    }

    /// The number of bytes that one entry of a table of this level covers:
    /// 4096 bytes at the leaf level and 512 times as much with every level
    /// above it.
    pub open spec fn size(self) -> int {
        match self {
            LevelEnum::Level1 => 0x1000,
            LevelEnum::Level2 => 0x20_0000,
            LevelEnum::Level3 => 0x4000_0000,
            LevelEnum::Level4 => 0x80_0000_0000,
            LevelEnum::Level5 => 0x1_0000_0000_0000,
        }
    }

    /// The addressed size, in bytes, of one entry of a table of this level.
    pub fn get_size(&self) -> (s: u64)
        ensures
            s == self.size(),
            self.size() * 512 == address_space(self.rank()),
    {
        match self {
            LevelEnum::Level5 => 0x1_0000_0000_0000,
            LevelEnum::Level4 => 0x80_0000_0000,
            LevelEnum::Level3 => 0x4000_0000,
            LevelEnum::Level2 => 0x20_0000,
            LevelEnum::Level1 => 0x1000,
        }
    }

    /// The index that `addr` selects in a table of this level.
    pub fn index_of(&self, addr: u64) -> (i: usize)
        ensures
            i == page_index(addr, self.rank()),
            i < ENTRY_COUNT,
    {
        let shifted: u64 = match self {
            LevelEnum::Level1 => addr >> 12,
            LevelEnum::Level2 => addr >> 21,
            LevelEnum::Level3 => addr >> 30,
            LevelEnum::Level4 => addr >> 39,
            LevelEnum::Level5 => addr >> 48,
        };
        let i: u64 = shifted & 0x1ff;
        assert(shifted & 0x1ff < 512) by (bit_vector);
        i as usize
    }
}

impl Default for LevelEnum {
    fn default() -> (l: Self)
        ensures
            l == LevelEnum::Level1,
    {
        LevelEnum::Level1
    }
}

/// A paging level known at compile time.
pub trait Level {
    /// The level that the type stands for.
    spec fn level() -> LevelEnum;

    fn get_level() -> (l: LevelEnum)
        ensures
            l == Self::level(),
    ;
}

/// A level whose tables point to tables of a lower level.
pub trait LevelTable: Level {
    type Down: Level;

    /// The level below is the next lower one in the hierarchy.
    proof fn down_is_next_lower()
        ensures
            Self::level().down() == Some(<Self::Down as Level>::level()),
    ;
}

/// Marker type for the leaf level.
pub enum Level1 {
    Marker,
}

impl Level for Level1 {
    open spec fn level() -> LevelEnum {
        LevelEnum::Level1
    }

    fn get_level() -> LevelEnum {
        LevelEnum::Level1
    }
}

/// Marker type for the second level.
pub enum Level2 {
    Marker,
}

impl Level for Level2 {
    open spec fn level() -> LevelEnum {
        LevelEnum::Level2
    }

    fn get_level() -> LevelEnum {
        LevelEnum::Level2
    }
}

impl LevelTable for Level2 {
    type Down = Level1;

    proof fn down_is_next_lower() {
    }
}

/// Marker type for the third level.
pub enum Level3 {
    Marker,
}

impl Level for Level3 {
    open spec fn level() -> LevelEnum {
        LevelEnum::Level3
    }

    fn get_level() -> LevelEnum {
        LevelEnum::Level3
    }
}

impl LevelTable for Level3 {
    type Down = Level2;

    proof fn down_is_next_lower() {
    }
}

/// Marker type for the fourth level.
pub enum Level4 {
    Marker,
}

impl Level for Level4 {
    open spec fn level() -> LevelEnum {
        LevelEnum::Level4
    }

    fn get_level() -> LevelEnum {
        LevelEnum::Level4
    }
}

impl LevelTable for Level4 {
    type Down = Level3;

    proof fn down_is_next_lower() {
    }
}

/// Marker type for the fifth level, the root where the processor pages with five levels.
pub enum Level5 {
    Marker,
}

impl Level for Level5 {
    open spec fn level() -> LevelEnum {
        LevelEnum::Level5
    }

    fn get_level() -> LevelEnum {
        LevelEnum::Level5
    }
}

impl LevelTable for Level5 {
    type Down = Level4;

    proof fn down_is_next_lower() {
    }
}

/// Every address selects the same entries as itself, and selecting the
/// same entries does not depend on which of two addresses is named first.
pub proof fn lemma_same_path_refl_sym(a: u64, b: u64, rank: nat)
    ensures
        same_path(a, a, rank),
        same_path(a, b, rank) == same_path(b, a, rank),
    decreases rank,
{
    if rank > 0 {
        lemma_same_path_refl_sym(a, b, (rank - 1) as nat);
    }
}

/// Addresses on one page select the same entries at every level; and two
/// addresses that a hierarchy of the given rank reaches and that select the
/// same entries at every level lie on one page.
pub proof fn lemma_same_path_is_same_page(a: u64, b: u64, rank: nat)
    requires
        1 <= rank <= 5,
    ensures
        a >> 12 == b >> 12 ==> same_path(a, b, rank),
        a < address_space(rank) && b < address_space(rank) && same_path(a, b, rank) ==> a >> 12
            == b >> 12,
{
    reveal_with_fuel(same_path, 6);
    assert(a >> 12 == b >> 12 ==> {
        &&& (a >> 12) & 0x1ff == (b >> 12) & 0x1ff
        &&& (a >> 21) & 0x1ff == (b >> 21) & 0x1ff
        &&& (a >> 30) & 0x1ff == (b >> 30) & 0x1ff
        &&& (a >> 39) & 0x1ff == (b >> 39) & 0x1ff
        &&& (a >> 48) & 0x1ff == (b >> 48) & 0x1ff
    }) by (bit_vector);
    let a1 = (a >> 12) & 0x1ff;
    let a2 = (a >> 21) & 0x1ff;
    let a3 = (a >> 30) & 0x1ff;
    let a4 = (a >> 39) & 0x1ff;
    let a5 = (a >> 48) & 0x1ff;
    let b1 = (b >> 12) & 0x1ff;
    let b2 = (b >> 21) & 0x1ff;
    let b3 = (b >> 30) & 0x1ff;
    let b4 = (b >> 39) & 0x1ff;
    let b5 = (b >> 48) & 0x1ff;
    assert({
        &&& a1 == b1 && a < 0x20_0000 && b < 0x20_0000 ==> a >> 12 == b >> 12
        &&& a1 == b1 && a2 == b2 && a < 0x4000_0000 && b < 0x4000_0000 ==> a >> 12 == b >> 12
        &&& a1 == b1 && a2 == b2 && a3 == b3 && a < 0x80_0000_0000 && b < 0x80_0000_0000 ==> a >> 12
            == b >> 12
        &&& a1 == b1 && a2 == b2 && a3 == b3 && a4 == b4 && a < 0x1_0000_0000_0000 && b
            < 0x1_0000_0000_0000 ==> a >> 12 == b >> 12
        &&& a1 == b1 && a2 == b2 && a3 == b3 && a4 == b4 && a5 == b5 && a < 0x200_0000_0000_0000
            && b < 0x200_0000_0000_0000 ==> a >> 12 == b >> 12
    }) by (bit_vector)
        requires
            a1 == (a >> 12) & 0x1ff,
            a2 == (a >> 21) & 0x1ff,
            a3 == (a >> 30) & 0x1ff,
            a4 == (a >> 39) & 0x1ff,
            a5 == (a >> 48) & 0x1ff,
            b1 == (b >> 12) & 0x1ff,
            b2 == (b >> 21) & 0x1ff,
            b3 == (b >> 30) & 0x1ff,
            b4 == (b >> 39) & 0x1ff,
            b5 == (b >> 48) & 0x1ff,
    ;
}

/// An index into a table is below the number of its entries.
pub broadcast proof fn lemma_page_index_bound(addr: u64, rank: nat)
    ensures
        #[trigger] page_index(addr, rank) < ENTRY_COUNT,
{
    let s = index_shift(rank) as u64;
    assert((addr >> s) & 0x1ffu64 < 512) by (bit_vector);
}

/// Taking an address apart into the indices of the levels `1..=rank` and
/// putting them back at their positions gives the address with its page
/// offset cleared, for every address that a hierarchy of that rank reaches.
pub proof fn lemma_recombine_is_page_base(addr: u64, rank: nat)
    requires
        1 <= rank <= 5,
        addr < address_space(rank),
    ensures
        recombine(addr, rank) == addr & !0xfffu64,
{
    reveal_with_fuel(recombine, 6);
    let i1: u64 = (addr >> 12) & 0x1ff;
    let i2: u64 = (addr >> 21) & 0x1ff;
    let i3: u64 = (addr >> 30) & 0x1ff;
    let i4: u64 = (addr >> 39) & 0x1ff;
    let i5: u64 = (addr >> 48) & 0x1ff;
    if rank == 1 {
        assert(0u64 | (i1 << 12) == addr & !0xfffu64) by (bit_vector)
            requires
                addr < 0x20_0000,
                i1 == (addr >> 12) & 0x1ff,
        ;
    } else if rank == 2 {
        assert((0u64 | (i1 << 12)) | (i2 << 21) == addr & !0xfffu64) by (bit_vector)
            requires
                addr < 0x4000_0000,
                i1 == (addr >> 12) & 0x1ff,
                i2 == (addr >> 21) & 0x1ff,
        ;
    } else if rank == 3 {
        assert(((0u64 | (i1 << 12)) | (i2 << 21)) | (i3 << 30) == addr & !0xfffu64)
            by (bit_vector)
            requires
                addr < 0x80_0000_0000,
                i1 == (addr >> 12) & 0x1ff,
                i2 == (addr >> 21) & 0x1ff,
                i3 == (addr >> 30) & 0x1ff,
        ;
    } else if rank == 4 {
        assert((((0u64 | (i1 << 12)) | (i2 << 21)) | (i3 << 30)) | (i4 << 39) == addr & !0xfffu64)
            by (bit_vector)
            requires
                addr < 0x1_0000_0000_0000,
                i1 == (addr >> 12) & 0x1ff,
                i2 == (addr >> 21) & 0x1ff,
                i3 == (addr >> 30) & 0x1ff,
                i4 == (addr >> 39) & 0x1ff,
        ;
    } else {
        assert(((((0u64 | (i1 << 12)) | (i2 << 21)) | (i3 << 30)) | (i4 << 39)) | (i5 << 48) == addr
            & !0xfffu64) by (bit_vector)
            requires
                addr < 0x200_0000_0000_0000,
                i1 == (addr >> 12) & 0x1ff,
                i2 == (addr >> 21) & 0x1ff,
                i3 == (addr >> 30) & 0x1ff,
                i4 == (addr >> 39) & 0x1ff,
                i5 == (addr >> 48) & 0x1ff,
        ;
    }
}

} // verus!
