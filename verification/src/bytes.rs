//! Numbers in byte strings, the lowest byte first.
use vstd::prelude::*;

verus! {

/// The number that two bytes stand for, the lowest byte first.
pub open spec fn le_u16(b: Seq<u8>) -> u16 {
    (b[0] as u16) | ((b[1] as u16) << 8)
}

/// The number that four bytes stand for, the lowest byte first.
pub open spec fn le_u32(b: Seq<u8>) -> u32 {
    (b[0] as u32) | ((b[1] as u32) << 8) | ((b[2] as u32) << 16) | ((b[3] as u32) << 24)
}

/// The number that eight bytes stand for, the lowest byte first.
pub open spec fn le_u64(b: Seq<u8>) -> u64 {
    (le_u32(b.subrange(0, 4)) as u64) | ((le_u32(b.subrange(4, 8)) as u64) << 32)
}

/// The number that the two bytes of `bytes` from `at` on stand for.
pub fn read_u16(bytes: &[u8], at: usize) -> (r: u16)
    requires
        at + 2 <= bytes@.len(),
    ensures
        r == le_u16(bytes@.subrange(at as int, at + 2)),
{
    (bytes[at] as u16) | ((bytes[at + 1] as u16) << 8)
}

/// The number that the four bytes of `bytes` from `at` on stand for.
pub fn read_u32(bytes: &[u8], at: usize) -> (r: u32)
    requires
        at + 4 <= bytes@.len(),
    ensures
        r == le_u32(bytes@.subrange(at as int, at + 4)),
{
    (bytes[at] as u32) | ((bytes[at + 1] as u32) << 8) | ((bytes[at + 2] as u32) << 16) | ((
    bytes[at + 3] as u32) << 24)
}

/// The number that the eight bytes of `bytes` from `at` on stand for.
pub fn read_u64(bytes: &[u8], at: usize) -> (r: u64)
    requires
        at + 8 <= bytes@.len(),
    ensures
        r == le_u64(bytes@.subrange(at as int, at + 8)),
{
    let len = bytes.len();
    let lo = read_u32(bytes, at);
    let hi = read_u32(bytes, at + 4);
    proof {
        let b = bytes@.subrange(at as int, at + 8);
        assert(b.subrange(0, 4) =~= bytes@.subrange(at as int, at + 4));
        assert(b.subrange(4, 8) =~= bytes@.subrange(at + 4, at + 8));
    }
    (lo as u64) | ((hi as u64) << 32)
}

} // verus!
