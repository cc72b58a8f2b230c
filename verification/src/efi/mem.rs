//! The size of the usable memory, from the memory map.
use vstd::prelude::*;

verus! {

/// One region of the memory map: how many pages it has, and whether it is
/// conventional memory, free for the loaded system to use.
#[derive(Copy, Clone, Debug, PartialEq, Eq, Structural)]
pub struct MemoryRegion {
    pub conventional: bool,
    pub page_count: u64,
}

/// The number of pages of the conventional regions among the first `n`.
pub open spec fn conventional_pages(map: Seq<MemoryRegion>, n: int) -> int
    decreases n,
{
    if n <= 0 {
        0
    } else if map[n - 1].conventional {
        conventional_pages(map, n - 1) + map[n - 1].page_count
    } else {
        conventional_pages(map, n - 1)
    }
}

/// The count never shrinks as more regions are counted.
pub proof fn lemma_conventional_pages_grow(map: Seq<MemoryRegion>, n: int, m: int)
    requires
        0 <= n <= m,
    ensures
        0 <= conventional_pages(map, n) <= conventional_pages(map, m),
    decreases m,
{
    if n < m {
        lemma_conventional_pages_grow(map, n, m - 1);
    } else if n > 0 {
        lemma_conventional_pages_grow(map, n - 1, n - 1);
    }
}

/// The number of pages of conventional memory in a memory map, or
/// `u64::MAX` if there are more than that.
pub fn get_mem(map: &Vec<MemoryRegion>) -> (total: u64)
    ensures
        total == if conventional_pages(map@, map@.len() as int) <= u64::MAX {
            conventional_pages(map@, map@.len() as int)
        } else {
            u64::MAX as int
        },
{
    let mut total: u64 = 0;
    let mut i: usize = 0;
    while i < map.len()
        invariant
            i <= map@.len(),
            total == conventional_pages(map@, i as int),
        decreases map@.len() - i,
    {
        if map[i].conventional {
            if map[i].page_count > u64::MAX - total {
                proof {
                    lemma_conventional_pages_grow(map@, i + 1, map@.len() as int);
                }
                return u64::MAX;
            }
            total = total + map[i].page_count;
        }
        i += 1;
    }
    total
}

} // verus!
