//! One block of the frame bitmap: 4032 frames in 63 words of 64 bits.
use crate::palloc::{lowest_clear, SplitPhysicalAllocator};
use vstd::prelude::*;

verus! {

/// The number of frames that one block tracks.
pub const SIZE: u64 = 4032;

/// The number of bitmap words in one block.
pub const WORDS: usize = 63;

/// A block of the frame bitmap. It tracks `SIZE` frames, numbered from 0
/// within the block; the block itself lies in the page at `base`.
pub struct MemTracer {
    mem: Vec<SplitPhysicalAllocator>,
    base: u64,
}

impl MemTracer {
    /// The block has all its words.
    pub closed spec fn wf(&self) -> bool {
        self.mem@.len() == WORDS
    }

    /// Frame `page` of the block is in use. No frame outside the block is.
    pub closed spec fn used(&self, page: int) -> bool {
        0 <= page < SIZE && self.mem@[page / 64].used((page % 64) as u64)
    }

    /// The address of the page that holds the block.
    pub closed spec fn base(&self) -> u64 {
        self.base
    }

    /// `page` is the lowest free frame of the block.
    pub open spec fn lowest_free(&self, page: int) -> bool {
        &&& 0 <= page < SIZE
        &&& !self.used(page)
        &&& forall|q: int| 0 <= q < page ==> #[trigger] self.used(q)
    }

    /// All frames of the block are in use.
    pub open spec fn full(&self) -> bool {
        forall|q: int| 0 <= q < SIZE ==> #[trigger] self.used(q)
    }

    /// A block in the page at `base`, with all frames free.
    pub fn new(base: u64) -> (t: Self)
        ensures
            t.wf(),
            t.base() == base,
            forall|q: int| !#[trigger] t.used(q),
    {
        let mut mem: Vec<SplitPhysicalAllocator> = Vec::new();
        let mut n: usize = 0;
        while n < WORDS
            invariant
                n <= WORDS,
                mem@.len() == n,
                forall|w: int, i: u64| 0 <= w < n && i < 64 ==> !#[trigger] mem@[w].used(i),
            decreases WORDS - n,
        {
            mem.push(SplitPhysicalAllocator::new());
            n += 1;
        }
        MemTracer { mem, base }
    }

    /// The address of the page that holds the block.
    pub fn get_addr(&self) -> (a: u64)
        ensures
            a == self.base(),
    {
        self.base
    }

    /// Whether frame `page` of the block is in use.
    pub fn is_used(&self, page: u64) -> (b: bool)
        requires
            self.wf(),
        ensures
            b == self.used(page as int),
    {
        if page >= SIZE {
            return false;
        }
        self.mem[(page / 64) as usize].is_used((page % 64) as u8)
    }

    /// The lowest free frame of the block, or `None` if the block is full.
    pub fn first_free(&self) -> (r: Option<u64>)
        requires
            self.wf(),
        ensures
            match r {
                Some(p) => self.lowest_free(p as int),
                None => self.full(),
            },
    {
        let mut w: usize = 0;
        while w < WORDS
            invariant
                w <= WORDS,
                self.wf(),
                forall|q: int| 0 <= q < 64 * w ==> #[trigger] self.used(q),
            decreases WORDS - w,
        {
            match self.mem[w].get_first_free_page() {
                Some(b) => {
                    let page: u64 = (w as u64) * 64 + (b as u64);
                    proof {
                        assert(page as int / 64 == w as int);
                        assert(page as int % 64 == b as int);
                        assert forall|q: int| 0 <= q < page implies #[trigger] self.used(q) by {
                            if q >= 64 * w {
                                assert(q / 64 == w as int);
                                let j = (q % 64) as u64;
                                assert(j < b as u64);
                            }
                        }
                    }
                    return Some(page);
                },
                None => {
                    proof {
                        assert forall|q: int| 0 <= q < 64 * (w + 1) implies #[trigger] self.used(
                            q,
                        ) by {
                            if q >= 64 * w {
                                assert(q / 64 == w as int);
                                let j = (q % 64) as u64;
                                assert(self.mem@[w as int].used(j));
                            }
                        }
                    }
                },
            }
            w += 1;
        }
        None
    }

    /// Marks frame `page` of the block used. Returns `None` and changes
    /// nothing if the block has no such frame.
    pub fn mark_as_used(&mut self, page: u64) -> (r: Option<()>)
        requires
            old(self).wf(),
        ensures
            final(self).wf(),
            final(self).base() == old(self).base(),
            r is Some <==> page < SIZE,
            r is Some ==> forall|q: int|
                #[trigger] final(self).used(q) == (q == page || old(self).used(q)),
            r is None ==> *final(self) == *old(self),
    {
        if page >= SIZE {
            return None;
        }
        let w = (page / 64) as usize;
        let b = (page % 64) as u8;
        self.mem[w].mark(b);
        proof {
            assert forall|q: int|
                #[trigger] self.used(q) == (q == page || old(self).used(q)) by {
                if 0 <= q < SIZE {
                    let j = (q % 64) as u64;
                    if q / 64 == w as int {
                        assert(self.mem@[w as int].used(j) == (j == b || old(self).mem@[w as int].used(
                            j,
                        )));
                    }
                }
            }
        }
        Some(())
    }

    /// Marks the lowest free frame of the block used and returns its number,
    /// if that frame lies below `limit`, the number of frames of the block
    /// that lie within the memory. Returns `None` and changes nothing if the
    /// block is full or its lowest free frame lies at or beyond the limit.
    pub fn find_free_page(&mut self, limit: u64) -> (r: Option<u64>)
        requires
            old(self).wf(),
        ensures
            final(self).wf(),
            final(self).base() == old(self).base(),
            match r {
                Some(p) => {
                    &&& old(self).lowest_free(p as int)
                    &&& p < limit
                    &&& forall|q: int|
                        #[trigger] final(self).used(q) == (q == p || old(self).used(q))
                },
                None => {
                    &&& *final(self) == *old(self)
                    &&& old(self).full() || exists|p: int|
                        old(self).lowest_free(p) && p >= limit
                },
            },
    {
        match self.first_free() {
            Some(p) => {
                if p >= limit {
                    return None;
                }
                self.mark_as_used(p);
                Some(p)
            },
            None => None,
        }
    }

    /// Marks frame `page` of the block free and returns whether it was in
    /// use. A frame that the block does not have was not.
    pub fn free_page(&mut self, page: u64) -> (r: bool)
        requires
            old(self).wf(),
        ensures
            final(self).wf(),
            final(self).base() == old(self).base(),
            r == old(self).used(page as int),
            forall|q: int| #[trigger] final(self).used(q) == (q != page && old(self).used(q)),
    {
        if page >= SIZE {
            return false;
        }
        let w = (page / 64) as usize;
        let b = (page % 64) as u8;
        let was = self.mem[w].is_used(b);
        self.mem[w].dealloc(b);
        proof {
            assert forall|q: int|
                #[trigger] self.used(q) == (q != page && old(self).used(q)) by {
                if 0 <= q < SIZE {
                    let j = (q % 64) as u64;
                    if q / 64 == w as int {
                        assert(self.mem@[w as int].used(j) == (j != b && old(self).mem@[w as int].used(
                            j,
                        )));
                    }
                }
            }
        }
        was
    }
}

} // verus!
