//! Allocation of physical frames: the allocator interface, the 64-frame
//! bitmap word, the source of pages granted at boot, and the allocator over
//! a chain of bitmap blocks.
use crate::paging::page_structs::entry::{is_frame_addr, ADDR_MASK};
use crate::paging::page_structs::mem::{MemTracer, SIZE};
use vstd::prelude::*;

verus! {

/// An allocator of physical frames, each named by the address of its first
/// byte.
pub trait PhysicalPageAllocator {
    /// The allocator's bookkeeping is consistent.
    spec fn inv(&self) -> bool;

    /// The frames that are handed out, by address.
    spec fn used(&self) -> Set<u64>;

    /// The frame that the next call of `allocate` hands out, if it hands out
    /// one.
    spec fn next(&self) -> Option<u64>;

    /// The number of frames that `allocate` can hand out, one call after
    /// the other, before it has none left.
    spec fn available(&self) -> nat;

    /// There is a next frame exactly while frames are available.
    proof fn lemma_next_available(&self)
        requires
            self.inv(),
        ensures
            self.next() is Some <==> self.available() > 0,
    ;

    /// Hands out a frame that was not in use and marks it used, or returns
    /// `None` and leaves the set of used frames as it was.
    fn allocate(&mut self) -> (r: Option<u64>)
        requires
            old(self).inv(),
        ensures
            final(self).inv(),
            r == old(self).next(),
            match r {
                Some(a) => is_frame_addr(a) && !old(self).used().contains(a)
                    && final(self).used() == old(self).used().insert(a),
                None => final(self).used() == old(self).used() && final(self).next() is None,
            },
            r is Some <==> old(self).available() > 0,
            final(self).available() == if r is Some {
                (old(self).available() - 1) as nat
            } else {
                0nat
            },
    ;

    /// Takes the frame at `page` back. A frame that was not in use stays
    /// free.
    fn deallocate(&mut self, page: u64)
        requires
            old(self).inv(),
        ensures
            final(self).inv(),
            final(self).used() == old(self).used().remove(page),
    ;
}

/// What `allocate` promises when it returns `r` and takes the allocator from
/// `pre` to `post`: a frame that was not in use becomes used; without a
/// frame the set of used frames stays as it was.
pub open spec fn allocated<A: PhysicalPageAllocator + ?Sized>(
    pre: &A,
    post: &A,
    r: Option<u64>,
) -> bool {
    &&& r == pre.next()
    &&& match r {
        Some(a) => is_frame_addr(a) && !pre.used().contains(a) && post.used() == pre.used().insert(
            a,
        ),
        None => post.used() == pre.used() && post.next() is None,
    }
    &&& r is Some <==> pre.available() > 0
    &&& post.available() == if r is Some {
        (pre.available() - 1) as nat
    } else {
        0nat
    }
}

/// What `deallocate` promises when it takes the frame at `page` back and
/// takes the allocator from `pre` to `post`.
pub open spec fn deallocated<A: PhysicalPageAllocator + ?Sized>(
    pre: &A,
    post: &A,
    page: u64,
) -> bool {
    post.used() == pre.used().remove(page)
}

/// Handing out a frame and taking it straight back leaves the set of used
/// frames as it was before the two calls.
pub proof fn lemma_allocate_then_deallocate<A: PhysicalPageAllocator>(
    before: &A,
    between: &A,
    after: &A,
    frame: u64,
)
    requires
        allocated(before, between, Some(frame)),
        deallocated(between, after, frame),
    ensures
        after.used() == before.used(),
{
    assert(after.used() =~= before.used());
}

/// A frame that is in use is not handed out: what `allocate` returns
/// differs from every frame handed out earlier and not taken back since.
pub proof fn lemma_used_frame_not_allocated<A: PhysicalPageAllocator>(
    pre: &A,
    post: &A,
    held: u64,
    frame: u64,
)
    requires
        pre.used().contains(held),
        allocated(pre, post, Some(frame)),
    ensures
        frame != held,
{
}

/// Two calls of `allocate` in a row return different frames.
pub proof fn lemma_sequential_allocations_differ<A: PhysicalPageAllocator>(
    before: &A,
    between: &A,
    after: &A,
    first: u64,
    second: u64,
)
    requires
        allocated(before, between, Some(first)),
        allocated(between, after, Some(second)),
    ensures
        first != second,
{
    assert(between.used().contains(first));
}

/// Bit `i` of the word `w`.
pub open spec fn bit(w: u64, i: u64) -> bool {
    (w >> i) & 1 == 1
}

/// `i` is the lowest index of a clear bit of `w`.
pub open spec fn lowest_clear(w: u64, i: u64) -> bool {
    &&& i < 64
    &&& !bit(w, i)
    &&& forall|j: u64| j < i ==> bit(w, j)
}

/// Setting bit `i` changes that bit and no other.
pub proof fn lemma_set_bit(w: u64, i: u64)
    requires
        i < 64,
    ensures
        forall|j: u64| j < 64 ==> #[trigger] bit(w | (1u64 << i), j) == (j == i || bit(w, j)),
{
    assert forall|j: u64| j < 64 implies #[trigger] bit(w | (1u64 << i), j) == (j == i || bit(
        w,
        j,
    )) by {
        assert(((w | (1u64 << i)) >> j) & 1 == 1 <==> (j == i || (w >> j) & 1 == 1))
            by (bit_vector)
            requires
                i < 64,
                j < 64,
        ;
    }
}

/// Clearing bit `i` changes that bit and no other.
pub proof fn lemma_clear_bit(w: u64, i: u64)
    requires
        i < 64,
    ensures
        forall|j: u64| j < 64 ==> #[trigger] bit(w & !(1u64 << i), j) == (j != i && bit(w, j)),
{
    assert forall|j: u64| j < 64 implies #[trigger] bit(w & !(1u64 << i), j) == (j != i && bit(
        w,
        j,
    )) by {
        assert(((w & !(1u64 << i)) >> j) & 1 == 1 <==> (j != i && (w >> j) & 1 == 1))
            by (bit_vector)
            requires
                i < 64,
                j < 64,
        ;
    }
}

/// A bitmap of 64 frames in one word: bit `i` is set while frame `i` is in
/// use.
#[derive(Copy, Clone, Debug, PartialEq, Eq, Structural)]
pub struct SplitPhysicalAllocator {
    pages: u64,
}

impl SplitPhysicalAllocator {
    /// The bitmap as a word.
    pub closed spec fn view(&self) -> u64 {
        self.pages
    }

    /// Frame `page` is in use.
    pub open spec fn used(&self, page: u64) -> bool {
        bit(self@, page)
    }

    /// A bitmap with all 64 frames free.
    pub fn new() -> (s: Self)
        ensures
            s@ == 0,
            forall|i: u64| i < 64 ==> !#[trigger] s.used(i),
    {
        assert(forall|i: u64| i < 64 ==> !#[trigger] bit(0u64, i)) by {
            assert(forall|i: u64| i < 64 ==> (0u64 >> i) & 1 != 1) by (bit_vector);
        }
        SplitPhysicalAllocator { pages: 0 }
    }

    /// Whether all 64 frames are in use.
    pub fn is_full(&self) -> (b: bool)
        ensures
            b == (forall|i: u64| i < 64 ==> #[trigger] self.used(i)),
            b == (self@ == u64::MAX),
    {
        let w = self.pages;
        proof {
            if w == u64::MAX {
                assert(forall|i: u64| i < 64 ==> #[trigger] bit(w, i)) by {
                    assert(forall|i: u64| i < 64 ==> (0xffff_ffff_ffff_ffffu64 >> i) & 1 == 1)
                        by (bit_vector);
                }
            } else {
                vstd::std_specs::bits::axiom_u64_trailing_ones(w);
                let t = vstd::std_specs::bits::u64_trailing_ones(w) as u64;
                assert(!self.used(t));
            }
        }
        self.pages == u64::MAX
    }

    /// Whether frame `page` is in use.
    pub fn is_used(&self, page: u8) -> (b: bool)
        requires
            page < 64,
        ensures
            b == self.used(page as u64),
    {
        (self.pages >> (page as u64)) & 1 == 1
    }

    /// The lowest free frame, or `None` if all are in use.
    pub fn get_first_free_page(&self) -> (r: Option<u8>)
        ensures
            match r {
                Some(i) => lowest_clear(self@, i as u64),
                None => forall|i: u64| i < 64 ==> #[trigger] self.used(i),
            },
    {
        let ones = self.pages.trailing_ones();
        proof {
            vstd::std_specs::bits::axiom_u64_trailing_ones(self.pages);
            if ones >= 64 {
                assert(forall|i: u64| i < 64 ==> #[trigger] bit(0xffff_ffff_ffff_ffffu64, i)) by {
                    assert(forall|i: u64| i < 64 ==> (0xffff_ffff_ffff_ffffu64 >> i) & 1 == 1)
                        by (bit_vector);
                }
            }
        }
        if ones < 64 {
            Some(ones as u8)
        } else {
            None
        }
    }

    /// Marks the lowest free frame used and returns its index, or returns
    /// `None` and changes nothing if all frames are in use.
    pub fn alloc_page(&mut self) -> (r: Option<u8>)
        ensures
            match r {
                Some(i) => {
                    &&& lowest_clear(old(self)@, i as u64)
                    &&& final(self)@ == old(self)@ | (1u64 << (i as u64))
                    &&& forall|j: u64|
                        j < 64 ==> #[trigger] final(self).used(j) == (j == i || old(self).used(j))
                },
                None => {
                    &&& final(self)@ == old(self)@
                    &&& forall|i: u64| i < 64 ==> #[trigger] old(self).used(i)
                },
            },
    {
        match self.get_first_free_page() {
            Some(i) => {
                proof {
                    lemma_set_bit(self.pages, i as u64);
                }
                self.pages = self.pages | (1u64 << (i as u64));
                Some(i)
            },
            None => None,
        }
    }

    /// Marks frame `page` used.
    pub fn mark(&mut self, page: u8)
        requires
            page < 64,
        ensures
            final(self)@ == old(self)@ | (1u64 << (page as u64)),
            forall|j: u64|
                j < 64 ==> #[trigger] final(self).used(j) == (j == page || old(self).used(j)),
    {
        proof {
            lemma_set_bit(self.pages, page as u64);
        }
        self.pages = self.pages | (1u64 << (page as u64));
    }

    /// Marks frame `page` free.
    pub fn dealloc(&mut self, page: u8)
        requires
            page < 64,
        ensures
            final(self)@ == old(self)@ & !(1u64 << (page as u64)),
            forall|j: u64|
                j < 64 ==> #[trigger] final(self).used(j) == (j != page && old(self).used(j)),
    {
        proof {
            lemma_clear_bit(self.pages, page as u64);
        }
        self.pages = self.pages & !(1u64 << (page as u64));
    }
}

/// Marking the lowest free frame of a word used and then free again gives
/// the word back as it was.
pub proof fn lemma_word_alloc_then_dealloc(w: u64, i: u64)
    requires
        i < 64,
        !bit(w, i),
    ensures
        (w | (1u64 << i)) & !(1u64 << i) == w,
{
    assert((w >> i) & 1 != 1 ==> (w | (1u64 << i)) & !(1u64 << i) == w) by (bit_vector)
        requires
            i < 64,
    ;
}

/// The pages that the boot environment has granted and that are not yet
/// handed out: a run of `remaining` frames from the address `next` on.
#[derive(Copy, Clone, Debug, PartialEq, Eq, Structural)]
pub struct PageSource {
    next: u64,
    remaining: u64,
}

impl PageSource {
    #[verifier::type_invariant]
    spec fn inv(self) -> bool {
        &&& is_frame_addr(self.next)
        &&& self.next + self.remaining * 4096 <= ADDR_MASK + 4096
    }

    /// The address of the next page that will be handed out.
    pub closed spec fn spec_next(self) -> u64 {
        self.next
    }

    /// The number of pages that are left.
    pub closed spec fn spec_remaining(self) -> u64 {
        self.remaining
    }

    /// A source that has nothing to hand out.
    pub fn empty() -> (s: Self)
        ensures
            s.spec_remaining() == 0,
    {
        assert(is_frame_addr(0)) by {
            assert(0u64 & ADDR_MASK == 0) by (bit_vector);
        }
        PageSource { next: 0, remaining: 0 }
    }

    /// The source of a grant of `pages` frames from the address `base` on.
    /// A grant that does not start at a frame address or that reaches past
    /// the end of the physical address space is cut down to nothing.
    pub fn new(base: u64, pages: u64) -> (s: Self)
        ensures
            s.spec_remaining() == if is_frame_addr(base) && base + pages * 4096 <= ADDR_MASK + 4096 {
                pages
            } else {
                0
            },
            s.spec_remaining() > 0 ==> s.spec_next() == base,
    {
        if base & ADDR_MASK == base && pages <= 0x100_0000_0000 && base <= (ADDR_MASK + 4096)
            - pages * 4096 {
            PageSource { next: base, remaining: pages }
        } else {
            Self::empty()
        }
    }

    /// The number of pages that are left.
    pub fn remaining(&self) -> (n: u64)
        ensures
            n == self.spec_remaining(),
    {
        self.remaining
    }

    /// Hands out `count` pages that lie one after the other and returns the
    /// address of the first, or returns `None` and hands out nothing if
    /// `count` is zero or more than what is left.
    pub fn allocate_contiguous_pages(&mut self, count: u64) -> (r: Option<u64>)
        ensures
            r is Some <==> 0 < count <= old(self).spec_remaining(),
            r matches Some(a) ==> {
                &&& a == old(self).spec_next()
                &&& is_frame_addr(a)
                &&& a + count * 4096 <= ADDR_MASK + 4096
                &&& final(self).spec_remaining() == old(self).spec_remaining() - count
                &&& final(self).spec_remaining() > 0 ==> final(self).spec_next() == a + count * 4096
            },
            r is None ==> *final(self) == *old(self),
    {
        proof {
            use_type_invariant(*self);
        }
        if count == 0 || count > self.remaining {
            return None;
        }
        let a = self.next;
        let left = self.remaining - count;
        if left == 0 {
            *self = Self::empty();
        } else {
            let n = a + count * 4096;
            proof {
                assert(a & ADDR_MASK == a && n == a + count * 4096 && n <= ADDR_MASK ==> n
                    & ADDR_MASK == n) by (bit_vector);
            }
            *self = PageSource { next: n, remaining: left };
        }
        Some(a)
    }
}

/// Why the frame allocator did not do what it was asked.
#[derive(Copy, Clone, Debug, PartialEq, Eq, Structural)]
pub enum AllocError {
    /// A bitmap block was needed and the page source had no page left.
    OutOfPhysicalMemory,
    /// The frame to be freed was not in use.
    DoubleFree,
    /// The address names no frame of the tracked memory.
    AddressOutOfRange,
}

/// The largest number of frames that physical addresses of 52 bits reach.
pub const MAX_FRAMES: u64 = 0x100_0000_0000;

/// The frame allocator: a chain of bitmap blocks over a physical memory of
/// `total` frames. Frame `n` lies at the address `n * 4096`; block `b` of
/// the chain tracks the frames from `b * SIZE` on. The chain starts empty
/// and grows by one block, taken from the page source, whenever a frame
/// beyond its last block is to be marked.
pub struct KernelPhysicalMemoryAllocator {
    allocs: Vec<MemTracer>,
    total_frames: u64,
    source: PageSource,
}

impl KernelPhysicalMemoryAllocator {
    /// The blocks are well formed, each of them starts below the end of the
    /// memory, and no frame past that end is marked used.
    pub closed spec fn wf(&self) -> bool {
        &&& self.total_frames <= MAX_FRAMES
        &&& self.allocs@.len() * SIZE < self.total_frames + SIZE
        &&& forall|b: int| 0 <= b < self.allocs@.len() ==> (#[trigger] self.allocs@[b]).wf()
        &&& forall|f: int| #[trigger] self.is_used(f) ==> f < self.total_frames
    }

    /// The number of frames of the memory.
    pub closed spec fn total(&self) -> int {
        self.total_frames as int
    }

    /// The number of blocks in the chain.
    pub closed spec fn blocks(&self) -> int {
        self.allocs@.len() as int
    }

    /// The number of pages that the page source has left for new blocks.
    pub closed spec fn spare(&self) -> int {
        self.source.spec_remaining() as int
    }

    /// Frame `frame` is in use. A frame that no block tracks is not.
    pub closed spec fn is_used(&self, frame: int) -> bool {
        &&& 0 <= frame
        &&& frame / (SIZE as int) < self.allocs@.len()
        &&& self.allocs@[frame / (SIZE as int)].used(frame % (SIZE as int))
    }

    /// `frame` is the lowest frame that is not in use.
    pub open spec fn is_lowest_free(&self, frame: int) -> bool {
        &&& 0 <= frame
        &&& !self.is_used(frame)
        &&& forall|g: int| 0 <= g < frame ==> #[trigger] self.is_used(g)
    }

    /// The lowest frame that is not in use.
    pub open spec fn lowest_free(&self) -> int {
        choose|f: int| self.is_lowest_free(f)
    }

    /// The frame that `allocate` hands out next: the lowest free frame, if
    /// it lies within the memory and a block tracks it or can be added for
    /// it.
    pub open spec fn next_frame(&self) -> Option<int> {
        let f = self.lowest_free();
        if f < self.total() && (f < self.blocks() * SIZE || self.spare() > 0) {
            Some(f)
        } else {
            None
        }
    }

    /// The first frame that cannot be handed out: the end of the memory, or
    /// the end of the last block that the chain can grow to, whichever comes
    /// first.
    pub open spec fn reach(&self) -> int {
        if self.total() <= (self.blocks() + self.spare()) * SIZE {
            self.total()
        } else {
            (self.blocks() + self.spare()) * SIZE
        }
    }

    /// The number of frames below `n` that are not in use.
    pub open spec fn free_below(&self, n: int) -> nat
        decreases n,
    {
        if n <= 0 {
            0
        } else if self.is_used(n - 1) {
            self.free_below(n - 1)
        } else {
            self.free_below(n - 1) + 1
        }
    }

    /// No frame is free below `n` exactly if all frames below `n` are in
    /// use.
    pub proof fn lemma_free_below_zero(&self, n: int)
        ensures
            self.free_below(n) == 0 <==> forall|g: int| 0 <= g < n ==> #[trigger] self.is_used(g),
        decreases n,
    {
        if n > 0 {
            self.lemma_free_below_zero(n - 1);
            if self.free_below(n) == 0 {
                assert forall|g: int| 0 <= g < n implies #[trigger] self.is_used(g) by {
                    if g < n - 1 {
                        assert(self.is_used(g));
                    }
                }
            }
        }
    }

    /// Where no frame below `n` is in use, all `n` of them are free.
    pub proof fn lemma_free_below_all(&self, n: int)
        requires
            0 <= n,
            forall|g: int| 0 <= g < n ==> !#[trigger] self.is_used(g),
        ensures
            self.free_below(n) == n,
        decreases n,
    {
        if n > 0 {
            self.lemma_free_below_all(n - 1);
        }
    }

    /// Marking one free frame used takes one from the count of free frames
    /// below every bound above it.
    pub proof fn lemma_free_below_after_mark(&self, post: &Self, frame: int, n: int)
        requires
            0 <= frame,
            !self.is_used(frame),
            forall|g: int| #[trigger] post.is_used(g) == (g == frame || self.is_used(g)),
        ensures
            post.free_below(n) == if frame < n {
                self.free_below(n) - 1
            } else {
                self.free_below(n) as int
            },
        decreases n,
    {
        if n > 0 {
            self.lemma_free_below_after_mark(post, frame, n - 1);
            assert(post.is_used(n - 1) == (n - 1 == frame || self.is_used(n - 1)));
        }
    }

    /// There is one lowest free frame.
    pub proof fn lemma_lowest_free_unique(&self, frame: int)
        requires
            self.is_lowest_free(frame),
        ensures
            self.lowest_free() == frame,
    {
        let f = self.lowest_free();
        assert(self.is_lowest_free(f));
        if f < frame {
            assert(self.is_used(f));
        } else if frame < f {
            assert(self.is_used(frame));
        }
    }

    /// There is a lowest free frame, and it lies within the blocks of the
    /// chain or right behind them.
    pub proof fn lemma_first_free(&self)
        requires
            self.wf(),
        ensures
            self.is_lowest_free(self.lowest_free()),
            self.lowest_free() <= self.blocks() * SIZE,
    {
        self.lemma_first_free_upto(self.blocks() * SIZE);
    }

    /// Among the frames up to `n`, of which frame `n` is free, one is the
    /// lowest free frame.
    proof fn lemma_first_free_upto(&self, n: int)
        requires
            0 <= n,
            !self.is_used(n),
        ensures
            self.is_lowest_free(self.lowest_free()),
            self.lowest_free() <= n,
        decreases n,
    {
        if forall|g: int| 0 <= g < n ==> #[trigger] self.is_used(g) {
            assert(self.is_lowest_free(n));
        } else {
            let g = choose|g: int| 0 <= g < n && !self.is_used(g);
            self.lemma_first_free_upto(g);
        }
        let f = self.lowest_free();
        if f > n {
            assert(self.is_used(n));
        }
    }

    /// No frame beyond the blocks of the chain, and none past the end of the
    /// memory, is in use.
    pub proof fn lemma_untracked_is_free(&self, frame: int)
        requires
            self.wf(),
            frame >= self.blocks() * SIZE || frame >= self.total(),
        ensures
            !self.is_used(frame),
    {
    }

    /// An allocator for a memory of `pages` frames, with an empty chain and
    /// the given source of pages for its blocks. A memory larger than
    /// physical addresses reach is cut down to `MAX_FRAMES`.
    pub fn new(pages: u64, source: PageSource) -> (a: Self)
        ensures
            a.wf(),
            a.total() == if pages <= MAX_FRAMES {
                pages
            } else {
                MAX_FRAMES
            },
            a.blocks() == 0,
            a.spare() == source.spec_remaining(),
            forall|f: int| !#[trigger] a.is_used(f),
            a.free_below(a.reach()) == a.reach(),
    {
        let total_frames = if pages <= MAX_FRAMES {
            pages
        } else {
            MAX_FRAMES
        };
        let a = KernelPhysicalMemoryAllocator { allocs: Vec::new(), total_frames, source };
        proof {
            a.lemma_free_below_all(a.reach());
        }
        a
    }

    /// The address of the page that holds block `index` of the chain.
    pub closed spec fn block_base(&self, index: int) -> u64 {
        self.allocs@[index].base()
    }

    /// The address of the page that holds block `index` of the chain, if the
    /// chain has that many blocks. These pages are not marked used by
    /// themselves.
    pub fn get_block_addr(&self, index: usize) -> (r: Option<u64>)
        requires
            self.wf(),
        ensures
            r == if index < self.blocks() {
                Some(self.block_base(index as int))
            } else {
                None
            },
    {
        if index < self.allocs.len() {
            Some(self.allocs[index].get_addr())
        } else {
            None
        }
    }

    /// The number of frames of the memory.
    pub fn total_frames(&self) -> (n: u64)
        ensures
            n == self.total(),
    {
        self.total_frames
    }

    /// Whether frame number `page` lies within the memory.
    pub fn check_free_page(&self, page: u64) -> (b: bool)
        ensures
            b == (page < self.total()),
    {
        page < self.total_frames
    }

    /// Whether the frame at `addr` is in use.
    pub fn is_frame_used(&self, addr: u64) -> (b: bool)
        requires
            self.wf(),
        ensures
            b == self.is_used(addr as int / 4096),
    {
        let frame = addr / 4096;
        let blk = frame / SIZE;
        if blk >= self.allocs.len() as u64 {
            return false;
        }
        self.allocs[blk as usize].is_used(frame % SIZE)
    }

    /// Adds a block to the chain, in a page taken from the source. Returns
    /// whether the source had a page.
    fn grow(&mut self) -> (r: bool)
        requires
            old(self).wf(),
            old(self).blocks() * SIZE < old(self).total(),
        ensures
            final(self).wf(),
            final(self).total() == old(self).total(),
            r == (old(self).spare() > 0),
            r ==> final(self).blocks() == old(self).blocks() + 1 && final(self).spare() == old(
                self,
            ).spare() - 1,
            !r ==> final(self).blocks() == old(self).blocks() && final(self).spare() == 0,
            forall|f: int| #[trigger] final(self).is_used(f) == old(self).is_used(f),
    {
        match self.source.allocate_contiguous_pages(1) {
            None => false,
            Some(page) => {
                let block = MemTracer::new(page);
                self.allocs.push(block);
                proof {
                    assert forall|f: int| #[trigger] self.is_used(f) == old(self).is_used(f) by {
                        if 0 <= f && f / (SIZE as int) < old(self).allocs@.len() {
                            assert(self.allocs@[f / (SIZE as int)] == old(self).allocs@[f / (
                            SIZE as int)]);
                        }
                    }
                }
                true
            },
        }
    }

    /// Marks the frame that holds `addr` used, without handing it out. The
    /// chain grows as far as the frame needs it.
    ///
    /// The error is `AddressOutOfRange` if the frame lies past the end of
    /// the memory, and `OutOfPhysicalMemory` if the chain has to grow
    /// further than the page source has pages for; blocks added before that
    /// stay, and no frame changes its state.
    pub fn mark_as_used(&mut self, addr: u64) -> (r: Result<(), AllocError>)
        requires
            old(self).wf(),
        ensures
            final(self).wf(),
            final(self).total() == old(self).total(),
            final(self).blocks() + final(self).spare() == old(self).blocks() + old(self).spare(),
            final(self).blocks() >= old(self).blocks(),
            r == if addr / 4096 >= old(self).total() {
                Err::<(), AllocError>(AllocError::AddressOutOfRange)
            } else if (addr / 4096) / SIZE >= old(self).blocks() + old(self).spare() {
                Err(AllocError::OutOfPhysicalMemory)
            } else {
                Ok(())
            },
            r is Ok ==> forall|f: int|
                #[trigger] final(self).is_used(f) == (f == addr / 4096 || old(self).is_used(f)),
            r is Ok ==> final(self).blocks() == if (addr / 4096) / SIZE < old(self).blocks() {
                old(self).blocks()
            } else {
                (addr / 4096) / SIZE + 1
            },
            r is Err ==> forall|f: int| #[trigger] final(self).is_used(f) == old(self).is_used(f),
            r == Err::<(), AllocError>(AllocError::AddressOutOfRange) ==> final(self).blocks() == old(
                self,
            ).blocks(),
            r == Err::<(), AllocError>(AllocError::OutOfPhysicalMemory) ==> final(self).spare() == 0,
    {
        let frame = addr / 4096;
        if frame >= self.total_frames {
            return Err(AllocError::AddressOutOfRange);
        }
        let blk = (frame / SIZE) as usize;
        while self.allocs.len() <= blk
            invariant
                self.wf(),
                frame < self.total_frames,
                blk == frame / SIZE,
                self.total() == old(self).total(),
                self.blocks() + self.spare() == old(self).blocks() + old(self).spare(),
                self.blocks() >= old(self).blocks(),
                self.blocks() == old(self).blocks() || self.blocks() <= blk + 1,
                frame == addr / 4096,
                forall|f: int| #[trigger] self.is_used(f) == old(self).is_used(f),
            decreases blk + 1 - self.allocs.len(),
        {
            if !self.grow() {
                return Err(AllocError::OutOfPhysicalMemory);
            }
        }
        let local = frame % SIZE;
        let ghost before = *self;
        self.allocs[blk].mark_as_used(local);
        proof {
            assert forall|f: int|
                #[trigger] self.is_used(f) == (f == frame || before.is_used(f)) by {
                if 0 <= f && f / (SIZE as int) < before.allocs@.len() {
                    if f / (SIZE as int) != blk {
                        assert(self.allocs@[f / (SIZE as int)] == before.allocs@[f / (SIZE as int)]);
                    }
                }
            }
        }
        Ok(())
    }

    /// Marks the frame at `addr` free.
    ///
    /// The error is `AddressOutOfRange` if `addr` is no frame address or
    /// lies past the end of the memory, and `DoubleFree` if the frame was
    /// not in use; in both cases nothing changes.
    pub fn free_page(&mut self, addr: u64) -> (r: Result<(), AllocError>)
        requires
            old(self).wf(),
        ensures
            final(self).wf(),
            final(self).total() == old(self).total(),
            final(self).blocks() == old(self).blocks(),
            final(self).spare() == old(self).spare(),
            r == if addr % 4096 != 0 || addr / 4096 >= old(self).total() {
                Err::<(), AllocError>(AllocError::AddressOutOfRange)
            } else if !old(self).is_used(addr as int / 4096) {
                Err(AllocError::DoubleFree)
            } else {
                Ok(())
            },
            r is Ok ==> forall|f: int|
                #[trigger] final(self).is_used(f) == (f != addr / 4096 && old(self).is_used(f)),
            r is Err ==> forall|f: int| #[trigger] final(self).is_used(f) == old(self).is_used(f),
    {
        if addr % 4096 != 0 {
            return Err(AllocError::AddressOutOfRange);
        }
        let frame = addr / 4096;
        if frame >= self.total_frames {
            return Err(AllocError::AddressOutOfRange);
        }
        let blk = frame / SIZE;
        if blk >= self.allocs.len() as u64 {
            return Err(AllocError::DoubleFree);
        }
        let was = self.allocs[blk as usize].free_page(frame % SIZE);
        proof {
            assert forall|f: int|
                #[trigger] self.is_used(f) == (f != frame && old(self).is_used(f)) by {
                if 0 <= f && f / (SIZE as int) < old(self).allocs@.len() {
                    if f / (SIZE as int) != blk {
                        assert(self.allocs@[f / (SIZE as int)] == old(self).allocs@[f / (
                        SIZE as int)]);
                    }
                }
            }
        }
        if was {
            Ok(())
        } else {
            Err(AllocError::DoubleFree)
        }
    }

    /// The lowest free frame that a block of the chain tracks, or the first
    /// frame beyond the chain if all blocks are full.
    fn find_lowest_free(&self) -> (frame: u64)
        requires
            self.wf(),
        ensures
            self.is_lowest_free(frame as int),
            frame <= self.blocks() * SIZE,
    {
        let mut b: usize = 0;
        while b < self.allocs.len()
            invariant
                b <= self.allocs.len(),
                self.wf(),
                forall|g: int| 0 <= g < b * SIZE ==> #[trigger] self.is_used(g),
            decreases self.allocs.len() - b,
        {
            match self.allocs[b].first_free() {
                Some(local) => {
                    let frame = (b as u64) * SIZE + local;
                    proof {
                        assert(frame as int / (SIZE as int) == b as int);
                        assert(frame as int % (SIZE as int) == local as int);
                        assert forall|g: int| 0 <= g < frame implies #[trigger] self.is_used(g) by {
                            if g >= b * SIZE {
                                assert(g / (SIZE as int) == b as int);
                                assert(self.allocs@[b as int].used(g % (SIZE as int)));
                            }
                        }
                    }
                    return frame;
                },
                None => {
                    proof {
                        assert forall|g: int| 0 <= g < (b + 1) * SIZE implies #[trigger] self.is_used(
                            g,
                        ) by {
                            if g >= b * SIZE {
                                assert(g / (SIZE as int) == b as int);
                                assert(self.allocs@[b as int].used(g % (SIZE as int)));
                            }
                        }
                    }
                },
            }
            b += 1;
        }
        (self.allocs.len() as u64) * SIZE
    }
}

impl PhysicalPageAllocator for KernelPhysicalMemoryAllocator {
    open spec fn inv(&self) -> bool {
        self.wf()
    }

    open spec fn used(&self) -> Set<u64> {
        Set::new(|a: u64| a % 4096 == 0 && self.is_used(a as int / 4096))
    }

    open spec fn next(&self) -> Option<u64> {
        match self.next_frame() {
            Some(f) => Some((f * 4096) as u64),
            None => None,
        }
    }

    open spec fn available(&self) -> nat {
        self.free_below(self.reach())
    }

    proof fn lemma_next_available(&self) {
        self.lemma_first_free();
        let f = self.lowest_free();
        self.lemma_free_below_zero(self.reach());
        if f < self.reach() {
            assert(!self.is_used(f));
        }
    }

    /// Hands out the lowest free frame and marks it used. There is none to
    /// hand out if the lowest free frame lies past the end of the memory,
    /// or if all blocks are full and the page source has no page for
    /// another; then nothing changes.
    fn allocate(&mut self) -> (r: Option<u64>)
        ensures
            final(self).total() == old(self).total(),
            final(self).blocks() + final(self).spare() == old(self).blocks() + old(self).spare(),
            final(self).blocks() >= old(self).blocks(),
            match r {
                Some(a) => {
                    &&& a == old(self).lowest_free() * 4096
                    &&& forall|f: int|
                        #[trigger] final(self).is_used(f) == (f == old(self).lowest_free() || old(
                            self,
                        ).is_used(f))
                },
                None => {
                    &&& final(self).blocks() == old(self).blocks()
                    &&& forall|f: int| #[trigger] final(self).is_used(f) == old(self).is_used(f)
                },
            },
    {
        let frame = self.find_lowest_free();
        proof {
            self.lemma_lowest_free_unique(frame as int);
            self.lemma_free_below_zero(self.reach());
            if frame < self.reach() {
                assert(!self.is_used(frame as int));
            }
        }
        if frame >= self.total_frames {
            proof {
                assert(self.used() =~= old(self).used());
            }
            return None;
        }
        let ghost blocks_before = self.blocks();
        match self.mark_as_used(frame * 4096) {
            Ok(()) => {
                let a = frame * 4096;
                proof {
                    assert(a as int / 4096 == frame as int);
                    assert(a & ADDR_MASK == a) by (bit_vector)
                        requires
                            a == frame * 4096,
                            frame < 0x100_0000_0000u64,
                    ;
                    assert(self.used() =~= old(self).used().insert(a));
                    old(self).lemma_free_below_after_mark(self, frame as int, self.reach());
                }
                Some(a)
            },
            Err(_) => {
                proof {
                    assert((frame * 4096) as int / 4096 == frame as int);
                    assert(self.used() =~= old(self).used());
                    assert(self.is_lowest_free(frame as int));
                    self.lemma_lowest_free_unique(frame as int);
                    self.lemma_free_below_zero(self.reach());
                }
                None
            },
        }
    }

    /// Takes the frame at `page` back. Nothing changes if `page` is no
    /// frame address, lies past the end of the memory or was not in use.
    fn deallocate(&mut self, page: u64)
        ensures
            final(self).total() == old(self).total(),
            final(self).blocks() == old(self).blocks(),
            final(self).spare() == old(self).spare(),
            forall|f: int|
                #[trigger] final(self).is_used(f) == (old(self).is_used(f) && !(f == page / 4096
                    && page % 4096 == 0)),
    {
        let r = self.free_page(page);
        proof {
            assert(self.used() =~= old(self).used().remove(page));
        }
    }
}

/// The kernel's allocator of memory, which takes its frames from the frame
/// allocator that it holds.
pub struct GlobalAllocator {
    palloc: KernelPhysicalMemoryAllocator,
}

impl GlobalAllocator {
    /// The frame allocator that is held.
    pub closed spec fn frames(&self) -> KernelPhysicalMemoryAllocator {
        self.palloc
    }

    /// An allocator over a memory of `pages` frames, none of them in use,
    /// with the given source of pages for the blocks of its bitmap.
    pub fn new(pages: u64, source: PageSource) -> (g: Self)
        ensures
            g.frames().wf(),
            g.frames().total() == if pages <= MAX_FRAMES {
                pages
            } else {
                MAX_FRAMES
            },
            g.frames().blocks() == 0,
            g.frames().spare() == source.spec_remaining(),
            forall|f: int| !#[trigger] g.frames().is_used(f),
    {
        GlobalAllocator { palloc: KernelPhysicalMemoryAllocator::new(pages, source) }
    }

    /// Gives the frame allocator back.
    pub fn into_frames(self) -> (a: KernelPhysicalMemoryAllocator)
        ensures
            a == self.frames(),
    {
        self.palloc
    }
}

/// The word whose bits from `lo` up to, not including, `hi` are set.
pub fn range_mask(lo: u64, hi: u64) -> (m: u64)
    requires
        lo <= hi <= 64,
    ensures
        forall|j: u64| j < 64 ==> #[trigger] bit(m, j) == (lo <= j < hi),
{
    if lo == hi {
        assert(forall|j: u64| j < 64 ==> !#[trigger] bit(0u64, j)) by {
            assert(forall|j: u64| j < 64 ==> (0u64 >> j) & 1 != 1) by (bit_vector);
        }
        return 0;
    }
    let width = hi - lo;
    let m = (u64::MAX >> (64 - width)) << lo;
    proof {
        assert forall|j: u64| j < 64 implies #[trigger] bit(m, j) == (lo <= j < hi) by {
            assert((((0xffff_ffff_ffff_ffffu64 >> ((64 - width) as u64)) << lo) >> j) & 1 == 1 <==> (lo
                <= j < hi)) by (bit_vector)
                requires
                    lo < hi <= 64,
                    width == hi - lo,
                    j < 64,
            ;
        }
    }
    m
}

/// Bit `p` of a bitmap of 64-bit words.
pub open spec fn bit_at(words: Seq<u64>, p: int) -> bool {
    bit(words[p / 64], (p % 64) as u64)
}

/// Sets `size` bits of a bitmap of 64-bit words, from bit `offset` on: the
/// frames that they stand for are marked used. Bits past the end of the
/// bitmap are left out; all other bits stay as they are.
pub fn set_bits(words: &mut Vec<u64>, offset: usize, size: usize)
    ensures
        final(words)@.len() == old(words)@.len(),
        forall|p: int|
            0 <= p < 64 * old(words)@.len() ==> #[trigger] bit_at(final(words)@, p) == (offset <= p
                < offset + size || bit_at(old(words)@, p)),
{
    let len = words.len();
    let end: u128 = offset as u128 + size as u128;
    let mut w: usize = offset / 64;
    while w < len && (w as u128) * 64 < end
        invariant
            len == old(words)@.len(),
            words@.len() == len,
            end == offset + size,
            offset / 64 <= w,
            forall|p: int|
                0 <= p < 64 * len && p / 64 < w ==> #[trigger] bit_at(words@, p) == (offset <= p
                    < offset + size || bit_at(old(words)@, p)),
            forall|p: int|
                0 <= p < 64 * len && p / 64 >= w ==> #[trigger] bit_at(words@, p) == bit_at(
                    old(words)@,
                    p,
                ),
        decreases len - w,
    {
        let base: u128 = (w as u128) * 64;
        let lo: u64 = if (offset as u128) > base {
            (offset as u128 - base) as u64
        } else {
            0
        };
        let hi: u64 = if end - base >= 64 {
            64
        } else {
            (end - base) as u64
        };
        if lo < hi {
            let mask = range_mask(lo, hi);
            let old_word = words[w];
            let new_word = old_word | mask;
            proof {
                assert forall|j: u64| j < 64 implies #[trigger] bit(new_word, j) == (bit(
                    old_word,
                    j,
                ) || bit(mask, j)) by {
                    assert(((old_word | mask) >> j) & 1 == 1 <==> ((old_word >> j) & 1 == 1 || (mask
                        >> j) & 1 == 1)) by (bit_vector);
                }
            }
            let ghost before = words@;
            words[w] = new_word;
            proof {
                assert forall|p: int| 0 <= p < 64 * len && p / 64 < w + 1 implies #[trigger] bit_at(
                    words@,
                    p,
                ) == (offset <= p < offset + size || bit_at(old(words)@, p)) by {
                    if p / 64 == w {
                        let j = (p % 64) as u64;
                        assert(bit_at(before, p) == bit_at(old(words)@, p));
                        assert(bit(new_word, j) == (bit(old_word, j) || bit(mask, j)));
                        assert(bit(mask, j) == (lo <= j < hi));
                    } else {
                        assert(bit_at(before, p) == (offset <= p < offset + size || bit_at(
                            old(words)@,
                            p,
                        )));
                    }
                }
                assert forall|p: int| 0 <= p < 64 * len && p / 64 >= w + 1 implies #[trigger] bit_at(
                    words@,
                    p,
                ) == bit_at(old(words)@, p) by {
                    assert(bit_at(before, p) == bit_at(old(words)@, p));
                }
            }
        } else {
            proof {
                assert forall|p: int| 0 <= p < 64 * len && p / 64 < w + 1 implies #[trigger] bit_at(
                    words@,
                    p,
                ) == (offset <= p < offset + size || bit_at(old(words)@, p)) by {
                    if p / 64 == w {
                        assert(bit_at(words@, p) == bit_at(old(words)@, p));
                    }
                }
            }
        }
        w += 1;
    }
    proof {
        assert forall|p: int| 0 <= p < 64 * len implies #[trigger] bit_at(words@, p) == (offset <= p
            < offset + size || bit_at(old(words)@, p)) by {
            if p / 64 >= w {
                assert(bit_at(words@, p) == bit_at(old(words)@, p));
            }
        }
    }
}

} // verus!
