//! Cursors over page tables that count what is free below them, and the
//! lookup that creates a table where there is none.
use super::page_structs::entry::PTEntry;
use super::page_structs::table::{creatable, PageTable};
use super::traits::{address_space, ENTRY_COUNT};
use super::PageWalker;
use crate::palloc::PhysicalPageAllocator;
use vstd::prelude::*;

verus! {

/// The number of pages that one entry of a table of the given rank covers.
pub open spec fn pages_per_entry(rank: nat) -> int {
    if rank <= 1 {
        1
    } else if rank == 2 {
        512
    } else if rank == 3 {
        0x4_0000
    } else if rank == 4 {
        0x800_0000
    } else {
        0x10_0000_0000
    }
}

/// The count of unused entries among the first `n` of a table, as far as
/// counting goes: it stops as soon as the count has reached `limit`.
pub open spec fn free_entries(t: PageTable, n: int, limit: int) -> int
    decreases n,
{
    if n <= 0 {
        0
    } else {
        let f = free_entries(t, n - 1, limit);
        if f >= limit {
            f
        } else if t.entry_at(n - 1).unused() {
            f + 1
        } else {
            f
        }
    }
}

/// The count of free pages below the first `n` entries of a table, as far
/// as counting goes. An unused entry counts for all pages that it covers;
/// an entry with a table below it counts for the free pages of that table,
/// themselves counted up to 512; any other entry counts for none. Counting
/// stops as soon as the count has reached `limit`.
pub open spec fn free_pages(t: PageTable, n: int, limit: int) -> int
    decreases t.level().rank(), n,
{
    if n <= 0 {
        0
    } else {
        let f = free_pages(t, n - 1, limit);
        if f >= limit {
            f
        } else if t.entry_at(n - 1).unused() {
            f + pages_per_entry(t.level().rank())
        } else {
            match t.table_at(n - 1) {
                Some(c) => if c.level().rank() < t.level().rank() {
                    f + free_pages(c, ENTRY_COUNT as int, ENTRY_COUNT as int)
                } else {
                    f
                },
                None => f,
            }
        }
    }
}

/// Counting entries stops at the limit or at the number of unused entries,
/// whichever comes first.
pub proof fn lemma_free_entries_is_min(t: PageTable, n: int, limit: int)
    requires
        0 <= n <= ENTRY_COUNT,
        0 <= limit,
    ensures
        free_entries(t, n, limit) == if t.unused_below(n) <= limit {
            t.unused_below(n) as int
        } else {
            limit
        },
    decreases n,
{
    if n > 0 {
        lemma_free_entries_is_min(t, n - 1, limit);
    }
}

/// A page table together with an index into it, which starts high and is
/// moved downwards.
pub struct PageTableIndex<'a> {
    index: usize,
    ptl: &'a PageTable,
}

impl<'a> PageTableIndex<'a> {
    /// The table.
    pub closed spec fn table(&self) -> PageTable {
        *self.ptl
    }

    /// The index.
    pub closed spec fn index(&self) -> int {
        self.index as int
    }

    /// The table is well formed and the index lies within it.
    pub open spec fn wf(&self) -> bool {
        self.table().wf() && 0 <= self.index() < ENTRY_COUNT
    }

    /// The cursor at the last entry of `pt`.
    pub fn new_high(pt: &'a PageTable) -> (c: Self)
        ensures
            c.table() == *pt,
            c.index() == ENTRY_COUNT - 1,
    {
        PageTableIndex { index: ENTRY_COUNT - 1, ptl: pt }
    }

    /// The cursor at entry `i` of `pt`.
    pub fn new(pt: &'a PageTable, i: usize) -> (c: Self)
        requires
            i < ENTRY_COUNT,
        ensures
            c.table() == *pt,
            c.index() == i,
    {
        PageTableIndex { index: i, ptl: pt }
    }

    /// The table.
    pub fn get_ptl(&self) -> (t: &'a PageTable)
        ensures
            *t == self.table(),
    {
        self.ptl
    }

    /// The index.
    pub fn get_index(&self) -> (i: usize)
        ensures
            i == self.index(),
    {
        self.index
    }

    /// Returns the index and then moves it down by one.
    pub fn get_dec_index(&mut self) -> (i: usize)
        requires
            old(self).index() > 0,
        ensures
            i == old(self).index(),
            final(self).index() == old(self).index() - 1,
            final(self).table() == old(self).table(),
    {
        let index = self.index;
        self.index = index - 1;
        index
    }

    /// Moves the index down by one and returns it.
    pub fn dec_get_index(&mut self) -> (i: usize)
        requires
            old(self).index() > 0,
        ensures
            i == old(self).index() - 1,
            final(self).index() == old(self).index() - 1,
            final(self).table() == old(self).table(),
    {
        self.index = self.index - 1;
        self.index
    }

    /// Moves the index down by one and returns the entry there.
    pub fn get_new_page_table_entry(&mut self) -> (e: PTEntry)
        requires
            old(self).wf(),
            old(self).index() > 0,
        ensures
            final(self).wf(),
            final(self).index() == old(self).index() - 1,
            final(self).table() == old(self).table(),
            e == old(self).table().entry_at(old(self).index() - 1),
    {
        let i = self.dec_get_index();
        self.ptl.entry(i)
    }

    /// The entry at the index.
    pub fn get_page_table_entry(&self) -> (e: PTEntry)
        requires
            self.wf(),
        ensures
            e == self.table().entry_at(self.index()),
    {
        self.ptl.entry(self.index)
    }

    /// The number of unused entries from the first up to the one at the
    /// index, counted up to `limit`.
    pub fn get_free_pages_lim_self(&self, limit: u64) -> (free: u64)
        requires
            self.wf(),
        ensures
            free == free_entries(self.table(), self.index() + 1, limit as int),
            free <= self.index() + 1,
            free <= limit,
    {
        let mut free: u64 = 0;
        let mut i: usize = 0;
        while i <= self.index
            invariant
                self.wf(),
                i <= self.index + 1,
                free == free_entries(self.table(), i as int, limit as int),
                free <= i,
                free <= limit,
            decreases self.index + 1 - i,
        {
            if free >= limit {
                proof {
                    lemma_free_entries_stay(self.table(), i as int, self.index() + 1, limit as int);
                }
                return free;
            }
            if self.ptl.entry(i).is_unused() {
                free += 1;
            }
            i += 1;
        }
        free
    }

    /// The cursor at the last entry of the table below the entry at the
    /// index, if there is a table.
    pub fn get_next_level(&self) -> (r: Option<PageTableIndex<'a>>)
        requires
            self.wf(),
        ensures
            match r {
                Some(c) => {
                    &&& self.table().table_at(self.index()) == Some(c.table())
                    &&& c.wf()
                    &&& c.index() == ENTRY_COUNT - 1
                    &&& c.table().level().rank() + 1 == self.table().level().rank()
                },
                None => self.table().table_at(self.index()) is None,
            },
    {
        self.get_next_level_index(self.index)
    }

    /// The cursor at the last entry of the table below the entry at
    /// `index`, if there is a table.
    pub fn get_next_level_index(&self, index: usize) -> (r: Option<PageTableIndex<'a>>)
        requires
            self.table().wf(),
            index < ENTRY_COUNT,
        ensures
            match r {
                Some(c) => {
                    &&& self.table().table_at(index as int) == Some(c.table())
                    &&& c.wf()
                    &&& c.index() == ENTRY_COUNT - 1
                    &&& c.table().level().rank() + 1 == self.table().level().rank()
                },
                None => self.table().table_at(index as int) is None,
            },
    {
        match self.ptl.sub_table(index) {
            Some(t) => Some(PageTableIndex::new_high(t)),
            None => None,
        }
    }

    /// The number of free pages below the entries from the first up to the
    /// one at the index, counted up to `limit`: see [`free_pages`].
    pub fn get_free_pages_lim(&self, limit: u64) -> (free: u64)
        requires
            self.wf(),
        ensures
            free == free_pages(self.table(), self.index() + 1, limit as int),
            free <= (self.index() + 1) * pages_per_entry(self.table().level().rank()),
        decreases self.table().level().rank(),
    {
        let rank = self.ptl.get_level().get_level();
        let per_entry: u64 = if rank <= 1 {
            1
        } else if rank == 2 {
            512
        } else if rank == 3 {
            0x4_0000
        } else if rank == 4 {
            0x800_0000
        } else {
            0x10_0000_0000
        };
        let mut free: u64 = 0;
        let mut i: usize = 0;
        while i <= self.index
            invariant
                self.wf(),
                i <= self.index + 1,
                rank == self.table().level().rank(),
                per_entry == pages_per_entry(rank as nat),
                free == free_pages(self.table(), i as int, limit as int),
                free <= i * per_entry,
            decreases self.index + 1 - i,
        {
            if free >= limit {
                proof {
                    lemma_free_pages_stay(self.table(), i as int, self.index() + 1, limit as int);
                }
                return free;
            }
            if self.ptl.entry(i).is_unused() {
                free += per_entry;
            } else {
                match self.get_next_level_index(i) {
                    Some(c) => {
                        let below = c.get_free_pages_lim(512);
                        free += below;
                    },
                    None => {},
                }
            }
            i += 1;
        }
        free
    }
}

/// Once counting entries has reached the limit, it stays where it is.
pub proof fn lemma_free_entries_stay(t: PageTable, n: int, m: int, limit: int)
    requires
        0 <= n <= m,
        free_entries(t, n, limit) >= limit,
    ensures
        free_entries(t, m, limit) == free_entries(t, n, limit),
    decreases m - n,
{
    if n < m {
        lemma_free_entries_stay(t, n, m - 1, limit);
    }
}

/// Once counting pages has reached the limit, it stays where it is.
pub proof fn lemma_free_pages_stay(t: PageTable, n: int, m: int, limit: int)
    requires
        0 <= n <= m,
        free_pages(t, n, limit) >= limit,
    ensures
        free_pages(t, m, limit) == free_pages(t, n, limit),
    decreases m - n,
{
    if n < m {
        lemma_free_pages_stay(t, n, m - 1, limit);
    }
}

/// The table below the entry at `index` of `table`. Where the entry is
/// unused, an empty table is first put there, in a frame taken from
/// `palloc`. There is none if the entry is in use without a table below it,
/// or if `palloc` hands out no frame; then nothing has changed.
pub fn get_or_create<'a, A: PhysicalPageAllocator>(
    table: &'a mut PageTable,
    index: u16,
    palloc: &mut A,
) -> (r: Option<&'a PageTable>)
    requires
        old(table).wf(),
        old(palloc).inv(),
        index < ENTRY_COUNT,
        !old(table).level().leaf(),
    ensures
        final(table).wf(),
        final(palloc).inv(),
        match r {
            Some(t) => final(table).table_at(index as int) == Some(*t) && t.wf(),
            None => *final(table) == *old(table) && final(palloc).used() == old(palloc).used(),
        },
        old(table).table_at(index as int) is Some ==> r is Some && *final(table) == *old(table)
            && *final(palloc) == *old(palloc),
        old(table).table_at(index as int) is None ==> {
            &&& r is Some <==> old(table).entry_at(index as int).unused() && old(palloc).next()
                is Some
            &&& r is Some ==> final(table).installed(
                *old(table),
                index as int,
                old(palloc).next()->Some_0,
            ) && final(palloc).used() == old(palloc).used().insert(old(palloc).next()->Some_0)
        },
{
    let exists = table.sub_table(index as usize).is_some();
    if !exists {
        match table.create_sub_table(index, palloc) {
            Ok(()) => {},
            Err(()) => {
                return None;
            },
        }
    }
    table.sub_table(index as usize)
}

/// Hands out the pages of an address space one after the other, from its
/// last page downwards, and creates the tables that lead to them. It takes
/// no notice of what is mapped already: it is meant for an address space
/// whose upper end is not in use.
pub struct LinearPageTableGetter<PPA: PhysicalPageAllocator> {
    palloc: PPA,
    pw: PageWalker,
    next: Option<u64>,
}

impl<PPA: PhysicalPageAllocator> LinearPageTableGetter<PPA> {
    /// The walker of the address space.
    pub closed spec fn walker(&self) -> PageWalker {
        self.pw
    }

    /// The allocator that the frames of new tables are taken from.
    pub closed spec fn allocator(&self) -> PPA {
        self.palloc
    }

    /// The address of the page that is handed out next, if any is left.
    pub closed spec fn next_page(&self) -> Option<u64> {
        self.next
    }

    /// The walker and the allocator are well formed, and the next page lies
    /// at a page boundary.
    pub open spec fn wf(&self) -> bool {
        &&& self.walker().wf()
        &&& self.allocator().inv()
        &&& self.next_page() matches Some(a) ==> a % 4096 == 0
    }

    /// The address of the last page that a walker with a root of the given
    /// rank reaches.
    pub open spec fn last_page(rank: nat) -> int {
        address_space(rank) - 4096
    }

    /// A getter for the address space of `pw`, which starts at its last
    /// page. The tables that lead to that page are created at once; there
    /// is no getter if they cannot be: if an entry on the way is in use
    /// without a table below it, or if `palloc` has fewer frames than tables
    /// are missing.
    pub fn new(pw: PageWalker, palloc: PPA) -> (r: Option<Self>)
        requires
            pw.wf(),
            palloc.inv(),
        ensures
            r matches Some(g) ==> {
                &&& g.wf()
                &&& g.next_page() == Some(Self::last_page(pw.root().level().rank()) as u64)
                &&& g.walker().walk(g.next_page()->Some_0) is Ok
                &&& g.walker().root().level() == pw.root().level()
                &&& forall|v: u64| #[trigger] g.walker().mapped(v) == pw.mapped(v)
            },
            r is Some <==> creatable(
                pw.root(),
                &palloc,
                Self::last_page(pw.root().level().rank()) as u64,
            ),
    {
        let mut pw = pw;
        let mut palloc = palloc;
        let top: u64 = if pw.table().get_level().get_level() == 5 {
            0x200_0000_0000_0000 - 4096
        } else {
            0x1_0000_0000_0000 - 4096
        };
        match pw.create_leaf(top, &mut palloc) {
            Ok(_) => Some(LinearPageTableGetter { palloc, pw, next: Some(top) }),
            Err(_) => None,
        }
    }

    /// Hands out the next page: creates the tables that lead to it and
    /// returns its address and its leaf entry. Returns `None` when no page
    /// is left or a table could not be created; then the same page is tried
    /// again next time.
    pub fn get_page(&mut self) -> (r: Option<(u64, PTEntry)>)
        requires
            old(self).wf(),
        ensures
            final(self).wf(),
            final(self).walker().root().level() == old(self).walker().root().level(),
            forall|v: u64| #[trigger] final(self).walker().mapped(v) == old(self).walker().mapped(v),
            match r {
                Some((a, e)) => {
                    &&& old(self).next_page() == Some(a)
                    &&& final(self).walker().walk(a) == Ok::<PTEntry, u8>(e)
                    &&& final(self).next_page() == if a >= 4096 {
                        Some((a - 4096) as u64)
                    } else {
                        None
                    }
                },
                None => final(self).next_page() == old(self).next_page(),
            },
            r is Some <==> (old(self).next_page() matches Some(a) && creatable(
                old(self).walker().root(),
                &old(self).allocator(),
                a,
            )),
            r is None ==> (old(self).next_page() matches Some(a) ==> {
                ||| final(self).walker().root().blocked(a)
                ||| final(self).allocator().next() is None
            }),
    {
        let a = match self.next {
            Some(a) => a,
            None => {
                return None;
            },
        };
        match self.pw.create_leaf(a, &mut self.palloc) {
            Ok(e) => {
                self.next = if a >= 4096 {
                    Some(a - 4096)
                } else {
                    None
                };
                Some((a, e))
            },
            Err(_) => None,
        }
    }

    /// Gives up the getter for its walker and its allocator.
    pub fn into_parts(self) -> (r: (PageWalker, PPA))
        ensures
            r.0 == self.walker(),
            r.1 == self.allocator(),
    {
        (self.pw, self.palloc)
    }
}

/// A page table together with the means to reach what lies below it.
pub struct PageTableGetter {
    ptt: PageTable,
}

impl PageTableGetter {
    /// The table.
    pub closed spec fn table(&self) -> PageTable {
        self.ptt
    }

    /// A getter over the table `ptt`.
    pub fn new(ptt: PageTable) -> (g: Self)
        ensures
            g.table() == ptt,
    {
        PageTableGetter { ptt }
    }

    /// The table below the entry at index `i`, which is created in a frame
    /// from `palloc` where the entry is unused: see [`get_or_create`].
    pub fn get_entry_indexed<A: PhysicalPageAllocator>(&mut self, i: u16, palloc: &mut A) -> (r:
        Option<&PageTable>)
        requires
            old(self).table().wf(),
            old(palloc).inv(),
            i < ENTRY_COUNT,
            !old(self).table().level().leaf(),
        ensures
            final(self).table().wf(),
            final(palloc).inv(),
            match r {
                Some(t) => final(self).table().table_at(i as int) == Some(*t) && t.wf(),
                None => final(self).table() == old(self).table() && final(palloc).used() == old(
                    palloc,
                ).used(),
            },
            old(self).table().table_at(i as int) is Some ==> r is Some && final(self).table()
                == old(self).table() && *final(palloc) == *old(palloc),
            old(self).table().table_at(i as int) is None ==> {
                &&& r is Some <==> old(self).table().entry_at(i as int).unused() && old(
                    palloc,
                ).next() is Some
                &&& r is Some ==> final(self).table().installed(
                    old(self).table(),
                    i as int,
                    old(palloc).next()->Some_0,
                ) && final(palloc).used() == old(palloc).used().insert(old(palloc).next()->Some_0)
            },
    {
        get_or_create(&mut self.ptt, i, palloc)
    }

    /// The first unused entry of the table, with its index.
    pub fn get_page(&self) -> (r: Option<(u16, PTEntry)>)
        requires
            self.table().wf(),
        ensures
            match r {
                Some((i, e)) => {
                    &&& i < ENTRY_COUNT
                    &&& e == self.table().entry_at(i as int)
                    &&& e.unused()
                    &&& forall|j: int|
                        0 <= j < i ==> !(#[trigger] self.table().entry_at(j)).unused()
                },
                None => forall|j: int|
                    0 <= j < ENTRY_COUNT ==> !(#[trigger] self.table().entry_at(j)).unused(),
            },
    {
        self.ptt.get_free_entry()
    }
}

} // verus!
