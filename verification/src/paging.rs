//! Page tables: the level hierarchy, entries, tables, and the walker.
pub mod page_structs;
pub mod ptgetter;
pub mod traits;

use crate::palloc::PhysicalPageAllocator;
use page_structs::entry::{is_frame_addr, PTEntry};
use page_structs::table::{leaf_created, PageTable};
use traits::{page_index, same_path, LevelEnum};
use vstd::prelude::*;

verus! {

/// The walker of one address space: it holds the root table and resolves
/// virtual addresses from there.
pub struct PageWalker {
    addr: PageTable,
}

impl PageWalker {
    /// The root table.
    pub closed spec fn root(&self) -> PageTable {
        self.addr
    }

    /// The root table is well formed and of the fourth or fifth level.
    pub open spec fn wf(&self) -> bool {
        &&& self.root().wf()
        &&& 4 <= self.root().level().rank() <= 5
    }

    /// The leaf entry that `addr` resolves to, or the rank of the level at
    /// which the walk stops.
    pub open spec fn walk(&self, addr: u64) -> Result<PTEntry, u8> {
        self.root().walk(addr)
    }

    /// The entry that maps `addr`, if it is mapped.
    pub open spec fn mapped(&self, addr: u64) -> Option<PTEntry> {
        self.root().mapped(addr)
    }

    /// A walker over the given root table.
    pub fn new(root: PageTable) -> (w: Self)
        ensures
            w.root() == root,
    {
        PageWalker { addr: root }
    }

    /// The root table.
    pub fn table(&self) -> (t: &PageTable)
        ensures
            *t == self.root(),
    {
        &self.addr
    }

    /// The table of the next lower level that `addr` selects in the root
    /// table, or the rank of the root's level if there is none.
    pub fn get_page(&self, addr: u64) -> (r: Result<&PageTable, u8>)
        requires
            self.wf(),
        ensures
            match r {
                Ok(t) => {
                    &&& self.root().table_at(page_index(addr, self.root().level().rank()) as int)
                        == Some(*t)
                    &&& t.wf()
                    &&& t.level().rank() + 1 == self.root().level().rank()
                },
                Err(l) => {
                    &&& self.root().table_at(page_index(addr, self.root().level().rank()) as int)
                        is None
                    &&& l == self.root().level().rank()
                },
            },
            r is Ok <==> self.root().entry_at(
                page_index(addr, self.root().level().rank()) as int,
            ).links(),
            r matches Ok(t) ==> t.frame() == page_structs::entry::word_addr(
                self.root().entry_at(page_index(addr, self.root().level().rank()) as int)@,
            ),
    {
        self.addr.get_page(addr)
    }

    /// Makes sure that the table that `addr` selects in the root table
    /// exists, taking a frame from `palloc` where it has to be created. The
    /// error is the rank of the root's level; then nothing has changed.
    pub fn create_pt<A: PhysicalPageAllocator>(&mut self, addr: u64, palloc: &mut A) -> (r: Result<
        (),
        u8,
    >)
        requires
            old(self).wf(),
            old(palloc).inv(),
        ensures
            final(self).wf(),
            final(palloc).inv(),
            r matches Err(l) ==> l == old(self).root().level().rank() && final(self).root() == old(
                self,
            ).root() && final(palloc).used() == old(palloc).used(),
            ({
                let pre = old(self).root();
                let i = page_index(addr, pre.level().rank()) as int;
                if pre.table_at(i) is Some {
                    r is Ok && final(self).root() == pre && *final(palloc) == *old(palloc)
                } else if !pre.entry_at(i).unused() {
                    r is Err && *final(palloc) == *old(palloc)
                } else {
                    match old(palloc).next() {
                        Some(f) => {
                            &&& r is Ok
                            &&& final(self).root().installed(pre, i, f)
                            &&& final(palloc).used() == old(palloc).used().insert(f)
                        },
                        None => r is Err,
                    }
                }
            }),
    {
        self.addr.create_pt(addr, palloc)
    }

    /// Resolves `addr` without changing anything: returns the leaf entry,
    /// or the rank of the level at which an entry points to no table.
    pub fn get_leaf(&self, addr: u64) -> (r: Result<PTEntry, u8>)
        requires
            self.wf(),
        ensures
            r == self.walk(addr),
    {
        self.addr.get_leaf(addr)
    }

    /// Resolves `addr` and installs the tables that are missing on the way,
    /// each in a frame taken from `palloc` and with all entries unused.
    /// Returns the leaf entry, or the rank of the level at which no table
    /// could be installed. Tables installed before a failure stay.
    ///
    /// Where `addr` already resolves to a leaf entry, nothing is allocated
    /// and nothing changes. No address gains or loses a mapping. What holds
    /// afterwards is stated by [`leaf_created`].
    pub fn create_leaf<A: PhysicalPageAllocator>(&mut self, addr: u64, palloc: &mut A) -> (r:
        Result<PTEntry, u8>)
        requires
            old(self).wf(),
            old(palloc).inv(),
        ensures
            final(self).wf(),
            final(palloc).inv(),
            leaf_created(
                old(self).root(),
                final(self).root(),
                old(palloc),
                final(palloc),
                addr,
                r,
            ),
    {
        self.addr.create_leaf(addr, palloc)
    }

    /// Overwrites the leaf entry that `addr` resolves to with `entry`, which
    /// must be unused or present, or returns the rank of the level at which
    /// the walk stops and changes nothing.
    /// Afterwards every address on the page of `addr` resolves to `entry`,
    /// and every other address resolves as before.
    pub fn set_leaf(&mut self, addr: u64, entry: PTEntry) -> (r: Result<(), u8>)
        requires
            old(self).wf(),
            entry.valid(),
        ensures
            final(self).wf(),
            final(self).root().level() == old(self).root().level(),
            final(self).root().frame() == old(self).root().frame(),
            match old(self).walk(addr) {
                Ok(_) => r is Ok && forall|v: u64|
                    #[trigger] final(self).walk(v) == if same_path(
                        v,
                        addr,
                        old(self).root().level().rank(),
                    ) {
                        Ok::<PTEntry, u8>(entry)
                    } else {
                        old(self).walk(v)
                    },
                Err(l) => r == Err::<(), u8>(l) && final(self).root() == old(self).root(),
            },
            forall|v: u64|
                #[trigger] final(self).root().blocked(v) == old(self).root().blocked(v),
    {
        self.addr.set_leaf(addr, entry)
    }
}

/// A walker over a fresh address space whose root table lies in the frame
/// at `root`: of the fifth level where the processor pages with five levels,
/// of the fourth otherwise. There is none if `root` is null or no frame
/// address.
pub fn get_page_walker(root: u64, five_level: bool) -> (r: Option<PageWalker>)
    ensures
        r is Some <==> root != 0 && is_frame_addr(root),
        r matches Some(w) ==> {
            &&& w.wf()
            &&& w.root().frame() == root
            &&& w.root().level() == if five_level {
                LevelEnum::Level5
            } else {
                LevelEnum::Level4
            }
            &&& forall|v: u64| #[trigger] w.mapped(v) is None
            &&& forall|v: u64| !#[trigger] w.root().blocked(v)
            &&& forall|v: u64|
                #[trigger] w.root().walk(v) == Err::<PTEntry, u8>(w.root().level().rank() as u8)
            &&& forall|v: u64| #[trigger] w.walk(v) == Err::<PTEntry, u8>(w.root().level().rank() as u8)
        },
{
    if root == 0 || root & page_structs::entry::ADDR_MASK != root {
        return None;
    }
    let level = if five_level {
        LevelEnum::Level5
    } else {
        LevelEnum::Level4
    };
    let w = PageWalker { addr: PageTable::new(level, root) };
    proof {
        broadcast use traits::lemma_page_index_bound;
        assert forall|v: u64| #[trigger] w.walk(v) == Err::<PTEntry, u8>(w.root().level().rank() as u8) by {
            let i = page_index(v, w.root().level().rank()) as int;
            assert(w.root().table_at(i) is None);
        }
        assert forall|v: u64| !#[trigger] w.root().blocked(v) by {
            let i = page_index(v, w.root().level().rank()) as int;
            assert(w.root().table_at(i) is None);
            assert(w.root().entry_at(i).unused());
        }
    }
    Some(w)
}

/// The table of the fourth level of the address space: the root table
/// itself, or, below a root of the fifth level, the table under its first
/// entry, which is created in a frame from `palloc` if it is missing.
/// There is none if it had to be created and could not be.
pub fn get_ptl4<'a, A: PhysicalPageAllocator>(pw: &'a mut PageWalker, palloc: &mut A) -> (r: Option<
    &'a PageTable,
>)
    requires
        old(pw).wf(),
        old(palloc).inv(),
    ensures
        final(pw).wf(),
        final(palloc).inv(),
        r matches Some(t) ==> t.wf() && t.level() == LevelEnum::Level4,
        old(pw).root().level() == LevelEnum::Level4 ==> {
            &&& r matches Some(t) && *t == final(pw).root()
            &&& final(pw).root() == old(pw).root()
            &&& *final(palloc) == *old(palloc)
        },
        old(pw).root().level() == LevelEnum::Level5 ==> {
            &&& match r {
                Some(t) => final(pw).root().table_at(0) == Some(*t),
                None => final(pw).root() == old(pw).root() && old(pw).root().table_at(0) is None
                    && final(palloc).used() == old(palloc).used(),
            }
            &&& old(pw).root().table_at(0) is Some ==> r is Some && final(pw).root() == old(
                pw,
            ).root() && *final(palloc) == *old(palloc)
            &&& old(pw).root().table_at(0) is None ==> {
                &&& r is Some <==> old(pw).root().entry_at(0).unused() && old(palloc).next()
                    is Some
                &&& r is Some ==> final(pw).root().installed(
                    old(pw).root(),
                    0,
                    old(palloc).next()->Some_0,
                ) && final(palloc).used() == old(palloc).used().insert(old(palloc).next()->Some_0)
            }
        },
{
    proof {
        assert(page_index(0u64, 5) == 0) by {
            assert((0u64 >> 48u64) & 0x1ffu64 == 0) by (bit_vector);
        }
    }
    if pw.addr.get_level().get_level() == 5 {
        match pw.addr.create_pt(0, palloc) {
            Ok(()) => {},
            Err(_) => {
                return None;
            },
        }
        match pw.addr.get_page(0) {
            Ok(t) => Some(t),
            Err(_) => None,
        }
    } else {
        Some(&pw.addr)
    }
}

} // verus!
