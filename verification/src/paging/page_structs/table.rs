//! Page tables. A table holds 512 entries and owns the tables of the next
//! lower level that its entries point to, so that a hierarchy of tables is a
//! tree below its root.
use super::super::traits::{lemma_page_index_bound, page_index, same_path, LevelEnum, ENTRY_COUNT};
use super::entry::{
    is_frame_addr, lemma_unused_not_present, word_addr, word_has, PTEntry, PageTableFlags,
    HUGE_PAGE, PRESENT, WRITABLE,
};
use crate::palloc::PhysicalPageAllocator;
use vstd::prelude::*;

verus! {

/// What creating the leaf entry for `addr` promises when it returns `r` and
/// takes the table from `pre` to `post` and the allocator from `a0` to `a1`.
///
/// The result is what the walk reaches afterwards. Existing leaves stay,
/// and no address gains or loses a mapping. Where the walk reached the leaf
/// entry before, or stopped at an entry in use, or the allocator had no
/// frame, the result is that of the walk before and nothing has changed.
/// Where the walk stopped at the level of rank `l0` at an unused entry,
/// `l0 - 1` tables are missing: the call succeeds exactly if the allocator
/// had as many frames available; with fewer it installs a table in each of
/// them and fails at the rank that is left. The frames in use afterwards are
/// those in use before and those of the new tables, which were not in use
/// and are as many as there are new tables; the first frame that the
/// allocator hands out holds the new table of the highest rank.
pub open spec fn leaf_created<A: PhysicalPageAllocator>(
    pre: PageTable,
    post: PageTable,
    a0: &A,
    a1: &A,
    addr: u64,
    r: Result<PTEntry, u8>,
) -> bool {
    &&& post.level() == pre.level()
    &&& post.frame() == pre.frame()
    &&& r == post.walk(addr)
    &&& forall|v: u64| pre.walk(v) is Ok ==> #[trigger] post.walk(v) == pre.walk(v)
    &&& forall|v: u64| #[trigger] post.mapped(v) == pre.mapped(v)
    &&& forall|v: u64| #[trigger] post.blocked(v) == pre.blocked(v)
    &&& pre.walk(addr) is Ok || pre.blocked(addr) ==> {
        &&& r == pre.walk(addr)
        &&& post == pre
        &&& *a1 == *a0
    }
    &&& a0.next() is None ==> r == pre.walk(addr) && post == pre
    &&& pre.walk(addr) matches Err(l0) ==> !pre.blocked(addr) ==> {
        &&& r is Ok <==> a0.available() >= l0 - 1
        &&& r matches Ok(e) ==> e.unused()
        &&& r matches Err(l) ==> {
            &&& l == l0 - a0.available()
            &&& 1 < l <= l0
            &&& a1.next() is None
        }
        &&& a1.available() == if r is Ok {
            a0.available() - (l0 - 1)
        } else {
            0
        }
        &&& a1.used() == a0.used().union(post.path_frames(addr, l0 as nat))
        &&& post.path_frames(addr, l0 as nat).disjoint(a0.used())
        &&& post.path_frames(addr, l0 as nat).finite()
        &&& post.path_frames(addr, l0 as nat).len() == l0 - (match r {
            Ok(_) => 1,
            Err(l) => l,
        })
        &&& a0.next() matches Some(f) ==> post.path_frame(addr, (l0 - 1) as nat) == Some(f)
    }
}

/// The leaf entry for `addr` exists below `table` or can be created with
/// frames from `a`: the walk reaches it, or it stops at the level of rank
/// `l0` at an unused entry and `a` has the `l0 - 1` frames for the missing
/// tables.
pub open spec fn creatable<A: PhysicalPageAllocator>(table: PageTable, a: &A, addr: u64) -> bool {
    match table.walk(addr) {
        Ok(_) => true,
        Err(l0) => !table.blocked(addr) && a.available() >= l0 - 1,
    }
}

/// Represents a page table: 512 entries in one frame of physical memory.
pub struct PageTable {
    entries: Vec<PTEntry>,
    tables: Vec<Option<Box<PageTable>>>,
    level: LevelEnum,
    addr: u64,
}

impl PageTable {
    /// The level of the table.
    pub closed spec fn level(&self) -> LevelEnum {
        self.level
    }

    /// The address of the frame that holds the table.
    pub closed spec fn frame(&self) -> u64 {
        self.addr
    }

    /// The entry at index `i`.
    pub closed spec fn entry_at(&self, i: int) -> PTEntry {
        self.entries@[i]
    }

    /// The table that the entry at index `i` points to, where it points to
    /// one.
    pub closed spec fn table_at(&self, i: int) -> Option<PageTable> {
        match self.tables@[i] {
            Some(t) => Some(*t),
            None => None,
        }
    }

    /// The table is well formed: it has 512 entries and lies at a frame
    /// address; each entry is unused or present; above the leaf level, each
    /// entry that is present and maps no huge page owns a table; each entry
    /// that owns a table is present, is no huge page and holds that table's
    /// address; and each table below is of the next lower level and well
    /// formed itself. Leaf tables own no tables.
    pub closed spec fn wf(&self) -> bool
        decreases self.level().rank(),
    {
        &&& self.entries@.len() == ENTRY_COUNT
        &&& self.tables@.len() == ENTRY_COUNT
        &&& is_frame_addr(self.addr)
        &&& forall|i: int| 0 <= i < ENTRY_COUNT ==> (#[trigger] self.entries@[i]).valid()
        &&& forall|i: int|
            0 <= i < ENTRY_COUNT && !self.level().leaf() && (#[trigger] self.entries@[i]).links()
                ==> self.tables@[i] is Some
        &&& forall|i: int|
            0 <= i < ENTRY_COUNT ==> match #[trigger] self.tables@[i] {
                Some(t) => {
                    &&& t.level.rank() + 1 == self.level.rank()
                    &&& t.wf()
                    &&& self.entries@[i].present()
                    &&& !self.entries@[i].huge()
                    &&& word_addr(self.entries@[i]@) == t.addr
                },
                None => true,
            }
    }

    /// The leaf entry that a walk from this table reaches for `addr`, or the
    /// rank of the level at which the walk stops because the entry there
    /// points to no table.
    pub open spec fn walk(&self, addr: u64) -> Result<PTEntry, u8>
        decreases self.level().rank(),
    {
        let i = page_index(addr, self.level().rank()) as int;
        if self.level().leaf() {
            Ok(self.entry_at(i))
        } else {
            match self.table_at(i) {
                Some(t) => if t.level().rank() < self.level().rank() {
                    t.walk(addr)
                } else {
                    Err(self.level().rank() as u8)
                },
                None => Err(self.level().rank() as u8),
            }
        }
    }

    /// The entry that maps `addr`, if a walk reaches a leaf entry for it and
    /// that entry is present.
    pub open spec fn mapped(&self, addr: u64) -> Option<PTEntry> {
        match self.walk(addr) {
            Ok(e) => if e.present() {
                Some(e)
            } else {
                None
            },
            Err(_) => None,
        }
    }

    /// The walk for `addr` stops at an entry that is in use and points to no
    /// table, so that no table can be installed there.
    pub open spec fn blocked(&self, addr: u64) -> bool
        decreases self.level().rank(),
    {
        let i = page_index(addr, self.level().rank()) as int;
        if self.level().leaf() {
            false
        } else {
            match self.table_at(i) {
                Some(t) => t.level().rank() < self.level().rank() && t.blocked(addr),
                None => !self.entry_at(i).unused(),
            }
        }
    }

    /// The frames of the tables of rank below `below` that the walk for
    /// `addr` passes on its way down from this table.
    pub open spec fn path_frames(&self, addr: u64, below: nat) -> Set<u64>
        decreases self.level().rank(),
    {
        let i = page_index(addr, self.level().rank()) as int;
        if self.level().leaf() {
            Set::empty()
        } else {
            match self.table_at(i) {
                Some(t) => if t.level().rank() < self.level().rank() {
                    if t.level().rank() < below {
                        t.path_frames(addr, below).insert(t.frame())
                    } else {
                        t.path_frames(addr, below)
                    }
                } else {
                    Set::empty()
                },
                None => Set::empty(),
            }
        }
    }

    /// The number of unused entries among the first `n`.
    pub open spec fn unused_below(&self, n: int) -> nat
        decreases n,
    {
        if n <= 0 {
            0
        } else {
            self.unused_below(n - 1) + if self.entry_at(n - 1).unused() {
                1nat
            } else {
                0nat
            }
        }
    }

    /// `self` is `pre` with an empty table of the next lower level, held in
    /// the frame `frame`, put under the entry at `index`, and that entry
    /// pointing to it, present and writable. All other entries and the
    /// tables below them are those of `pre`.
    pub open spec fn installed(&self, pre: PageTable, index: int, frame: u64) -> bool {
        &&& self.level() == pre.level()
        &&& self.frame() == pre.frame()
        &&& self.entry_at(index)@ == PTEntry::mapping(frame, PRESENT | WRITABLE)
        &&& forall|j: int|
            0 <= j < ENTRY_COUNT && j != index ==> #[trigger] self.entry_at(j) == pre.entry_at(j)
        &&& forall|j: int|
            0 <= j < ENTRY_COUNT && j != index ==> #[trigger] self.table_at(j) == pre.table_at(j)
        &&& self.table_at(index) matches Some(t) && {
            &&& t.level().rank() + 1 == pre.level().rank()
            &&& t.frame() == frame
            &&& forall|j: int| 0 <= j < ENTRY_COUNT ==> (#[trigger] t.entry_at(j)).unused()
            &&& forall|j: int| 0 <= j < ENTRY_COUNT ==> #[trigger] t.table_at(j) is None
        }
    }

    /// In a well-formed table, an entry that owns a table is present, is no
    /// huge page and holds the address of that table, which is well formed
    /// and of the next lower level. An unused entry owns no table.
    pub proof fn lemma_wf_table(&self, i: int)
        requires
            self.wf(),
            0 <= i < ENTRY_COUNT,
        ensures
            self.table_at(i) matches Some(t) ==> {
                &&& t.wf()
                &&& t.level().rank() + 1 == self.level().rank()
                &&& self.entry_at(i).present()
                &&& !self.entry_at(i).huge()
                &&& word_addr(self.entry_at(i)@) == t.frame()
            },
            self.entry_at(i).unused() ==> self.table_at(i) is None,
            self.entry_at(i).valid(),
            !self.level().leaf() && self.entry_at(i).links() ==> self.table_at(i) is Some,
            self.level().leaf() ==> self.table_at(i) is None,
            is_frame_addr(self.frame()),
    {
        lemma_unused_not_present();
        match self.tables@[i] {
            Some(t) => {},
            None => {},
        }
    }

    /// Creates a table of the given level at the frame `addr`, with all
    /// entries unused.
    pub fn new(level: LevelEnum, addr: u64) -> (t: Self)
        requires
            is_frame_addr(addr),
        ensures
            t.wf(),
            t.level() == level,
            t.frame() == addr,
            forall|i: int| 0 <= i < ENTRY_COUNT ==> (#[trigger] t.entry_at(i)).unused(),
            forall|i: int| 0 <= i < ENTRY_COUNT ==> #[trigger] t.table_at(i) is None,
    {
        let mut entries: Vec<PTEntry> = Vec::new();
        let mut tables: Vec<Option<Box<PageTable>>> = Vec::new();
        let mut n: usize = 0;
        while n < ENTRY_COUNT
            invariant
                n <= ENTRY_COUNT,
                entries@.len() == n,
                tables@.len() == n,
                forall|i: int| 0 <= i < n ==> (#[trigger] entries@[i])@ == 0,
                forall|i: int| 0 <= i < n ==> #[trigger] tables@[i] is None,
            decreases ENTRY_COUNT - n,
        {
            entries.push(PTEntry::new());
            tables.push(None);
            n += 1;
        }
        proof {
            lemma_unused_not_present();
        }
        PageTable { entries, tables, level, addr }
    }

    /// The address of the frame that holds the table.
    pub fn get_addr(&self) -> (a: u64)
        ensures
            a == self.frame(),
    {
        self.addr
    }

    /// The level of the table.
    pub fn get_level(&self) -> (l: LevelEnum)
        ensures
            l == self.level(),
    {
        self.level
    }

    /// The entry at `index`.
    pub fn entry(&self, index: usize) -> (e: PTEntry)
        requires
            self.wf(),
            index < ENTRY_COUNT,
        ensures
            e == self.entry_at(index as int),
    {
        self.entries[index]
    }

    /// The table below the entry at `index`, if the entry points to one.
    pub fn sub_table(&self, index: usize) -> (r: Option<&PageTable>)
        requires
            self.wf(),
            index < ENTRY_COUNT,
        ensures
            match r {
                Some(t) => self.table_at(index as int) == Some(*t) && t.wf() && t.level().rank()
                    + 1 == self.level().rank(),
                None => self.table_at(index as int) is None,
            },
    {
        match &self.tables[index] {
            Some(t) => Some(&**t),
            None => None,
        }
    }

    /// Resolves `addr` without changing anything: returns the leaf entry
    /// that the walk reaches, or the rank of the level at which an entry
    /// points to no table.
    pub fn get_leaf(&self, addr: u64) -> (r: Result<PTEntry, u8>)
        requires
            self.wf(),
        ensures
            r == self.walk(addr),
        decreases self.level().rank(),
    {
        let i = self.level.index_of(addr);
        if self.level.is_leaf() {
            return Ok(self.entries[i]);
        }
        match &self.tables[i] {
            Some(t) => t.get_leaf(addr),
            None => Err(self.level.get_level()),
        }
    }
    /// Whether the walk for `addr` stops at an entry that is in use.
    pub fn is_blocked(&self, addr: u64) -> (b: bool)
        requires
            self.wf(),
        ensures
            b == self.blocked(addr),
        decreases self.level().rank(),
    {
        let i = self.level.index_of(addr);
        if self.level.is_leaf() {
            return false;
        }
        match &self.tables[i] {
            Some(t) => t.is_blocked(addr),
            None => !self.entries[i].is_unused(),
        }
    }

    /// The frame of the table of the given rank that the walk for `addr`
    /// passes below this table, if it passes one.
    pub open spec fn path_frame(&self, addr: u64, rank: nat) -> Option<u64>
        decreases self.level().rank(),
    {
        let i = page_index(addr, self.level().rank()) as int;
        if self.level().leaf() {
            None
        } else {
            match self.table_at(i) {
                Some(t) => if t.level().rank() < self.level().rank() {
                    if t.level().rank() == rank {
                        Some(t.frame())
                    } else {
                        t.path_frame(addr, rank)
                    }
                } else {
                    None
                },
                None => None,
            }
        }
    }

    /// A walk that stops, stops at a rank above the leaf level and not
    /// above the table's own.
    pub proof fn lemma_walk_err_rank(&self, addr: u64)
        requires
            self.walk(addr) is Err,
        ensures
            1 < self.walk(addr)->Err_0 <= self.level().rank(),
        decreases self.level().rank(),
    {
        let i = page_index(addr, self.level().rank()) as int;
        if !self.level().leaf() {
            match self.table_at(i) {
                Some(t) => {
                    if t.level().rank() < self.level().rank() {
                        t.lemma_walk_err_rank(addr);
                    }
                },
                None => {},
            }
        }
    }

    /// Where the walk stops at the level of rank `l`, there is no table of
    /// a rank below `l` on the path.
    pub proof fn lemma_no_path_below(&self, addr: u64)
        requires
            self.walk(addr) is Err,
        ensures
            self.path_frames(addr, self.walk(addr)->Err_0 as nat) =~= Set::<u64>::empty(),
        decreases self.level().rank(),
    {
        let i = page_index(addr, self.level().rank()) as int;
        if !self.level().leaf() {
            match self.table_at(i) {
                Some(t) => {
                    if t.level().rank() < self.level().rank() {
                        t.lemma_no_path_below(addr);
                        t.lemma_walk_err_rank(addr);
                    }
                },
                None => {},
            }
        }
    }

    /// The tables on a path all rank below the table that the path starts
    /// from, so a bound at or above that table's rank leaves none out.
    pub proof fn lemma_path_frames_bound(&self, addr: u64, b1: nat, b2: nat)
        requires
            self.level().rank() <= b1,
            self.level().rank() <= b2,
        ensures
            self.path_frames(addr, b1) == self.path_frames(addr, b2),
        decreases self.level().rank(),
    {
        let i = page_index(addr, self.level().rank()) as int;
        if !self.level().leaf() {
            match self.table_at(i) {
                Some(t) => {
                    if t.level().rank() < self.level().rank() {
                        t.lemma_path_frames_bound(addr, b1, b2);
                    }
                },
                None => {},
            }
        }
    }

    /// Addresses that select the same entry at every level resolve alike.
    pub proof fn lemma_same_path_walk(&self, a: u64, b: u64)
        requires
            self.wf(),
            same_path(a, b, self.level().rank()),
        ensures
            self.walk(a) == self.walk(b),
            self.mapped(a) == self.mapped(b),
        decreases self.level().rank(),
    {
        broadcast use lemma_page_index_bound;

        let i = page_index(a, self.level().rank()) as int;
        if !self.level().leaf() {
            self.lemma_wf_table(i);
            match self.table_at(i) {
                Some(t) => {
                    t.lemma_same_path_walk(a, b);
                },
                None => {},
            }
        }
    }

    /// Puts an empty table of the next lower level, held in the frame
    /// `frame`, under the entry at `index`, which must be unused, and makes
    /// the entry point to it, present and writable.
    fn install(&mut self, index: usize, frame: u64)
        requires
            old(self).wf(),
            index < ENTRY_COUNT,
            !old(self).level().leaf(),
            old(self).table_at(index as int) is None,
            is_frame_addr(frame),
        ensures
            final(self).wf(),
            final(self).level() == old(self).level(),
            final(self).frame() == old(self).frame(),
            final(self).entry_at(index as int)@ == PTEntry::mapping(frame, PRESENT | WRITABLE),
            forall|j: int|
                0 <= j < ENTRY_COUNT && j != index ==> #[trigger] final(self).entry_at(j) == old(
                    self,
                ).entry_at(j),
            forall|j: int|
                0 <= j < ENTRY_COUNT && j != index ==> #[trigger] final(self).table_at(j) == old(
                    self,
                ).table_at(j),
            final(self).table_at(index as int) matches Some(t) && {
                &&& t.wf()
                &&& t.level().rank() + 1 == old(self).level().rank()
                &&& t.frame() == frame
                &&& forall|j: int| 0 <= j < ENTRY_COUNT ==> (#[trigger] t.entry_at(j)).unused()
                &&& forall|j: int| 0 <= j < ENTRY_COUNT ==> #[trigger] t.table_at(j) is None
            },
    {
        let down = match self.level.next_lower_level() {
            Some(d) => d,
            None => self.level,
        };
        let t = PageTable::new(down, frame);
        let mut e = PTEntry::new();
        let flags = PageTableFlags::from_bits_truncate(PRESENT | WRITABLE);
        e.set_addr(frame, flags);
        proof {
            assert(super::entry::word_flags(PRESENT | WRITABLE) == PRESENT | WRITABLE)
                by (bit_vector);
            assert(((frame | 3) & 1 == 1) && ((frame | 3) & 0x80 != 0x80)) by (bit_vector)
                requires
                    frame & 0x000f_ffff_ffff_f000u64 == frame,
            ;
            assert(PRESENT | WRITABLE == 3) by (bit_vector);
        }
        self.tables[index] = Some(Box::new(t));
        self.entries[index] = e;
    }

    /// Installs the tables that are missing on the way to the leaf entry for
    /// `addr`, each in a frame taken from `palloc`, from the level where the
    /// walk stops downwards.
    fn extend<A: PhysicalPageAllocator>(&mut self, addr: u64, palloc: &mut A) -> (r: Result<
        PTEntry,
        u8,
    >)
        requires
            old(self).wf(),
            old(palloc).inv(),
            !old(self).blocked(addr),
        ensures
            final(self).wf(),
            final(palloc).inv(),
            final(self).level() == old(self).level(),
            final(self).frame() == old(self).frame(),
            r == final(self).walk(addr),
            !final(self).blocked(addr),
            forall|v: u64|
                old(self).walk(v) is Ok ==> #[trigger] final(self).walk(v) == old(self).walk(v),
            forall|v: u64| #[trigger] final(self).mapped(v) == old(self).mapped(v),
            forall|v: u64| #[trigger] final(self).blocked(v) == old(self).blocked(v),
            old(self).walk(addr) is Ok ==> *final(palloc) == *old(palloc),
            r matches Err(l) ==> final(palloc).next() is None,
            old(self).walk(addr) matches Err(l0) ==> {
                &&& r matches Ok(e) ==> e.unused()
                &&& r matches Err(l) ==> 1 < l <= l0 && (l == l0 <==> old(palloc).next() is None)
                &&& r is Ok <==> old(palloc).available() >= l0 - 1
                &&& r matches Err(l) ==> l == l0 - old(palloc).available()
                &&& final(palloc).available() == if r is Ok {
                    old(palloc).available() - (l0 - 1)
                } else {
                    0
                }
                &&& final(palloc).used() == old(palloc).used().union(
                    final(self).path_frames(addr, l0 as nat),
                )
                &&& final(self).path_frames(addr, l0 as nat).disjoint(old(palloc).used())
                &&& final(self).path_frames(addr, l0 as nat).finite()
                &&& final(self).path_frames(addr, l0 as nat).len() == l0 - (match r {
                    Ok(_) => 1,
                    Err(l) => l,
                })
            },
        decreases old(self).level().rank(),
    {
        let i = self.level.index_of(addr);
        if self.level.is_leaf() {
            return Ok(self.entries[i]);
        }
        if self.tables[i].is_none() {
            match palloc.allocate() {
                None => {
                    assert(self.path_frames(addr, self.level().rank()) =~= Set::<u64>::empty());
                    assert(palloc.used() =~= old(palloc).used().union(Set::<u64>::empty()));
                    return Err(self.level.get_level());
                },
                Some(frame) => {
                    self.install(i, frame);
                },
            }
        }
        let ghost mid = *self;
        proof {
            broadcast use lemma_page_index_bound;
            assert forall|v: u64| old(self).walk(v) is Ok implies #[trigger] mid.walk(v) == old(
                self,
            ).walk(v) by {
                let j = page_index(v, self.level().rank()) as int;
                assert(mid.table_at(j) == old(self).table_at(j));
            }
            lemma_unused_not_present();
            assert forall|v: u64| #[trigger] mid.mapped(v) == old(self).mapped(v) by {
                let j = page_index(v, self.level().rank()) as int;
                if j != i || old(self).table_at(i as int) is Some {
                    assert(mid.table_at(j) == old(self).table_at(j));
                } else {
                    let t = mid.table_at(i as int)->Some_0;
                    let k = page_index(v, t.level().rank()) as int;
                    assert(t.entry_at(k).unused());
                    assert(t.table_at(k) is None);
                    assert(mid.walk(v) == t.walk(v));
                }
            }
            assert forall|v: u64| #[trigger] mid.blocked(v) == old(self).blocked(v) by {
                let j = page_index(v, self.level().rank()) as int;
                if j != i || old(self).table_at(i as int) is Some {
                    assert(mid.table_at(j) == old(self).table_at(j));
                    assert(mid.entry_at(j) == old(self).entry_at(j));
                } else {
                    let t = mid.table_at(i as int)->Some_0;
                    let k = page_index(v, t.level().rank()) as int;
                    assert(t.entry_at(k).unused());
                    assert(t.table_at(k) is None);
                    assert(!old(self).blocked(addr));
                    assert(old(self).entry_at(i as int).unused());
                    assert(!old(self).blocked(v));
                    assert(!t.blocked(v));
                }
            }
        }
        let r = match &mut self.tables[i] {
            Some(t) => t.extend(addr, palloc),
            None => Err(self.level.get_level()),
        };
        proof {
            broadcast use lemma_page_index_bound;
            let c1 = mid.table_at(i as int)->Some_0;
            let c2 = self.table_at(i as int)->Some_0;
            assert(self.entries == mid.entries);
            assert(c2.level() == c1.level());
            assert forall|v: u64| mid.walk(v) is Ok implies #[trigger] self.walk(v) == mid.walk(
                v,
            ) by {
                let j = page_index(v, self.level().rank()) as int;
                if j != i {
                    assert(self.table_at(j) == mid.table_at(j));
                } else {
                    assert(mid.walk(v) == c1.walk(v));
                    assert(self.walk(v) == c2.walk(v));
                    assert(c2.walk(v) == c1.walk(v));
                }
            }
            assert forall|v: u64| #[trigger] self.mapped(v) == mid.mapped(v) by {
                let j = page_index(v, self.level().rank()) as int;
                if j != i {
                    assert(self.table_at(j) == mid.table_at(j));
                } else {
                    assert(c2.mapped(v) == c1.mapped(v));
                }
            }
            assert forall|v: u64| #[trigger] self.blocked(v) == mid.blocked(v) by {
                let j = page_index(v, self.level().rank()) as int;
                if j != i {
                    assert(self.table_at(j) == mid.table_at(j));
                } else {
                    assert(c2.blocked(v) == c1.blocked(v));
                }
            }
            if old(self).walk(addr) is Err {
                old(self).lemma_walk_err_rank(addr);
                let l0 = old(self).walk(addr)->Err_0;
                if old(self).table_at(i as int) is Some {
                    c1.lemma_walk_err_rank(addr);
                    assert(self.path_frames(addr, l0 as nat) == c2.path_frames(addr, l0 as nat));
                } else {
                    let k = page_index(addr, c1.level().rank()) as int;
                    assert(c1.table_at(k) is None);
                    c2.lemma_path_frames_bound(addr, l0 as nat, c2.level().rank());
                    if c1.walk(addr) is Err {
                        c1.lemma_walk_err_rank(addr);
                        c2.lemma_path_frames_bound(
                            addr,
                            c1.walk(addr)->Err_0 as nat,
                            c2.level().rank(),
                        );
                    } else {
                        assert(c2.level().leaf());
                        assert(c2.path_frames(addr, l0 as nat) =~= Set::<u64>::empty());
                    }
                    assert(self.path_frames(addr, l0 as nat) =~= c2.path_frames(
                        addr,
                        l0 as nat,
                    ).insert(c2.frame()));
                    assert(palloc.used() =~= old(palloc).used().union(
                        self.path_frames(addr, l0 as nat),
                    ));
                }
            }
        }
        r
    }
    /// Installs the tables that are missing on the way to the leaf entry for
    /// `addr`, of which there is at least one: the first of them in the
    /// frame `first`, which was taken from `palloc` before, and each further
    /// one in a frame taken from `palloc` now.
    fn extend_with<A: PhysicalPageAllocator>(&mut self, addr: u64, first: u64, palloc: &mut A) -> (r:
        Result<PTEntry, u8>)
        requires
            old(self).wf(),
            old(palloc).inv(),
            old(self).walk(addr) is Err,
            !old(self).blocked(addr),
            is_frame_addr(first),
            old(palloc).used().contains(first),
        ensures
            final(self).wf(),
            final(palloc).inv(),
            final(self).level() == old(self).level(),
            final(self).frame() == old(self).frame(),
            r == final(self).walk(addr),
            !final(self).blocked(addr),
            forall|v: u64|
                old(self).walk(v) is Ok ==> #[trigger] final(self).walk(v) == old(self).walk(v),
            forall|v: u64| #[trigger] final(self).mapped(v) == old(self).mapped(v),
            forall|v: u64| #[trigger] final(self).blocked(v) == old(self).blocked(v),
            r matches Ok(e) ==> e.unused(),
            r matches Err(l) ==> final(palloc).next() is None,
            ({
                let l0 = old(self).walk(addr)->Err_0;
                &&& r is Ok <==> old(palloc).available() >= l0 - 2
                &&& r matches Err(l) ==> l == l0 - 1 - old(palloc).available() && 1 < l < l0
                &&& final(palloc).available() == if r is Ok {
                    old(palloc).available() - (l0 - 2)
                } else {
                    0
                }
                &&& final(palloc).used() == old(palloc).used().union(
                    final(self).path_frames(addr, l0 as nat),
                )
                &&& final(self).path_frames(addr, l0 as nat).contains(first)
                &&& final(self).path_frames(addr, l0 as nat).remove(first).disjoint(
                    old(palloc).used(),
                )
                &&& final(self).path_frames(addr, l0 as nat).finite()
                &&& final(self).path_frames(addr, l0 as nat).len() == l0 - (match r {
                    Ok(_) => 1,
                    Err(l) => l,
                })
                &&& final(self).path_frame(addr, (l0 - 1) as nat) == Some(first)
            }),
        decreases old(self).level().rank(),
    {
        let i = self.level.index_of(addr);
        if self.level.is_leaf() {
            return Ok(self.entries[i]);
        }
        let created = self.tables[i].is_none();
        if created {
            self.install(i, first);
        }
        let ghost mid = *self;
        proof {
            broadcast use lemma_page_index_bound;
            assert forall|v: u64| old(self).walk(v) is Ok implies #[trigger] mid.walk(v) == old(
                self,
            ).walk(v) by {
                let j = page_index(v, self.level().rank()) as int;
                assert(mid.table_at(j) == old(self).table_at(j));
            }
            lemma_unused_not_present();
            assert forall|v: u64| #[trigger] mid.mapped(v) == old(self).mapped(v) by {
                let j = page_index(v, self.level().rank()) as int;
                if j != i || old(self).table_at(i as int) is Some {
                    assert(mid.table_at(j) == old(self).table_at(j));
                } else {
                    let t = mid.table_at(i as int)->Some_0;
                    let k = page_index(v, t.level().rank()) as int;
                    assert(t.entry_at(k).unused());
                    assert(t.table_at(k) is None);
                    assert(mid.walk(v) == t.walk(v));
                }
            }
            assert forall|v: u64| #[trigger] mid.blocked(v) == old(self).blocked(v) by {
                let j = page_index(v, self.level().rank()) as int;
                if j != i || old(self).table_at(i as int) is Some {
                    assert(mid.table_at(j) == old(self).table_at(j));
                    assert(mid.entry_at(j) == old(self).entry_at(j));
                } else {
                    let t = mid.table_at(i as int)->Some_0;
                    let k = page_index(v, t.level().rank()) as int;
                    assert(t.entry_at(k).unused());
                    assert(t.table_at(k) is None);
                    assert(!old(self).blocked(addr));
                    assert(old(self).entry_at(i as int).unused());
                    assert(!old(self).blocked(v));
                    assert(!t.blocked(v));
                }
            }
            old(self).lemma_walk_err_rank(addr);
            if created {
                let t = mid.table_at(i as int)->Some_0;
                let k = page_index(addr, t.level().rank()) as int;
                assert(t.table_at(k) is None);
                assert(t.entry_at(k).unused());
            }
        }
        let r = match &mut self.tables[i] {
            Some(t) => {
                if created {
                    t.extend(addr, palloc)
                } else {
                    t.extend_with(addr, first, palloc)
                }
            },
            None => Err(self.level.get_level()),
        };
        proof {
            broadcast use lemma_page_index_bound;
            let c1 = mid.table_at(i as int)->Some_0;
            let c2 = self.table_at(i as int)->Some_0;
            let l0 = old(self).walk(addr)->Err_0;
            assert(self.entries == mid.entries);
            assert(c2.level() == c1.level());
            assert forall|v: u64| mid.walk(v) is Ok implies #[trigger] self.walk(v) == mid.walk(
                v,
            ) by {
                let j = page_index(v, self.level().rank()) as int;
                if j != i {
                    assert(self.table_at(j) == mid.table_at(j));
                } else {
                    assert(mid.walk(v) == c1.walk(v));
                    assert(self.walk(v) == c2.walk(v));
                    assert(c2.walk(v) == c1.walk(v));
                }
            }
            assert forall|v: u64| #[trigger] self.mapped(v) == mid.mapped(v) by {
                let j = page_index(v, self.level().rank()) as int;
                if j != i {
                    assert(self.table_at(j) == mid.table_at(j));
                } else {
                    assert(c2.mapped(v) == c1.mapped(v));
                }
            }
            assert forall|v: u64| #[trigger] self.blocked(v) == mid.blocked(v) by {
                let j = page_index(v, self.level().rank()) as int;
                if j != i {
                    assert(self.table_at(j) == mid.table_at(j));
                } else {
                    assert(c2.blocked(v) == c1.blocked(v));
                }
            }
            if created {
                c2.lemma_path_frames_bound(addr, l0 as nat, c2.level().rank());
                if c1.walk(addr) is Err {
                    c1.lemma_walk_err_rank(addr);
                    c2.lemma_path_frames_bound(
                        addr,
                        c1.walk(addr)->Err_0 as nat,
                        c2.level().rank(),
                    );
                } else {
                    assert(c2.level().leaf());
                    assert(c2.path_frames(addr, l0 as nat) =~= Set::<u64>::empty());
                }
                assert(self.path_frames(addr, l0 as nat) =~= c2.path_frames(
                    addr,
                    l0 as nat,
                ).insert(first));
                assert(palloc.used() =~= old(palloc).used().union(
                    self.path_frames(addr, l0 as nat),
                ));
            } else {
                c1.lemma_walk_err_rank(addr);
                assert(self.path_frames(addr, l0 as nat) == c2.path_frames(addr, l0 as nat));
            }
        }
        r
    }

    /// Resolves `addr` and installs the tables that are missing on the way:
    /// each in a frame taken from `palloc`, with all entries unused, under an
    /// entry that is present and writable. Returns the leaf entry, or the
    /// rank of the level at which no table could be installed, because the
    /// entry there is in use or because `palloc` had no frame left. Tables
    /// installed before a failure stay.
    ///
    /// Where the walk already reaches the leaf entry, nothing is allocated
    /// and nothing changes. Where it stops at the level of rank `l0` at an
    /// unused entry, `l0 - 1` tables are missing, and the call succeeds
    /// exactly if `palloc` has as many frames available; with fewer, it
    /// installs a table in each of them and fails at the rank that is left.
    /// The frames of the new tables were not in use before.
    pub fn create_leaf<A: PhysicalPageAllocator>(&mut self, addr: u64, palloc: &mut A) -> (r:
        Result<PTEntry, u8>)
        requires
            old(self).wf(),
            old(palloc).inv(),
        ensures
            final(self).wf(),
            final(palloc).inv(),
            leaf_created(*old(self), *final(self), old(palloc), final(palloc), addr, r),
    {
        match self.get_leaf(addr) {
            Ok(e) => Ok(e),
            Err(l) => {
                if self.is_blocked(addr) {
                    Err(l)
                } else {
                    match palloc.allocate() {
                        None => {
                            proof {
                                self.lemma_walk_err_rank(addr);
                                self.lemma_no_path_below(addr);
                                assert(palloc.used() =~= old(palloc).used().union(
                                    self.path_frames(addr, l as nat),
                                ));
                            }
                            Err(l)
                        },
                        Some(first) => {
                            proof {
                                self.lemma_walk_err_rank(addr);
                            }
                            let r = self.extend_with(addr, first, palloc);
                            proof {
                                assert(self.path_frames(addr, l as nat).disjoint(
                                    old(palloc).used(),
                                )) by {
                                    assert forall|a: u64|
                                        self.path_frames(addr, l as nat).contains(a) && old(
                                            palloc,
                                        ).used().contains(a) implies false by {
                                        if a != first {
                                            assert(self.path_frames(addr, l as nat).remove(
                                                first,
                                            ).contains(a));
                                        }
                                    }
                                }
                                assert(palloc.used() =~= old(palloc).used().union(
                                    self.path_frames(addr, l as nat),
                                ));
                            }
                            r
                        },
                    }
                }
            },
        }
    }

    /// Overwrites the leaf entry for `addr`, which the walk must reach.
    fn put(&mut self, addr: u64, entry: PTEntry)
        requires
            old(self).wf(),
            old(self).walk(addr) is Ok,
            entry.valid(),
        ensures
            final(self).wf(),
            final(self).level() == old(self).level(),
            final(self).frame() == old(self).frame(),
            forall|v: u64|
                #[trigger] final(self).walk(v) == if same_path(
                    v,
                    addr,
                    old(self).level().rank(),
                ) {
                    Ok::<PTEntry, u8>(entry)
                } else {
                    old(self).walk(v)
                },
            forall|v: u64| #[trigger] final(self).blocked(v) == old(self).blocked(v),
        decreases old(self).level().rank(),
    {
        let i = self.level.index_of(addr);
        proof {
            broadcast use lemma_page_index_bound;
        }
        if self.level.is_leaf() {
            self.entries[i] = entry;
            proof {
                assert forall|v: u64|
                    #[trigger] self.walk(v) == if same_path(v, addr, old(self).level().rank()) {
                        Ok::<PTEntry, u8>(entry)
                    } else {
                        old(self).walk(v)
                    } by {
                    reveal_with_fuel(same_path, 2);
                }
            }
            return ;
        }
        let ghost mid = *self;
        match &mut self.tables[i] {
            Some(t) => {
                t.put(addr, entry);
            },
            None => {},
        }
        proof {
            let c1 = mid.table_at(i as int)->Some_0;
            let c2 = self.table_at(i as int)->Some_0;
            assert(self.entries == mid.entries);
            assert(c2.level() == c1.level());
            assert forall|v: u64|
                #[trigger] self.walk(v) == if same_path(v, addr, old(self).level().rank()) {
                    Ok::<PTEntry, u8>(entry)
                } else {
                    old(self).walk(v)
                } by {
                let j = page_index(v, self.level().rank()) as int;
                if j != i {
                    assert(self.table_at(j) == mid.table_at(j));
                } else {
                    assert(mid.walk(v) == c1.walk(v));
                    assert(self.walk(v) == c2.walk(v));
                }
            }
            assert forall|v: u64| #[trigger] self.blocked(v) == old(self).blocked(v) by {
                let j = page_index(v, self.level().rank()) as int;
                if j != i {
                    assert(self.table_at(j) == mid.table_at(j));
                } else {
                    assert(c2.blocked(v) == c1.blocked(v));
                }
            }
        }
    }

    /// Overwrites the leaf entry for `addr` with `entry`, which must be
    /// unused or present, if the walk reaches it; otherwise returns the rank
    /// of the level at which the walk stops and changes nothing. Afterwards
    /// every address on the page of `addr` resolves to `entry`, and every
    /// other address resolves as before.
    pub fn set_leaf(&mut self, addr: u64, entry: PTEntry) -> (r: Result<(), u8>)
        requires
            old(self).wf(),
            entry.valid(),
        ensures
            final(self).wf(),
            final(self).level() == old(self).level(),
            final(self).frame() == old(self).frame(),
            match old(self).walk(addr) {
                Ok(_) => r is Ok && forall|v: u64|
                    #[trigger] final(self).walk(v) == if same_path(
                        v,
                        addr,
                        old(self).level().rank(),
                    ) {
                        Ok::<PTEntry, u8>(entry)
                    } else {
                        old(self).walk(v)
                    },
                Err(l) => r == Err::<(), u8>(l) && *final(self) == *old(self),
            },
            forall|v: u64| #[trigger] final(self).blocked(v) == old(self).blocked(v),
    {
        match self.get_leaf(addr) {
            Ok(_) => {
                self.put(addr, entry);
                Ok(())
            },
            Err(l) => Err(l),
        }
    }
    /// The table below the entry that `addr` selects, or the rank of this
    /// table's level if that entry points to no table. Above the leaf level
    /// there is a table exactly if the entry is present and maps no huge
    /// page, and it lies at the address that the entry holds.
    pub fn get_page(&self, addr: u64) -> (r: Result<&PageTable, u8>)
        requires
            self.wf(),
        ensures
            match r {
                Ok(t) => {
                    &&& self.table_at(page_index(addr, self.level().rank()) as int) == Some(*t)
                    &&& t.wf()
                    &&& t.level().rank() + 1 == self.level().rank()
                },
                Err(l) => {
                    &&& self.table_at(page_index(addr, self.level().rank()) as int) is None
                    &&& l == self.level().rank()
                },
            },
            r is Ok <==> !self.level().leaf() && self.entry_at(
                page_index(addr, self.level().rank()) as int,
            ).links(),
            r matches Ok(t) ==> t.frame() == word_addr(
                self.entry_at(page_index(addr, self.level().rank()) as int)@,
            ),
    {
        let i = self.level.index_of(addr);
        proof {
            self.lemma_wf_table(i as int);
        }
        match &self.tables[i] {
            Some(t) => Ok(&**t),
            None => Err(self.level.get_level()),
        }
    }

    /// Puts an empty table under the entry at `index`, in a frame taken from
    /// `palloc`. This succeeds if the entry is unused and `palloc` hands out
    /// a frame; otherwise nothing changes.
    pub fn create_sub_table<A: PhysicalPageAllocator>(&mut self, index: u16, palloc: &mut A) -> (r:
        Result<(), ()>)
        requires
            old(self).wf(),
            old(palloc).inv(),
            index < ENTRY_COUNT,
            !old(self).level().leaf(),
        ensures
            final(self).wf(),
            final(palloc).inv(),
            r is Ok <==> old(self).entry_at(index as int).unused() && old(palloc).next() is Some,
            !old(self).entry_at(index as int).unused() ==> *final(palloc) == *old(palloc),
            r is Err ==> *final(self) == *old(self) && final(palloc).used() == old(palloc).used(),
            r is Ok ==> {
                &&& final(self).installed(*old(self), index as int, old(palloc).next()->Some_0)
                &&& final(palloc).used() == old(palloc).used().insert(old(palloc).next()->Some_0)
            },
    {
        let i = index as usize;
        if !self.entries[i].is_unused() {
            return Err(());
        }
        proof {
            self.lemma_wf_table(i as int);
        }
        match palloc.allocate() {
            None => Err(()),
            Some(frame) => {
                self.install(i, frame);
                Ok(())
            },
        }
    }

    /// Makes sure that the table below the entry that `addr` selects
    /// exists. Where it does, nothing changes. Where it does not, the entry
    /// must be unused, and an empty table is put there in a frame taken from
    /// `palloc`. The error is the rank of this table's level.
    pub fn create_pt<A: PhysicalPageAllocator>(&mut self, addr: u64, palloc: &mut A) -> (r: Result<
        (),
        u8,
    >)
        requires
            old(self).wf(),
            old(palloc).inv(),
        ensures
            final(self).wf(),
            final(palloc).inv(),
            r matches Err(l) ==> l == old(self).level().rank() && *final(self) == *old(self)
                && final(palloc).used() == old(palloc).used(),
            ({
                let i = page_index(addr, old(self).level().rank()) as int;
                if old(self).table_at(i) is Some {
                    r is Ok && *final(self) == *old(self) && *final(palloc) == *old(palloc)
                } else if old(self).level().leaf() || !old(self).entry_at(i).unused() {
                    r is Err && *final(palloc) == *old(palloc)
                } else {
                    match old(palloc).next() {
                        Some(f) => {
                            &&& r is Ok
                            &&& final(self).installed(*old(self), i, f)
                            &&& final(palloc).used() == old(palloc).used().insert(f)
                        },
                        None => r is Err,
                    }
                }
            }),
    {
        let i = self.level.index_of(addr);
        if self.tables[i].is_some() {
            return Ok(());
        }
        if self.level.is_leaf() || !self.entries[i].is_unused() {
            return Err(self.level.get_level());
        }
        match palloc.allocate() {
            None => Err(self.level.get_level()),
            Some(frame) => {
                self.install(i, frame);
                Ok(())
            },
        }
    }

    /// Clears all entries and releases the tables below them.
    pub fn zero(&mut self)
        requires
            old(self).wf(),
        ensures
            final(self).wf(),
            final(self).level() == old(self).level(),
            final(self).frame() == old(self).frame(),
            forall|i: int| 0 <= i < ENTRY_COUNT ==> (#[trigger] final(self).entry_at(i)).unused(),
            forall|i: int| 0 <= i < ENTRY_COUNT ==> #[trigger] final(self).table_at(i) is None,
    {
        let mut n: usize = 0;
        while n < ENTRY_COUNT
            invariant
                n <= ENTRY_COUNT,
                self.wf(),
                self.level == old(self).level,
                self.addr == old(self).addr,
                forall|i: int| 0 <= i < n ==> (#[trigger] self.entries@[i])@ == 0,
                forall|i: int| 0 <= i < n ==> #[trigger] self.tables@[i] is None,
            decreases ENTRY_COUNT - n,
        {
            self.tables[n] = None;
            self.entries[n] = PTEntry::new();
            proof {
                lemma_unused_not_present();
            }
            n += 1;
        }
    }

    /// Overwrites the entry at `index`, with an entry that is unused or
    /// present, and releases the table below it, if there was one. Above the
    /// leaf level the new entry is unused or maps a huge page: an entry
    /// that points to a table comes into being with its table only.
    pub fn set_entry(&mut self, index: usize, entry: PTEntry)
        requires
            old(self).wf(),
            index < ENTRY_COUNT,
            entry.valid(),
            old(self).level().leaf() || !entry.links(),
        ensures
            final(self).wf(),
            final(self).level() == old(self).level(),
            final(self).frame() == old(self).frame(),
            final(self).entry_at(index as int) == entry,
            final(self).table_at(index as int) is None,
            forall|j: int|
                0 <= j < ENTRY_COUNT && j != index ==> #[trigger] final(self).entry_at(j) == old(
                    self,
                ).entry_at(j),
            forall|j: int|
                0 <= j < ENTRY_COUNT && j != index ==> #[trigger] final(self).table_at(j) == old(
                    self,
                ).table_at(j),
    {
        self.tables[index] = None;
        self.entries[index] = entry;
    }

    /// The number of unused entries in the table.
    pub fn get_free_pages_count(&self) -> (count: u16)
        requires
            self.wf(),
        ensures
            count == self.unused_below(ENTRY_COUNT as int),
            count <= ENTRY_COUNT,
    {
        let mut count: u16 = 0;
        let mut n: usize = 0;
        while n < ENTRY_COUNT
            invariant
                n <= ENTRY_COUNT,
                self.wf(),
                count == self.unused_below(n as int),
                count <= n,
            decreases ENTRY_COUNT - n,
        {
            if self.entries[n].is_unused() {
                count += 1;
            }
            n += 1;
        }
        count
    }

    /// The first unused entry of the table, with its index.
    pub fn get_free_entry(&self) -> (r: Option<(u16, PTEntry)>)
        requires
            self.wf(),
        ensures
            match r {
                Some((i, e)) => {
                    &&& i < ENTRY_COUNT
                    &&& e == self.entry_at(i as int)
                    &&& e.unused()
                    &&& forall|j: int| 0 <= j < i ==> !(#[trigger] self.entry_at(j)).unused()
                },
                None => forall|j: int|
                    0 <= j < ENTRY_COUNT ==> !(#[trigger] self.entry_at(j)).unused(),
            },
    {
        let mut n: u16 = 0;
        while n < 512
            invariant
                n <= 512,
                self.wf(),
                forall|j: int| 0 <= j < n ==> !(#[trigger] self.entry_at(j)).unused(),
            decreases 512 - n,
        {
            if self.entries[n as usize].is_unused() {
                return Some((n, self.entries[n as usize]));
            }
            n += 1;
        }
        None
    }

    /// Gives up the table for an iterator over its entries.
    pub fn into_iter(self) -> (it: PageTableIter)
        requires
            self.wf(),
        ensures
            it.wf(),
            it.front() == 0,
            it.back() == 0,
            forall|i: int| 0 <= i < ENTRY_COUNT ==> #[trigger] it.entry_at(i) == self.entry_at(i),
    {
        PageTableIter { entries: self.entries, count: 0, count_rev: 0 }
    }
}

/// A cursor over the entries of a page table that can be advanced from both
/// ends.
pub struct PageTableIter {
    entries: Vec<PTEntry>,
    count: usize,
    count_rev: usize,
}

impl PageTableIter {
    /// The cursor covers 512 entries, and its two ends have not crossed.
    pub closed spec fn wf(&self) -> bool {
        &&& self.entries@.len() == ENTRY_COUNT
        &&& self.count + self.count_rev <= ENTRY_COUNT
    }

    /// The number of entries taken from the front.
    pub closed spec fn front(&self) -> nat {
        self.count as nat
    }

    /// The number of entries taken from the back.
    pub closed spec fn back(&self) -> nat {
        self.count_rev as nat
    }

    /// The entry at index `i` of the table that the cursor runs over.
    pub closed spec fn entry_at(&self, i: int) -> PTEntry {
        self.entries@[i]
    }

    /// The next entry from the front, or `None` once the two ends have met.
    pub fn next(&mut self) -> (r: Option<PTEntry>)
        requires
            old(self).wf(),
        ensures
            final(self).wf(),
            final(self).back() == old(self).back(),
            forall|i: int|
                0 <= i < ENTRY_COUNT ==> #[trigger] final(self).entry_at(i) == old(self).entry_at(
                    i,
                ),
            r == if old(self).front() + old(self).back() < ENTRY_COUNT {
                Some(old(self).entry_at(old(self).front() as int))
            } else {
                None
            },
            final(self).front() == if r is Some {
                old(self).front() + 1
            } else {
                old(self).front()
            },
    {
        if self.count >= ENTRY_COUNT - self.count_rev {
            None
        } else {
            self.count += 1;
            Some(self.entries[self.count - 1])
        }
    }

    /// The next entry from the back, or `None` once the two ends have met.
    pub fn next_back(&mut self) -> (r: Option<PTEntry>)
        requires
            old(self).wf(),
        ensures
            final(self).wf(),
            final(self).front() == old(self).front(),
            forall|i: int|
                0 <= i < ENTRY_COUNT ==> #[trigger] final(self).entry_at(i) == old(self).entry_at(
                    i,
                ),
            r == if old(self).front() + old(self).back() < ENTRY_COUNT {
                Some(old(self).entry_at(ENTRY_COUNT - 1 - old(self).back()))
            } else {
                None
            },
            final(self).back() == if r is Some {
                old(self).back() + 1
            } else {
                old(self).back()
            },
    {
        if self.count_rev >= ENTRY_COUNT - self.count {
            None
        } else {
            self.count_rev += 1;
            Some(self.entries[ENTRY_COUNT - self.count_rev])
        }
    }

    /// The number of entries that are left, as a lower and an upper bound.
    pub fn size_hint(&self) -> (r: (usize, Option<usize>))
        requires
            self.wf(),
        ensures
            r.0 == ENTRY_COUNT - self.front() - self.back(),
            r.1 == Some(r.0),
    {
        let left = ENTRY_COUNT - self.count - self.count_rev;
        (left, Some(left))
    }
}

} // verus!
