//! The rules of the spin locks: what a lock word may become when a lock is
//! taken or given back. The locks themselves apply these rules to an atomic
//! word.
use vstd::prelude::*;

verus! {

/// The word of a lock that one holder can take at a time.
#[derive(Copy, Clone, Debug, PartialEq, Eq, Structural)]
pub struct LockState {
    locked: bool,
}

impl LockState {
    /// The lock is held.
    pub closed spec fn held(self) -> bool {
        self.locked
    }

    /// The word of a lock that nobody holds.
    pub fn new() -> (s: Self)
        ensures
            !s.held(),
    {
        LockState { locked: false }
    }

    /// The lock word with the given value.
    pub fn from_word(locked: bool) -> (s: Self)
        ensures
            s.held() == locked,
    {
        LockState { locked }
    }

    /// The value of the lock word.
    pub fn word(&self) -> (w: bool)
        ensures
            w == self.held(),
    {
        self.locked
    }

    /// Takes the lock if nobody holds it, and returns whether it was taken.
    pub fn try_lock(&mut self) -> (taken: bool)
        ensures
            taken == !old(self).held(),
            final(self).held(),
    {
        if self.locked {
            false
        } else {
            self.locked = true;
            true
        }
    }

    /// Gives the lock back.
    pub fn unlock(&mut self)
        ensures
            !final(self).held(),
    {
        self.locked = false;
    }
}

/// The largest number of readers that a lock word counts.
pub const MAX_READERS: u8 = 0xfe;

/// The lock word that stands for a writer.
pub const WRITER: u8 = 0xff;

/// The word of a lock that is open to either any number of readers or one
/// writer: the number of readers, or `WRITER`.
#[derive(Copy, Clone, Debug, PartialEq, Eq, Structural)]
pub struct RWLockState {
    locked: u8,
}

impl RWLockState {
    /// The value of the lock word.
    pub closed spec fn view(self) -> u8 {
        self.locked
    }

    /// The number of readers that hold the lock.
    pub open spec fn readers(self) -> int {
        if self@ == WRITER {
            0
        } else {
            self@ as int
        }
    }

    /// A writer holds the lock.
    pub open spec fn writer(self) -> bool {
        self@ == WRITER
    }

    /// The word of a lock that nobody holds.
    pub fn new() -> (s: Self)
        ensures
            s@ == 0,
    {
        RWLockState { locked: 0 }
    }

    /// The lock word with the given value.
    pub fn from_word(locked: u8) -> (s: Self)
        ensures
            s@ == locked,
    {
        RWLockState { locked }
    }

    /// The value of the lock word.
    pub fn word(&self) -> (w: u8)
        ensures
            w == self@,
    {
        self.locked
    }

    /// Lets one more reader in, unless a writer holds the lock or the count
    /// of readers is full, and returns whether the reader was let in.
    pub fn try_read_lock(&mut self) -> (taken: bool)
        ensures
            taken == (!old(self).writer() && old(self).readers() < MAX_READERS),
            taken ==> final(self).readers() == old(self).readers() + 1 && !final(self).writer(),
            !taken ==> final(self)@ == old(self)@,
    {
        if self.locked == MAX_READERS || self.locked == WRITER {
            false
        } else {
            self.locked = self.locked + 1;
            true
        }
    }

    /// Lets a writer in if nobody holds the lock, and returns whether the
    /// writer was let in.
    pub fn try_write_lock(&mut self) -> (taken: bool)
        ensures
            taken == (old(self)@ == 0),
            taken ==> final(self).writer(),
            !taken ==> final(self)@ == old(self)@,
    {
        if self.locked == 0 {
            self.locked = WRITER;
            true
        } else {
            false
        }
    }

    /// Lets one reader out.
    pub fn unlock_read(&mut self)
        requires
            old(self).readers() > 0,
        ensures
            final(self).readers() == old(self).readers() - 1,
            !final(self).writer(),
    {
        self.locked = self.locked - 1;
    }

    /// Lets the writer out.
    pub fn unlock_write(&mut self)
        ensures
            final(self)@ == 0,
    {
        self.locked = 0;
    }
}

/// While a writer holds the lock, no reader and no other writer is let in;
/// while a reader holds it, no writer is.
pub proof fn lemma_writer_excludes(s: RWLockState)
    ensures
        s.writer() ==> s.readers() == 0,
        s.writer() ==> !(!s.writer() && s.readers() < MAX_READERS) && s@ != 0,
        s.readers() > 0 ==> s@ != 0,
{
}

} // verus!
