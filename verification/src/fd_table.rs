//! Per-process file descriptor table: 32 slots, each empty or naming an open path.
use vstd::prelude::*;

verus! {

pub const FD_SLOTS: usize = 32;

#[derive(Clone, Copy, Debug, PartialEq, Eq, Structural)]
pub struct OpenFlags {
    pub write: bool,
}

pub struct FdEntry {
    pub path: Vec<u8>,
    pub offset: usize,
    pub flags: OpenFlags,
}

pub struct FdTable {
    entries: Vec<Option<FdEntry>>,
}

/// The first empty slot at or after `i`.
pub open spec fn first_empty_from(s: Seq<Option<FdEntry>>, i: int) -> Option<int>
    decreases s.len() - i,
{
    if i < 0 || i >= s.len() {
        None
    } else if s[i] is None {
        Some(i)
    } else {
        first_empty_from(s, i + 1)
    }
}

/// What `open` does to the slots: the lowest empty slot gets an entry for
/// `path` at offset 0 and its number is returned; with no empty slot,
/// nothing changes and `None` comes back.
pub open spec fn open_effect(
    s0: Seq<Option<FdEntry>>,
    s1: Seq<Option<FdEntry>>,
    path: Seq<u8>,
    flags: OpenFlags,
    r: Option<u32>,
) -> bool {
    match first_empty_from(s0, 0) {
        None => r is None && s1 == s0,
        Some(i) => {
            &&& r == Some(i as u32)
            &&& s1.len() == s0.len()
            &&& s1[i] matches Some(e) && e.path@ == path && e.offset == 0 && e.flags == flags
            &&& forall|j: int| 0 <= j < s0.len() && j != i ==> #[trigger] s1[j] == s0[j]
        },
    }
}

/// Slot `i` found by `first_empty_from` is empty and lies at or after `from`.
proof fn lemma_first_empty(s: Seq<Option<FdEntry>>, from: int)
    ensures
        first_empty_from(s, from) matches Some(i) ==> from <= i < s.len() && s[i] is None,
    decreases s.len() - from,
{
    if 0 <= from < s.len() && s[from] is Some {
        lemma_first_empty(s, from + 1);
    }
}

/// Closing the descriptor that `open` has just handed out leaves the slots
/// exactly as they were before the open.
pub proof fn law_open_close_restores(
    s0: Seq<Option<FdEntry>>,
    s1: Seq<Option<FdEntry>>,
    path: Seq<u8>,
    flags: OpenFlags,
    fd: u32,
)
    requires
        s0.len() == FD_SLOTS,
        open_effect(s0, s1, path, flags, Some(fd)),
    ensures
        s1.update(fd as int, None) == s0,
{
    lemma_first_empty(s0, 0);
    let i = first_empty_from(s0, 0).unwrap();
    assert(fd as int == i);
    assert(s1.update(fd as int, None) =~= s0);
}

impl FdTable {
    /// The slots of the table.
    pub closed spec fn slots(&self) -> Seq<Option<FdEntry>> {
        self.entries@
    }

    pub closed spec fn wf(&self) -> bool {
        self.entries@.len() == FD_SLOTS
    }

    /// A table with every slot empty.
    pub fn new() -> (r: Self)
        ensures
            r.wf(),
            r.slots().len() == FD_SLOTS,
            forall|i: int| 0 <= i < FD_SLOTS ==> #[trigger] r.slots()[i] is None,
    {
        let mut entries: Vec<Option<FdEntry>> = Vec::new();
        let mut i: usize = 0;
        while i < FD_SLOTS
            invariant
                i <= FD_SLOTS,
                entries@.len() == i,
                forall|j: int| 0 <= j < i ==> #[trigger] entries@[j] is None,
            decreases FD_SLOTS - i,
        {
            entries.push(None);
            i = i + 1;
        }
        Self { entries }
    }

    /// Opens `path` in the lowest empty slot, at offset 0, and returns that
    /// slot number; `None` when every slot is taken.
    pub fn open(&mut self, path: &[u8], flags: OpenFlags) -> (r: Option<u32>)
        requires
            old(self).wf(),
        ensures
            final(self).wf(),
            old(self).slots().len() == FD_SLOTS,
            final(self).slots().len() == FD_SLOTS,
            open_effect(old(self).slots(), final(self).slots(), path@, flags, r),
            match first_empty_from(old(self).slots(), 0) {
                None => r is None && final(self).slots() == old(self).slots(),
                Some(i) => {
                    &&& r == Some(i as u32)
                    &&& final(self).slots()[i] matches Some(e) && e.path@ == path@ && e.offset == 0
                        && e.flags == flags
                    &&& forall|j: int|
                        0 <= j < FD_SLOTS && j != i ==> #[trigger] final(self).slots()[j] == old(
                            self,
                        ).slots()[j]
                },
            },
    {
        let mut i: usize = 0;
        while i < self.entries.len()
            invariant
                self == old(self),
                self.wf(),
                i <= FD_SLOTS,
                first_empty_from(self.slots(), 0) == first_empty_from(self.slots(), i as int),
            decreases FD_SLOTS - i,
        {
            if self.entries[i].is_none() {
                let mut p: Vec<u8> = Vec::new();
                let mut k: usize = 0;
                while k < path.len()
                    invariant
                        k <= path@.len(),
                        p@ == path@.subrange(0, k as int),
                    decreases path@.len() - k,
                {
                    p.push(path[k]);
                    k = k + 1;
                    assert(p@ =~= path@.subrange(0, k as int));
                }
                assert(p@ =~= path@);
                self.entries.set(i, Some(FdEntry { path: p, offset: 0, flags }));
                return Some(i as u32);
            }
            i = i + 1;
        }
        None
    }

    /// Empties slot `fd`; false when `fd` is not a slot number.
    pub fn close(&mut self, fd: u32) -> (r: bool)
        requires
            old(self).wf(),
        ensures
            final(self).wf(),
            old(self).slots().len() == FD_SLOTS,
            final(self).slots().len() == FD_SLOTS,
            r == (fd < FD_SLOTS),
            r ==> final(self).slots() == old(self).slots().update(fd as int, None),
            !r ==> final(self).slots() == old(self).slots(),
    {
        let i = fd as usize;
        if i >= self.entries.len() {
            return false;
        }
        self.entries.set(i, None);
        true
    }
}

} // verus!
