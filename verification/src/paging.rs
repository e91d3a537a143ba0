//! Four-level x86_64 paging over a model of physical memory.
//!
//! Physical memory is a run of 64-bit words starting at a page-aligned base
//! address. A page table is one 4 KiB frame of 512 entries. Tables that a
//! mapping needs are taken from the bitmap frame allocator and zeroed.
use vstd::prelude::*;

use crate::frame_allocator::{
    first_free_from, free_count, lemma_first_free, lemma_free_count_none, lemma_free_count_take, take_lowest,
    BitmapFrameAllocator, Frame, FRAME_SIZE,
};

verus! {

pub const PAGE_SIZE: usize = 4096;
pub const ENTRY_COUNT: usize = 512;
pub const PRESENT: u64 = 1;
pub const WRITABLE: u64 = 2;
pub const USER: u64 = 4;
pub const HUGE: u64 = 0x80;
pub const NX: u64 = 0x8000_0000_0000_0000;
/// Flags of an entry that points to a lower-level table.
pub const TABLE_FLAGS: u64 = 7;
/// The physical-address bits of an entry (bits 12 to 51).
pub const ADDR_MASK: u64 = 0x000F_FFFF_FFFF_F000;

/// Physical memory: `words[k]` is the 64-bit word at `base + 8 * k`.
pub struct PhysMemory {
    base: u64,
    words: Vec<u64>,
}

/// Index into the table of the level whose index field starts at bit `shift`.
pub open spec fn pt_index(virt: u64, shift: u64) -> int {
    ((virt >> shift) & 0x1FFu64) as int
}

/// The table an entry points to: the entry with its low 12 bits cleared.
pub open spec fn table_of(e: u64) -> u64 {
    e & !0xFFFu64
}

/// The physical address an entry maps: its address bits, without flags.
pub open spec fn frame_addr(e: u64) -> u64 {
    e & ADDR_MASK
}

pub open spec fn present(e: u64) -> bool {
    e & PRESENT != 0
}

pub open spec fn huge(e: u64) -> bool {
    e & HUGE != 0
}

/// The flags of a leaf entry.
pub open spec fn leaf_flags(writable: bool, user: bool, executable: bool) -> u64 {
    PRESENT | (if writable {
        WRITABLE
    } else {
        0u64
    }) | (if user {
        USER
    } else {
        0u64
    }) | (if executable {
        0u64
    } else {
        NX
    })
}

proof fn lemma_index_bound(virt: u64, shift: u64)
    ensures
        0 <= pt_index(virt, shift) < 512,
{
    assert((virt >> shift) & 0x1FFu64 < 512) by (bit_vector);
}

proof fn lemma_table_entry(f: u64)
    requires
        f % 4096 == 0,
    ensures
        table_of(f | TABLE_FLAGS) == f,
        present(f | TABLE_FLAGS),
{
    assert((f | 7u64) & !0xFFFu64 == f && (f | 7u64) & 1u64 != 0) by (bit_vector)
        requires
            f % 4096 == 0,
    ;
}

proof fn lemma_zero_absent()
    ensures
        !present(0u64),
{
    assert(0u64 & 1u64 == 0u64) by (bit_vector);
}

proof fn lemma_table_aligned(e: u64)
    ensures
        table_of(e) % 4096 == 0,
{
    assert((e & !0xFFFu64) % 4096 == 0) by (bit_vector);
}

/// Entries of frames in memory occupy distinct words.
pub(crate) proof fn lemma_entry_words(m: &PhysMemory, x: int, j: int, y: int, k: int)
    requires
        m.frame_in(x),
        m.frame_in(y),
        0 <= j < 512,
        0 <= k < 512,
        m.spec_base() % 4096 == 0,
    ensures
        ((x - m.spec_base()) / 8 + j == (y - m.spec_base()) / 8 + k) <==> (x == y && j == k),
        0 <= (x - m.spec_base()) / 8 + j < m.spec_words().len(),
        (y - m.spec_base()) / 8 <= (x - m.spec_base()) / 8 + j < (y - m.spec_base()) / 8 + 512
            <==> x == y,
{
    let b = m.spec_base() as int;
    let px = (x - b) / 8;
    let py = (y - b) / 8;
    assert(px % 512 == 0 && py % 512 == 0 && px * 8 == x - b && py * 8 == y - b) by (nonlinear_arith)
        requires
            x % 4096 == 0,
            y % 4096 == 0,
            b % 4096 == 0,
            x >= b,
            y >= b,
            px == (x - b) / 8,
            py == (y - b) / 8,
    ;
    assert(px + j == py + k <==> (x == y && j == k)) by (nonlinear_arith)
        requires
            px % 512 == 0,
            py % 512 == 0,
            0 <= j < 512,
            0 <= k < 512,
            px * 8 == x - b,
            py * 8 == y - b,
    ;
    assert(py <= px + j < py + 512 <==> x == y) by (nonlinear_arith)
        requires
            px % 512 == 0,
            py % 512 == 0,
            0 <= j < 512,
            px * 8 == x - b,
            py * 8 == y - b,
    ;
    assert(0 <= px + j < m.spec_words().len()) by (nonlinear_arith)
        requires
            px * 8 == x - b,
            x + 4096 <= b + m.spec_words().len() * 8,
            0 <= j < 512,
            px >= 0,
    ;
}

impl PhysMemory {
    pub closed spec fn spec_base(&self) -> u64 {
        self.base
    }

    pub closed spec fn spec_words(&self) -> Seq<u64> {
        self.words@
    }

    /// One past the last address of the memory.
    pub open spec fn end(&self) -> int {
        self.spec_base() + self.spec_words().len() * 8
    }

    pub closed spec fn wf(&self) -> bool {
        &&& self.base % 4096 == 0
        &&& self.words@.len() % 512 == 0
        &&& self.base + self.words@.len() * 8 <= u64::MAX
    }

    /// A well-formed memory starts on a page boundary.
    pub proof fn lemma_wf_base(&self)
        requires
            self.wf(),
        ensures
            self.spec_base() % 4096 == 0,
            self.spec_words().len() % 512 == 0,
    {
    }

    /// A whole 4 KiB frame at `t` lies in memory.
    pub open spec fn frame_in(&self, t: int) -> bool {
        &&& t % 4096 == 0
        &&& self.spec_base() <= t
        &&& t + 4096 <= self.end()
    }

    /// Entry `i` of the table at `t`.
    ///
    /// Memory outside the modelled range reads as zero.
    pub open spec fn entry(&self, t: int, i: int) -> u64 {
        if self.frame_in(t) {
            self.spec_words()[(t - self.spec_base()) / 8 + i]
        } else {
            0u64
        }
    }

    /// First address of the memory.
    pub fn base_addr(&self) -> (r: u64)
        ensures
            r == self.spec_base(),
    {
        self.base
    }

    /// The words of memory, from the first address on.
    pub fn words(&self) -> (r: &Vec<u64>)
        ensures
            r@ == self.spec_words(),
    {
        &self.words
    }

    /// One past the last address of the memory.
    pub fn end_addr(&self) -> (r: u64)
        requires
            self.wf(),
        ensures
            r == self.end(),
    {
        self.base + self.words.len() as u64 * 8
    }

    /// Whether the whole frame at `t` lies in memory.
    fn frame_in_exec(&self, t: u64) -> (r: bool)
        requires
            self.wf(),
        ensures
            r == self.frame_in(t as int),
    {
        let n = self.words.len() as u64;
        let end = self.base + n * 8;
        t % 4096 == 0 && t >= self.base && end >= 4096 && t <= end - 4096
    }

    /// A memory of `frames` zeroed frames starting at `base`.
    pub fn new(base: u64, frames: usize) -> (r: Self)
        requires
            base % 4096 == 0,
            base + frames * 4096 <= u64::MAX,
        ensures
            r.wf(),
            r.spec_base() == base,
            r.spec_words() == Seq::new((frames * 512) as nat, |i: int| 0u64),
    {
        let mut words: Vec<u64> = Vec::new();
        let mut i: usize = 0;
        while i < frames
            invariant
                i <= frames,
                base + frames * 4096 <= u64::MAX,
                words@ == Seq::new((i * 512) as nat, |k: int| 0u64),
            decreases frames - i,
        {
            let mut j: usize = 0;
            while j < ENTRY_COUNT
                invariant
                    j <= ENTRY_COUNT,
                    i < frames,
                    base + frames * 4096 <= u64::MAX,
                    words@ == Seq::new((i * 512 + j) as nat, |k: int| 0u64),
                decreases ENTRY_COUNT - j,
            {
                assert(i * 512 + j < frames * 512) by (nonlinear_arith)
                    requires
                        i < frames,
                        j < 512,
                ;
                words.push(0);
                j = j + 1;
                assert(words@ =~= Seq::new((i * 512 + j) as nat, |k: int| 0u64));
            }
            i = i + 1;
        }
        let r = PhysMemory { base, words };
        assert(r.words@.len() % 512 == 0) by (nonlinear_arith)
            requires
                r.words@.len() == frames * 512,
        ;
        r
    }

    /// Index of the first word of the frame at `t`.
    fn word_index(&self, t: u64) -> (k: usize)
        requires
            self.wf(),
            self.frame_in(t as int),
        ensures
            k == (t - self.spec_base()) / 8,
            k + 512 <= self.spec_words().len(),
    {
        let n = self.words.len();
        let off = (t - self.base) / 8;
        assert(off + 512 <= n) by (nonlinear_arith)
            requires
                off == (t - self.base) / 8,
                t + 4096 <= self.base + n * 8,
                (t - self.base) % 4096 == 0,
                t >= self.base,
        ;
        off as usize
    }

    /// Reads entry `i` of the table at `t`.
    fn read_entry(&self, t: u64, i: usize) -> (r: u64)
        requires
            self.wf(),
            i < ENTRY_COUNT,
        ensures
            r == self.entry(t as int, i as int),
    {
        if !self.frame_in_exec(t) {
            return 0;
        }
        let k = self.word_index(t) + i;
        self.words[k]
    }

    /// Writes entry `i` of the table at `t`.
    ///
    /// Writes outside the modelled range are dropped.
    fn write_entry(&mut self, t: u64, i: usize, v: u64)
        requires
            old(self).wf(),
            i < ENTRY_COUNT,
        ensures
            final(self).wf(),
            final(self).spec_base() == old(self).spec_base(),
            old(self).frame_in(t as int) ==> final(self).spec_words() == old(self).spec_words().update(
                (t - old(self).spec_base()) / 8 + i,
                v,
            ),
            !old(self).frame_in(t as int) ==> final(self).spec_words() == old(self).spec_words(),
            old(self).frame_in(t as int) ==> final(self).entry(t as int, i as int) == v,
            forall|x: int, j: int|
                old(self).frame_in(x) && 0 <= j < 512 && !(x == t && j == i) ==> #[trigger] final(self).entry(x, j) == old(self).entry(x, j),
    {
        if !self.frame_in_exec(t) {
            return;
        }
        let k = self.word_index(t) + i;
        self.words.set(k, v);
        proof {
            assert forall|x: int, j: int|
                old(self).frame_in(x) && 0 <= j < 512 && !(x == t && j == i) implies #[trigger] self.entry(
                x,
                j,
            ) == old(self).entry(x, j) by {
                lemma_entry_words(old(self), x, j, t as int, i as int);
            }
        }
    }

    /// Sets the 512 words of the frame at `t` to zero.
    fn zero_frame(&mut self, t: u64)
        requires
            old(self).wf(),
            old(self).frame_in(t as int),
        ensures
            final(self).wf(),
            final(self).spec_base() == old(self).spec_base(),
            final(self).spec_words().len() == old(self).spec_words().len(),
            forall|k: int|
                0 <= k < old(self).spec_words().len() ==> #[trigger] final(self).spec_words()[k]
                    == if (t - old(self).spec_base()) / 8 <= k < (t - old(self).spec_base()) / 8
                    + 512 {
                    0u64
                } else {
                    old(self).spec_words()[k]
                },
            forall|j: int| 0 <= j < 512 ==> #[trigger] final(self).entry(t as int, j) == 0,
            forall|x: int, j: int|
                old(self).frame_in(x) && 0 <= j < 512 && x != t ==> #[trigger] final(self).entry(x, j)
                    == old(self).entry(x, j),
    {
        let start = self.word_index(t);
        let n = self.words.len();
        let mut j: usize = 0;
        while j < ENTRY_COUNT
            invariant
                j <= ENTRY_COUNT,
                n == self.words@.len(),
                start + 512 <= self.words@.len(),
                self.base == old(self).base,
                self.words@.len() == old(self).words@.len(),
                start == (t - old(self).base) / 8,
                forall|k: int|
                    0 <= k < old(self).words@.len() ==> #[trigger] self.words@[k] == if start <= k
                        < start + j {
                        0u64
                    } else {
                        old(self).words@[k]
                    },
            decreases ENTRY_COUNT - j,
        {
            self.words.set(start + j, 0);
            j = j + 1;
        }
        proof {
            assert forall|j: int| 0 <= j < 512 implies #[trigger] self.entry(t as int, j) == 0 by {
                lemma_entry_words(old(self), t as int, j, t as int, 0);
            }
            assert forall|x: int, j: int|
                old(self).frame_in(x) && 0 <= j < 512 && x != t implies #[trigger] self.entry(x, j)
                == old(self).entry(x, j) by {
                lemma_entry_words(old(self), x, j, t as int, 0);
            }
        }
    }
}

/// The entry of level 4 (PML4), 3, 2 and 1 for `virt`, each read from the
/// table the level above points to.
pub open spec fn e4(m: &PhysMemory, cr3: u64, virt: u64) -> u64 {
    m.entry(cr3 as int, pt_index(virt, 39))
}

pub open spec fn e3(m: &PhysMemory, cr3: u64, virt: u64) -> u64 {
    m.entry(table_of(e4(m, cr3, virt)) as int, pt_index(virt, 30))
}

pub open spec fn e2(m: &PhysMemory, cr3: u64, virt: u64) -> u64 {
    m.entry(table_of(e3(m, cr3, virt)) as int, pt_index(virt, 21))
}

pub open spec fn e1(m: &PhysMemory, cr3: u64, virt: u64) -> u64 {
    m.entry(table_of(e2(m, cr3, virt)) as int, pt_index(virt, 12))
}

/// Every table that a walk for `virt` visits lies in memory.
pub open spec fn walk_in_mem(m: &PhysMemory, cr3: u64, virt: u64) -> bool {
    &&& m.frame_in(cr3 as int)
    &&& present(e4(m, cr3, virt)) ==> m.frame_in(table_of(e4(m, cr3, virt)) as int)
    &&& present(e4(m, cr3, virt)) && present(e3(m, cr3, virt)) ==> m.frame_in(
        table_of(e3(m, cr3, virt)) as int,
    )
    &&& present(e4(m, cr3, virt)) && present(e3(m, cr3, virt)) && present(e2(m, cr3, virt))
        ==> m.frame_in(table_of(e2(m, cr3, virt)) as int)
}

/// The level-1 entry for `virt`, when the three levels above are present.
pub open spec fn leaf(m: &PhysMemory, cr3: u64, virt: u64) -> Option<u64> {
    if present(e4(m, cr3, virt)) && present(e3(m, cr3, virt)) && present(e2(m, cr3, virt)) {
        Some(e1(m, cr3, virt))
    } else {
        None
    }
}

/// Whether the page at `virt` is mapped: every level present, or a huge
/// page at level 2.
pub open spec fn page_present(m: &PhysMemory, cr3: u64, virt: u64) -> bool {
    &&& present(e4(m, cr3, virt))
    &&& present(e3(m, cr3, virt))
    &&& present(e2(m, cr3, virt))
    &&& (huge(e2(m, cr3, virt)) || present(e1(m, cr3, virt)))
}

/// A page that `map_page_ex` has just mapped is present, and its level-1
/// entry gives back the frame it was mapped to: the address bits of `phys`,
/// which for a frame below 2^52 are `phys` with its low 12 bits cleared,
/// whatever the access rights. This is what `unmap_page` then returns.
pub proof fn law_mapped_page_present(
    m: &PhysMemory,
    cr3: u64,
    virt: u64,
    phys: u64,
    writable: bool,
    user: bool,
    executable: bool,
)
    requires
        leaf(m, cr3, virt) == Some((phys & !0xFFFu64) | leaf_flags(writable, user, executable)),
    ensures
        page_present(m, cr3, virt),
        frame_addr(e1(m, cr3, virt)) == phys & ADDR_MASK,
        phys < 0x10_0000_0000_0000 ==> frame_addr(e1(m, cr3, virt)) == phys & !0xFFFu64,
{
    let e = e1(m, cr3, virt);
    let w: u64 = if writable { WRITABLE } else { 0u64 };
    let u: u64 = if user { USER } else { 0u64 };
    let x: u64 = if executable { 0u64 } else { NX };
    assert(leaf_flags(writable, user, executable) == 1u64 | w | u | x);
    assert(w == 0u64 || w == 2u64);
    assert(u == 0u64 || u == 4u64);
    assert(x == 0u64 || x == 0x8000_0000_0000_0000u64);
    assert(((phys & !0xFFFu64) | (1u64 | w | u | x)) & 1u64 != 0u64 && ((phys & !0xFFFu64) | (1u64 | w | u
        | x)) & 0x000F_FFFF_FFFF_F000u64 == phys & 0x000F_FFFF_FFFF_F000u64) by (bit_vector)
        requires
            w == 0u64 || w == 2u64,
            u == 0u64 || u == 4u64,
            x == 0u64 || x == 0x8000_0000_0000_0000u64,
    ;
    assert(phys < 0x10_0000_0000_0000u64 ==> phys & 0x000F_FFFF_FFFF_F000u64 == phys & !0xFFFu64) by (bit_vector);
}

/// Unmapping a page just mapped gives back the frame and unmaps it: after
/// `map_page_ex` succeeded on a sound walk whose level-2 entry is no huge
/// page, `unmap_page` returns the address bits of `phys` (`phys` with its
/// low 12 bits cleared, for a frame below 2^52), the page is no longer
/// present, and unmapping it again gives `None` and changes nothing.
pub proof fn law_map_then_unmap(
    m0: &PhysMemory,
    a0: &BitmapFrameAllocator,
    m1: &PhysMemory,
    a1: &BitmapFrameAllocator,
    cr3: u64,
    virt: u64,
    phys: u64,
    writable: bool,
    user: bool,
    executable: bool,
    m2: &PhysMemory,
    r2: Option<u64>,
    m3: &PhysMemory,
    r3: Option<u64>,
)
    requires
        m0.wf(),
        path_ok(m0, a0, cr3, virt),
        map_effect(m0, a0, m1, a1, cr3, virt, phys, writable, user, executable, true),
        !huge(e2(m1, cr3, virt)),
        unmap_effect(m1, cr3, virt, m2, r2),
        unmap_effect(m2, cr3, virt, m3, r3),
    ensures
        r2 == Some(phys & ADDR_MASK),
        phys < 0x10_0000_0000_0000 ==> r2 == Some(phys & !0xFFFu64),
        !page_present(m2, cr3, virt),
        r3 is None,
        m3.spec_words() == m2.spec_words(),
{
    law_mapped_page_present(m1, cr3, virt, phys, writable, user, executable);
    lemma_zero_absent();
    lemma_index_bound(virt, 39);
    lemma_index_bound(virt, 30);
    lemma_index_bound(virt, 21);
    lemma_index_bound(virt, 12);
    m1.lemma_wf_base();
    let t3 = table_of(e4(m1, cr3, virt)) as int;
    let t2 = table_of(e3(m1, cr3, virt)) as int;
    let t1 = table_of(e2(m1, cr3, virt)) as int;
    assert(path_ok(m1, a1, cr3, virt));
    let i1 = pt_index(virt, 12);
    assert forall|x: int, j: int| m1.frame_in(x) && 0 <= j < 512 && !(x == t1 && j == i1) implies #[trigger] m2.entry(x, j)
        == m1.entry(x, j) by {
        lemma_entry_words(m1, x, j, t1, i1);
    }
    assert(m2.entry(cr3 as int, pt_index(virt, 39)) == m1.entry(cr3 as int, pt_index(virt, 39)));
    assert(m2.entry(t3, pt_index(virt, 30)) == m1.entry(t3, pt_index(virt, 30)));
    assert(m2.entry(t2, pt_index(virt, 21)) == m1.entry(t2, pt_index(virt, 21)));
    lemma_entry_words(m1, t1, i1, t1, i1);
    assert(m2.entry(t1, i1) == 0);
}

/// Whether a page is mapped (see `page_present`).
pub fn is_page_present(m: &PhysMemory, cr3: u64, virt: u64) -> (r: bool)
    requires
        m.wf(),
    ensures
        r == page_present(m, cr3, virt),
{
    proof {
        lemma_zero_absent();
        lemma_index_bound(virt, 39);
        lemma_index_bound(virt, 30);
        lemma_index_bound(virt, 21);
        lemma_index_bound(virt, 12);
    }
    let p4 = ((virt >> 39) & 0x1FF) as usize;
    let p3 = ((virt >> 30) & 0x1FF) as usize;
    let p2 = ((virt >> 21) & 0x1FF) as usize;
    let p1 = ((virt >> 12) & 0x1FF) as usize;
    let a = m.read_entry(cr3, p4);
    if a & PRESENT == 0 {
        return false;
    }
    let b = m.read_entry(a & !0xFFF, p3);
    if b & PRESENT == 0 {
        return false;
    }
    let c = m.read_entry(b & !0xFFF, p2);
    if c & PRESENT == 0 {
        return false;
    }
    if c & HUGE != 0 {
        return true;
    }
    let d = m.read_entry(c & !0xFFF, p1);
    (d & PRESENT) != 0
}

/// What unmapping `virt` does to memory `m0`, giving `m1` and `r`: the
/// level-1 entry is cleared and the physical address it mapped is returned
/// (the entry's address bits, without its flags); `None`, with nothing
/// changed, when some level is not present.
pub open spec fn unmap_effect(m0: &PhysMemory, cr3: u64, virt: u64, m1: &PhysMemory, r: Option<u64>) -> bool {
    &&& m1.wf()
    &&& m1.spec_base() == m0.spec_base()
    &&& match leaf(m0, cr3, virt) {
        Some(e) => if present(e) {
            &&& r == Some(frame_addr(e))
            &&& m1.spec_words() == m0.spec_words().update(
                (table_of(e2(m0, cr3, virt)) - m0.spec_base()) / 8 + pt_index(virt, 12),
                0,
            )
        } else {
            r is None && m1.spec_words() == m0.spec_words()
        },
        None => r is None && m1.spec_words() == m0.spec_words(),
    }
}

/// Clears the level-1 entry for `virt` and returns the physical address it
/// mapped (see `unmap_effect`).
pub fn unmap_page(m: &mut PhysMemory, cr3: u64, virt: u64) -> (r: Option<u64>)
    requires
        old(m).wf(),
    ensures
        unmap_effect(old(m), cr3, virt, final(m), r),
{
    proof {
        lemma_zero_absent();
        lemma_index_bound(virt, 39);
        lemma_index_bound(virt, 30);
        lemma_index_bound(virt, 21);
        lemma_index_bound(virt, 12);
    }
    let p4 = ((virt >> 39) & 0x1FF) as usize;
    let p3 = ((virt >> 30) & 0x1FF) as usize;
    let p2 = ((virt >> 21) & 0x1FF) as usize;
    let p1 = ((virt >> 12) & 0x1FF) as usize;
    let a = m.read_entry(cr3, p4);
    if a & PRESENT == 0 {
        return None;
    }
    let b = m.read_entry(a & !0xFFF, p3);
    if b & PRESENT == 0 {
        return None;
    }
    let c = m.read_entry(b & !0xFFF, p2);
    if c & PRESENT == 0 {
        return None;
    }
    let d = m.read_entry(c & !0xFFF, p1);
    if d & PRESENT == 0 {
        return None;
    }
    let prev = d & ADDR_MASK;
    m.write_entry(c & !0xFFF, p1, 0);
    Some(prev)
}

/// Sets or clears the writable bit of the level-1 entry for `virt`. False,
/// with nothing changed, when the tables are missing, the page is a huge
/// page or the entry is not present.
pub fn set_page_writable(m: &mut PhysMemory, cr3: u64, virt: u64, writable: bool) -> (r: bool)
    requires
        old(m).wf(),
    ensures
        final(m).wf(),
        final(m).spec_base() == old(m).spec_base(),
        r == (page_present(old(m), cr3, virt) && !huge(e2(old(m), cr3, virt))),
        r ==> final(m).spec_words() == old(m).spec_words().update(
            (table_of(e2(old(m), cr3, virt)) - old(m).spec_base()) / 8 + pt_index(virt, 12),
            if writable {
                e1(old(m), cr3, virt) | WRITABLE
            } else {
                e1(old(m), cr3, virt) & !WRITABLE
            },
        ),
        !r ==> final(m).spec_words() == old(m).spec_words(),
{
    proof {
        lemma_zero_absent();
        lemma_index_bound(virt, 39);
        lemma_index_bound(virt, 30);
        lemma_index_bound(virt, 21);
        lemma_index_bound(virt, 12);
    }
    let p4 = ((virt >> 39) & 0x1FF) as usize;
    let p3 = ((virt >> 30) & 0x1FF) as usize;
    let p2 = ((virt >> 21) & 0x1FF) as usize;
    let p1 = ((virt >> 12) & 0x1FF) as usize;
    let a = m.read_entry(cr3, p4);
    if a & PRESENT == 0 {
        return false;
    }
    let b = m.read_entry(a & !0xFFF, p3);
    if b & PRESENT == 0 {
        return false;
    }
    let c = m.read_entry(b & !0xFFF, p2);
    if c & PRESENT == 0 {
        return false;
    }
    if c & HUGE != 0 {
        return false;
    }
    let d = m.read_entry(c & !0xFFF, p1);
    if d & PRESENT == 0 {
        return false;
    }
    let entry = if writable {
        d | WRITABLE
    } else {
        d & !WRITABLE
    };
    m.write_entry(c & !0xFFF, p1, entry);
    true
}

/// Frame `x` (a frame's first address) was free in `a0` and is taken in `a1`.
pub open spec fn frame_taken(a0: &BitmapFrameAllocator, a1: &BitmapFrameAllocator, x: int) -> bool {
    &&& x % 4096 == 0
    &&& frame_free(a0, x)
    &&& !frame_free(a1, x)
}

/// Frame `t` is a free frame of the allocator.
pub open spec fn frame_free(a: &BitmapFrameAllocator, t: int) -> bool {
    &&& a.spec_base() <= t < a.spec_base() + a.spec_frames() * FRAME_SIZE
    &&& !a.used()[(t - a.spec_base()) / 4096]
}

/// Whether the allocator's span is page-aligned and lies inside memory.
pub fn alloc_fits_exec(m: &PhysMemory, a: &BitmapFrameAllocator) -> (r: bool)
    requires
        m.wf(),
        a.wf(),
    ensures
        r == alloc_fits(m, a),
{
    a.base() % 4096 == 0 && m.base_addr() <= a.base() && a.span_end() <= m.end_addr()
}

/// The allocator's span is page-aligned and lies inside memory.
pub open spec fn alloc_fits(m: &PhysMemory, a: &BitmapFrameAllocator) -> bool {
    &&& a.spec_base() % 4096 == 0
    &&& m.spec_base() <= a.spec_base()
    &&& a.spec_base() + a.spec_frames() * FRAME_SIZE <= m.end()
}

/// The tables that the walk for `virt` already visits are distinct frames,
/// and none of them is a free frame of the allocator.
pub open spec fn path_ok(m: &PhysMemory, a: &BitmapFrameAllocator, cr3: u64, virt: u64) -> bool {
    let t3 = table_of(e4(m, cr3, virt)) as int;
    let t2 = table_of(e3(m, cr3, virt)) as int;
    let t1 = table_of(e2(m, cr3, virt)) as int;
    let p4 = present(e4(m, cr3, virt));
    let p3 = p4 && present(e3(m, cr3, virt));
    let p2 = p3 && present(e2(m, cr3, virt));
    &&& walk_in_mem(m, cr3, virt)
    &&& !frame_free(a, cr3 as int)
    &&& p4 ==> !frame_free(a, t3) && t3 != cr3
    &&& p3 ==> !frame_free(a, t2) && t2 != cr3 && t2 != t3
    &&& p2 ==> !frame_free(a, t1) && t1 != cr3 && t1 != t3 && t1 != t2
}

/// Entry `j` of table `x` is one of the four entries of the walk for `virt`.
pub open spec fn on_path(m: &PhysMemory, cr3: u64, virt: u64, x: int, j: int) -> bool {
    ||| x == cr3 && j == pt_index(virt, 39)
    ||| x == table_of(e4(m, cr3, virt)) && j == pt_index(virt, 30)
    ||| x == table_of(e3(m, cr3, virt)) && j == pt_index(virt, 21)
    ||| x == table_of(e2(m, cr3, virt)) && j == pt_index(virt, 12)
}

/// What `ensure_next` does when it returns table `nt` for entry `i` of
/// table `t`: an existing table is returned as it is; otherwise a free frame
/// is taken from the allocator, zeroed and entered there.
pub open spec fn next_step(
    m: &PhysMemory,
    a: &BitmapFrameAllocator,
    t: int,
    i: int,
    m2: &PhysMemory,
    a2: &BitmapFrameAllocator,
    nt: u64,
) -> bool {
    let e = m.entry(t, i);
    &&& m2.spec_base() == m.spec_base()
    &&& m2.spec_words().len() == m.spec_words().len()
    &&& a2.spec_base() == a.spec_base()
    &&& a2.spec_frames() == a.spec_frames()
    &&& forall|x: int| #[trigger] frame_free(a2, x) ==> frame_free(a, x)
    &&& if present(e) {
        &&& nt == table_of(e)
        &&& m2.spec_words() == m.spec_words()
        &&& a2.used() == a.used()
    } else {
        &&& frame_free(a, nt as int)
        &&& !frame_free(a2, nt as int)
        &&& a2.used() == a.used().update((nt - a.spec_base()) / 4096, true)
        &&& (nt - a.spec_base()) / 4096 == first_free_from(a.used(), 0)
        &&& nt % 4096 == 0
        &&& m2.frame_in(nt as int)
        &&& m2.entry(t, i) == if t == nt || !m.frame_in(t) {
            0u64
        } else {
            nt | TABLE_FLAGS
        }
        &&& forall|j: int| 0 <= j < 512 ==> #[trigger] m2.entry(nt as int, j) == 0
        &&& forall|x: int, j: int|
            m.frame_in(x) && 0 <= j < 512 && x != nt && !(x == t && j == i) ==> #[trigger] m2.entry(
                x,
                j,
            ) == m.entry(x, j)
    }
}

/// Returns the table that entry `i` of table `t` points to. When the entry
/// is not present, a frame is allocated, zeroed and entered there with the
/// table flags; `None` when no frame is left.
fn ensure_next(m: &mut PhysMemory, a: &mut BitmapFrameAllocator, t: u64, i: usize) -> (r: Option<u64>)
    requires
        old(m).wf(),
        old(a).wf(),
        alloc_fits(old(m), old(a)),
        i < ENTRY_COUNT,
    ensures
        final(m).wf(),
        final(a).wf(),
        final(m).spec_base() == old(m).spec_base(),
        final(m).spec_words().len() == old(m).spec_words().len(),
        final(a).spec_base() == old(a).spec_base(),
        final(a).spec_frames() == old(a).spec_frames(),
        forall|k: int| 0 <= k < old(a).spec_frames() && #[trigger] old(a).used()[k] ==> final(a).used()[k],
        r matches Some(nt) ==> next_step(old(m), old(a), t as int, i as int, final(m), final(a), nt),
        present(old(m).entry(t as int, i as int)) ==> {
            &&& r == Some(table_of(old(m).entry(t as int, i as int)))
            &&& final(m).spec_words() == old(m).spec_words()
            &&& final(a).used() == old(a).used()
        },
        !present(old(m).entry(t as int, i as int)) ==> match r {
            None => {
                &&& final(m).spec_words() == old(m).spec_words()
                &&& final(a).used() == old(a).used()
                &&& forall|k: int| 0 <= k < old(a).spec_frames() ==> #[trigger] old(a).used()[k]
            },
            Some(f) => {
                &&& frame_free(old(a), f as int)
                &&& f % 4096 == 0
                &&& final(m).frame_in(f as int)
                &&& final(a).used() == old(a).used().update((f - old(a).spec_base()) / 4096, true)
                &&& (f - old(a).spec_base()) / 4096 == first_free_from(old(a).used(), 0)
                &&& final(m).entry(t as int, i as int) == if t == f || !old(m).frame_in(t as int) {
                    0u64
                } else {
                    f | TABLE_FLAGS
                }
                &&& forall|j: int| 0 <= j < 512 ==> #[trigger] final(m).entry(f as int, j) == 0
                &&& forall|x: int, j: int|
                    old(m).frame_in(x) && 0 <= j < 512 && x != f && !(x == t && j == i)
                        ==> #[trigger] final(m).entry(x, j) == old(m).entry(x, j)
            },
        },
{
    let e = m.read_entry(t, i);
    if e & PRESENT != 0 {
        return Some(e & !0xFFF);
    }
    match a.alloc_frame() {
        None => {
            assert(a.used() =~= old(a).used());
            None
        },
        Some(fr) => {
            let f = fr.phys;
            let ghost k = (f - a.spec_base()) / 4096;
            proof {
                lemma_first_free(old(a).used(), k, 0);
                assert(k * 4096 + 4096 <= a.spec_frames() * 4096) by (nonlinear_arith)
                    requires
                        0 <= k < a.spec_frames(),
                ;
                assert(f % 4096 == 0) by (nonlinear_arith)
                    requires
                        f == a.spec_base() + k * 4096,
                        a.spec_base() % 4096 == 0,
                ;
            }
            m.zero_frame(f);
            let ghost m1 = *m;
            m.write_entry(t, i, f | TABLE_FLAGS);
            let ghost m2 = *m;
            m.zero_frame(f);
            proof {
                lemma_table_entry(f);
                assert forall|x: int, j: int|
                    old(m).frame_in(x) && 0 <= j < 512 && x != f && !(x == t && j == i)
                        implies #[trigger] m.entry(x, j) == old(m).entry(x, j) by {
                    assert(m.entry(x, j) == m2.entry(x, j));
                    assert(m2.entry(x, j) == m1.entry(x, j));
                }
                if t != f && old(m).frame_in(t as int) {
                    assert(m.entry(t as int, i as int) == m2.entry(t as int, i as int));
                }
                assert forall|x: int| #[trigger] frame_free(a, x) implies frame_free(old(a), x) by {
                    if (x - a.spec_base()) / 4096 == k {
                        assert(a.used()[k]);
                    }
                }
                assert(a.used()[k]);
            }
            Some(f)
        },
    }
}

/// One step of the walk that `map_page_ex` builds keeps the earlier tables
/// intact and yields a present entry pointing to a fresh or existing table
/// distinct from them.
proof fn lemma_step(
    m: PhysMemory,
    a: BitmapFrameAllocator,
    t: u64,
    i: int,
    m2: PhysMemory,
    a2: BitmapFrameAllocator,
    nt: u64,
    prev: Seq<int>,
)
    requires
        next_step(&m, &a, t as int, i, &m2, &a2, nt),
        m.frame_in(t as int),
        !frame_free(&a, t as int),
        0 <= i < 512,
        forall|k: int| 0 <= k < prev.len() ==> #[trigger] prev[k] != t,
        forall|k: int| 0 <= k < prev.len() ==> m.frame_in(#[trigger] prev[k]),
        forall|k: int| 0 <= k < prev.len() ==> !frame_free(&a, #[trigger] prev[k]),
        present(m.entry(t as int, i)) ==> {
            let n = table_of(m.entry(t as int, i)) as int;
            &&& !frame_free(&a, n)
            &&& m.frame_in(n)
            &&& n != t
            &&& forall|k: int| 0 <= k < prev.len() ==> #[trigger] prev[k] != n
        },
    ensures
        present(m2.entry(t as int, i)),
        table_of(m2.entry(t as int, i)) == nt,
        m2.frame_in(nt as int),
        !frame_free(&a2, nt as int),
        nt != t,
        forall|k: int| 0 <= k < prev.len() ==> #[trigger] prev[k] != nt,
        !frame_free(&a2, t as int),
        forall|k: int| 0 <= k < prev.len() ==> !frame_free(&a2, #[trigger] prev[k]),
        forall|k: int, j: int|
            0 <= k < prev.len() && 0 <= j < 512 ==> #[trigger] m2.entry(prev[k], j) == m.entry(
                prev[k],
                j,
            ),
        forall|j: int| 0 <= j < 512 && j != i ==> #[trigger] m2.entry(t as int, j) == m.entry(t as int, j),
        !present(m.entry(t as int, i)) ==> forall|j: int|
            0 <= j < 512 ==> #[trigger] m2.entry(nt as int, j) == 0,
        present(m.entry(t as int, i)) ==> m2.spec_words() == m.spec_words(),
        forall|x: int, j: int|
            m.frame_in(x) && 0 <= j < 512 && !frame_free(&a, x) && !(x == t && j == i) ==> #[trigger] m2.entry(
                x,
                j,
            ) == m.entry(x, j),
{
    let e = m.entry(t as int, i);
    if present(e) {
        assert(m2.spec_words() == m.spec_words());
    } else {
        assert(nt != t);
        lemma_table_entry(nt);
        assert forall|k: int| 0 <= k < prev.len() implies #[trigger] prev[k] != nt by {
            assert(!frame_free(&a, prev[k]));
        }
        assert forall|k: int| 0 <= k < prev.len() implies !frame_free(&a2, #[trigger] prev[k]) by {
            assert(!frame_free(&a, prev[k]));
        }
        assert forall|k: int, j: int|
            0 <= k < prev.len() && 0 <= j < 512 implies #[trigger] m2.entry(prev[k], j) == m.entry(
                prev[k],
                j,
            ) by {
            assert(prev[k] != nt);
        }
    }
}

/// A frame that a table step took from the allocator is the table it made.
proof fn lemma_taken_in_step(
    m: PhysMemory,
    a: BitmapFrameAllocator,
    t: int,
    i: int,
    m2: PhysMemory,
    a2: BitmapFrameAllocator,
    nt: u64,
    x: int,
)
    requires
        next_step(&m, &a, t, i, &m2, &a2, nt),
        a.spec_base() % 4096 == 0,
        x % 4096 == 0,
        frame_free(&a, x),
        !frame_free(&a2, x),
    ensures
        !present(m.entry(t, i)),
        x == nt,
{
    let b = a.spec_base() as int;
    let kx = (x - b) / 4096;
    let kn = (nt - b) / 4096;
    assert(kx == kn);
    assert(x == nt) by (nonlinear_arith)
        requires
            kx == kn,
            x % 4096 == 0,
            nt % 4096 == 0,
            b % 4096 == 0,
            kx == (x - b) / 4096,
            kn == (nt - b) / 4096,
            x >= b,
            nt >= b,
    ;
}

/// After the three table steps and the leaf write, the walk for `virt`
/// reaches the leaf that was written, and nothing outside the walk and the
/// new tables changed.
proof fn lemma_map_walk(
    m0: PhysMemory,
    a0: BitmapFrameAllocator,
    m1: PhysMemory,
    a1: BitmapFrameAllocator,
    m2: PhysMemory,
    a2: BitmapFrameAllocator,
    m3: PhysMemory,
    a3: BitmapFrameAllocator,
    m4: PhysMemory,
    cr3: u64,
    virt: u64,
    t3: u64,
    t2: u64,
    t1: u64,
    leafval: u64,
)
    requires
        walk_in_mem(&m0, cr3, virt),
        path_ok(&m0, &a0, cr3, virt),
        next_step(&m0, &a0, cr3 as int, pt_index(virt, 39), &m1, &a1, t3),
        next_step(&m1, &a1, t3 as int, pt_index(virt, 30), &m2, &a2, t2),
        next_step(&m2, &a2, t2 as int, pt_index(virt, 21), &m3, &a3, t1),
        m4.spec_base() == m3.spec_base(),
        m4.spec_words().len() == m3.spec_words().len(),
        m4.entry(t1 as int, pt_index(virt, 12)) == leafval,
        forall|x: int, j: int|
            m3.frame_in(x) && 0 <= j < 512 && !(x == t1 && j == pt_index(virt, 12)) ==> #[trigger] m4.entry(
                x,
                j,
            ) == m3.entry(x, j),
    ensures
        leaf(&m4, cr3, virt) == Some(leafval),
        walk_in_mem(&m4, cr3, virt),
        forall|x: int, j: int|
            m0.frame_in(x) && 0 <= j < 512 && !frame_free(&a0, x) && !on_path(&m4, cr3, virt, x, j)
                ==> #[trigger] m4.entry(x, j) == m0.entry(x, j),
        a0.spec_base() % 4096 == 0 ==> forall|x: int, j: int|
            frame_taken(&a0, &a3, x) && 0 <= j < 512 && !on_path(&m4, cr3, virt, x, j) ==> #[trigger] m4.entry(
                x,
                j,
            ) == 0,
        table_of(e4(&m4, cr3, virt)) == t3,
        table_of(e3(&m4, cr3, virt)) == t2,
        table_of(e2(&m4, cr3, virt)) == t1,
        path_ok(&m4, &a3, cr3, virt),
        forall|x: int, j: int|
            m0.frame_in(x) && 0 <= j < 512 && !frame_free(&a0, x) && present(m0.entry(x, j)) && !(x == t1 && j
                == pt_index(virt, 12)) ==> #[trigger] m4.entry(x, j) == m0.entry(x, j),
        a0.spec_base() % 4096 == 0 ==> forall|x: int| #[trigger] frame_taken(&a0, &a3, x) ==> x == t3 || x == t2 || x == t1,
        present(e4(&m0, cr3, virt)) ==> t3 == table_of(e4(&m0, cr3, virt)),
        !present(e4(&m0, cr3, virt)) ==> frame_taken(&a0, &a3, t3 as int),
        present(e4(&m0, cr3, virt)) && present(e3(&m0, cr3, virt)) ==> t2 == table_of(e3(&m0, cr3, virt)),
        !(present(e4(&m0, cr3, virt)) && present(e3(&m0, cr3, virt))) ==> frame_taken(&a0, &a3, t2 as int),
        present(e4(&m0, cr3, virt)) && present(e3(&m0, cr3, virt)) && present(e2(&m0, cr3, virt)) ==> t1
            == table_of(e2(&m0, cr3, virt)),
        !(present(e4(&m0, cr3, virt)) && present(e3(&m0, cr3, virt)) && present(e2(&m0, cr3, virt)))
            ==> frame_taken(&a0, &a3, t1 as int),
{
    let i4 = pt_index(virt, 39);
    let i3 = pt_index(virt, 30);
    let i2 = pt_index(virt, 21);
    let i1 = pt_index(virt, 12);
    lemma_zero_absent();
    lemma_index_bound(virt, 39);
    lemma_index_bound(virt, 30);
    lemma_index_bound(virt, 21);
    lemma_index_bound(virt, 12);
    let e4v = m0.entry(cr3 as int, i4);
    if present(e4v) {
        lemma_table_aligned(e4v);
    }
    lemma_step(m0, a0, cr3, i4, m1, a1, t3, seq![]);
    if present(e4v) {
        assert(m1.spec_words() == m0.spec_words());
        let e3v = m0.entry(table_of(e4v) as int, i3);
        if present(e3v) {
            lemma_table_aligned(e3v);
        }
    }
    let prev3 = seq![cr3 as int];
    lemma_step(m1, a1, t3, i3, m2, a2, t2, prev3);
    assert(prev3[0] == cr3);
    let e3n = m1.entry(t3 as int, i3);
    if present(e3n) {
        lemma_table_aligned(e3n);
        if present(e4v) {
            let e2v = m0.entry(table_of(e3n) as int, i2);
            if present(e2v) {
                lemma_table_aligned(e2v);
            }
        }
    }
    let prev2 = seq![cr3 as int, t3 as int];
    if present(m2.entry(t2 as int, i2)) {
        assert(present(e3n));
        assert(m2.spec_words() == m1.spec_words());
        assert(present(e4v));
    }
    lemma_step(m2, a2, t2, i2, m3, a3, t1, prev2);
    assert(prev2[0] == cr3 && prev2[1] == t3);
    assert(m4.entry(cr3 as int, i4) == m3.entry(cr3 as int, i4));
    assert(m3.entry(cr3 as int, i4) == m2.entry(prev2[0], i4));
    assert(m2.entry(cr3 as int, i4) == m1.entry(prev3[0], i4));
    assert(m4.entry(t3 as int, i3) == m3.entry(t3 as int, i3));
    assert(m3.entry(t3 as int, i3) == m2.entry(prev2[1], i3));
    assert(m4.entry(t2 as int, i2) == m3.entry(t2 as int, i2));
    assert forall|x: int, j: int|
        m0.frame_in(x) && 0 <= j < 512 && !frame_free(&a0, x) && !on_path(&m4, cr3, virt, x, j)
            implies #[trigger] m4.entry(x, j) == m0.entry(x, j) by {
        assert(!frame_free(&a1, x));
        assert(!frame_free(&a2, x));
        assert(!frame_free(&a3, x));
        assert(x != t1 as int || j != i1);
        assert(m4.entry(x, j) == m3.entry(x, j));
        assert(m3.entry(x, j) == m2.entry(x, j));
        assert(m2.entry(x, j) == m1.entry(x, j));
        assert(m1.entry(x, j) == m0.entry(x, j));
    }
    assert(table_of(e4(&m4, cr3, virt)) == t3);
    assert(table_of(e3(&m4, cr3, virt)) == t2);
    assert(table_of(e2(&m4, cr3, virt)) == t1);
    assert forall|x: int, j: int|
        m0.frame_in(x) && 0 <= j < 512 && !frame_free(&a0, x) && present(m0.entry(x, j)) && !(x == t1 && j
            == i1) implies #[trigger] m4.entry(x, j) == m0.entry(x, j) by {
        assert(!frame_free(&a1, x));
        assert(!frame_free(&a2, x));
        assert(m1.entry(x, j) == m0.entry(x, j));
        assert(m2.entry(x, j) == m1.entry(x, j));
        assert(m3.entry(x, j) == m2.entry(x, j));
        assert(m4.entry(x, j) == m3.entry(x, j));
    }
    if a0.spec_base() % 4096 == 0 {
        assert forall|x: int| #[trigger] frame_taken(&a0, &a3, x) implies x == t3 || x == t2 || x == t1 by {
            if !frame_free(&a1, x) {
                lemma_taken_in_step(m0, a0, cr3 as int, i4, m1, a1, t3, x);
            } else if !frame_free(&a2, x) {
                lemma_taken_in_step(m1, a1, t3 as int, i3, m2, a2, t2, x);
            } else {
                lemma_taken_in_step(m2, a2, t2 as int, i2, m3, a3, t1, x);
            }
        }
    }
    if present(e4v) {
        assert(m2.spec_words() == m1.spec_words() || !present(m1.entry(t3 as int, i3)));
    }
    if a0.spec_base() % 4096 == 0 {
        assert forall|x: int, j: int|
            frame_taken(&a0, &a3, x) && 0 <= j < 512 && !on_path(&m4, cr3, virt, x, j) implies #[trigger] m4.entry(
                x,
                j,
            ) == 0 by {
            if !frame_free(&a1, x) {
                lemma_taken_in_step(m0, a0, cr3 as int, i4, m1, a1, t3, x);
                assert(j != i3);
                assert(m1.entry(t3 as int, j) == 0);
                assert(m2.entry(t3 as int, j) == m1.entry(t3 as int, j));
                assert(m3.entry(t3 as int, j) == m2.entry(prev2[1], j));
                assert(m4.entry(t3 as int, j) == m3.entry(t3 as int, j));
            } else if !frame_free(&a2, x) {
                lemma_taken_in_step(m1, a1, t3 as int, i3, m2, a2, t2, x);
                assert(j != i2);
                assert(m2.entry(t2 as int, j) == 0);
                assert(m3.entry(t2 as int, j) == m2.entry(t2 as int, j));
                assert(m4.entry(t2 as int, j) == m3.entry(t2 as int, j));
            } else {
                lemma_taken_in_step(m2, a2, t2 as int, i2, m3, a3, t1, x);
                assert(j != i1);
                assert(m3.entry(t1 as int, j) == 0);
                assert(m4.entry(t1 as int, j) == m3.entry(t1 as int, j));
            }
        }
    }
}

/// How many tables the walk for `virt` lacks: all three below the top
/// level when its entry is not present, else two, one or none.
pub open spec fn missing_tables(m: &PhysMemory, cr3: u64, virt: u64) -> nat {
    if !present(e4(m, cr3, virt)) {
        3
    } else if !present(e3(m, cr3, virt)) {
        2
    } else if !present(e2(m, cr3, virt)) {
        1
    } else {
        0
    }
}

/// Taking a free frame leaves one free frame fewer.
pub proof fn lemma_take_frame(a0: &BitmapFrameAllocator, a1: &BitmapFrameAllocator, f: u64)
    requires
        frame_free(a0, f as int),
        a1.spec_frames() == a0.spec_frames(),
        a1.used() == a0.used().update((f - a0.spec_base()) / 4096, true),
    ensures
        free_count(a1.used()) + 1 == free_count(a0.used()),
{
    let k = (f - a0.spec_base()) / 4096;
    assert(0 <= k < a0.spec_frames()) by (nonlinear_arith)
        requires
            a0.spec_base() <= f < a0.spec_base() + a0.spec_frames() * 4096,
            k == (f - a0.spec_base()) / 4096,
    ;
    lemma_free_count_take(a0.used(), k);
}

/// What a table step did to the free-frame count: an existing table takes
/// nothing, a new one takes one frame.
proof fn lemma_step_count(
    m: &PhysMemory,
    a: &BitmapFrameAllocator,
    t: int,
    i: int,
    a2: &BitmapFrameAllocator,
    nt: u64,
)
    requires
        a.spec_frames() == a2.spec_frames(),
        present(m.entry(t, i)) ==> a2.used() == a.used(),
        !present(m.entry(t, i)) ==> {
            &&& frame_free(a, nt as int)
            &&& a2.used() == a.used().update((nt - a.spec_base()) / 4096, true)
        },
    ensures
        free_count(a2.used()) + (if present(m.entry(t, i)) { 0int } else { 1int }) == free_count(a.used()),
{
    if !present(m.entry(t, i)) {
        let k = (nt - a.spec_base()) / 4096;
        assert(0 <= k < a.spec_frames()) by (nonlinear_arith)
            requires
                a.spec_base() <= nt < a.spec_base() + a.spec_frames() * 4096,
                k == (nt - a.spec_base()) / 4096,
        ;
        lemma_free_count_take(a.used(), k);
    }
}

/// A table step takes the lowest free frame, or none: taking `c + n` lowest
/// free frames before it is taking `n` after it.
proof fn lemma_take_step(a: &BitmapFrameAllocator, a2: &BitmapFrameAllocator, took: bool, nt: u64, n: nat)
    requires
        a2.spec_frames() == a.spec_frames(),
        !took ==> a2.used() == a.used(),
        took ==> {
            &&& frame_free(a, nt as int)
            &&& a2.used() == a.used().update((nt - a.spec_base()) / 4096, true)
            &&& (nt - a.spec_base()) / 4096 == first_free_from(a.used(), 0)
        },
    ensures
        take_lowest(a.used(), n + if took { 1nat } else { 0nat }) == take_lowest(a2.used(), n),
{
    if took {
        let q = (nt - a.spec_base()) / 4096;
        assert(0 <= q < a.spec_frames()) by (nonlinear_arith)
            requires
                a.spec_base() <= nt < a.spec_base() + a.spec_frames() * 4096,
                q == (nt - a.spec_base()) / 4096,
        ;
        assert((n + 1) as nat - 1 == n);
    }
}

/// What mapping `virt` to `phys` does to memory `m0` and allocator `a0`,
/// giving `m1`, `a1` and the result `r`. It succeeds exactly when there are
/// free frames for every missing table (see `missing_tables`), and takes one
/// frame per missing table, the lowest free ones (see `take_lowest`); when
/// it fails, no frame is left (tables made before that stay). Either way
/// the tables are what the walk steps leave (see `map_chain` and
/// `map_fail_chain`). When the existing walk is sound (`path_ok`), this
/// means: the leaf entry is the mapping asked for, entries of frames in use
/// outside the walk keep their values, and every entry of a table made by
/// the call is zero but the one on the walk.
pub open spec fn map_effect(
    m0: &PhysMemory,
    a0: &BitmapFrameAllocator,
    m1: &PhysMemory,
    a1: &BitmapFrameAllocator,
    cr3: u64,
    virt: u64,
    phys: u64,
    writable: bool,
    user: bool,
    executable: bool,
    r: bool,
) -> bool {
    &&& m1.wf()
    &&& a1.wf()
    &&& alloc_fits(m1, a1)
    &&& m1.spec_base() == m0.spec_base()
    &&& m1.spec_words().len() == m0.spec_words().len()
    &&& a1.spec_base() == a0.spec_base()
    &&& a1.spec_frames() == a0.spec_frames()
    &&& forall|k: int| 0 <= k < a0.spec_frames() && #[trigger] a0.used()[k] ==> a1.used()[k]
    &&& r == (missing_tables(m0, cr3, virt) <= free_count(a0.used()))
    &&& free_count(a1.used()) == if r {
        free_count(a0.used()) - missing_tables(m0, cr3, virt)
    } else {
        0
    }
    &&& !r ==> forall|k: int| 0 <= k < a1.spec_frames() ==> #[trigger] a1.used()[k]
    &&& r ==> a1.used() == take_lowest(a0.used(), missing_tables(m0, cr3, virt))
    &&& r ==> map_chain(m0, a0, m1, a1, cr3, virt, (phys & !0xFFFu64) | leaf_flags(writable, user, executable))
    &&& !r ==> map_fail_chain(m0, a0, m1, a1, cr3, virt)
    &&& path_ok(m0, a0, cr3, virt) && r ==> {
        &&& leaf(m1, cr3, virt) == Some((phys & !0xFFFu64) | leaf_flags(writable, user, executable))
        &&& walk_in_mem(m1, cr3, virt)
        &&& forall|x: int, j: int|
            m0.frame_in(x) && 0 <= j < 512 && !frame_free(a0, x) && !on_path(m1, cr3, virt, x, j)
                ==> #[trigger] m1.entry(x, j) == m0.entry(x, j)
        &&& forall|x: int, j: int|
            frame_taken(a0, a1, x) && 0 <= j < 512 && !on_path(m1, cr3, virt, x, j) ==> #[trigger] m1.entry(
                x,
                j,
            ) == 0
        &&& walk_effect(m0, a0, m1, a1, cr3, virt)
    }
}

/// How the walk for `virt` changed when it was completed: it stays sound;
/// present entries of frames in use keep their values but for the leaf
/// slot; each table of the walk is the one there before, or a frame the
/// call took, and the call took no other frame.
pub open spec fn walk_effect(
    m0: &PhysMemory,
    a0: &BitmapFrameAllocator,
    m1: &PhysMemory,
    a1: &BitmapFrameAllocator,
    cr3: u64,
    virt: u64,
) -> bool {
    let t3 = table_of(e4(m1, cr3, virt));
    let t2 = table_of(e3(m1, cr3, virt));
    let t1 = table_of(e2(m1, cr3, virt));
    let p4 = present(e4(m0, cr3, virt));
    let p3 = p4 && present(e3(m0, cr3, virt));
    let p2 = p3 && present(e2(m0, cr3, virt));
    &&& path_ok(m1, a1, cr3, virt)
    &&& forall|x: int, j: int|
        m0.frame_in(x) && 0 <= j < 512 && !frame_free(a0, x) && present(m0.entry(x, j)) && !(x == t1 && j
            == pt_index(virt, 12)) ==> #[trigger] m1.entry(x, j) == m0.entry(x, j)
    &&& forall|x: int| #[trigger] frame_taken(a0, a1, x) ==> x == t3 || x == t2 || x == t1
    &&& if p4 { t3 == table_of(e4(m0, cr3, virt)) } else { frame_taken(a0, a1, t3 as int) }
    &&& if p3 { t2 == table_of(e3(m0, cr3, virt)) } else { frame_taken(a0, a1, t2 as int) }
    &&& if p2 { t1 == table_of(e2(m0, cr3, virt)) } else { frame_taken(a0, a1, t1 as int) }
}

/// Entry `i` of table `t` is written with `v` (where `t` lies in memory),
/// and every other entry stays.
pub open spec fn entry_written(m: &PhysMemory, m1: &PhysMemory, t: int, i: int, v: u64) -> bool {
    &&& m1.spec_base() == m.spec_base()
    &&& m1.spec_words().len() == m.spec_words().len()
    &&& m.frame_in(t) ==> m1.entry(t, i) == v
    &&& forall|x: int, j: int|
        m.frame_in(x) && 0 <= j < 512 && !(x == t && j == i) ==> #[trigger] m1.entry(x, j) == m.entry(x, j)
}

/// A successful map is three walk steps (see `next_step`), one per level
/// above the leaf, and then the write of `leafval` into the leaf slot of the
/// last table.
#[verifier::opaque]
pub open spec fn map_chain(
    m0: &PhysMemory,
    a0: &BitmapFrameAllocator,
    m1: &PhysMemory,
    a1: &BitmapFrameAllocator,
    cr3: u64,
    virt: u64,
    leafval: u64,
) -> bool {
    exists|ma: PhysMemory, aa: BitmapFrameAllocator, mb: PhysMemory, ab: BitmapFrameAllocator, mc: PhysMemory, ac: BitmapFrameAllocator, t3: u64, t2: u64, t1: u64|
        #![trigger next_step(m0, a0, cr3 as int, pt_index(virt, 39), &ma, &aa, t3), next_step(&ma, &aa, t3 as int, pt_index(virt, 30), &mb, &ab, t2), next_step(&mb, &ab, t2 as int, pt_index(virt, 21), &mc, &ac, t1)]
        {
            &&& next_step(m0, a0, cr3 as int, pt_index(virt, 39), &ma, &aa, t3)
            &&& next_step(&ma, &aa, t3 as int, pt_index(virt, 30), &mb, &ab, t2)
            &&& next_step(&mb, &ab, t2 as int, pt_index(virt, 21), &mc, &ac, t1)
            &&& entry_written(&mc, m1, t1 as int, pt_index(virt, 12), leafval)
            &&& a1.used() == ac.used()
        }
}

/// Entry `i` of table `t` is absent and no frame is free: the walk step
/// there cannot complete.
pub open spec fn step_stuck(m: &PhysMemory, a: &BitmapFrameAllocator, t: int, i: int) -> bool {
    &&& !present(m.entry(t, i))
    &&& forall|k: int| 0 <= k < a.spec_frames() ==> #[trigger] a.used()[k]
}

/// A failed map that stopped at the second walk step.
pub open spec fn map_fail_at2(
    m0: &PhysMemory,
    a0: &BitmapFrameAllocator,
    m1: &PhysMemory,
    a1: &BitmapFrameAllocator,
    cr3: u64,
    virt: u64,
) -> bool {
    exists|ma: PhysMemory, aa: BitmapFrameAllocator, t3: u64|
        #![trigger next_step(m0, a0, cr3 as int, pt_index(virt, 39), &ma, &aa, t3)]
        {
            &&& next_step(m0, a0, cr3 as int, pt_index(virt, 39), &ma, &aa, t3)
            &&& step_stuck(&ma, &aa, t3 as int, pt_index(virt, 30))
            &&& m1.spec_words() == ma.spec_words()
            &&& a1.used() == aa.used()
        }
}

/// A failed map that stopped at the third walk step.
pub open spec fn map_fail_at3(
    m0: &PhysMemory,
    a0: &BitmapFrameAllocator,
    m1: &PhysMemory,
    a1: &BitmapFrameAllocator,
    cr3: u64,
    virt: u64,
) -> bool {
    exists|ma: PhysMemory, aa: BitmapFrameAllocator, mb: PhysMemory, ab: BitmapFrameAllocator, t3: u64, t2: u64|
        #![trigger next_step(m0, a0, cr3 as int, pt_index(virt, 39), &ma, &aa, t3), next_step(&ma, &aa, t3 as int, pt_index(virt, 30), &mb, &ab, t2)]
        {
            &&& next_step(m0, a0, cr3 as int, pt_index(virt, 39), &ma, &aa, t3)
            &&& next_step(&ma, &aa, t3 as int, pt_index(virt, 30), &mb, &ab, t2)
            &&& step_stuck(&mb, &ab, t2 as int, pt_index(virt, 21))
            &&& m1.spec_words() == mb.spec_words()
            &&& a1.used() == ab.used()
        }
}

/// A failed map stops at the first walk step that finds no table and no
/// free frame (see `step_stuck`); what the steps before it did stays.
#[verifier::opaque]
pub open spec fn map_fail_chain(
    m0: &PhysMemory,
    a0: &BitmapFrameAllocator,
    m1: &PhysMemory,
    a1: &BitmapFrameAllocator,
    cr3: u64,
    virt: u64,
) -> bool {
    ||| {
        &&& step_stuck(m0, a0, cr3 as int, pt_index(virt, 39))
        &&& m1.spec_words() == m0.spec_words()
        &&& a1.used() == a0.used()
    }
    ||| map_fail_at2(m0, a0, m1, a1, cr3, virt)
    ||| map_fail_at3(m0, a0, m1, a1, cr3, virt)
}

/// A stuck walk step has no way to complete.
pub proof fn lemma_stuck_no_step(
    m: &PhysMemory,
    a: &BitmapFrameAllocator,
    t: int,
    i: int,
    m2: &PhysMemory,
    a2: &BitmapFrameAllocator,
    nt: u64,
)
    requires
        step_stuck(m, a, t, i),
    ensures
        !next_step(m, a, t, i, m2, a2, nt),
{
    if next_step(m, a, t, i, m2, a2, nt) {
        let b = a.spec_base() as int;
        let q = (nt - b) / 4096;
        assert(0 <= q < a.spec_frames()) by (nonlinear_arith)
            requires
                b <= nt < b + a.spec_frames() * 4096,
                q == (nt - b) / 4096,
        ;
        assert(a.used()[q]);
    }
}

/// Two memories with the same frame layout whose entries agree hold the
/// same words.
pub proof fn lemma_entries_same_words(m1: &PhysMemory, m2: &PhysMemory)
    requires
        m1.spec_base() % 4096 == 0,
        m1.spec_words().len() % 512 == 0,
        m2.spec_base() == m1.spec_base(),
        m2.spec_words().len() == m1.spec_words().len(),
        forall|x: int, j: int| m1.frame_in(x) && 0 <= j < 512 ==> #[trigger] m1.entry(x, j) == m2.entry(x, j),
    ensures
        m1.spec_words() == m2.spec_words(),
{
    let b = m1.spec_base() as int;
    let n = m1.spec_words().len() as int;
    assert forall|q: int| 0 <= q < n implies #[trigger] m1.spec_words()[q] == m2.spec_words()[q] by {
        let x = b + (q / 512) * 4096;
        let j = q % 512;
        assert(x % 4096 == 0 && b <= x && x + 4096 <= b + n * 8 && (x - b) / 8 + j == q && 0 <= j < 512)
            by (nonlinear_arith)
            requires
                b % 4096 == 0,
                n % 512 == 0,
                0 <= q < n,
                x == b + (q / 512) * 4096,
                j == q % 512,
        ;
        assert(m1.frame_in(x));
        assert(m1.entry(x, j) == m2.entry(x, j));
    }
    assert(m1.spec_words() =~= m2.spec_words());
}

/// A walk step's outcome depends only on where it starts.
pub proof fn lemma_next_step_determined(
    m: &PhysMemory,
    a: &BitmapFrameAllocator,
    t: int,
    i: int,
    m1: &PhysMemory,
    a1: &BitmapFrameAllocator,
    n1: u64,
    m2: &PhysMemory,
    a2: &BitmapFrameAllocator,
    n2: u64,
)
    requires
        m.spec_base() % 4096 == 0,
        m.spec_words().len() % 512 == 0,
        a.spec_base() % 4096 == 0,
        next_step(m, a, t, i, m1, a1, n1),
        next_step(m, a, t, i, m2, a2, n2),
    ensures
        n1 == n2,
        a1.used() == a2.used(),
        m1.spec_words() == m2.spec_words(),
{
    if !present(m.entry(t, i)) {
        let b = a.spec_base() as int;
        assert(n1 == n2) by (nonlinear_arith)
            requires
                b % 4096 == 0,
                n1 % 4096 == 0,
                n2 % 4096 == 0,
                b <= n1,
                b <= n2,
                (n1 - b) / 4096 == (n2 - b) / 4096,
        ;
        assert forall|x: int, j: int| m1.frame_in(x) && 0 <= j < 512 implies #[trigger] m1.entry(x, j) == m2.entry(x, j) by {
            if x == n1 {
            } else if x == t && j == i {
            } else {
                assert(m.frame_in(x));
            }
        }
        lemma_entries_same_words(m1, m2);
    }
}

/// Maps the page at `virt` to the frame at `phys` with the given access
/// rights, creating missing tables from the allocator (see `map_effect`).
pub fn map_page_ex(
    m: &mut PhysMemory,
    a: &mut BitmapFrameAllocator,
    cr3: u64,
    virt: u64,
    phys: u64,
    writable: bool,
    user: bool,
    executable: bool,
) -> (r: bool)
    requires
        old(m).wf(),
        old(a).wf(),
        alloc_fits(old(m), old(a)),
    ensures
        map_effect(old(m), old(a), final(m), final(a), cr3, virt, phys, writable, user, executable, r),
{
    proof {
        lemma_zero_absent();
        lemma_index_bound(virt, 39);
        lemma_index_bound(virt, 30);
        lemma_index_bound(virt, 21);
        lemma_index_bound(virt, 12);
    }
    let p4 = ((virt >> 39) & 0x1FF) as usize;
    let p3 = ((virt >> 30) & 0x1FF) as usize;
    let p2 = ((virt >> 21) & 0x1FF) as usize;
    let p1 = ((virt >> 12) & 0x1FF) as usize;
    let ghost m0 = *m;
    let ghost a0 = *a;
    let ghost need = missing_tables(&m0, cr3, virt);
    let t3 = match ensure_next(m, a, cr3, p4) {
        Some(t) => t,
        None => {
            proof {
                lemma_free_count_none(a.used());
                assert(map_fail_chain(&m0, &a0, m, a, cr3, virt)) by {
                    reveal(map_fail_chain);
                }
            }
            return false;
        },
    };
    let ghost m1 = *m;
    let ghost a1 = *a;
    proof {
        lemma_zero_absent();
        lemma_step_count(&m0, &a0, cr3 as int, p4 as int, &a1, t3);
        if present(m0.entry(cr3 as int, p4 as int)) {
            lemma_table_aligned(m0.entry(cr3 as int, p4 as int));
            assert(m1.spec_words() == m0.spec_words());
            assert(m1.entry(t3 as int, p3 as int) == e3(&m0, cr3, virt));
        } else {
            assert(m1.entry(t3 as int, p3 as int) == 0);
        }
    }
    let t2 = match ensure_next(m, a, t3, p3) {
        Some(t) => t,
        None => {
            proof {
                lemma_free_count_none(a.used());
                assert(step_stuck(&m1, &a1, t3 as int, pt_index(virt, 30)));
                assert(map_fail_chain(&m0, &a0, m, a, cr3, virt)) by {
                    reveal(map_fail_chain);
                }
            }
            return false;
        },
    };
    let ghost m2 = *m;
    let ghost a2 = *a;
    proof {
        lemma_step_count(&m1, &a1, t3 as int, p3 as int, &a2, t2);
        if present(m1.entry(t3 as int, p3 as int)) {
            lemma_table_aligned(m1.entry(t3 as int, p3 as int));
            assert(m2.spec_words() == m1.spec_words());
            assert(present(m0.entry(cr3 as int, p4 as int)));
            assert(m2.entry(t2 as int, p2 as int) == e2(&m0, cr3, virt));
        } else {
            assert(m2.entry(t2 as int, p2 as int) == 0);
        }
        if present(m2.entry(t2 as int, p2 as int)) {
            assert(present(m1.entry(t3 as int, p3 as int)));
        }
    }
    let t1 = match ensure_next(m, a, t2, p2) {
        Some(t) => t,
        None => {
            proof {
                lemma_free_count_none(a.used());
                assert(step_stuck(&m2, &a2, t2 as int, pt_index(virt, 21)));
                assert(map_fail_chain(&m0, &a0, m, a, cr3, virt)) by {
                    reveal(map_fail_chain);
                }
            }
            return false;
        },
    };
    let ghost m3 = *m;
    let ghost a3 = *a;
    proof {
        lemma_step_count(&m2, &a2, t2 as int, p2 as int, &a3, t1);
    }
    let flags = PRESENT | (if writable {
        WRITABLE
    } else {
        0
    }) | (if user {
        USER
    } else {
        0
    }) | (if executable {
        0
    } else {
        NX
    });
    let leafval = (phys & !0xFFF) | flags;
    m.write_entry(t1, p1, leafval);
    proof {
        let c1 = !present(m0.entry(cr3 as int, p4 as int));
        let c2 = !present(m1.entry(t3 as int, p3 as int));
        let c3 = !present(m2.entry(t2 as int, p2 as int));
        let n1: nat = if c1 { 1 } else { 0 };
        let n2: nat = if c2 { 1 } else { 0 };
        let n3: nat = if c3 { 1 } else { 0 };
        lemma_take_step(&a2, &a3, c3, t1, 0);
        lemma_take_step(&a1, &a2, c2, t2, n3);
        lemma_take_step(&a0, &a1, c1, t3, (n2 + n3) as nat);
        assert(n1 + n2 + n3 == missing_tables(&m0, cr3, virt));
        assert(a.used() == a3.used());
        assert(leafval == (phys & !0xFFFu64) | leaf_flags(writable, user, executable));
        assert(entry_written(&m3, m, t1 as int, pt_index(virt, 12), leafval));
        assert(map_chain(&m0, &a0, m, a, cr3, virt, leafval)) by {
            reveal(map_chain);
        }
        if path_ok(&m0, &a0, cr3, virt) {
            lemma_map_walk(m0, a0, m1, a1, m2, a2, m3, a3, *m, cr3, virt, t3, t2, t1, leafval);
        }
    }
    true
}

/// Maps the page at `virt` to `phys` as executable: the same effect as
/// `map_page_ex` with `executable` set.
pub fn map_page(
    m: &mut PhysMemory,
    a: &mut BitmapFrameAllocator,
    cr3: u64,
    virt: u64,
    phys: u64,
    writable: bool,
    user: bool,
) -> (r: bool)
    requires
        old(m).wf(),
        old(a).wf(),
        alloc_fits(old(m), old(a)),
    ensures
        map_effect(old(m), old(a), final(m), final(a), cr3, virt, phys, writable, user, true, r),
{
    map_page_ex(m, a, cr3, virt, phys, writable, user, true)
}

/// Two failed maps from the same tables and frames stop at the same walk
/// step and leave the same tables.
proof fn lemma_fail_chain_determined(
    m0: &PhysMemory,
    a0: &BitmapFrameAllocator,
    m1: &PhysMemory,
    a1: &BitmapFrameAllocator,
    m2: &PhysMemory,
    a2: &BitmapFrameAllocator,
    cr3: u64,
    virt: u64,
)
    requires
        m0.spec_base() % 4096 == 0,
        m0.spec_words().len() % 512 == 0,
        a0.spec_base() % 4096 == 0,
        map_fail_chain(m0, a0, m1, a1, cr3, virt),
        map_fail_chain(m0, a0, m2, a2, cr3, virt),
    ensures
        m1.spec_words() == m2.spec_words(),
{
    reveal(map_fail_chain);
    let i4 = pt_index(virt, 39);
    if map_fail_at2(m0, a0, m1, a1, cr3, virt) {
        let (ma, aa, t3) = choose|ma: PhysMemory, aa: BitmapFrameAllocator, t3: u64|
            {
                &&& next_step(m0, a0, cr3 as int, pt_index(virt, 39), &ma, &aa, t3)
                &&& step_stuck(&ma, &aa, t3 as int, pt_index(virt, 30))
                &&& m1.spec_words() == ma.spec_words()
                &&& a1.used() == aa.used()
            };
        if map_fail_at2(m0, a0, m2, a2, cr3, virt) {
            let (na, ba, u3) = choose|na: PhysMemory, ba: BitmapFrameAllocator, u3: u64|
            {
                &&& next_step(m0, a0, cr3 as int, pt_index(virt, 39), &na, &ba, u3)
                &&& step_stuck(&na, &ba, u3 as int, pt_index(virt, 30))
                &&& m2.spec_words() == na.spec_words()
                &&& a2.used() == ba.used()
            };
            lemma_next_step_determined(m0, a0, cr3 as int, i4, &ma, &aa, t3, &na, &ba, u3);
        } else if map_fail_at3(m0, a0, m2, a2, cr3, virt) {
            let (na, ba, nb, bb, u3, u2) = choose|na: PhysMemory, ba: BitmapFrameAllocator, nb: PhysMemory, bb: BitmapFrameAllocator, u3: u64, u2: u64|
            {
                &&& next_step(m0, a0, cr3 as int, pt_index(virt, 39), &na, &ba, u3)
                &&& next_step(&na, &ba, u3 as int, pt_index(virt, 30), &nb, &bb, u2)
                &&& step_stuck(&nb, &bb, u2 as int, pt_index(virt, 21))
                &&& m2.spec_words() == nb.spec_words()
                &&& a2.used() == bb.used()
            };
            lemma_next_step_determined(m0, a0, cr3 as int, i4, &ma, &aa, t3, &na, &ba, u3);
            assert(na.spec_base() == ma.spec_base());
            lemma_stuck_no_step(&ma, &aa, t3 as int, pt_index(virt, 30), &nb, &bb, u2);
        } else {
            lemma_stuck_no_step(m0, a0, cr3 as int, i4, &ma, &aa, t3);
        }
    } else if map_fail_at3(m0, a0, m1, a1, cr3, virt) {
        let (ma, aa, mb, ab, t3, t2) = choose|ma: PhysMemory, aa: BitmapFrameAllocator, mb: PhysMemory, ab: BitmapFrameAllocator, t3: u64, t2: u64|
            {
                &&& next_step(m0, a0, cr3 as int, pt_index(virt, 39), &ma, &aa, t3)
                &&& next_step(&ma, &aa, t3 as int, pt_index(virt, 30), &mb, &ab, t2)
                &&& step_stuck(&mb, &ab, t2 as int, pt_index(virt, 21))
                &&& m1.spec_words() == mb.spec_words()
                &&& a1.used() == ab.used()
            };
        if map_fail_at2(m0, a0, m2, a2, cr3, virt) {
            let (na, ba, u3) = choose|na: PhysMemory, ba: BitmapFrameAllocator, u3: u64|
            {
                &&& next_step(m0, a0, cr3 as int, pt_index(virt, 39), &na, &ba, u3)
                &&& step_stuck(&na, &ba, u3 as int, pt_index(virt, 30))
                &&& m2.spec_words() == na.spec_words()
                &&& a2.used() == ba.used()
            };
            lemma_next_step_determined(m0, a0, cr3 as int, i4, &ma, &aa, t3, &na, &ba, u3);
            assert(na.spec_base() == ma.spec_base());
            lemma_stuck_no_step(&na, &ba, u3 as int, pt_index(virt, 30), &mb, &ab, t2);
        } else if map_fail_at3(m0, a0, m2, a2, cr3, virt) {
            let (na, ba, nb, bb, u3, u2) = choose|na: PhysMemory, ba: BitmapFrameAllocator, nb: PhysMemory, bb: BitmapFrameAllocator, u3: u64, u2: u64|
            {
                &&& next_step(m0, a0, cr3 as int, pt_index(virt, 39), &na, &ba, u3)
                &&& next_step(&na, &ba, u3 as int, pt_index(virt, 30), &nb, &bb, u2)
                &&& step_stuck(&nb, &bb, u2 as int, pt_index(virt, 21))
                &&& m2.spec_words() == nb.spec_words()
                &&& a2.used() == bb.used()
            };
            lemma_next_step_determined(m0, a0, cr3 as int, i4, &ma, &aa, t3, &na, &ba, u3);
            lemma_next_step_determined(&ma, &aa, t3 as int, pt_index(virt, 30), &mb, &ab, t2, &nb, &bb, u2);
        } else {
            lemma_stuck_no_step(m0, a0, cr3 as int, i4, &ma, &aa, t3);
        }
    } else if map_fail_at2(m0, a0, m2, a2, cr3, virt) {
        let (na, ba, u3) = choose|na: PhysMemory, ba: BitmapFrameAllocator, u3: u64|
            {
                &&& next_step(m0, a0, cr3 as int, pt_index(virt, 39), &na, &ba, u3)
                &&& step_stuck(&na, &ba, u3 as int, pt_index(virt, 30))
                &&& m2.spec_words() == na.spec_words()
                &&& a2.used() == ba.used()
            };
        lemma_stuck_no_step(m0, a0, cr3 as int, i4, &na, &ba, u3);
    } else if map_fail_at3(m0, a0, m2, a2, cr3, virt) {
        let (na, ba, nb, bb, u3, u2) = choose|na: PhysMemory, ba: BitmapFrameAllocator, nb: PhysMemory, bb: BitmapFrameAllocator, u3: u64, u2: u64|
            {
                &&& next_step(m0, a0, cr3 as int, pt_index(virt, 39), &na, &ba, u3)
                &&& next_step(&na, &ba, u3 as int, pt_index(virt, 30), &nb, &bb, u2)
                &&& step_stuck(&nb, &bb, u2 as int, pt_index(virt, 21))
                &&& m2.spec_words() == nb.spec_words()
                &&& a2.used() == bb.used()
            };
        lemma_stuck_no_step(m0, a0, cr3 as int, i4, &na, &ba, u3);
    }
}

/// Mapping depends only on what it starts from: two maps of the page at
/// `virt` to `phys` with the same rights, from the same tables and frames,
/// give the same result and leave the same tables and the same frames in
/// use. So `map_page` does what `map_page_ex` with `executable` set does.
pub proof fn law_map_determined(
    m0: &PhysMemory,
    a0: &BitmapFrameAllocator,
    m1: &PhysMemory,
    a1: &BitmapFrameAllocator,
    m2: &PhysMemory,
    a2: &BitmapFrameAllocator,
    cr3: u64,
    virt: u64,
    phys: u64,
    writable: bool,
    user: bool,
    executable: bool,
    r1: bool,
    r2: bool,
)
    requires
        m0.wf(),
        a0.wf(),
        alloc_fits(m0, a0),
        map_effect(m0, a0, m1, a1, cr3, virt, phys, writable, user, executable, r1),
        map_effect(m0, a0, m2, a2, cr3, virt, phys, writable, user, executable, r2),
    ensures
        r1 == r2,
        a1.used() == a2.used(),
        m1.spec_words() == m2.spec_words(),
{
    m0.lemma_wf_base();
    let lf = (phys & !0xFFFu64) | leaf_flags(writable, user, executable);
    if r1 {
        reveal(map_chain);
        let (ma, aa, mb, ab, mc, ac, t3, t2, t1) = choose|
            ma: PhysMemory,
            aa: BitmapFrameAllocator,
            mb: PhysMemory,
            ab: BitmapFrameAllocator,
            mc: PhysMemory,
            ac: BitmapFrameAllocator,
            t3: u64,
            t2: u64,
            t1: u64,
        |
            {
                &&& next_step(m0, a0, cr3 as int, pt_index(virt, 39), &ma, &aa, t3)
                &&& next_step(&ma, &aa, t3 as int, pt_index(virt, 30), &mb, &ab, t2)
                &&& next_step(&mb, &ab, t2 as int, pt_index(virt, 21), &mc, &ac, t1)
                &&& entry_written(&mc, m1, t1 as int, pt_index(virt, 12), lf)
                &&& a1.used() == ac.used()
            };
        let (na, ba, nb, bb, nc, bc, u3, u2, u1) = choose|
            ma: PhysMemory,
            aa: BitmapFrameAllocator,
            mb: PhysMemory,
            ab: BitmapFrameAllocator,
            mc: PhysMemory,
            ac: BitmapFrameAllocator,
            t3: u64,
            t2: u64,
            t1: u64,
        |
            {
                &&& next_step(m0, a0, cr3 as int, pt_index(virt, 39), &ma, &aa, t3)
                &&& next_step(&ma, &aa, t3 as int, pt_index(virt, 30), &mb, &ab, t2)
                &&& next_step(&mb, &ab, t2 as int, pt_index(virt, 21), &mc, &ac, t1)
                &&& entry_written(&mc, m2, t1 as int, pt_index(virt, 12), lf)
                &&& a2.used() == ac.used()
            };
        lemma_next_step_determined(m0, a0, cr3 as int, pt_index(virt, 39), &ma, &aa, t3, &na, &ba, u3);
        lemma_next_step_determined(&ma, &aa, t3 as int, pt_index(virt, 30), &mb, &ab, t2, &nb, &bb, u2);
        lemma_next_step_determined(&mb, &ab, t2 as int, pt_index(virt, 21), &mc, &ac, t1, &nc, &bc, u1);
        assert forall|x: int, j: int| m1.frame_in(x) && 0 <= j < 512 implies #[trigger] m1.entry(x, j) == m2.entry(x, j) by {
            assert(mc.frame_in(x) && nc.frame_in(x));
            assert(mc.entry(x, j) == nc.entry(x, j));
        }
        lemma_entries_same_words(m1, m2);
    } else {
        assert(a1.used() =~= a2.used());
        lemma_fail_chain_determined(m0, a0, m1, a1, m2, a2, cr3, virt);
    }
}

/// Allocates a physical frame and returns its address.
pub fn alloc_frame_phys(a: &mut BitmapFrameAllocator) -> (r: Option<u64>)
    requires
        old(a).wf(),
    ensures
        final(a).wf(),
        final(a).spec_base() == old(a).spec_base(),
        final(a).spec_frames() == old(a).spec_frames(),
        match r {
            None => final(a).used() == old(a).used() && forall|k: int|
                0 <= k < old(a).spec_frames() ==> #[trigger] old(a).used()[k],
            Some(p) => {
                &&& frame_free(old(a), p as int)
                &&& p == old(a).frame_phys((p - old(a).spec_base()) / 4096)
                &&& final(a).used() == old(a).used().update((p - old(a).spec_base()) / 4096, true)
            },
        },
{
    match a.alloc_frame() {
        Some(f) => Some(f.phys),
        None => None,
    }
}

/// Returns the frame at `phys` to the allocator (addresses outside its
/// span are ignored).
pub fn dealloc_frame_phys(a: &mut BitmapFrameAllocator, phys: u64)
    requires
        old(a).wf(),
    ensures
        final(a).wf(),
        final(a).spec_base() == old(a).spec_base(),
        final(a).spec_frames() == old(a).spec_frames(),
        ({
            let i = (phys - old(a).spec_base()) / 4096;
            if phys < old(a).spec_base() || i >= old(a).spec_frames() {
                final(a).used() == old(a).used()
            } else {
                final(a).used() == old(a).used().update(i, false)
            }
        }),
{
    a.dealloc_frame(Frame { phys });
}

/// Allocates a frame and zeroes it.
pub(crate) fn alloc_frame(m: &mut PhysMemory, a: &mut BitmapFrameAllocator) -> (r: Option<u64>)
    requires
        old(m).wf(),
        old(a).wf(),
        alloc_fits(old(m), old(a)),
    ensures
        final(m).wf(),
        final(a).wf(),
        alloc_fits(final(m), final(a)),
        final(m).spec_base() == old(m).spec_base(),
        final(m).spec_words().len() == old(m).spec_words().len(),
        final(a).spec_base() == old(a).spec_base(),
        final(a).spec_frames() == old(a).spec_frames(),
        match r {
            None => {
                &&& final(m).spec_words() == old(m).spec_words()
                &&& final(a).used() == old(a).used()
                &&& forall|k: int| 0 <= k < old(a).spec_frames() ==> #[trigger] old(a).used()[k]
            },
            Some(f) => {
                &&& frame_free(old(a), f as int)
                &&& f % 4096 == 0
                &&& final(m).frame_in(f as int)
                &&& final(a).used() == old(a).used().update((f - old(a).spec_base()) / 4096, true)
                &&& forall|j: int| 0 <= j < 512 ==> #[trigger] final(m).entry(f as int, j) == 0
                &&& forall|x: int, j: int|
                    old(m).frame_in(x) && 0 <= j < 512 && x != f ==> #[trigger] final(m).entry(x, j)
                        == old(m).entry(x, j)
            },
        },
{
    match a.alloc_frame() {
        None => None,
        Some(fr) => {
            let f = fr.phys;
            let ghost k = (f - a.spec_base()) / 4096;
            proof {
                assert(k * 4096 + 4096 <= a.spec_frames() * 4096) by (nonlinear_arith)
                    requires
                        0 <= k < a.spec_frames(),
                ;
                assert(f % 4096 == 0) by (nonlinear_arith)
                    requires
                        f == a.spec_base() + k * 4096,
                        a.spec_base() % 4096 == 0,
                ;
            }
            m.zero_frame(f);
            Some(f)
        },
    }
}

/// `f` is a new top-level table made from `cur`: a frame that was free is
/// taken, and every present entry of `cur` is copied into it (the rest are
/// zero); no other table changes.
pub open spec fn fresh_process_table(
    m0: &PhysMemory,
    a0: &BitmapFrameAllocator,
    m1: &PhysMemory,
    a1: &BitmapFrameAllocator,
    cur: u64,
    f: u64,
) -> bool {
    &&& frame_free(a0, f as int)
    &&& f % 4096 == 0
    &&& m1.frame_in(f as int)
    &&& a1.used() == a0.used().update((f - a0.spec_base()) / 4096, true)
    &&& forall|j: int|
        0 <= j < 512 ==> #[trigger] m1.entry(f as int, j) == if cur != f && present(m0.entry(cur as int, j)) {
            m0.entry(cur as int, j)
        } else {
            0u64
        }
    &&& forall|x: int, j: int|
        m0.frame_in(x) && 0 <= j < 512 && x != f ==> #[trigger] m1.entry(x, j) == m0.entry(x, j)
}

/// Creates the top-level table of a new address space: a zeroed frame into
/// which every present entry of the current top-level table `cur_cr3` is
/// copied, so the kernel mappings are shared. Returns its physical address;
/// `None` when `cur_cr3` is zero or no frame is left.
pub fn create_process_page_table(m: &mut PhysMemory, a: &mut BitmapFrameAllocator, cur_cr3: u64) -> (r: Option<u64>)
    requires
        old(m).wf(),
        old(a).wf(),
        alloc_fits(old(m), old(a)),
    ensures
        final(m).wf(),
        final(a).wf(),
        alloc_fits(final(m), final(a)),
        final(m).spec_base() == old(m).spec_base(),
        final(m).spec_words().len() == old(m).spec_words().len(),
        final(a).spec_base() == old(a).spec_base(),
        final(a).spec_frames() == old(a).spec_frames(),
        cur_cr3 == 0 ==> r is None && final(m).spec_words() == old(m).spec_words() && final(a).used()
            == old(a).used(),
        cur_cr3 != 0 ==> match r {
            None => {
                &&& final(m).spec_words() == old(m).spec_words()
                &&& final(a).used() == old(a).used()
                &&& forall|k: int| 0 <= k < old(a).spec_frames() ==> #[trigger] old(a).used()[k]
            },
            Some(f) => fresh_process_table(old(m), old(a), final(m), final(a), cur_cr3, f),
        },
{
    if cur_cr3 == 0 {
        return None;
    }
    let pml4 = match alloc_frame(m, a) {
        Some(f) => f,
        None => {
            return None;
        },
    };
    let ghost m1 = *m;
    let mut i: usize = 0;
    while i < ENTRY_COUNT
        invariant
            i <= ENTRY_COUNT,
            m.wf(),
            m.spec_base() == m1.spec_base(),
            m.spec_words().len() == m1.spec_words().len(),
            m1.frame_in(pml4 as int),
            forall|j: int| 0 <= j < 512 ==> #[trigger] m1.entry(pml4 as int, j) == 0,
            forall|j: int|
                0 <= j < 512 ==> #[trigger] m.entry(pml4 as int, j) == if j < i && cur_cr3 != pml4
                    && present(m1.entry(cur_cr3 as int, j)) {
                    m1.entry(cur_cr3 as int, j)
                } else {
                    0u64
                },
            forall|x: int, j: int|
                m1.frame_in(x) && 0 <= j < 512 && x != pml4 ==> #[trigger] m.entry(x, j) == m1.entry(
                    x,
                    j,
                ),
        decreases ENTRY_COUNT - i,
    {
        let entry = m.read_entry(cur_cr3, i);
        proof {
            if cur_cr3 == pml4 {
                assert(m.entry(pml4 as int, i as int) == 0);
                lemma_zero_absent();
            } else {
                assert(m.entry(cur_cr3 as int, i as int) == m1.entry(cur_cr3 as int, i as int));
            }
        }
        if entry & PRESENT != 0 {
            m.write_entry(pml4, i, entry);
        }
        i = i + 1;
    }
    Some(pml4)
}

/// Byte `lane` of a word.
pub open spec fn byte_of(w: u64, lane: u64) -> u8 {
    ((w >> (lane * 8)) & 0xFFu64) as u8
}

proof fn lemma_set_byte(w: u64, lane: u64, b: u8, other: u64)
    requires
        lane < 8,
        other < 8,
    ensures
        byte_of((w & !(0xFFu64 << (lane * 8))) | ((b as u64) << (lane * 8)), other) == if other
            == lane {
            b
        } else {
            byte_of(w, other)
        },
{
    assert(((((w & !(0xFFu64 << (lane * 8))) | ((b as u64) << (lane * 8))) >> (other * 8)) & 0xFFu64)
        == if other == lane {
        b as u64
    } else {
        (w >> (other * 8)) & 0xFFu64
    }) by (bit_vector)
        requires
            lane < 8,
            other < 8,
    ;
}

impl PhysMemory {
    /// The byte at physical address `addr`.
    pub open spec fn byte_at(&self, addr: int) -> u8 {
        byte_of(self.spec_words()[(addr - self.spec_base()) / 8], ((addr - self.spec_base()) % 8) as u64)
    }

    /// `addr` is a byte address inside memory.
    pub open spec fn byte_in(&self, addr: int) -> bool {
        self.spec_base() <= addr < self.end()
    }

    /// Writes one byte.
    pub fn write_byte(&mut self, addr: u64, b: u8)
        requires
            old(self).wf(),
            old(self).byte_in(addr as int),
        ensures
            final(self).wf(),
            final(self).spec_base() == old(self).spec_base(),
            final(self).spec_words().len() == old(self).spec_words().len(),
            final(self).byte_at(addr as int) == b,
            forall|x: int|
                old(self).byte_in(x) && x != addr ==> #[trigger] final(self).byte_at(x) == old(self).byte_at(x),
            forall|k: int|
                0 <= k < old(self).spec_words().len() && k != (addr - old(self).spec_base()) / 8
                    ==> #[trigger] final(self).spec_words()[k] == old(self).spec_words()[k],
    {
        let n = self.words.len();
        let off = addr - self.base;
        assert(off / 8 < n) by (nonlinear_arith)
            requires
                off < n * 8,
        ;
        let k = (off / 8) as usize;
        let lane = off % 8;
        let w = self.words[k];
        let nw = (w & !(0xFFu64 << (lane * 8))) | ((b as u64) << (lane * 8));
        self.words.set(k, nw);
        proof {
            lemma_set_byte(w, lane, b, lane);
            assert forall|x: int| old(self).byte_in(x) && x != addr implies #[trigger] self.byte_at(x)
                == old(self).byte_at(x) by {
                let xo = x - self.base;
                assert(xo / 8 < n) by (nonlinear_arith)
                    requires
                        0 <= xo < n * 8,
                ;
                if xo / 8 == k {
                    assert(xo % 8 != lane);
                    lemma_set_byte(w, lane, b, (xo % 8) as u64);
                }
            }
        }
    }

    /// Reads one byte.
    pub fn read_byte(&self, addr: u64) -> (r: u8)
        requires
            self.wf(),
            self.byte_in(addr as int),
        ensures
            r == self.byte_at(addr as int),
    {
        let n = self.words.len();
        let off = addr - self.base;
        assert(off / 8 < n) by (nonlinear_arith)
            requires
                off < n * 8,
        ;
        let k = (off / 8) as usize;
        let lane = off % 8;
        ((self.words[k] >> (lane * 8)) & 0xFF) as u8
    }
}

} // verus!
