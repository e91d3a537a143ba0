//! ELF64 loader for user binaries: checks the header, then loads every
//! in-range `PT_LOAD` program header into an address space, one zeroed
//! 4 KiB page at a time.
use vstd::prelude::*;

use crate::frame_allocator::{free_count, lemma_free_count_none, BitmapFrameAllocator};
use crate::load_map::{
    after_alloc, after_copy, image_loaded, image_page, lemma_byte_write_entries, lemma_image_done, lemma_map_data,
    lemma_tree_start, lemma_upto_next, load_hyp, loaded_before, loaded_upto, map_step, page_byte, page_va,
    seg_writable, step_levels, tree_ok,
};
use crate::paging::{
    alloc_fits, alloc_frame, frame_free, frame_taken, leaf, leaf_flags, lemma_take_frame, map_page, missing_tables,
    table_of, PhysMemory,
};

verus! {

pub const ELFCLASS64: u8 = 2;
pub const ELFDATA2LSB: u8 = 1;
pub const ET_EXEC: u16 = 2;
pub const ET_DYN: u16 = 3;
pub const EM_X86_64: u16 = 62;
pub const PT_LOAD: u32 = 1;
pub const PF_W: u32 = 2;
pub const PHDR_SIZE: u64 = 56;
pub const ELF_PAGE_SIZE: u64 = 4096;
/// Top of the user stack of a loaded program.
pub const ELF_STACK_TOP: u64 = 0x7FFF_FFFF_F000;

#[derive(Clone, Copy, PartialEq, Eq, Structural, Debug)]
pub enum ElfError {
    InvalidMagic,
    Not64Bit,
    NotLittleEndian,
    NotExecutable,
    WrongArch,
    InvalidPhdr,
    LoadFailed,
}

#[derive(Clone, Copy, Debug)]
pub struct ElfLoadInfo {
    pub entry: u64,
    pub stack_top: u64,
}

/// Little-endian values of 2, 4 and 8 bytes of `s` at `o`.
pub open spec fn le16(s: Seq<u8>, o: int) -> int {
    s[o] + s[o + 1] * 0x100
}

pub open spec fn le32(s: Seq<u8>, o: int) -> int {
    le16(s, o) + le16(s, o + 2) * 0x1_0000
}

pub open spec fn le64(s: Seq<u8>, o: int) -> int {
    le32(s, o) + le32(s, o + 4) * 0x1_0000_0000
}

/// The result of checking the ELF header: `Ok(entry)` or the first check that fails.
pub open spec fn header_check(s: Seq<u8>) -> Result<u64, ElfError> {
    if s.len() < 64 {
        Err(ElfError::InvalidMagic)
    } else if s[0] != 0x7f || s[1] != 0x45 || s[2] != 0x4c || s[3] != 0x46 {
        Err(ElfError::InvalidMagic)
    } else if s[4] != ELFCLASS64 {
        Err(ElfError::Not64Bit)
    } else if s[5] != ELFDATA2LSB {
        Err(ElfError::NotLittleEndian)
    } else if le16(s, 16) != ET_EXEC && le16(s, 16) != ET_DYN {
        Err(ElfError::NotExecutable)
    } else if le16(s, 18) != EM_X86_64 {
        Err(ElfError::WrongArch)
    } else if le16(s, 54) != PHDR_SIZE {
        Err(ElfError::InvalidPhdr)
    } else {
        Ok(le64(s, 24) as u64)
    }
}

/// Offset of program header `i`.
pub open spec fn phdr_off(s: Seq<u8>, i: int) -> int {
    le64(s, 32) + i * PHDR_SIZE
}

/// Program header `i` lies inside the data and is a `PT_LOAD` header.
pub open spec fn is_load(s: Seq<u8>, i: int) -> bool {
    let o = phdr_off(s, i);
    o + PHDR_SIZE <= s.len() && le32(s, o) == PT_LOAD
}

/// The file bytes of load header `i` end inside the data.
pub open spec fn seg_in_file(s: Seq<u8>, i: int) -> bool {
    let o = phdr_off(s, i);
    le64(s, o + 8) + le64(s, o + 32) <= s.len()
}

/// Number of pages a load header with memory size `memsz` occupies.
pub open spec fn seg_pages(memsz: int) -> int {
    (memsz + 4095) / 4096
}

/// The arithmetic on program header `i` stays inside 64 bits.
pub open spec fn seg_arith_ok(s: Seq<u8>, i: int) -> bool {
    let o = phdr_off(s, i);
    let off = le64(s, o + 8);
    let vaddr = le64(s, o + 16);
    let filesz = le64(s, o + 32);
    let pages = seg_pages(le64(s, o + 40));
    &&& off + filesz <= u64::MAX
    &&& pages * 4096 <= u64::MAX
    &&& vaddr + pages * 4096 <= u64::MAX
    &&& off + pages * 4096 <= u64::MAX
}

/// Loading `s` does no out-of-range arithmetic: the program header offsets
/// fit, and so does the page arithmetic of every load header up to the
/// first one whose file bytes run past the data.
pub open spec fn elf_arith_ok(s: Seq<u8>) -> bool {
    header_check(s) is Ok ==> {
        let n = le16(s, 56);
        &&& phdr_off(s, n) + PHDR_SIZE <= u64::MAX
        &&& forall|i: int|
            0 <= i < n && #[trigger] is_load(s, i) && (forall|k: int|
                0 <= k < i && is_load(s, k) ==> seg_in_file(s, k)) ==> seg_arith_ok(s, i)
    }
}

/// The number of pages the first `n` program headers load: each load
/// header its memory size in whole pages.
pub open spec fn load_pages(s: Seq<u8>, n: int) -> nat
    decreases n,
{
    if n <= 0 {
        0
    } else {
        load_pages(s, n - 1) + if is_load(s, n - 1) {
            seg_pages(le64(s, phdr_off(s, n - 1) + 40)) as nat
        } else {
            0nat
        }
    }
}

proof fn lemma_load_pages_monotone(s: Seq<u8>, i: int, j: int)
    requires
        0 <= i <= j,
    ensures
        load_pages(s, i) <= load_pages(s, j),
    decreases j - i,
{
    if i < j {
        lemma_load_pages_monotone(s, i, j - 1);
    }
}

/// The first load header, before `n`, whose file bytes run past the data.
pub open spec fn first_bad_seg(s: Seq<u8>, n: int) -> Option<int>
    decreases n,
{
    if n <= 0 {
        None
    } else {
        match first_bad_seg(s, n - 1) {
            Some(k) => Some(k),
            None => if is_load(s, n - 1) && !seg_in_file(s, n - 1) {
                Some(n - 1)
            } else {
                None
            },
        }
    }
}

proof fn lemma_no_bad_seg(s: Seq<u8>, n: int, k: int)
    requires
        first_bad_seg(s, n) is None,
        0 <= k < n,
        is_load(s, k),
    ensures
        seg_in_file(s, k),
    decreases n,
{
    if k < n - 1 {
        lemma_no_bad_seg(s, n - 1, k);
    }
}

proof fn lemma_bad_seg_stays(s: Seq<u8>, k: int, n: int)
    requires
        first_bad_seg(s, k) is Some,
        k <= n,
    ensures
        first_bad_seg(s, n) is Some,
    decreases n - k,
{
    if k < n {
        lemma_bad_seg_stays(s, k, n - 1);
    }
}

fn read_u16(d: &[u8], o: usize) -> (r: u16)
    requires
        o + 2 <= d@.len(),
    ensures
        r == le16(d@, o as int),
{
    let a = d[o];
    let b = d[o + 1];
    assert((a as u16) | ((b as u16) << 8u16) == a + b * 0x100) by (bit_vector);
    (a as u16) | ((b as u16) << 8)
}

fn read_u32(d: &[u8], o: usize) -> (r: u32)
    requires
        o + 4 <= d@.len(),
    ensures
        r == le32(d@, o as int),
{
    let _n = d.len();
    let lo = read_u16(d, o);
    let hi = read_u16(d, o + 2);
    assert((lo as u32) | ((hi as u32) << 16u32) == lo + hi * 0x1_0000) by (bit_vector);
    (lo as u32) | ((hi as u32) << 16)
}

fn read_u64(d: &[u8], o: usize) -> (r: u64)
    requires
        o + 8 <= d@.len(),
    ensures
        r == le64(d@, o as int),
{
    let _n = d.len();
    let lo = read_u32(d, o);
    let hi = read_u32(d, o + 4);
    assert((lo as u64) | ((hi as u64) << 32u64) == lo + hi * 0x1_0000_0000) by (bit_vector);
    (lo as u64) | ((hi as u64) << 32)
}

/// Checks the ELF header (see `header_check`).
pub fn check_header(data: &[u8]) -> (r: Result<u64, ElfError>)
    ensures
        r == header_check(data@),
{
    if data.len() < 64 {
        return Err(ElfError::InvalidMagic);
    }
    if data[0] != 0x7f || data[1] != 0x45 || data[2] != 0x4c || data[3] != 0x46 {
        return Err(ElfError::InvalidMagic);
    }
    if data[4] != ELFCLASS64 {
        return Err(ElfError::Not64Bit);
    }
    if data[5] != ELFDATA2LSB {
        return Err(ElfError::NotLittleEndian);
    }
    let e_type = read_u16(data, 16);
    if e_type != ET_EXEC && e_type != ET_DYN {
        return Err(ElfError::NotExecutable);
    }
    let e_machine = read_u16(data, 18);
    if e_machine != EM_X86_64 {
        return Err(ElfError::WrongArch);
    }
    let e_phentsize = read_u16(data, 54);
    if e_phentsize as u64 != PHDR_SIZE {
        return Err(ElfError::InvalidPhdr);
    }
    Ok(read_u64(data, 24))
}

/// Maps page `k` of load header `i` to the zeroed data frame `page` (see
/// `map_page`); while the load's tables form a tree, the step keeps them a
/// tree, keeps the pages loaded so far, and maps the page to `page`.
#[verifier::rlimit(100)]
#[verifier::spinoff_prover]
fn map_data_page(
    m: &mut PhysMemory,
    a: &mut BitmapFrameAllocator,
    cr3: u64,
    vaddr: u64,
    page: u64,
    writable: bool,
    Ghost(a0): Ghost<BitmapFrameAllocator>,
    Ghost(s): Ghost<Seq<u8>>,
    Ghost(lv): Ghost<Map<int, int>>,
    Ghost(d): Ghost<Set<int>>,
    Ghost(i): Ghost<int>,
    Ghost(k): Ghost<int>,
    Ghost(hyp): Ghost<bool>,
) -> (r: bool)
    requires
        old(m).wf(),
        old(a).wf(),
        alloc_fits(old(m), old(a)),
        hyp ==> {
            &&& tree_ok(old(m), old(a), &a0, cr3, s, lv, d)
            &&& old(a).spec_base() == a0.spec_base()
            &&& old(a).spec_frames() == a0.spec_frames()
            &&& old(m).frame_in(cr3 as int)
            &&& old(m).spec_base() % 4096 == 0
            &&& !frame_free(&a0, cr3 as int)
            &&& !frame_free(old(a), cr3 as int)
            &&& forall|x: int| #[trigger] frame_free(old(a), x) ==> frame_free(&a0, x)
            &&& frame_taken(&a0, old(a), page as int)
            &&& !lv.dom().contains(page as int)
            &&& !d.contains(page as int)
            &&& forall|j: int| 0 <= j < 512 ==> #[trigger] old(m).entry(page as int, j) == 0
            &&& image_page(s, i, k)
            &&& vaddr == page_va(s, i, k)
            &&& writable == seg_writable(s, i)
            &&& loaded_upto(old(m), cr3, s, d, i, k)
        },
    ensures
        final(m).wf(),
        final(a).wf(),
        alloc_fits(final(m), final(a)),
        final(m).spec_base() == old(m).spec_base(),
        final(m).spec_words().len() == old(m).spec_words().len(),
        final(a).spec_base() == old(a).spec_base(),
        final(a).spec_frames() == old(a).spec_frames(),
        r == (missing_tables(old(m), cr3, vaddr) <= free_count(old(a).used())),
        free_count(final(a).used()) == if r {
            free_count(old(a).used()) - missing_tables(old(m), cr3, vaddr)
        } else {
            0
        },
        !r ==> forall|q: int| 0 <= q < final(a).spec_frames() ==> #[trigger] final(a).used()[q],
        hyp && r ==> tree_ok(
            final(m),
            final(a),
            &a0,
            cr3,
            s,
            step_levels(lv, old(a), final(a), final(m), cr3, vaddr),
            d.insert(page as int),
        ),
        hyp && r ==> !frame_free(final(a), cr3 as int),
        hyp && r ==> forall|x: int| #[trigger] frame_free(final(a), x) ==> frame_free(&a0, x),
        hyp && r ==> leaf(final(m), cr3, vaddr) == Some(page | leaf_flags(writable, true, true)),
        hyp && r ==> table_of(page | leaf_flags(writable, true, true)) == page,
        hyp && r ==> final(m).frame_in(page as int),
        hyp && r ==> forall|t: int| 0 <= t < 4096 ==> #[trigger] final(m).byte_at(page + t) == 0,
        hyp && r ==> loaded_before(final(m), cr3, s, d.insert(page as int), i, k, page),
{
    let ghost m_mid = *m;
    let ghost a_mid = *a;
    let r = map_page(m, a, cr3, vaddr, page, writable, true);
    proof {
        if hyp && r {
            assert(map_step(&m_mid, &a_mid, m, a, &a0, cr3, s, lv, d, page, i, k));
            lemma_map_data(&m_mid, &a_mid, m, a, &a0, cr3, s, lv, d, page, i, k);
            assert(vaddr == page_va(s, i, k));
            assert(loaded_before(m, cr3, s, d.insert(page as int), i, k, page));
        }
    }
    r
}

/// Loads an ELF64 executable into the address space whose top-level table
/// is at `cr3`: every `PT_LOAD` program header that lies inside the data is
/// loaded page by page into zeroed frames, with its file bytes copied to the
/// start of each page. Fails with the first header check that fails, or
/// with `LoadFailed` when a load header's file bytes run past the data or a
/// page cannot be allocated and mapped; pages loaded before the failure stay.
/// A failure of the last kind leaves no frame free, and cannot happen while
/// the free frames cover four per page to load; an image with no page to
/// load succeeds and leaves memory and frames as they were. Existing tables
/// on a page's walk are reused and an existing mapping of the page is
/// replaced, so where two pages of the image use the same slots the one
/// loaded later wins. On success, when the tables that the image's pages
/// reach are sound (see `load_hyp`), every page of every load header that
/// no later page replaces is mapped user, executable and writable as its
/// flags say, to a frame holding the file bytes of the page and zeros past
/// them (see `image_loaded`).
#[verifier::rlimit(100)]
pub fn load_elf(data: &[u8], m: &mut PhysMemory, a: &mut BitmapFrameAllocator, cr3: u64) -> (r: Result<
    ElfLoadInfo,
    ElfError,
>)
    requires
        old(m).wf(),
        old(a).wf(),
        alloc_fits(old(m), old(a)),
        elf_arith_ok(data@),
    ensures
        final(m).wf(),
        final(a).wf(),
        alloc_fits(final(m), final(a)),
        final(m).spec_base() == old(m).spec_base(),
        final(m).spec_words().len() == old(m).spec_words().len(),
        final(a).spec_base() == old(a).spec_base(),
        final(a).spec_frames() == old(a).spec_frames(),
        match header_check(data@) {
            Err(e) => r == Err::<ElfLoadInfo, ElfError>(e) && final(m).spec_words() == old(
                m,
            ).spec_words() && final(a).used() == old(a).used(),
            Ok(entry) => match first_bad_seg(data@, le16(data@, 56)) {
                Some(_) => r == Err::<ElfLoadInfo, ElfError>(ElfError::LoadFailed),
                None => {
                    &&& match r {
                        Ok(info) => info.entry == entry && info.stack_top == ELF_STACK_TOP,
                        Err(e) => e == ElfError::LoadFailed && forall|k: int|
                            0 <= k < final(a).spec_frames() ==> #[trigger] final(a).used()[k],
                    }
                    &&& r is Ok && load_hyp(data@, old(m), old(a), cr3) ==> image_loaded(final(m), cr3, data@)
                    &&& 4 * load_pages(data@, le16(data@, 56)) <= free_count(old(a).used()) ==> r is Ok
                    &&& load_pages(data@, le16(data@, 56)) == 0 ==> {
                        &&& r is Ok
                        &&& final(m).spec_words() == old(m).spec_words()
                        &&& final(a).used() == old(a).used()
                    }
                },
            },
        },
{
    let entry = match check_header(data) {
        Ok(e) => e,
        Err(e) => {
            return Err(e);
        },
    };
    let ghost s = data@;
    let ghost m0 = *m;
    let ghost a0 = *a;
    let ghost hyp = load_hyp(s, &m0, &a0, cr3);
    let ghost mut lv: Map<int, int> = Map::empty();
    let ghost mut d: Set<int> = Set::empty();
    proof {
        m.lemma_wf_base();
        if hyp {
            lv = lemma_tree_start(&m0, &a0, cr3, s);
        }
    }
    let e_phoff = read_u64(data, 32);
    let e_phnum = read_u16(data, 56);
    let dl = data.len();
    let dlen = dl as u64;
    let mut i: u16 = 0;
    while i < e_phnum
        invariant
            s == data@,
            dlen == data@.len(),
            dl == data@.len(),
            dlen == dl,
            header_check(s) == Ok::<u64, ElfError>(entry),
            elf_arith_ok(s),
            e_phoff == le64(s, 32),
            e_phnum == le16(s, 56),
            i <= e_phnum,
            first_bad_seg(s, i as int) is None,
            m.wf(),
            a.wf(),
            alloc_fits(m, a),
            m.spec_base() == old(m).spec_base(),
            m.spec_words().len() == old(m).spec_words().len(),
            a.spec_base() == old(a).spec_base(),
            a.spec_frames() == old(a).spec_frames(),
            free_count(a.used()) + 4 * load_pages(s, i as int) >= free_count(old(a).used()),
            load_pages(s, i as int) == 0 ==> m.spec_words() == old(m).spec_words() && a.used() == old(a).used(),
            m0 == *old(m),
            a0 == *old(a),
            hyp == load_hyp(s, &m0, &a0, cr3),
            m.spec_base() % 4096 == 0,
            hyp ==> m.frame_in(cr3 as int) && !frame_free(&a0, cr3 as int),
            hyp ==> tree_ok(m, a, &a0, cr3, s, lv, d),
            hyp ==> !frame_free(a, cr3 as int) && forall|x: int| #[trigger] frame_free(a, x) ==> frame_free(&a0, x),
            hyp ==> loaded_upto(m, cr3, s, d, i as int, 0),
        decreases e_phnum - i,
    {
        assert(phdr_off(s, i as int) + PHDR_SIZE <= u64::MAX) by (nonlinear_arith)
            requires
                phdr_off(s, e_phnum as int) + PHDR_SIZE <= u64::MAX,
                i < e_phnum,
                phdr_off(s, i as int) == le64(s, 32) + i * 56,
                phdr_off(s, e_phnum as int) == le64(s, 32) + e_phnum * 56,
        ;
        let phoff = e_phoff + (i as u64) * PHDR_SIZE;
        if phoff + PHDR_SIZE > dlen {
            proof {
                assert(!is_load(s, i as int));
                if hyp {
                    lemma_upto_next(m, cr3, s, d, i as int, 0);
                }
            }
            i = i + 1;
            continue;
        }
        assert(phoff < dl);
        let po = phoff as usize;
        assert(po == phdr_off(s, i as int));
        let p_type = read_u32(data, po);
        if p_type != PT_LOAD {
            proof {
                assert(!is_load(s, i as int));
                if hyp {
                    lemma_upto_next(m, cr3, s, d, i as int, 0);
                }
            }
            i = i + 1;
            continue;
        }
        assert(is_load(s, i as int));
        let p_flags = read_u32(data, po + 4);
        let p_offset = read_u64(data, po + 8);
        let p_vaddr = read_u64(data, po + 16);
        let p_filesz = read_u64(data, po + 32);
        let p_memsz = read_u64(data, po + 40);
        proof {
            assert forall|k: int| 0 <= k < i && is_load(s, k) implies seg_in_file(s, k) by {
                lemma_no_bad_seg(s, i as int, k);
            }
            assert(seg_arith_ok(s, i as int));
        }
        let file_data_end = p_offset + p_filesz;
        if file_data_end > dlen {
            proof {
                assert(first_bad_seg(s, i + 1) == Some(i as int));
                lemma_bad_seg_stays(s, i + 1, e_phnum as int);
            }
            return Err(ElfError::LoadFailed);
        }
        let writable = (p_flags & PF_W) != 0;
        assert(writable == seg_writable(s, i as int));
        let ghost pages = seg_pages(p_memsz as int);
        proof {
            assert(load_pages(s, i + 1) == load_pages(s, i as int) + pages);
            lemma_load_pages_monotone(s, i + 1, e_phnum as int);
        }
        let mut vaddr = p_vaddr;
        let mut offset: u64 = 0;
        let ghost mut k: int = 0;
        while offset < p_memsz
            invariant
                s == data@,
                dlen == data@.len(),
                dl == data@.len(),
                dlen == dl,
                header_check(s) == Ok::<u64, ElfError>(entry),
                e_phnum == le16(s, 56),
                file_data_end <= dlen,
                file_data_end == p_offset + p_filesz,
                pages == seg_pages(p_memsz as int),
                pages * 4096 <= u64::MAX,
                p_vaddr + pages * 4096 <= u64::MAX,
                p_offset + pages * 4096 <= u64::MAX,
                0 <= k,
                offset == k * 4096,
                vaddr == p_vaddr + k * 4096,
                offset < p_memsz ==> k < pages,
                m.wf(),
                a.wf(),
                alloc_fits(m, a),
                m.spec_base() == old(m).spec_base(),
                m.spec_words().len() == old(m).spec_words().len(),
                a.spec_base() == old(a).spec_base(),
                a.spec_frames() == old(a).spec_frames(),
                k <= pages,
                i < e_phnum,
                load_pages(s, i + 1) == load_pages(s, i as int) + pages,
                load_pages(s, i + 1) <= load_pages(s, e_phnum as int),
                free_count(a.used()) + 4 * (load_pages(s, i as int) + k) >= free_count(old(a).used()),
                load_pages(s, i as int) + k == 0 ==> m.spec_words() == old(m).spec_words() && a.used()
                    == old(a).used(),
                is_load(s, i as int),
                p_offset == le64(s, phdr_off(s, i as int) + 8),
                p_vaddr == le64(s, phdr_off(s, i as int) + 16),
                p_filesz == le64(s, phdr_off(s, i as int) + 32),
                p_memsz == le64(s, phdr_off(s, i as int) + 40),
                writable == seg_writable(s, i as int),
                m0 == *old(m),
                a0 == *old(a),
                hyp == load_hyp(s, &m0, &a0, cr3),
                m.spec_base() % 4096 == 0,
                hyp ==> m.frame_in(cr3 as int) && !frame_free(&a0, cr3 as int),
                hyp ==> tree_ok(m, a, &a0, cr3, s, lv, d),
                hyp ==> !frame_free(a, cr3 as int) && forall|x: int| #[trigger] frame_free(a, x) ==> frame_free(&a0, x),
                hyp ==> loaded_upto(m, cr3, s, d, i as int, k),
            decreases pages - k,
        {
            assert(k + 1 <= pages);
            assert((k + 1) * 4096 <= pages * 4096) by (nonlinear_arith)
                requires
                    k + 1 <= pages,
            ;
            let ghost a_pre = *a;
            let ghost m_pre = *m;
            let page = match alloc_frame(m, a) {
                Some(p) => p,
                None => {
                    proof {
                        lemma_free_count_none(a.used());
                    }
                    return Err(ElfError::LoadFailed);
                },
            };
            let ghost a_mid = *a;
            let ghost m_mid = *m;
            proof {
                lemma_take_frame(&a_pre, &a_mid, page);
                if hyp {
                    after_alloc(&m_pre, &a_pre, &m_mid, &a_mid, &a0, cr3, s, lv, d, page, i as int, k);
                }
            }
            proof {
                assert(page_va(s, i as int, k) == vaddr);
                assert(image_page(s, i as int, k));
            }
            if !map_data_page(
                m,
                a,
                cr3,
                vaddr,
                page,
                writable,
                Ghost(a0),
                Ghost(s),
                Ghost(lv),
                Ghost(d),
                Ghost(i as int),
                Ghost(k),
                Ghost(hyp),
            ) {
                return Err(ElfError::LoadFailed);
            }
            let ghost m_map = *m;
            let ghost a_map = *a;
            let ghost lv2 = step_levels(lv, &a_mid, &a_map, &m_map, cr3, vaddr);
            let ghost d2 = d.insert(page as int);
            let copy_len = if p_memsz - offset < ELF_PAGE_SIZE {
                p_memsz - offset
            } else {
                ELF_PAGE_SIZE
            };
            let file_start = p_offset + offset;
            if file_start < file_data_end {
                let len_c = if copy_len < file_data_end - file_start {
                    copy_len
                } else {
                    file_data_end - file_start
                };
                let fs = file_start as usize;
                let mut j: usize = 0;
                while j < len_c as usize
                    invariant
                        m.wf(),
                        m.frame_in(page as int),
                        len_c <= 4096,
                        j <= len_c,
                        dl == data@.len(),
                        fs + len_c <= dl,
                        m.spec_base() == old(m).spec_base(),
                        m.spec_words().len() == old(m).spec_words().len(),
                        m.spec_base() == m_map.spec_base(),
                        m.spec_words().len() == m_map.spec_words().len(),
                        m.spec_base() % 4096 == 0,
                        forall|x: int, jj: int|
                            m_map.frame_in(x) && 0 <= jj < 512 && x != page ==> #[trigger] m.entry(x, jj) == m_map.entry(x, jj),
                        hyp ==> forall|t: int|
                            0 <= t < 4096 ==> #[trigger] m.byte_at(page + t) == if t < j {
                                data@[fs + t]
                            } else {
                                0u8
                            },
                    decreases len_c - j,
                {
                    let ghost m_w = *m;
                    m.write_byte(page + j as u64, data[fs + j]);
                    proof {
                        lemma_byte_write_entries(&m_w, m, page as int, j as int);
                        if hyp {
                            assert forall|t: int| 0 <= t < 4096 implies #[trigger] m.byte_at(page + t) == if t < j + 1 {
                                data@[fs + t]
                            } else {
                                0u8
                            } by {
                                if t != j {
                                    assert(m_w.byte_in(page + t));
                                    assert(m.byte_at(page + t) == m_w.byte_at(page + t));
                                }
                            }
                        }
                    }
                    j = j + 1;
                }
                proof {
                    if hyp {
                        assert forall|t: int| 0 <= t < 4096 implies #[trigger] m.byte_at(page + t) == page_byte(
                            s,
                            i as int,
                            k,
                            t,
                        ) by {
                            assert(m.byte_at(page + t) == if t < j { data@[fs + t] } else { 0u8 });
                        }
                    }
                }
            } else {
                proof {
                    if hyp {
                        assert forall|t: int| 0 <= t < 4096 implies #[trigger] m.byte_at(page + t) == page_byte(
                            s,
                            i as int,
                            k,
                            t,
                        ) by {
                            assert(m.byte_at(page + t) == 0u8);
                        }
                    }
                }
            }
            proof {
                if hyp {
                    after_copy(&m_map, m, &a_map, &a0, cr3, s, lv2, d2, page, i as int, k);
                    lv = lv2;
                    d = d2;
                }
            }
            vaddr = vaddr + ELF_PAGE_SIZE;
            offset = offset + ELF_PAGE_SIZE;
            proof {
                k = k + 1;
                if offset < p_memsz {
                    assert(k < pages) by (nonlinear_arith)
                        requires
                            k * 4096 < p_memsz,
                            pages == (p_memsz + 4095) / 4096,
                    ;
                }
            }
        }
        proof {
            if hyp {
                assert(pages <= k) by (nonlinear_arith)
                    requires
                        k * 4096 >= p_memsz,
                        pages == (p_memsz + 4095) / 4096,
                ;
                lemma_upto_next(m, cr3, s, d, i as int, k);
            }
        }
        i = i + 1;
    }
    proof {
        assert(first_bad_seg(s, e_phnum as int) is None);
        if hyp {
            assert(load_hyp(s, old(m), old(a), cr3));
            lemma_image_done(m, cr3, s, d);
        }
    }
    Ok(ElfLoadInfo { entry, stack_top: ELF_STACK_TOP })
}

/// Whether loading `data` stays inside 64-bit arithmetic (see `elf_arith_ok`).
pub fn elf_arith_fits(data: &[u8]) -> (r: bool)
    ensures
        r == elf_arith_ok(data@),
{
    let ghost s = data@;
    if check_header(data).is_err() {
        return true;
    }
    let e_phoff = read_u64(data, 32);
    let e_phnum = read_u16(data, 56);
    let limit: u128 = 0xFFFF_FFFF_FFFF_FFFF;
    if (e_phoff as u128) + (e_phnum as u128) * 56 + 56 > limit {
        return false;
    }
    let dl = data.len();
    let dlen = dl as u64;
    let mut in_file = true;
    let mut i: u16 = 0;
    while i < e_phnum
        invariant
            s == data@,
            dl == data@.len(),
            dlen == dl,
            limit == 0xFFFF_FFFF_FFFF_FFFFu128,
            header_check(s) is Ok,
            e_phoff == le64(s, 32),
            e_phnum == le16(s, 56),
            phdr_off(s, e_phnum as int) + PHDR_SIZE <= u64::MAX,
            i <= e_phnum,
            in_file == forall|k: int| 0 <= k < i && #[trigger] is_load(s, k) ==> seg_in_file(s, k),
            forall|j: int|
                0 <= j < i && #[trigger] is_load(s, j) && (forall|k: int|
                    0 <= k < j && is_load(s, k) ==> seg_in_file(s, k)) ==> seg_arith_ok(s, j),
        decreases e_phnum - i,
    {
        assert(phdr_off(s, i as int) + PHDR_SIZE <= u64::MAX) by (nonlinear_arith)
            requires
                phdr_off(s, e_phnum as int) + PHDR_SIZE <= u64::MAX,
                i < e_phnum,
                phdr_off(s, i as int) == le64(s, 32) + i * 56,
                phdr_off(s, e_phnum as int) == le64(s, 32) + e_phnum * 56,
        ;
        let phoff = e_phoff + (i as u64) * PHDR_SIZE;
        if phoff + PHDR_SIZE <= dlen {
            let po = phoff as usize;
            assert(po == phdr_off(s, i as int));
            if read_u32(data, po) == PT_LOAD {
                assert(is_load(s, i as int));
                let off = read_u64(data, po + 8) as u128;
                let vaddr = read_u64(data, po + 16) as u128;
                let filesz = read_u64(data, po + 32) as u128;
                let memsz = read_u64(data, po + 40) as u128;
                let pages = (memsz + 4095) / 4096;
                assert(pages == seg_pages(le64(s, phdr_off(s, i as int) + 40)));
                if in_file {
                    let ok = off + filesz <= limit && pages * 4096 <= limit && vaddr + pages * 4096
                        <= limit && off + pages * 4096 <= limit;
                    proof {
                        let o = phdr_off(s, i as int);
                        assert(off == le64(s, o + 8));
                        assert(vaddr == le64(s, o + 16));
                        assert(filesz == le64(s, o + 32));
                        assert(pages == seg_pages(le64(s, o + 40)));
                    }
                    assert(ok == seg_arith_ok(s, i as int));
                    if !ok {
                        proof {
                            assert(forall|k: int| 0 <= k < i && is_load(s, k) ==> seg_in_file(s, k));
                            assert(is_load(s, i as int) && !seg_arith_ok(s, i as int));
                        }
                        return false;
                    }
                }
                in_file = in_file && off + filesz <= dlen as u128;
            } else {
                assert(!is_load(s, i as int));
            }
        } else {
            assert(!is_load(s, i as int));
        }
        i = i + 1;
    }
    true
}

} // verus!
