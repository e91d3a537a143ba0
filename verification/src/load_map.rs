//! The page tables that loading an ELF image walks and builds: where each
//! page of the image lands, what it holds, and the shape of the tables its
//! pages reach (a tree below the top-level table, one level per table),
//! with the lemmas that each loading step keeps that shape.
use vstd::prelude::*;

use crate::elf::{is_load, le16, le32, le64, phdr_off, seg_pages, PF_W};
use crate::frame_allocator::BitmapFrameAllocator;
use crate::paging::{
    alloc_fits, byte_of, e1, e2, e3, e4, frame_free, frame_taken, leaf, leaf_flags, lemma_entry_words, map_effect,
    on_path, path_ok, present, pt_index, table_of, walk_effect, walk_in_mem, PhysMemory,
};

verus! {

/// The virtual address of page `k` of program header `i`.
pub open spec fn page_va(s: Seq<u8>, i: int, k: int) -> u64 {
    (le64(s, phdr_off(s, i) + 16) + k * 4096) as u64
}

/// Page `k` of load header `i` is a page the image loads.
pub open spec fn image_page(s: Seq<u8>, i: int, k: int) -> bool {
    &&& 0 <= i < le16(s, 56)
    &&& is_load(s, i)
    &&& 0 <= k < seg_pages(le64(s, phdr_off(s, i) + 40))
}

/// Load header `i` asks for writable pages.
pub open spec fn seg_writable(s: Seq<u8>, i: int) -> bool {
    (le32(s, phdr_off(s, i) + 4) as u32) & PF_W != 0
}

/// Byte `t` of page `k` of load header `i`: the file byte there while it is
/// inside both the file size and the memory size, else zero.
pub open spec fn page_byte(s: Seq<u8>, i: int, k: int, t: int) -> u8 {
    let o = phdr_off(s, i);
    let pos = k * 4096 + t;
    if pos < le64(s, o + 32) && pos < le64(s, o + 40) {
        s[le64(s, o + 8) + pos]
    } else {
        0u8
    }
}

/// Two addresses use the same entry at every level of a walk.
pub open spec fn same_slots(v: u64, w: u64) -> bool {
    &&& pt_index(v, 39) == pt_index(w, 39)
    &&& pt_index(v, 30) == pt_index(w, 30)
    &&& pt_index(v, 21) == pt_index(w, 21)
    &&& pt_index(v, 12) == pt_index(w, 12)
}

/// The page tables an image is loaded into are sound: the top table lies in
/// memory and is in use, and the tables that the image's pages reach below
/// it form a tree (see `tree_ok`): each is in use, in memory and at one
/// level, entries of level-3 and level-2 tables point to tables one level
/// lower, and no two such entries, nor two top-table slots of image pages,
/// point to the same table. Empty slots, where loading builds the tables
/// itself, always qualify.
pub open spec fn load_hyp(s: Seq<u8>, m: &PhysMemory, a: &BitmapFrameAllocator, cr3: u64) -> bool {
    &&& m.frame_in(cr3 as int)
    &&& !frame_free(a, cr3 as int)
    &&& exists|lv: Map<int, int>| tree_ok(m, a, a, cr3, s, lv, Set::empty())
}

/// Tables are sound for an image none of whose pages has a top-level entry
/// yet, in a top table that lies in memory and is in use: loading then
/// builds every table below the top one itself.
pub proof fn law_empty_slots_are_sound(s: Seq<u8>, m: &PhysMemory, a: &BitmapFrameAllocator, cr3: u64)
    requires
        m.frame_in(cr3 as int),
        !frame_free(a, cr3 as int),
        forall|i: int, k: int| #[trigger] image_page(s, i, k) ==> !present(e4(m, cr3, page_va(s, i, k))),
    ensures
        load_hyp(s, m, a, cr3),
{
    let lv = Map::<int, int>::empty();
    reveal(tree_frames);
    reveal(tree_mem);
    reveal(tree_top);
    reveal(tree_down);
    reveal(tree_unique);
    reveal(tree_top_unique);
    assert(tree_ok(m, a, a, cr3, s, lv, Set::empty()));
}

/// Page `(i2, k2)` comes after page `(i, k)` in loading order.
pub open spec fn later(i: int, k: int, i2: int, k2: int) -> bool {
    i2 > i || (i2 == i && k2 > k)
}

/// Page `(i2, k2)` is loaded before position `(bi, bk)` is reached.
pub open spec fn done_before(i2: int, k2: int, bi: int, bk: int) -> bool {
    i2 < bi || (i2 == bi && k2 < bk)
}

/// No image page loaded after page `(i, k)`, up to position `(bi, bk)`,
/// uses the same slots: page `(i, k)` is the last one written there.
pub open spec fn last_upto(s: Seq<u8>, i: int, k: int, bi: int, bk: int) -> bool {
    forall|i2: int, k2: int|
        #[trigger] image_page(s, i2, k2) && later(i, k, i2, k2) && done_before(i2, k2, bi, bk) ==> !same_slots(
            page_va(s, i, k),
            page_va(s, i2, k2),
        )
}

/// Every image page loaded before position `(bi, bk)` that no later one
/// overwrote is loaded, with its data frame in `d`.
pub open spec fn loaded_upto(m: &PhysMemory, cr3: u64, s: Seq<u8>, d: Set<int>, bi: int, bk: int) -> bool {
    forall|i2: int, k2: int|
        image_page(s, i2, k2) && done_before(i2, k2, bi, bk) && last_upto(s, i2, k2, bi, bk) ==> #[trigger] loaded_in(
            m,
            cr3,
            s,
            d,
            i2,
            k2,
        )
}

/// Page `k` of load header `i` is loaded: mapped user and executable,
/// writable as the header asks, to a frame in memory that holds the page's
/// bytes.
pub open spec fn page_loaded(m: &PhysMemory, cr3: u64, s: Seq<u8>, i: int, k: int) -> bool {
    leaf(m, cr3, page_va(s, i, k)) matches Some(e) && {
        let f = table_of(e);
        &&& e == f | leaf_flags(seg_writable(s, i), true, true)
        &&& m.frame_in(f as int)
        &&& forall|t: int| 0 <= t < 4096 ==> #[trigger] m.byte_at(f + t) == page_byte(s, i, k, t)
    }
}

/// The tables are frames in use, each with a level, and none of them is
/// one of the load's data frames, which are frames the load took.
#[verifier::opaque]
pub open spec fn tree_frames(a: &BitmapFrameAllocator, a0: &BitmapFrameAllocator, lv: Map<int, int>, d: Set<int>) -> bool {
    &&& forall|x: int|
        #[trigger] lv.dom().contains(x) ==> !frame_free(a, x) && 1 <= lv[x] <= 3 && !d.contains(x)
    &&& forall|x: int| #[trigger] d.contains(x) ==> frame_taken(a0, a, x)
}

/// The tables lie in memory, and none of them is the top table.
#[verifier::opaque]
pub open spec fn tree_mem(m: &PhysMemory, cr3: u64, lv: Map<int, int>) -> bool {
    forall|x: int| #[trigger] lv.dom().contains(x) ==> m.frame_in(x) && x != cr3
}

/// A present top-table entry of an image page points to a level-3 table.
#[verifier::opaque]
pub open spec fn tree_top(m: &PhysMemory, cr3: u64, s: Seq<u8>, lv: Map<int, int>) -> bool {
    forall|i: int, k: int|
        image_page(s, i, k) && #[trigger] present(e4(m, cr3, page_va(s, i, k))) ==> lv.dom().contains(
            table_of(e4(m, cr3, page_va(s, i, k))) as int,
        ) && lv[table_of(e4(m, cr3, page_va(s, i, k))) as int] == 3
}

/// A present entry of a level-3 or level-2 table points to a table one
/// level lower.
#[verifier::opaque]
pub open spec fn tree_down(m: &PhysMemory, lv: Map<int, int>) -> bool {
    forall|x: int, j: int|
        lv.dom().contains(x) && lv[x] >= 2 && 0 <= j < 512 && #[trigger] present(m.entry(x, j)) ==> lv.dom().contains(
            table_of(m.entry(x, j)) as int,
        ) && lv[table_of(m.entry(x, j)) as int] == lv[x] - 1
}

/// No two present entries of level-3 or level-2 tables point to the same
/// table.
#[verifier::opaque]
pub open spec fn tree_unique(m: &PhysMemory, lv: Map<int, int>) -> bool {
    forall|x1: int, j1: int, x2: int, j2: int|
        lv.dom().contains(x1) && lv.dom().contains(x2) && lv[x1] >= 2 && lv[x2] >= 2 && 0 <= j1 < 512 && 0 <= j2 < 512 && present(
            #[trigger] m.entry(x1, j1),
        ) && present(#[trigger] m.entry(x2, j2)) && table_of(m.entry(x1, j1)) == table_of(m.entry(x2, j2))
            && lv.dom().contains(table_of(m.entry(x1, j1)) as int) ==> x1 == x2 && j1 == j2
}

/// Two image pages whose present top-table entries point to the same table
/// use the same top-table slot.
#[verifier::opaque]
pub open spec fn tree_top_unique(m: &PhysMemory, cr3: u64, s: Seq<u8>) -> bool {
    forall|i: int, k: int, i2: int, k2: int|
        image_page(s, i, k) && image_page(s, i2, k2) && present(#[trigger] e4(m, cr3, page_va(s, i, k)))
            && present(#[trigger] e4(m, cr3, page_va(s, i2, k2))) && table_of(e4(m, cr3, page_va(s, i, k)))
            == table_of(e4(m, cr3, page_va(s, i2, k2))) ==> pt_index(page_va(s, i, k), 39) == pt_index(
            page_va(s, i2, k2),
            39,
        )
}

/// The tables the image's pages reach: `lv` gives each such table, found
/// or built by the load, its level, `d` holds the frames the load took for
/// data; together they form a tree below the top-level table (see the
/// parts above).
pub open spec fn tree_ok(
    m: &PhysMemory,
    a: &BitmapFrameAllocator,
    a0: &BitmapFrameAllocator,
    cr3: u64,
    s: Seq<u8>,
    lv: Map<int, int>,
    d: Set<int>,
) -> bool {
    &&& tree_frames(a, a0, lv, d)
    &&& tree_mem(m, cr3, lv)
    &&& tree_top(m, cr3, s, lv)
    &&& tree_down(m, lv)
    &&& tree_unique(m, lv)
    &&& tree_top_unique(m, cr3, s)
}

/// A loaded page whose frame is one of the load's data frames.
pub open spec fn loaded_in(m: &PhysMemory, cr3: u64, s: Seq<u8>, d: Set<int>, i: int, k: int) -> bool {
    &&& page_loaded(m, cr3, s, i, k)
    &&& d.contains(table_of(leaf(m, cr3, page_va(s, i, k))->0) as int)
}

/// Byte `t` of the frame at `f` is a byte of its entry `t / 8`.
pub proof fn lemma_frame_byte(m: &PhysMemory, f: int, t: int)
    requires
        m.frame_in(f),
        m.spec_base() % 4096 == 0,
        0 <= t < 4096,
    ensures
        m.byte_at(f + t) == byte_of(m.entry(f, t / 8), (t % 8) as u64),
{
    let b = m.spec_base() as int;
    assert((f + t - b) / 8 == (f - b) / 8 + t / 8 && (f + t - b) % 8 == t % 8) by (nonlinear_arith)
        requires
            f % 4096 == 0,
            b % 4096 == 0,
            f >= b,
            0 <= t < 4096,
    ;
}

/// A frame whose entries did not change holds the same bytes.
pub proof fn lemma_frame_bytes_same(m1: &PhysMemory, m2: &PhysMemory, f: int)
    requires
        m1.frame_in(f),
        m1.spec_base() % 4096 == 0,
        m2.spec_base() == m1.spec_base(),
        m2.spec_words().len() == m1.spec_words().len(),
        forall|j: int| 0 <= j < 512 ==> #[trigger] m2.entry(f, j) == m1.entry(f, j),
    ensures
        forall|t: int| 0 <= t < 4096 ==> #[trigger] m2.byte_at(f + t) == m1.byte_at(f + t),
{
    assert forall|t: int| 0 <= t < 4096 implies #[trigger] m2.byte_at(f + t) == m1.byte_at(f + t) by {
        lemma_frame_byte(m1, f, t);
        lemma_frame_byte(m2, f, t);
        assert(0 <= t / 8 < 512);
        assert(m2.entry(f, t / 8) == m1.entry(f, t / 8));
    }
}

/// A frame whose entries are all zero holds zero bytes.
pub proof fn lemma_frame_bytes_zero(m: &PhysMemory, f: int)
    requires
        m.frame_in(f),
        m.spec_base() % 4096 == 0,
        forall|j: int| 0 <= j < 512 ==> #[trigger] m.entry(f, j) == 0,
    ensures
        forall|t: int| 0 <= t < 4096 ==> #[trigger] m.byte_at(f + t) == 0,
{
    assert forall|t: int| 0 <= t < 4096 implies #[trigger] m.byte_at(f + t) == 0 by {
        lemma_frame_byte(m, f, t);
        assert(0 <= t / 8 < 512);
        let lane = (t % 8) as u64;
        assert(byte_of(0u64, lane) == 0) by {
            assert(((0u64 >> (lane * 8)) & 0xFFu64) == 0u64) by (bit_vector);
        }
    }
}

/// The four slot indices of an address lie in a table.
pub proof fn lemma_slots_bound(v: u64)
    ensures
        0 <= pt_index(v, 39) < 512,
        0 <= pt_index(v, 30) < 512,
        0 <= pt_index(v, 21) < 512,
        0 <= pt_index(v, 12) < 512,
{
    assert((v >> 39u64) & 0x1FFu64 < 512u64) by (bit_vector);
    assert((v >> 30u64) & 0x1FFu64 < 512u64) by (bit_vector);
    assert((v >> 21u64) & 0x1FFu64 < 512u64) by (bit_vector);
    assert((v >> 12u64) & 0x1FFu64 < 512u64) by (bit_vector);
}

/// A frame the load took lies in memory.
pub proof fn lemma_taken_in_mem(m: &PhysMemory, a: &BitmapFrameAllocator, a0: &BitmapFrameAllocator, x: int)
    requires
        alloc_fits(m, a),
        a.spec_base() == a0.spec_base(),
        a.spec_frames() == a0.spec_frames(),
        frame_taken(a0, a, x),
    ensures
        m.frame_in(x),
{
    let b = a.spec_base() as int;
    let n = a.spec_frames() as int;
    assert(x + 4096 <= b + n * 4096) by (nonlinear_arith)
        requires
            x % 4096 == 0,
            b % 4096 == 0,
            b <= x < b + n * 4096,
    ;
}

/// The shape of the load's tables depends only on the entries of its
/// tables and of the top table.
pub proof fn lemma_tree_same_entries(
    m1: &PhysMemory,
    m2: &PhysMemory,
    a: &BitmapFrameAllocator,
    a0: &BitmapFrameAllocator,
    cr3: u64,
    s: Seq<u8>,
    lv: Map<int, int>,
    d: Set<int>,
)
    requires
        tree_ok(m1, a, a0, cr3, s, lv, d),
        forall|x: int, j: int| lv.dom().contains(x) && 0 <= j < 512 ==> #[trigger] m2.entry(x, j) == m1.entry(x, j),
        forall|j: int| 0 <= j < 512 ==> #[trigger] m2.entry(cr3 as int, j) == m1.entry(cr3 as int, j),
        m2.spec_base() == m1.spec_base(),
        m2.spec_words().len() == m1.spec_words().len(),
    ensures
        tree_ok(m2, a, a0, cr3, s, lv, d),
{
    reveal(tree_frames);
    reveal(tree_mem);
    reveal(tree_top);
    reveal(tree_down);
    reveal(tree_unique);
    reveal(tree_top_unique);
    assert forall|i: int, k: int| image_page(s, i, k) implies #[trigger] e4(m2, cr3, page_va(s, i, k)) == e4(m1, cr3, page_va(s, i, k)) by {
        lemma_slots_bound(page_va(s, i, k));
    }
    assert forall|x: int, j: int|
        lv.dom().contains(x) && lv[x] >= 2 && 0 <= j < 512 && #[trigger] present(m2.entry(x, j)) implies lv.dom().contains(
            table_of(m2.entry(x, j)) as int,
        ) && lv[table_of(m2.entry(x, j)) as int] == lv[x] - 1 by {
        assert(m2.entry(x, j) == m1.entry(x, j));
    }
    assert forall|x1: int, j1: int, x2: int, j2: int|
        lv.dom().contains(x1) && lv.dom().contains(x2) && lv[x1] >= 2 && lv[x2] >= 2 && 0 <= j1 < 512 && 0 <= j2 < 512 && present(
            #[trigger] m2.entry(x1, j1),
        ) && present(#[trigger] m2.entry(x2, j2)) && table_of(m2.entry(x1, j1)) == table_of(m2.entry(x2, j2))
            && lv.dom().contains(table_of(m2.entry(x1, j1)) as int) implies x1 == x2 && j1 == j2 by {
        assert(m2.entry(x1, j1) == m1.entry(x1, j1));
        assert(m2.entry(x2, j2) == m1.entry(x2, j2));
    }
}

/// Changing only the entries of a frame `g` that is neither a table of the
/// load nor the top table keeps the tables' shape, the walk of every image
/// page, and every loaded page whose frame is not `g`.
pub proof fn lemma_tree_other_frame(
    m1: &PhysMemory,
    m2: &PhysMemory,
    a: &BitmapFrameAllocator,
    a0: &BitmapFrameAllocator,
    cr3: u64,
    s: Seq<u8>,
    lv: Map<int, int>,
    d: Set<int>,
    g: int,
)
    requires
        tree_ok(m1, a, a0, cr3, s, lv, d),
        alloc_fits(m1, a),
        a.spec_base() == a0.spec_base(),
        a.spec_frames() == a0.spec_frames(),
        m1.frame_in(cr3 as int),
        m1.spec_base() % 4096 == 0,
        !lv.dom().contains(g),
        g != cr3,
        m2.spec_base() == m1.spec_base(),
        m2.spec_words().len() == m1.spec_words().len(),
        forall|x: int, j: int| m1.frame_in(x) && 0 <= j < 512 && x != g ==> #[trigger] m2.entry(x, j) == m1.entry(x, j),
    ensures
        tree_ok(m2, a, a0, cr3, s, lv, d),
        forall|i: int, k: int| #[trigger] image_page(s, i, k) ==> leaf(m2, cr3, page_va(s, i, k)) == leaf(m1, cr3, page_va(s, i, k)),
        forall|i: int, k: int|
            image_page(s, i, k) && #[trigger] loaded_in(m1, cr3, s, d, i, k) && table_of(leaf(m1, cr3, page_va(s, i, k))->0) != g
                ==> loaded_in(m2, cr3, s, d, i, k),
{
    assert forall|x: int, j: int| lv.dom().contains(x) && 0 <= j < 512 implies #[trigger] m2.entry(x, j) == m1.entry(x, j) by {
        reveal(tree_mem);
    }
    lemma_tree_same_entries(m1, m2, a, a0, cr3, s, lv, d);
    assert forall|i: int, k: int| #[trigger] image_page(s, i, k) implies leaf(m2, cr3, page_va(s, i, k)) == leaf(m1, cr3, page_va(s, i, k)) by {
        reveal(tree_top);
        reveal(tree_down);
        let v = page_va(s, i, k);
        lemma_slots_bound(v);
        assert(e4(m2, cr3, v) == e4(m1, cr3, v));
        if present(e4(m1, cr3, v)) {
            let t3 = table_of(e4(m1, cr3, v)) as int;
            assert(lv.dom().contains(t3));
            assert(e3(m2, cr3, v) == e3(m1, cr3, v));
            if present(e3(m1, cr3, v)) {
                let t2 = table_of(e3(m1, cr3, v)) as int;
                assert(lv.dom().contains(t2));
                assert(e2(m2, cr3, v) == e2(m1, cr3, v));
                if present(e2(m1, cr3, v)) {
                    let t1 = table_of(e2(m1, cr3, v)) as int;
                    assert(lv.dom().contains(t1));
                    assert(m2.entry(t1, pt_index(v, 12)) == m1.entry(t1, pt_index(v, 12)));
                }
            }
        }
    }
    assert forall|i: int, k: int|
        image_page(s, i, k) && #[trigger] loaded_in(m1, cr3, s, d, i, k) && table_of(leaf(m1, cr3, page_va(s, i, k))->0) != g
            implies loaded_in(m2, cr3, s, d, i, k) by {
        let f = table_of(leaf(m1, cr3, page_va(s, i, k))->0) as int;
        assert(forall|j: int| 0 <= j < 512 ==> #[trigger] m2.entry(f, j) == m1.entry(f, j));
        lemma_frame_bytes_same(m1, m2, f);
    }
}

/// The leaf entry for a data frame gives the frame back.
pub proof fn lemma_leaf_value(f: u64, w: bool)
    requires
        f % 4096 == 0,
    ensures
        table_of(f | leaf_flags(w, true, true)) == f,
        present(f | leaf_flags(w, true, true)),
        (f & !0xFFFu64) | leaf_flags(w, true, true) == f | leaf_flags(w, true, true),
{
    let fl = leaf_flags(w, true, true);
    assert(fl == 5u64 || fl == 7u64) by {
        assert(1u64 | 2u64 | 4u64 | 0u64 == 7u64) by (bit_vector);
        assert(1u64 | 0u64 | 4u64 | 0u64 == 5u64) by (bit_vector);
    }
    assert((f | fl) & !0xFFFu64 == f && (f | fl) & 1u64 != 0u64 && f & !0xFFFu64 == f) by (bit_vector)
        requires
            f % 4096 == 0,
            fl == 5u64 || fl == 7u64,
    ;
}

/// Before a mapping step, the walk for an image page is sound.
pub proof fn lemma_walk_sound(
    m: &PhysMemory,
    a: &BitmapFrameAllocator,
    a0: &BitmapFrameAllocator,
    cr3: u64,
    s: Seq<u8>,
    lv: Map<int, int>,
    d: Set<int>,
    i: int,
    k: int,
)
    requires
        tree_ok(m, a, a0, cr3, s, lv, d),
        alloc_fits(m, a),
        a.spec_base() == a0.spec_base(),
        a.spec_frames() == a0.spec_frames(),
        m.frame_in(cr3 as int),
        !frame_free(a0, cr3 as int),
        !frame_free(a, cr3 as int),
        image_page(s, i, k),
    ensures
        path_ok(m, a, cr3, page_va(s, i, k)),
        present(e4(m, cr3, page_va(s, i, k))) ==> lv.dom().contains(table_of(e4(m, cr3, page_va(s, i, k))) as int)
            && lv[table_of(e4(m, cr3, page_va(s, i, k))) as int] == 3,
        present(e4(m, cr3, page_va(s, i, k))) && present(e3(m, cr3, page_va(s, i, k))) ==> lv.dom().contains(
            table_of(e3(m, cr3, page_va(s, i, k))) as int,
        ) && lv[table_of(e3(m, cr3, page_va(s, i, k))) as int] == 2,
        present(e4(m, cr3, page_va(s, i, k))) && present(e3(m, cr3, page_va(s, i, k))) && present(
            e2(m, cr3, page_va(s, i, k)),
        ) ==> lv.dom().contains(table_of(e2(m, cr3, page_va(s, i, k))) as int) && lv[table_of(
            e2(m, cr3, page_va(s, i, k)),
        ) as int] == 1,
{
    reveal(tree_frames);
    reveal(tree_mem);
    reveal(tree_top);
    reveal(tree_down);
    let v = page_va(s, i, k);
    lemma_slots_bound(v);
    if present(e4(m, cr3, v)) {
        let t3 = table_of(e4(m, cr3, v)) as int;
        if present(e3(m, cr3, v)) {
            let t2 = table_of(e3(m, cr3, v)) as int;
            assert(present(m.entry(t3, pt_index(v, 30))));
            if present(e2(m, cr3, v)) {
                let t1 = table_of(e2(m, cr3, v)) as int;
                assert(present(m.entry(t2, pt_index(v, 21))));
            }
        }
    }
}

/// The frames of the load's tables and data.
pub proof fn lemma_tree_frames(
    m: &PhysMemory,
    a: &BitmapFrameAllocator,
    a0: &BitmapFrameAllocator,
    cr3: u64,
    s: Seq<u8>,
    lv: Map<int, int>,
    d: Set<int>,
)
    requires
        tree_ok(m, a, a0, cr3, s, lv, d),
    ensures
        forall|x: int| #[trigger] lv.dom().contains(x) ==> !frame_free(a, x) && 1 <= lv[x] <= 3 && !d.contains(x),
        forall|x: int| #[trigger] d.contains(x) ==> frame_taken(a0, a, x),
{
    reveal(tree_frames);
}

/// Levels after adding the tables `t3`, `t2`, `t1` that are new (`b3`,
/// `b2`, `b1`) at levels 3, 2 and 1.
pub open spec fn grow3(lv: Map<int, int>, t3: int, b3: bool, t2: int, b2: bool, t1: int, b1: bool) -> Map<int, int> {
    let l3 = if b3 { lv.insert(t3, 3) } else { lv };
    let l2 = if b2 { l3.insert(t2, 2) } else { l3 };
    if b1 { l2.insert(t1, 1) } else { l2 }
}

/// What the grown levels hold.
pub proof fn lemma_grow3(lv: Map<int, int>, t3: int, b3: bool, t2: int, b2: bool, t1: int, b1: bool)
    requires
        t3 != t2 && t3 != t1 && t2 != t1,
        b3 ==> !lv.dom().contains(t3),
        b2 ==> !lv.dom().contains(t2),
        b1 ==> !lv.dom().contains(t1),
        !b3 ==> lv.dom().contains(t3) && lv[t3] == 3,
        !b2 ==> lv.dom().contains(t2) && lv[t2] == 2,
        !b1 ==> lv.dom().contains(t1) && lv[t1] == 1,
    ensures
        ({
            let lv2 = grow3(lv, t3, b3, t2, b2, t1, b1);
            &&& lv2.dom().contains(t3) && lv2[t3] == 3
            &&& lv2.dom().contains(t2) && lv2[t2] == 2
            &&& lv2.dom().contains(t1) && lv2[t1] == 1
            &&& forall|x: int| #[trigger] lv.dom().contains(x) ==> lv2.dom().contains(x) && lv2[x] == lv[x]
            &&& forall|x: int|
                #[trigger] lv2.dom().contains(x) ==> lv.dom().contains(x) || (b3 && x == t3) || (b2 && x == t2) || (b1
                    && x == t1)
        }),
{
}

/// A mapping step of the load: before it, the tables form a tree (see
/// `tree_ok`) and `f` is a zeroed data frame the load just took; the step
/// maps page `k` of load header `i` to `f` and succeeds.
pub open spec fn map_step(
    m: &PhysMemory,
    a: &BitmapFrameAllocator,
    m1: &PhysMemory,
    a1: &BitmapFrameAllocator,
    a0: &BitmapFrameAllocator,
    cr3: u64,
    s: Seq<u8>,
    lv: Map<int, int>,
    d: Set<int>,
    f: u64,
    i: int,
    k: int,
) -> bool {
    &&& tree_ok(m, a, a0, cr3, s, lv, d)
    &&& alloc_fits(m, a)
    &&& a.spec_base() == a0.spec_base()
    &&& a.spec_frames() == a0.spec_frames()
    &&& m.frame_in(cr3 as int)
    &&& m.spec_base() % 4096 == 0
    &&& !frame_free(a0, cr3 as int)
    &&& !frame_free(a, cr3 as int)
    &&& forall|x: int| #[trigger] frame_free(a, x) ==> frame_free(a0, x)
    &&& frame_taken(a0, a, f as int)
    &&& !lv.dom().contains(f as int)
    &&& !d.contains(f as int)
    &&& forall|j: int| 0 <= j < 512 ==> #[trigger] m.entry(f as int, j) == 0
    &&& image_page(s, i, k)
    &&& map_effect(m, a, m1, a1, cr3, page_va(s, i, k), f, seg_writable(s, i), true, true, true)
}

/// The levels after a mapping step (see `grow3`).
pub open spec fn step_levels(
    lv: Map<int, int>,
    a: &BitmapFrameAllocator,
    a1: &BitmapFrameAllocator,
    m1: &PhysMemory,
    cr3: u64,
    w: u64,
) -> Map<int, int> {
    let t3 = table_of(e4(m1, cr3, w)) as int;
    let t2 = table_of(e3(m1, cr3, w)) as int;
    let t1 = table_of(e2(m1, cr3, w)) as int;
    grow3(lv, t3, frame_taken(a, a1, t3), t2, frame_taken(a, a1, t2), t1, frame_taken(a, a1, t1))
}

/// The walk after a mapping step and the levels of its tables.
pub proof fn lemma_step_walk(
    m: &PhysMemory,
    a: &BitmapFrameAllocator,
    m1: &PhysMemory,
    a1: &BitmapFrameAllocator,
    a0: &BitmapFrameAllocator,
    cr3: u64,
    s: Seq<u8>,
    lv: Map<int, int>,
    d: Set<int>,
    f: u64,
    i: int,
    k: int,
)
    requires
        map_step(m, a, m1, a1, a0, cr3, s, lv, d, f, i, k),
    ensures
        ({
            let w = page_va(s, i, k);
            let lv2 = step_levels(lv, a, a1, m1, cr3, w);
            let t3 = table_of(e4(m1, cr3, w)) as int;
            let t2 = table_of(e3(m1, cr3, w)) as int;
            let t1 = table_of(e2(m1, cr3, w)) as int;
            &&& path_ok(m, a, cr3, w)
            &&& path_ok(m1, a1, cr3, w)
            &&& leaf(m1, cr3, w) == Some(f | leaf_flags(seg_writable(s, i), true, true))
            &&& table_of(f | leaf_flags(seg_writable(s, i), true, true)) == f
            &&& lv2.dom().contains(t3) && lv2[t3] == 3
            &&& lv2.dom().contains(t2) && lv2[t2] == 2
            &&& lv2.dom().contains(t1) && lv2[t1] == 1
            &&& forall|x: int| #[trigger] lv.dom().contains(x) ==> lv2.dom().contains(x) && lv2[x] == lv[x]
            &&& forall|x: int| #[trigger] lv2.dom().contains(x) ==> lv.dom().contains(x) || frame_taken(a, a1, x)
            &&& forall|x: int| #[trigger] frame_taken(a, a1, x) ==> x == t3 || x == t2 || x == t1
            &&& t3 != f && t2 != f && t1 != f
            &&& t3 != cr3 && t2 != cr3 && t1 != cr3
        }),
{
    let w = page_va(s, i, k);
    lemma_walk_sound(m, a, a0, cr3, s, lv, d, i, k);
    lemma_tree_frames(m, a, a0, cr3, s, lv, d);
    let t3 = table_of(e4(m1, cr3, w)) as int;
    let t2 = table_of(e3(m1, cr3, w)) as int;
    let t1 = table_of(e2(m1, cr3, w)) as int;
    assert(f % 4096 == 0);
    lemma_leaf_value(f, seg_writable(s, i));
    assert(walk_effect(m, a, m1, a1, cr3, w));
    assert(path_ok(m1, a1, cr3, w));
    if frame_taken(a, a1, t3) {
        assert(!lv.dom().contains(t3));
    }
    if frame_taken(a, a1, t2) {
        assert(!lv.dom().contains(t2));
    }
    if frame_taken(a, a1, t1) {
        assert(!lv.dom().contains(t1));
    }
    lemma_grow3(lv, t3, frame_taken(a, a1, t3), t2, frame_taken(a, a1, t2), t1, frame_taken(a, a1, t1));
}

/// After a mapping step, the load's frames are as `tree_frames` says.
pub proof fn lemma_step_frames(
    m: &PhysMemory,
    a: &BitmapFrameAllocator,
    m1: &PhysMemory,
    a1: &BitmapFrameAllocator,
    a0: &BitmapFrameAllocator,
    cr3: u64,
    s: Seq<u8>,
    lv: Map<int, int>,
    d: Set<int>,
    f: u64,
    i: int,
    k: int,
)
    requires
        map_step(m, a, m1, a1, a0, cr3, s, lv, d, f, i, k),
    ensures
        tree_frames(a1, a0, step_levels(lv, a, a1, m1, cr3, page_va(s, i, k)), d.insert(f as int)),
        forall|x: int| #[trigger] frame_free(a1, x) ==> frame_free(a0, x),
        !frame_free(a1, cr3 as int),
{
    let w = page_va(s, i, k);
    let lv2 = step_levels(lv, a, a1, m1, cr3, w);
    let d2 = d.insert(f as int);
    lemma_step_walk(m, a, m1, a1, a0, cr3, s, lv, d, f, i, k);
    lemma_tree_frames(m, a, a0, cr3, s, lv, d);
    assert forall|x: int| !frame_free(a, x) implies !frame_free(a1, x) by {
        if a.spec_base() <= x < a.spec_base() + a.spec_frames() * 4096 {
            let q = (x - a.spec_base()) / 4096;
            assert(0 <= q < a.spec_frames()) by (nonlinear_arith)
                requires
                    a.spec_base() <= x < a.spec_base() + a.spec_frames() * 4096,
                    q == (x - a.spec_base()) / 4096,
            ;
            assert(a.used()[q]);
        }
    }
    reveal(tree_frames);
    assert forall|x: int| #[trigger] lv2.dom().contains(x) implies !frame_free(a1, x) && 1 <= lv2[x] <= 3 && !d2.contains(x) by {
        if lv.dom().contains(x) {
            assert(!frame_free(a, x));
        } else {
            assert(frame_taken(a, a1, x));
            if d.contains(x) {
                assert(!frame_free(a, x));
            }
        }
    }
    assert forall|x: int| #[trigger] d2.contains(x) implies frame_taken(a0, a1, x) by {
        assert(!frame_free(a, x));
    }
    assert forall|x: int| #[trigger] frame_free(a1, x) implies frame_free(a0, x) by {
        if !frame_free(a, x) {
        }
    }
}

/// After a mapping step, the load's tables lie in memory and none of them
/// is the top table.
pub proof fn lemma_step_mem(
    m: &PhysMemory,
    a: &BitmapFrameAllocator,
    m1: &PhysMemory,
    a1: &BitmapFrameAllocator,
    a0: &BitmapFrameAllocator,
    cr3: u64,
    s: Seq<u8>,
    lv: Map<int, int>,
    d: Set<int>,
    f: u64,
    i: int,
    k: int,
)
    requires
        map_step(m, a, m1, a1, a0, cr3, s, lv, d, f, i, k),
    ensures
        tree_mem(m1, cr3, step_levels(lv, a, a1, m1, cr3, page_va(s, i, k))),
{
    let w = page_va(s, i, k);
    let lv2 = step_levels(lv, a, a1, m1, cr3, w);
    lemma_step_walk(m, a, m1, a1, a0, cr3, s, lv, d, f, i, k);
    assert(walk_effect(m, a, m1, a1, cr3, w));
    reveal(tree_mem);
    assert forall|x: int| #[trigger] lv2.dom().contains(x) implies m1.frame_in(x) && x != cr3 by {
        if lv.dom().contains(x) {
            assert(m.frame_in(x));
        }
    }
}

/// After a mapping step, only the walk's slot of the top table changed.
pub proof fn lemma_step_top_slots(
    m: &PhysMemory,
    a: &BitmapFrameAllocator,
    m1: &PhysMemory,
    a1: &BitmapFrameAllocator,
    a0: &BitmapFrameAllocator,
    cr3: u64,
    s: Seq<u8>,
    lv: Map<int, int>,
    d: Set<int>,
    f: u64,
    i: int,
    k: int,
)
    requires
        map_step(m, a, m1, a1, a0, cr3, s, lv, d, f, i, k),
    ensures
        forall|j: int|
            0 <= j < 512 && j != pt_index(page_va(s, i, k), 39) ==> #[trigger] m1.entry(cr3 as int, j) == m.entry(
                cr3 as int,
                j,
            ),
{
    let w = page_va(s, i, k);
    lemma_step_walk(m, a, m1, a1, a0, cr3, s, lv, d, f, i, k);
    assert forall|j: int| 0 <= j < 512 && j != pt_index(w, 39) implies #[trigger] m1.entry(cr3 as int, j) == m.entry(
        cr3 as int,
        j,
    ) by {
        assert(!on_path(m1, cr3, w, cr3 as int, j));
    }
}

/// After a mapping step, the top-table entries of image pages are as
/// `tree_top` and `tree_top_unique` say.
pub proof fn lemma_step_top(
    m: &PhysMemory,
    a: &BitmapFrameAllocator,
    m1: &PhysMemory,
    a1: &BitmapFrameAllocator,
    a0: &BitmapFrameAllocator,
    cr3: u64,
    s: Seq<u8>,
    lv: Map<int, int>,
    d: Set<int>,
    f: u64,
    i: int,
    k: int,
)
    requires
        map_step(m, a, m1, a1, a0, cr3, s, lv, d, f, i, k),
    ensures
        tree_top(m1, cr3, s, step_levels(lv, a, a1, m1, cr3, page_va(s, i, k))),
        tree_top_unique(m1, cr3, s),
{
    let w = page_va(s, i, k);
    let lv2 = step_levels(lv, a, a1, m1, cr3, w);
    lemma_step_walk(m, a, m1, a1, a0, cr3, s, lv, d, f, i, k);
    lemma_step_top_slots(m, a, m1, a1, a0, cr3, s, lv, d, f, i, k);
    lemma_tree_frames(m, a, a0, cr3, s, lv, d);
    lemma_walk_sound(m, a, a0, cr3, s, lv, d, i, k);
    let t3 = table_of(e4(m1, cr3, w)) as int;
    assert(walk_effect(m, a, m1, a1, cr3, w));
    assert(!frame_taken(a, a1, t3) ==> present(e4(m, cr3, w)) && t3 == table_of(e4(m, cr3, w)));
    assert(frame_taken(a, a1, t3) ==> !lv.dom().contains(t3));
    assert forall|i2: int, k2: int|
        image_page(s, i2, k2) && #[trigger] present(e4(m1, cr3, page_va(s, i2, k2))) implies lv2.dom().contains(
            table_of(e4(m1, cr3, page_va(s, i2, k2))) as int,
        ) && lv2[table_of(e4(m1, cr3, page_va(s, i2, k2))) as int] == 3 by {
        let v = page_va(s, i2, k2);
        lemma_slots_bound(v);
        lemma_slots_bound(w);
        if pt_index(v, 39) != pt_index(w, 39) {
            assert(e4(m1, cr3, v) == e4(m, cr3, v));
            reveal(tree_top);
            assert(present(e4(m, cr3, v)));
        }
    }
    assert(tree_top(m1, cr3, s, lv2)) by {
        reveal(tree_top);
    }
    assert forall|i1: int, k1: int, i2: int, k2: int|
        image_page(s, i1, k1) && image_page(s, i2, k2) && present(#[trigger] e4(m1, cr3, page_va(s, i1, k1)))
            && present(#[trigger] e4(m1, cr3, page_va(s, i2, k2))) && table_of(e4(m1, cr3, page_va(s, i1, k1)))
            == table_of(e4(m1, cr3, page_va(s, i2, k2))) implies pt_index(page_va(s, i1, k1), 39) == pt_index(
            page_va(s, i2, k2),
            39,
        ) by {
        let v1 = page_va(s, i1, k1);
        let v2 = page_va(s, i2, k2);
        lemma_slots_bound(v1);
        lemma_slots_bound(v2);
        lemma_slots_bound(w);
        reveal(tree_top);
        reveal(tree_top_unique);
        let w4 = pt_index(w, 39);
        if pt_index(v1, 39) != w4 && pt_index(v2, 39) != w4 {
            assert(e4(m1, cr3, v1) == e4(m, cr3, v1));
            assert(e4(m1, cr3, v2) == e4(m, cr3, v2));
        } else if pt_index(v1, 39) == w4 && pt_index(v2, 39) != w4 {
            assert(e4(m1, cr3, v2) == e4(m, cr3, v2));
            assert(lv.dom().contains(table_of(e4(m, cr3, v2)) as int));
            assert(e4(m1, cr3, v1) == e4(m1, cr3, w));
            assert(!frame_taken(a, a1, t3));
            assert(e4(m, cr3, w) == e4(m, cr3, v1));
        } else if pt_index(v1, 39) != w4 && pt_index(v2, 39) == w4 {
            assert(e4(m1, cr3, v1) == e4(m, cr3, v1));
            assert(lv.dom().contains(table_of(e4(m, cr3, v1)) as int));
            assert(e4(m1, cr3, v2) == e4(m1, cr3, w));
            assert(!frame_taken(a, a1, t3));
            assert(e4(m, cr3, w) == e4(m, cr3, v2));
        }
    }
    assert(tree_top_unique(m1, cr3, s)) by {
        reveal(tree_top_unique);
    }
}

/// After a mapping step, an entry of one of the load's tables that is not
/// on the walk is the entry it was, in an old table, or zero, in a new one.
pub proof fn lemma_step_off_path(
    m: &PhysMemory,
    a: &BitmapFrameAllocator,
    m1: &PhysMemory,
    a1: &BitmapFrameAllocator,
    a0: &BitmapFrameAllocator,
    cr3: u64,
    s: Seq<u8>,
    lv: Map<int, int>,
    d: Set<int>,
    f: u64,
    i: int,
    k: int,
)
    requires
        map_step(m, a, m1, a1, a0, cr3, s, lv, d, f, i, k),
    ensures
        forall|x: int, j: int|
            lv.dom().contains(x) && 0 <= j < 512 && !on_path(m1, cr3, page_va(s, i, k), x, j) ==> #[trigger] m1.entry(x, j)
                == m.entry(x, j),
        forall|x: int, j: int|
            frame_taken(a, a1, x) && 0 <= j < 512 && !on_path(m1, cr3, page_va(s, i, k), x, j) ==> #[trigger] m1.entry(
                x,
                j,
            ) == 0,
        forall|x: int, j: int|
            (d.contains(x) || x == f) && 0 <= j < 512 ==> #[trigger] m1.entry(x, j) == m.entry(x, j),
{
    let w = page_va(s, i, k);
    lemma_step_walk(m, a, m1, a1, a0, cr3, s, lv, d, f, i, k);
    lemma_tree_frames(m, a, a0, cr3, s, lv, d);
    reveal(tree_frames);
    assert forall|x: int, j: int|
        lv.dom().contains(x) && 0 <= j < 512 && !on_path(m1, cr3, w, x, j) implies #[trigger] m1.entry(x, j) == m.entry(x, j) by {
        reveal(tree_mem);
    }
    let lv2 = step_levels(lv, a, a1, m1, cr3, w);
    assert forall|x: int, j: int| (d.contains(x) || x == f) && 0 <= j < 512 implies #[trigger] m1.entry(x, j) == m.entry(x, j) by {
        lemma_taken_in_mem(m, a, a0, x);
        let t3 = table_of(e4(m1, cr3, w)) as int;
        let t2 = table_of(e3(m1, cr3, w)) as int;
        let t1 = table_of(e2(m1, cr3, w)) as int;
        if d.contains(x) {
            if x == t3 || x == t2 || x == t1 {
                assert(lv2.dom().contains(x));
                assert(!frame_taken(a, a1, x));
                assert(lv.dom().contains(x));
            }
        }
        assert(!on_path(m1, cr3, w, x, j));
    }
}

/// After a mapping step, the load's tables point down as `tree_down` says.
pub proof fn lemma_step_down(
    m: &PhysMemory,
    a: &BitmapFrameAllocator,
    m1: &PhysMemory,
    a1: &BitmapFrameAllocator,
    a0: &BitmapFrameAllocator,
    cr3: u64,
    s: Seq<u8>,
    lv: Map<int, int>,
    d: Set<int>,
    f: u64,
    i: int,
    k: int,
)
    requires
        map_step(m, a, m1, a1, a0, cr3, s, lv, d, f, i, k),
    ensures
        tree_down(m1, step_levels(lv, a, a1, m1, cr3, page_va(s, i, k))),
{
    let w = page_va(s, i, k);
    let lv2 = step_levels(lv, a, a1, m1, cr3, w);
    lemma_step_walk(m, a, m1, a1, a0, cr3, s, lv, d, f, i, k);
    lemma_step_off_path(m, a, m1, a1, a0, cr3, s, lv, d, f, i, k);
    lemma_step_frames(m, a, m1, a1, a0, cr3, s, lv, d, f, i, k);
    lemma_slots_bound(w);
    let t3 = table_of(e4(m1, cr3, w)) as int;
    let t2 = table_of(e3(m1, cr3, w)) as int;
    let t1 = table_of(e2(m1, cr3, w)) as int;
    lemma_step_mem(m, a, m1, a1, a0, cr3, s, lv, d, f, i, k);
    assert forall|x: int, j: int|
        lv2.dom().contains(x) && lv2[x] >= 2 && 0 <= j < 512 && #[trigger] present(m1.entry(x, j)) implies lv2.dom().contains(
            table_of(m1.entry(x, j)) as int,
        ) && lv2[table_of(m1.entry(x, j)) as int] == lv2[x] - 1 by {
        if on_path(m1, cr3, w, x, j) {
            reveal(tree_mem);
            assert(x != cr3);
            if x == t3 && j == pt_index(w, 30) {
            } else if x == t2 && j == pt_index(w, 21) {
            } else {
                assert(x == t1 && j == pt_index(w, 12));
            }
        } else if lv.dom().contains(x) {
            assert(m1.entry(x, j) == m.entry(x, j));
            reveal(tree_down);
            lemma_tree_frames(m, a, a0, cr3, s, lv, d);
        } else {
            assert(frame_taken(a, a1, x));
            assert(m1.entry(x, j) == 0);
            assert(!present(0u64)) by {
                assert(0u64 & 1u64 == 0u64) by (bit_vector);
            }
        }
    }
    assert(tree_down(m1, lv2)) by {
        reveal(tree_down);
    }
}

/// After a mapping step, a present entry of one of the load's tables that
/// points to an old table of the load is an entry that was there before.
proof fn lemma_step_entry_old(
    m: &PhysMemory,
    a: &BitmapFrameAllocator,
    m1: &PhysMemory,
    a1: &BitmapFrameAllocator,
    a0: &BitmapFrameAllocator,
    cr3: u64,
    s: Seq<u8>,
    lv: Map<int, int>,
    d: Set<int>,
    f: u64,
    i: int,
    k: int,
    x: int,
    j: int,
)
    requires
        map_step(m, a, m1, a1, a0, cr3, s, lv, d, f, i, k),
        step_levels(lv, a, a1, m1, cr3, page_va(s, i, k)).dom().contains(x),
        0 <= j < 512,
        present(m1.entry(x, j)),
        lv.dom().contains(table_of(m1.entry(x, j)) as int),
    ensures
        lv.dom().contains(x),
        m1.entry(x, j) == m.entry(x, j),
{
    let w = page_va(s, i, k);
    let lv2 = step_levels(lv, a, a1, m1, cr3, w);
    lemma_step_walk(m, a, m1, a1, a0, cr3, s, lv, d, f, i, k);
    lemma_step_off_path(m, a, m1, a1, a0, cr3, s, lv, d, f, i, k);
    lemma_step_frames(m, a, m1, a1, a0, cr3, s, lv, d, f, i, k);
    lemma_walk_sound(m, a, a0, cr3, s, lv, d, i, k);
    lemma_tree_frames(m, a, a0, cr3, s, lv, d);
    lemma_slots_bound(w);
    assert(!present(0u64)) by {
        assert(0u64 & 1u64 == 0u64) by (bit_vector);
    }
    let t3 = table_of(e4(m1, cr3, w)) as int;
    let t2 = table_of(e3(m1, cr3, w)) as int;
    let t1 = table_of(e2(m1, cr3, w)) as int;
    assert(walk_effect(m, a, m1, a1, cr3, w));
    lemma_step_mem(m, a, m1, a1, a0, cr3, s, lv, d, f, i, k);
    reveal(tree_frames);
    reveal(tree_mem);
    if on_path(m1, cr3, w, x, j) {
        assert(x != cr3);
        if x == t3 && j == pt_index(w, 30) {
            assert(table_of(m1.entry(x, j)) == t2);
            assert(!frame_taken(a, a1, t2));
            assert(present(e4(m, cr3, w)) && present(e3(m, cr3, w)));
            assert(t3 == table_of(e4(m, cr3, w)));
            assert(lv.dom().contains(t3));
            assert(m.entry(t3, j) == e3(m, cr3, w));
        } else if x == t2 && j == pt_index(w, 21) {
            assert(table_of(m1.entry(x, j)) == t1);
            assert(!frame_taken(a, a1, t1));
            assert(present(e4(m, cr3, w)) && present(e3(m, cr3, w)) && present(e2(m, cr3, w)));
            assert(t2 == table_of(e3(m, cr3, w)));
            assert(lv.dom().contains(t2));
            assert(m.entry(t2, j) == e2(m, cr3, w));
        } else {
            assert(x == t1 && j == pt_index(w, 12));
            assert(m1.entry(x, j) == e1(m1, cr3, w));
            assert(table_of(m1.entry(x, j)) == f);
        }
    } else if !lv.dom().contains(x) {
        assert(frame_taken(a, a1, x));
        assert(m1.entry(x, j) == 0);
    }
}

/// After a mapping step, no two present entries of the load's tables
/// point to the same table.
pub proof fn lemma_step_unique(
    m: &PhysMemory,
    a: &BitmapFrameAllocator,
    m1: &PhysMemory,
    a1: &BitmapFrameAllocator,
    a0: &BitmapFrameAllocator,
    cr3: u64,
    s: Seq<u8>,
    lv: Map<int, int>,
    d: Set<int>,
    f: u64,
    i: int,
    k: int,
)
    requires
        map_step(m, a, m1, a1, a0, cr3, s, lv, d, f, i, k),
    ensures
        tree_unique(m1, step_levels(lv, a, a1, m1, cr3, page_va(s, i, k))),
{
    let w = page_va(s, i, k);
    let lv2 = step_levels(lv, a, a1, m1, cr3, w);
    lemma_step_walk(m, a, m1, a1, a0, cr3, s, lv, d, f, i, k);
    lemma_slots_bound(w);
    let t3 = table_of(e4(m1, cr3, w)) as int;
    let t2 = table_of(e3(m1, cr3, w)) as int;
    let t1 = table_of(e2(m1, cr3, w)) as int;
    assert forall|x1: int, j1: int, x2: int, j2: int|
        lv2.dom().contains(x1) && lv2.dom().contains(x2) && lv2[x1] >= 2 && lv2[x2] >= 2 && 0 <= j1 < 512 && 0 <= j2
            < 512 && present(#[trigger] m1.entry(x1, j1)) && present(#[trigger] m1.entry(x2, j2)) && table_of(
            m1.entry(x1, j1),
        ) == table_of(m1.entry(x2, j2)) && lv2.dom().contains(table_of(m1.entry(x1, j1)) as int) implies x1 == x2
            && j1 == j2 by {
        let y = table_of(m1.entry(x1, j1)) as int;
        if lv.dom().contains(y) {
            lemma_step_entry_old(m, a, m1, a1, a0, cr3, s, lv, d, f, i, k, x1, j1);
            lemma_step_entry_old(m, a, m1, a1, a0, cr3, s, lv, d, f, i, k, x2, j2);
            reveal(tree_unique);
            assert(m.entry(x1, j1) == m1.entry(x1, j1));
            assert(m.entry(x2, j2) == m1.entry(x2, j2));
        } else {
            // `y` is a table the step took: only the walk points to it.
            assert(frame_taken(a, a1, y));
            lemma_step_new_parent(m, a, m1, a1, a0, cr3, s, lv, d, f, i, k, x1, j1);
            lemma_step_new_parent(m, a, m1, a1, a0, cr3, s, lv, d, f, i, k, x2, j2);
        }
    }
    assert(tree_unique(m1, lv2)) by {
        reveal(tree_unique);
    }
}

/// After a mapping step, an entry of one of the load's tables that points to
/// a table the step took is the walk's entry above that table.
proof fn lemma_step_new_parent(
    m: &PhysMemory,
    a: &BitmapFrameAllocator,
    m1: &PhysMemory,
    a1: &BitmapFrameAllocator,
    a0: &BitmapFrameAllocator,
    cr3: u64,
    s: Seq<u8>,
    lv: Map<int, int>,
    d: Set<int>,
    f: u64,
    i: int,
    k: int,
    x: int,
    j: int,
)
    requires
        map_step(m, a, m1, a1, a0, cr3, s, lv, d, f, i, k),
        step_levels(lv, a, a1, m1, cr3, page_va(s, i, k)).dom().contains(x),
        step_levels(lv, a, a1, m1, cr3, page_va(s, i, k))[x] >= 2,
        0 <= j < 512,
        present(m1.entry(x, j)),
        frame_taken(a, a1, table_of(m1.entry(x, j)) as int),
    ensures
        ({
            let w = page_va(s, i, k);
            let y = table_of(m1.entry(x, j)) as int;
            &&& y == table_of(e3(m1, cr3, w)) ==> x == table_of(e4(m1, cr3, w)) && j == pt_index(w, 30)
            &&& y == table_of(e2(m1, cr3, w)) ==> x == table_of(e3(m1, cr3, w)) && j == pt_index(w, 21)
            &&& y != table_of(e4(m1, cr3, w))
        }),
{
    let w = page_va(s, i, k);
    let lv2 = step_levels(lv, a, a1, m1, cr3, w);
    lemma_step_walk(m, a, m1, a1, a0, cr3, s, lv, d, f, i, k);
    lemma_step_off_path(m, a, m1, a1, a0, cr3, s, lv, d, f, i, k);
    lemma_step_frames(m, a, m1, a1, a0, cr3, s, lv, d, f, i, k);
    lemma_step_down(m, a, m1, a1, a0, cr3, s, lv, d, f, i, k);
    lemma_tree_frames(m, a, a0, cr3, s, lv, d);
    lemma_slots_bound(w);
    assert(!present(0u64)) by {
        assert(0u64 & 1u64 == 0u64) by (bit_vector);
    }
    let t3 = table_of(e4(m1, cr3, w)) as int;
    let t2 = table_of(e3(m1, cr3, w)) as int;
    let t1 = table_of(e2(m1, cr3, w)) as int;
    let y = table_of(m1.entry(x, j)) as int;
    lemma_step_mem(m, a, m1, a1, a0, cr3, s, lv, d, f, i, k);
    reveal(tree_frames);
    reveal(tree_mem);
    reveal(tree_down);
    if !on_path(m1, cr3, w, x, j) {
        if lv.dom().contains(x) {
            assert(m1.entry(x, j) == m.entry(x, j));
            lemma_tree_frames(m, a, a0, cr3, s, lv, d);
            assert(present(m.entry(x, j)));
            // An old entry of a level-3 or level-2 table points to an old
            // table, in use before the step.
            assert(lv.dom().contains(y));
            assert(!frame_free(a, y));
        } else {
            assert(m1.entry(x, j) == 0);
        }
    } else {
        assert(x != cr3);
        assert(lv2[y] == lv2[x] - 1);
    }
}

/// A mapping step keeps the tables a tree.
pub proof fn lemma_step_tree(
    m: &PhysMemory,
    a: &BitmapFrameAllocator,
    m1: &PhysMemory,
    a1: &BitmapFrameAllocator,
    a0: &BitmapFrameAllocator,
    cr3: u64,
    s: Seq<u8>,
    lv: Map<int, int>,
    d: Set<int>,
    f: u64,
    i: int,
    k: int,
)
    requires
        map_step(m, a, m1, a1, a0, cr3, s, lv, d, f, i, k),
    ensures
        tree_ok(m1, a1, a0, cr3, s, step_levels(lv, a, a1, m1, cr3, page_va(s, i, k)), d.insert(f as int)),
{
    lemma_step_frames(m, a, m1, a1, a0, cr3, s, lv, d, f, i, k);
    lemma_step_mem(m, a, m1, a1, a0, cr3, s, lv, d, f, i, k);
    lemma_step_top(m, a, m1, a1, a0, cr3, s, lv, d, f, i, k);
    lemma_step_down(m, a, m1, a1, a0, cr3, s, lv, d, f, i, k);
    lemma_step_unique(m, a, m1, a1, a0, cr3, s, lv, d, f, i, k);
}

/// Two image pages whose walks through the load's tables end in the same
/// level-1 table and slot use the same slots at every level.
proof fn lemma_shared_leaf_table(
    m1: &PhysMemory,
    cr3: u64,
    s: Seq<u8>,
    lv2: Map<int, int>,
    i2: int,
    k2: int,
    i: int,
    k: int,
)
    requires
        tree_unique(m1, lv2),
        tree_top_unique(m1, cr3, s),
        image_page(s, i2, k2),
        image_page(s, i, k),
        ({
            let v = page_va(s, i2, k2);
            let w = page_va(s, i, k);
            &&& present(e4(m1, cr3, v)) && present(e3(m1, cr3, v)) && present(e2(m1, cr3, v))
            &&& present(e4(m1, cr3, w)) && present(e3(m1, cr3, w)) && present(e2(m1, cr3, w))
            &&& lv2.dom().contains(table_of(e4(m1, cr3, v)) as int) && lv2[table_of(e4(m1, cr3, v)) as int] == 3
            &&& lv2.dom().contains(table_of(e4(m1, cr3, w)) as int) && lv2[table_of(e4(m1, cr3, w)) as int] == 3
            &&& lv2.dom().contains(table_of(e3(m1, cr3, v)) as int) && lv2[table_of(e3(m1, cr3, v)) as int] == 2
            &&& lv2.dom().contains(table_of(e3(m1, cr3, w)) as int) && lv2[table_of(e3(m1, cr3, w)) as int] == 2
            &&& lv2.dom().contains(table_of(e2(m1, cr3, v)) as int)
            &&& table_of(e2(m1, cr3, v)) == table_of(e2(m1, cr3, w))
            &&& pt_index(v, 12) == pt_index(w, 12)
        }),
    ensures
        same_slots(page_va(s, i2, k2), page_va(s, i, k)),
{
    let v = page_va(s, i2, k2);
    let w = page_va(s, i, k);
    lemma_slots_bound(v);
    lemma_slots_bound(w);
    let v3 = table_of(e4(m1, cr3, v)) as int;
    let v2 = table_of(e3(m1, cr3, v)) as int;
    let t3 = table_of(e4(m1, cr3, w)) as int;
    let t2 = table_of(e3(m1, cr3, w)) as int;
    assert(v2 == t2 && pt_index(v, 21) == pt_index(w, 21)) by {
        reveal(tree_unique);
        assert(present(m1.entry(v2, pt_index(v, 21))));
        assert(present(m1.entry(t2, pt_index(w, 21))));
    }
    assert(v3 == t3 && pt_index(v, 30) == pt_index(w, 30)) by {
        reveal(tree_unique);
        assert(present(m1.entry(v3, pt_index(v, 30))));
        assert(present(m1.entry(t3, pt_index(w, 30))));
    }
    assert(pt_index(v, 39) == pt_index(w, 39)) by {
        reveal(tree_top_unique);
    }
}

/// A mapping step keeps the walk of another loaded page.
#[verifier::rlimit(100)]
#[verifier::spinoff_prover]
proof fn lemma_step_keeps_walk(
    m: &PhysMemory,
    a: &BitmapFrameAllocator,
    m1: &PhysMemory,
    a1: &BitmapFrameAllocator,
    a0: &BitmapFrameAllocator,
    cr3: u64,
    s: Seq<u8>,
    lv: Map<int, int>,
    d: Set<int>,
    f: u64,
    i: int,
    k: int,
    i2: int,
    k2: int,
)
    requires
        map_step(m, a, m1, a1, a0, cr3, s, lv, d, f, i, k),
        image_page(s, i2, k2),
        leaf(m, cr3, page_va(s, i2, k2)) is Some,
        !same_slots(page_va(s, i2, k2), page_va(s, i, k)),
    ensures
        leaf(m1, cr3, page_va(s, i2, k2)) == leaf(m, cr3, page_va(s, i2, k2)),
{
    let w = page_va(s, i, k);
    let lv2 = step_levels(lv, a, a1, m1, cr3, w);
    let v = page_va(s, i2, k2);
    lemma_slots_bound(v);
    lemma_slots_bound(w);
    let t3 = table_of(e4(m1, cr3, w)) as int;
    let t2 = table_of(e3(m1, cr3, w)) as int;
    let t1 = table_of(e2(m1, cr3, w)) as int;
    let v3 = table_of(e4(m, cr3, v)) as int;
    let v2 = table_of(e3(m, cr3, v)) as int;
    let v1 = table_of(e2(m, cr3, v)) as int;
    assert(lv.dom().contains(v3) && lv[v3] == 3 && lv.dom().contains(v2) && lv[v2] == 2 && lv.dom().contains(v1)
        && lv[v1] == 1) by {
        reveal(tree_top);
        reveal(tree_down);
        assert(present(m.entry(v3, pt_index(v, 30))));
        assert(present(m.entry(v2, pt_index(v, 21))));
    }
    assert(m.frame_in(v3) && m.frame_in(v2) && m.frame_in(v1) && !frame_free(a, v3) && !frame_free(a, v2)
        && !frame_free(a, v1) && m.frame_in(cr3 as int) && !frame_free(a, cr3 as int)) by {
        reveal(tree_mem);
        reveal(tree_frames);
    }
    lemma_step_walk(m, a, m1, a1, a0, cr3, s, lv, d, f, i, k);
    assert(walk_effect(m, a, m1, a1, cr3, w));
    assert(lv2[v3] == 3 && lv2[v2] == 2 && lv2[t1] == 1 && t1 != cr3);
    assert(m1.entry(cr3 as int, pt_index(v, 39)) == m.entry(cr3 as int, pt_index(v, 39)));
    assert(m1.entry(v3, pt_index(v, 30)) == m.entry(v3, pt_index(v, 30)));
    assert(m1.entry(v2, pt_index(v, 21)) == m.entry(v2, pt_index(v, 21)));
    if v1 == t1 && pt_index(v, 12) == pt_index(w, 12) {
        lemma_step_unique(m, a, m1, a1, a0, cr3, s, lv, d, f, i, k);
        lemma_step_top(m, a, m1, a1, a0, cr3, s, lv, d, f, i, k);
        assert(e4(m1, cr3, v) == e4(m, cr3, v));
        assert(e3(m1, cr3, v) == e3(m, cr3, v));
        assert(e2(m1, cr3, v) == e2(m, cr3, v));
        lemma_shared_leaf_table(m1, cr3, s, lv2, i2, k2, i, k);
    }
    assert(lv2[v1] == 1 && lv2[t3] == 3 && lv2[t2] == 2 && v1 != cr3) by {
        reveal(tree_mem);
    }
    assert(!on_path(m1, cr3, w, v1, pt_index(v, 12)));
    assert(m1.entry(v1, pt_index(v, 12)) == m.entry(v1, pt_index(v, 12)));
}

/// A mapping step keeps another loaded page loaded.
proof fn lemma_step_keeps_page(
    m: &PhysMemory,
    a: &BitmapFrameAllocator,
    m1: &PhysMemory,
    a1: &BitmapFrameAllocator,
    a0: &BitmapFrameAllocator,
    cr3: u64,
    s: Seq<u8>,
    lv: Map<int, int>,
    d: Set<int>,
    f: u64,
    i: int,
    k: int,
    i2: int,
    k2: int,
)
    requires
        map_step(m, a, m1, a1, a0, cr3, s, lv, d, f, i, k),
        image_page(s, i2, k2),
        loaded_in(m, cr3, s, d, i2, k2),
        !same_slots(page_va(s, i2, k2), page_va(s, i, k)),
    ensures
        loaded_in(m1, cr3, s, d.insert(f as int), i2, k2),
        table_of(leaf(m1, cr3, page_va(s, i2, k2))->0) != f,
{
    let v = page_va(s, i2, k2);
    lemma_step_keeps_walk(m, a, m1, a1, a0, cr3, s, lv, d, f, i, k, i2, k2);
    lemma_step_off_path(m, a, m1, a1, a0, cr3, s, lv, d, f, i, k);
    let fv = table_of(leaf(m, cr3, v)->0) as int;
    assert(d.contains(fv));
    assert(forall|j: int| 0 <= j < 512 ==> #[trigger] m1.entry(fv, j) == m.entry(fv, j));
    assert(m1.spec_base() == m.spec_base() && m1.spec_words().len() == m.spec_words().len());
    lemma_frame_bytes_same(m, m1, fv);
    assert(fv != f);
}

/// A mapping step keeps every loaded page whose slots it does not use
/// loaded, maps its own page to `f`, and leaves `f` zero.
pub proof fn lemma_step_loaded(
    m: &PhysMemory,
    a: &BitmapFrameAllocator,
    m1: &PhysMemory,
    a1: &BitmapFrameAllocator,
    a0: &BitmapFrameAllocator,
    cr3: u64,
    s: Seq<u8>,
    lv: Map<int, int>,
    d: Set<int>,
    f: u64,
    i: int,
    k: int,
)
    requires
        map_step(m, a, m1, a1, a0, cr3, s, lv, d, f, i, k),
    ensures
        forall|i2: int, k2: int|
            image_page(s, i2, k2) && #[trigger] loaded_in(m, cr3, s, d, i2, k2) && !same_slots(
                page_va(s, i2, k2),
                page_va(s, i, k),
            ) ==> loaded_in(m1, cr3, s, d.insert(f as int), i2, k2) && table_of(leaf(m1, cr3, page_va(s, i2, k2))->0)
                != f,
        leaf(m1, cr3, page_va(s, i, k)) == Some(f | leaf_flags(seg_writable(s, i), true, true)),
        table_of(f | leaf_flags(seg_writable(s, i), true, true)) == f,
        forall|j: int| 0 <= j < 512 ==> #[trigger] m1.entry(f as int, j) == 0,
{
    lemma_step_walk(m, a, m1, a1, a0, cr3, s, lv, d, f, i, k);
    lemma_step_off_path(m, a, m1, a1, a0, cr3, s, lv, d, f, i, k);
    assert forall|i2: int, k2: int|
        image_page(s, i2, k2) && #[trigger] loaded_in(m, cr3, s, d, i2, k2) && !same_slots(
            page_va(s, i2, k2),
            page_va(s, i, k),
        ) implies loaded_in(m1, cr3, s, d.insert(f as int), i2, k2) && table_of(leaf(m1, cr3, page_va(s, i2, k2))->0)
        != f by {
        lemma_step_keeps_page(m, a, m1, a1, a0, cr3, s, lv, d, f, i, k, i2, k2);
    }
}

/// Sound tables give a starting tree for the load.
pub proof fn lemma_tree_start(m: &PhysMemory, a: &BitmapFrameAllocator, cr3: u64, s: Seq<u8>) -> (lv: Map<int, int>)
    requires
        load_hyp(s, m, a, cr3),
    ensures
        tree_ok(m, a, a, cr3, s, lv, Set::empty()),
{
    choose|lv: Map<int, int>| tree_ok(m, a, a, cr3, s, lv, Set::empty())
}

/// Taking a frame from the allocator keeps the tables' frames in use.
pub proof fn lemma_tree_frames_grow(
    a1: &BitmapFrameAllocator,
    a2: &BitmapFrameAllocator,
    a0: &BitmapFrameAllocator,
    lv: Map<int, int>,
    d: Set<int>,
    q: int,
)
    requires
        tree_frames(a1, a0, lv, d),
        a2.spec_base() == a1.spec_base(),
        a2.spec_frames() == a1.spec_frames(),
        0 <= q < a1.spec_frames(),
        a2.used() == a1.used().update(q, true),
    ensures
        tree_frames(a2, a0, lv, d),
        forall|x: int| !frame_free(a1, x) ==> !frame_free(a2, x),
{
    assert forall|x: int| !frame_free(a1, x) implies !frame_free(a2, x) by {
        if a1.spec_base() <= x < a1.spec_base() + a1.spec_frames() * 4096 {
            let r = (x - a1.spec_base()) / 4096;
            assert(0 <= r < a1.spec_frames()) by (nonlinear_arith)
                requires
                    a1.spec_base() <= x < a1.spec_base() + a1.spec_frames() * 4096,
                    r == (x - a1.spec_base()) / 4096,
            ;
            assert(a1.used()[r]);
            if r == q {
            } else {
                assert(a2.used()[r] == a1.used()[r]);
            }
        }
    }
    reveal(tree_frames);
}

/// Writing a byte of frame `g` changes no entry of another frame.
pub proof fn lemma_byte_write_entries(m1: &PhysMemory, m2: &PhysMemory, g: int, t: int)
    requires
        m1.frame_in(g),
        m1.spec_base() % 4096 == 0,
        0 <= t < 4096,
        m2.spec_base() == m1.spec_base(),
        m2.spec_words().len() == m1.spec_words().len(),
        forall|q: int|
            0 <= q < m1.spec_words().len() && q != (g + t - m1.spec_base()) / 8 ==> #[trigger] m2.spec_words()[q]
                == m1.spec_words()[q],
    ensures
        forall|x: int, j: int| m1.frame_in(x) && 0 <= j < 512 && x != g ==> #[trigger] m2.entry(x, j) == m1.entry(x, j),
{
    let b = m1.spec_base() as int;
    assert((g + t - b) / 8 == (g - b) / 8 + t / 8) by (nonlinear_arith)
        requires
            g % 4096 == 0,
            b % 4096 == 0,
            g >= b,
            0 <= t < 4096,
    ;
    assert forall|x: int, j: int| m1.frame_in(x) && 0 <= j < 512 && x != g implies #[trigger] m2.entry(x, j) == m1.entry(x, j) by {
        lemma_entry_words(m1, x, j, g, t / 8);
    }
}

/// Taking a zeroed data frame keeps the load's tables and loaded pages, and
/// prepares the mapping step.
pub proof fn after_alloc(
    m_pre: &PhysMemory,
    a_pre: &BitmapFrameAllocator,
    m_mid: &PhysMemory,
    a_mid: &BitmapFrameAllocator,
    a0: &BitmapFrameAllocator,
    cr3: u64,
    s: Seq<u8>,
    lv: Map<int, int>,
    d: Set<int>,
    page: u64,
    i: int,
    k: int,
)
    requires
        tree_ok(m_pre, a_pre, a0, cr3, s, lv, d),
        alloc_fits(m_pre, a_pre),
        a_pre.spec_base() == a0.spec_base(),
        a_pre.spec_frames() == a0.spec_frames(),
        a_mid.spec_base() == a0.spec_base(),
        a_mid.spec_frames() == a0.spec_frames(),
        m_pre.frame_in(cr3 as int),
        m_pre.spec_base() % 4096 == 0,
        !frame_free(a_pre, cr3 as int),
        forall|x: int| #[trigger] frame_free(a_pre, x) ==> frame_free(a0, x),
        loaded_upto(m_pre, cr3, s, d, i, k),
        frame_free(a_pre, page as int),
        page % 4096 == 0,
        a_mid.used() == a_pre.used().update((page - a_pre.spec_base()) / 4096, true),
        m_mid.spec_base() == m_pre.spec_base(),
        m_mid.spec_words().len() == m_pre.spec_words().len(),
        forall|j: int| 0 <= j < 512 ==> #[trigger] m_mid.entry(page as int, j) == 0,
        forall|x: int, j: int|
            m_pre.frame_in(x) && 0 <= j < 512 && x != page ==> #[trigger] m_mid.entry(x, j) == m_pre.entry(x, j),
    ensures
        tree_ok(m_mid, a_mid, a0, cr3, s, lv, d),
        !frame_free(a_mid, cr3 as int),
        forall|x: int| #[trigger] frame_free(a_mid, x) ==> frame_free(a0, x),
        frame_taken(a0, a_mid, page as int),
        !lv.dom().contains(page as int),
        !d.contains(page as int),
        loaded_upto(m_mid, cr3, s, d, i, k),
{
    let q = (page - a_pre.spec_base()) / 4096;
    assert(0 <= q < a_pre.spec_frames()) by (nonlinear_arith)
        requires
            a_pre.spec_base() <= page < a_pre.spec_base() + a_pre.spec_frames() * 4096,
            q == (page - a_pre.spec_base()) / 4096,
    ;
    lemma_tree_frames(m_pre, a_pre, a0, cr3, s, lv, d);
    lemma_tree_frames_grow(a_pre, a_mid, a0, lv, d, q);
    assert(!frame_free(a_mid, page as int)) by {
        assert(a_mid.used()[q]);
    }
    assert(tree_ok(m_pre, a_mid, a0, cr3, s, lv, d));
    lemma_tree_other_frame(m_pre, m_mid, a_mid, a0, cr3, s, lv, d, page as int);
    assert forall|x: int| #[trigger] frame_free(a_mid, x) implies frame_free(a0, x) by {
        if !frame_free(a_pre, x) {
        }
    }
    assert forall|i2: int, k2: int|
        image_page(s, i2, k2) && done_before(i2, k2, i, k) && last_upto(s, i2, k2, i, k) implies #[trigger] loaded_in(
            m_mid,
            cr3,
            s,
            d,
            i2,
            k2,
        ) by {
        assert(loaded_in(m_pre, cr3, s, d, i2, k2));
        let fv = table_of(leaf(m_pre, cr3, page_va(s, i2, k2))->0) as int;
        assert(d.contains(fv));
        assert(!frame_free(a_pre, fv));
    }
}

/// Every image page loaded before page `k` of load header `i` that neither
/// a later page before it nor that page overwrote is loaded, with its data
/// frame in `d` and other than `page`.
pub open spec fn loaded_before(m: &PhysMemory, cr3: u64, s: Seq<u8>, d: Set<int>, i: int, k: int, page: u64) -> bool {
    forall|i2: int, k2: int|
        image_page(s, i2, k2) && done_before(i2, k2, i, k) && last_upto(s, i2, k2, i, k + 1) ==> #[trigger] loaded_in(
            m,
            cr3,
            s,
            d,
            i2,
            k2,
        ) && table_of(leaf(m, cr3, page_va(s, i2, k2))->0) != page
}

/// Filling the new page's frame keeps the load's tables and loaded pages,
/// and loads the new page.
pub proof fn after_copy(
    m_map: &PhysMemory,
    m_c: &PhysMemory,
    a: &BitmapFrameAllocator,
    a0: &BitmapFrameAllocator,
    cr3: u64,
    s: Seq<u8>,
    lv: Map<int, int>,
    d: Set<int>,
    page: u64,
    i: int,
    k: int,
)
    requires
        tree_ok(m_map, a, a0, cr3, s, lv, d),
        alloc_fits(m_map, a),
        a.spec_base() == a0.spec_base(),
        a.spec_frames() == a0.spec_frames(),
        m_map.frame_in(cr3 as int),
        m_map.spec_base() % 4096 == 0,
        !frame_free(a0, cr3 as int),
        d.contains(page as int),
        image_page(s, i, k),
        leaf(m_map, cr3, page_va(s, i, k)) == Some(page | leaf_flags(seg_writable(s, i), true, true)),
        table_of(page | leaf_flags(seg_writable(s, i), true, true)) == page,
        loaded_before(m_map, cr3, s, d, i, k, page),
        m_c.spec_base() == m_map.spec_base(),
        m_c.spec_words().len() == m_map.spec_words().len(),
        forall|x: int, j: int| m_map.frame_in(x) && 0 <= j < 512 && x != page ==> #[trigger] m_c.entry(x, j) == m_map.entry(x, j),
        forall|t: int| 0 <= t < 4096 ==> #[trigger] m_c.byte_at(page + t) == page_byte(s, i, k, t),
    ensures
        tree_ok(m_c, a, a0, cr3, s, lv, d),
        loaded_upto(m_c, cr3, s, d, i, k + 1),
{
    lemma_tree_frames(m_map, a, a0, cr3, s, lv, d);
    lemma_taken_in_mem(m_map, a, a0, page as int);
    assert(page != cr3);
    assert(!lv.dom().contains(page as int));
    lemma_tree_other_frame(m_map, m_c, a, a0, cr3, s, lv, d, page as int);
    assert forall|i2: int, k2: int|
        image_page(s, i2, k2) && done_before(i2, k2, i, k + 1) && last_upto(s, i2, k2, i, k + 1) implies #[trigger] loaded_in(
            m_c,
            cr3,
            s,
            d,
            i2,
            k2,
        ) by {
        if i2 == i && k2 == k {
            assert(leaf(m_c, cr3, page_va(s, i, k)) == leaf(m_map, cr3, page_va(s, i, k)));
        } else {
            assert(done_before(i2, k2, i, k));
            assert(loaded_in(m_map, cr3, s, d, i2, k2));
        }
    }
}

/// What a successful mapping step of the load leaves (see `map_step`).
pub proof fn lemma_map_data(
    m: &PhysMemory,
    a: &BitmapFrameAllocator,
    m1: &PhysMemory,
    a1: &BitmapFrameAllocator,
    a0: &BitmapFrameAllocator,
    cr3: u64,
    s: Seq<u8>,
    lv: Map<int, int>,
    d: Set<int>,
    page: u64,
    i: int,
    k: int,
)
    requires
        map_step(m, a, m1, a1, a0, cr3, s, lv, d, page, i, k),
        loaded_upto(m, cr3, s, d, i, k),
    ensures
        tree_ok(m1, a1, a0, cr3, s, step_levels(lv, a, a1, m1, cr3, page_va(s, i, k)), d.insert(page as int)),
        !frame_free(a1, cr3 as int),
        forall|x: int| #[trigger] frame_free(a1, x) ==> frame_free(a0, x),
        leaf(m1, cr3, page_va(s, i, k)) == Some(page | leaf_flags(seg_writable(s, i), true, true)),
        table_of(page | leaf_flags(seg_writable(s, i), true, true)) == page,
        m1.frame_in(page as int),
        forall|t: int| 0 <= t < 4096 ==> #[trigger] m1.byte_at(page + t) == 0,
        loaded_before(m1, cr3, s, d.insert(page as int), i, k, page),
{
    lemma_step_tree(m, a, m1, a1, a0, cr3, s, lv, d, page, i, k);
    lemma_step_loaded(m, a, m1, a1, a0, cr3, s, lv, d, page, i, k);
    lemma_step_frames(m, a, m1, a1, a0, cr3, s, lv, d, page, i, k);
    lemma_taken_in_mem(m, a, a0, page as int);
    assert(m1.spec_base() == m.spec_base());
    lemma_frame_bytes_zero(m1, page as int);
    let d2 = d.insert(page as int);
    assert forall|i2: int, k2: int|
        image_page(s, i2, k2) && done_before(i2, k2, i, k) && last_upto(s, i2, k2, i, k + 1) implies #[trigger] loaded_in(
            m1,
            cr3,
            s,
            d2,
            i2,
            k2,
        ) && table_of(leaf(m1, cr3, page_va(s, i2, k2))->0) != page by {
        assert(image_page(s, i, k));
        assert(later(i2, k2, i, k) && done_before(i, k, i, k + 1));
        assert(!same_slots(page_va(s, i2, k2), page_va(s, i, k)));
        assert(last_upto(s, i2, k2, i, k));
        assert(loaded_in(m, cr3, s, d, i2, k2));
    }
}

/// Moving the loading position past the rest of header `i`'s pages.
pub proof fn lemma_upto_next(m: &PhysMemory, cr3: u64, s: Seq<u8>, d: Set<int>, i: int, bk: int)
    requires
        loaded_upto(m, cr3, s, d, i, bk),
        forall|k2: int| #[trigger] image_page(s, i, k2) ==> k2 < bk,
        0 <= bk,
    ensures
        loaded_upto(m, cr3, s, d, i + 1, 0),
{
    assert forall|i2: int, k2: int|
        image_page(s, i2, k2) && done_before(i2, k2, i + 1, 0) && last_upto(s, i2, k2, i + 1, 0) implies #[trigger] loaded_in(
            m,
            cr3,
            s,
            d,
            i2,
            k2,
        ) by {
        assert(k2 >= 0);
        assert(done_before(i2, k2, i, bk));
        assert forall|i3: int, k3: int|
            #[trigger] image_page(s, i3, k3) && later(i2, k2, i3, k3) && done_before(i3, k3, i, bk) implies !same_slots(
            page_va(s, i2, k2),
            page_va(s, i3, k3),
        ) by {
            assert(k3 >= 0);
            assert(done_before(i3, k3, i + 1, 0));
        }
    }
}

/// Every image page that no later page overwrote is loaded (see
/// `page_loaded`).
pub open spec fn image_loaded(m: &PhysMemory, cr3: u64, s: Seq<u8>) -> bool {
    forall|i: int, k: int|
        image_page(s, i, k) && (forall|i2: int, k2: int|
            #[trigger] image_page(s, i2, k2) && later(i, k, i2, k2) ==> !same_slots(page_va(s, i, k), page_va(s, i2, k2)))
            ==> #[trigger] page_loaded(m, cr3, s, i, k)
}

/// Once every header is loaded, so is the image.
pub proof fn lemma_image_done(m: &PhysMemory, cr3: u64, s: Seq<u8>, d: Set<int>)
    requires
        loaded_upto(m, cr3, s, d, le16(s, 56), 0),
    ensures
        image_loaded(m, cr3, s),
{
    let n = le16(s, 56);
    assert forall|i: int, k: int|
        image_page(s, i, k) && (forall|i2: int, k2: int|
            #[trigger] image_page(s, i2, k2) && later(i, k, i2, k2) ==> !same_slots(page_va(s, i, k), page_va(s, i2, k2)))
            implies #[trigger] page_loaded(m, cr3, s, i, k) by {
        assert(done_before(i, k, n, 0));
        assert(last_upto(s, i, k, n, 0));
        assert(loaded_in(m, cr3, s, d, i, k));
    }
}

} // verus!
