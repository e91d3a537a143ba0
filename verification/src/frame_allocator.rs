//! Bitmap physical frame allocator for 4 KiB frames.
//!
//! The allocator covers the largest usable span of the boot memory map.
//! Bit `i` of the bitmap is set when frame `i` of that span is in use.
use vstd::prelude::*;
use vstd::std_specs::bits::axiom_u64_trailing_zeros;

verus! {

pub const FRAME_SIZE: u64 = 4096;

/// A physical 4 KiB frame.
#[derive(Clone, Copy, Debug)]
pub struct Frame {
    pub phys: u64,
}

/// One entry of the boot memory map, as the allocator reads it.
#[derive(Clone, Copy, Debug)]
pub struct MemoryRegion {
    pub base: u64,
    pub length: u64,
    pub usable: bool,
}

pub struct BitmapFrameAllocator {
    base: u64,
    frames: u64,
    bitmap: Vec<u64>,
}

/// Bit `b` of word `w`.
pub open spec fn bit_of(w: u64, b: u64) -> bool {
    (w >> b) & 1u64 == 1u64
}

/// Bit `i` of a bitmap made of 64-bit words.
pub open spec fn bitmap_bit(bm: Seq<u64>, i: int) -> bool {
    bit_of(bm[i / 64], (i % 64) as u64)
}

/// The smallest multiple of 4096 that is not below `x`.
pub open spec fn align_up_spec(x: int) -> int {
    ((x + 4095) / 4096) * 4096
}

/// The 4 KiB-aligned page that frame `i` of a span starting at `span_base` stands for.
pub open spec fn frame_page(span_base: int, i: int) -> int {
    align_up_spec(span_base + i * 4096)
}

/// Region `e` covers the whole aligned page at `p`, and that page lies inside the span.
pub open spec fn covers_page(e: MemoryRegion, span_base: int, span_len: int, p: int) -> bool {
    &&& e.usable
    &&& p % 4096 == 0
    &&& e.base <= p
    &&& span_base <= p
    &&& p + 4096 <= e.base + e.length
    &&& p + 4096 <= span_base + span_len
}

/// Some region among the first `n` covers page `p` of the span.
pub open spec fn covered_by_prefix(
    s: Seq<MemoryRegion>,
    n: int,
    span_base: int,
    span_len: int,
    p: int,
) -> bool
    decreases n,
{
    if n <= 0 {
        false
    } else {
        covered_by_prefix(s, n - 1, span_base, span_len, p) || covers_page(
            s[n - 1],
            span_base,
            span_len,
            p,
        )
    }
}

/// The first usable region of greatest length among the first `n` entries,
/// as `(base, length)`; `(0, 0)` when there is none.
pub open spec fn largest_usable(s: Seq<MemoryRegion>, n: int) -> (int, int)
    decreases n,
{
    if n <= 0 {
        (0, 0)
    } else {
        let prev = largest_usable(s, n - 1);
        let e = s[n - 1];
        if e.usable && e.length > prev.1 {
            (e.base as int, e.length as int)
        } else {
            prev
        }
    }
}

/// The memory map respects the limits that address arithmetic on it needs.
pub open spec fn regions_in_range(s: Seq<MemoryRegion>) -> bool {
    forall|k: int|
        0 <= k < s.len() && (#[trigger] s[k]).usable ==> s[k].base + s[k].length + FRAME_SIZE
            <= u64::MAX
}

proof fn lemma_bit_set(w: u64, b: u64, c: u64)
    requires
        b < 64,
        c < 64,
    ensures
        bit_of(w | (1u64 << b), c) == (c == b || bit_of(w, c)),
{
    assert(((w | (1u64 << b)) >> c) & 1u64 == 1u64 <==> (c == b || (w >> c) & 1u64 == 1u64))
        by (bit_vector)
        requires
            b < 64,
            c < 64,
    ;
}

proof fn lemma_bit_clear(w: u64, b: u64, c: u64)
    requires
        b < 64,
        c < 64,
    ensures
        bit_of(w & !(1u64 << b), c) == (c != b && bit_of(w, c)),
{
    assert(((w & !(1u64 << b)) >> c) & 1u64 == 1u64 <==> (c != b && (w >> c) & 1u64 == 1u64))
        by (bit_vector)
        requires
            b < 64,
            c < 64,
    ;
}

proof fn lemma_full_word(c: u64)
    requires
        c < 64,
    ensures
        bit_of(0xFFFF_FFFF_FFFF_FFFFu64, c),
{
    assert((0xFFFF_FFFF_FFFF_FFFFu64 >> c) & 1u64 == 1u64) by (bit_vector)
        requires
            c < 64,
    ;
}

proof fn lemma_not_bit(w: u64, c: u64)
    requires
        c < 64,
    ensures
        bit_of(!w, c) == !bit_of(w, c),
{
    assert(((!w) >> c) & 1u64 == 1u64 <==> !((w >> c) & 1u64 == 1u64)) by (bit_vector)
        requires
            c < 64,
    ;
}

proof fn lemma_not_zero(w: u64)
    requires
        w != 0xFFFF_FFFF_FFFF_FFFFu64,
    ensures
        !w != 0,
{
    assert(w != 0xFFFF_FFFF_FFFF_FFFFu64 ==> !w != 0u64) by (bit_vector);
}

/// Rounds `x` up to the next multiple of `a` (a power of two).
fn align_up(x: u64, a: u64) -> (r: u64)
    requires
        a == FRAME_SIZE,
        x + 4095 <= u64::MAX,
    ensures
        r == align_up_spec(x as int),
{
    let y = x + (a - 1);
    assert((y & !4095u64) == (y / 4096u64) * 4096u64) by (bit_vector);
    y & !(a - 1)
}

proof fn lemma_align_up(x: int)
    requires
        x >= 0,
    ensures
        align_up_spec(x) % 4096 == 0,
        x <= align_up_spec(x) < x + 4096,
{
    assert(align_up_spec(x) % 4096 == 0) by (nonlinear_arith);
    assert(x <= align_up_spec(x) < x + 4096) by (nonlinear_arith);
}

proof fn lemma_align_up_min(x: int, p: int)
    requires
        p % 4096 == 0,
        0 <= x <= p,
    ensures
        align_up_spec(x) <= p,
{
    assert(align_up_spec(x) <= p) by (nonlinear_arith)
        requires
            p % 4096 == 0,
            x <= p,
            x >= 0,
    ;
}

/// The aligned page `p` of the span is the page of frame `(p - span_base) / 4096`.
proof fn lemma_frame_page_of(span_base: int, p: int)
    requires
        p % 4096 == 0,
        0 <= span_base <= p,
    ensures
        frame_page(span_base, (p - span_base) / 4096) == p,
{
    let i = (p - span_base) / 4096;
    let q = span_base + i * 4096;
    assert(q <= p < q + 4096) by (nonlinear_arith)
        requires
            i == (p - span_base) / 4096,
            q == span_base + i * 4096,
            p >= span_base,
    ;
    lemma_align_up(q);
    lemma_align_up_min(q, p);
    assert(align_up_spec(q) == p) by (nonlinear_arith)
        requires
            align_up_spec(q) % 4096 == 0,
            p % 4096 == 0,
            align_up_spec(q) <= p,
            p < q + 4096,
            q <= align_up_spec(q),
    ;
}

/// Distinct frames stand for distinct pages.
proof fn lemma_frame_page_injective(span_base: int, i: int, j: int)
    requires
        span_base >= 0,
        i >= 0,
        j >= 0,
        i != j,
    ensures
        frame_page(span_base, i) != frame_page(span_base, j),
{
    let qi = span_base + i * 4096;
    let qj = span_base + j * 4096;
    lemma_align_up(qi);
    lemma_align_up(qj);
    if i < j {
        assert(qi + 4096 <= qj) by (nonlinear_arith)
            requires
                i < j,
                qi == span_base + i * 4096,
                qj == span_base + j * 4096,
        ;
    } else {
        assert(qj + 4096 <= qi) by (nonlinear_arith)
            requires
                j < i,
                qi == span_base + i * 4096,
                qj == span_base + j * 4096,
        ;
    }
}

impl BitmapFrameAllocator {
    /// Physical address of frame 0 of the span.
    pub closed spec fn spec_base(&self) -> u64 {
        self.base
    }

    /// Number of frames in the span.
    pub closed spec fn spec_frames(&self) -> u64 {
        self.frames
    }

    /// Physical address of frame 0 of the span.
    pub fn base(&self) -> (r: u64)
        ensures
            r == self.spec_base(),
    {
        self.base
    }

    /// One past the last address of the span.
    pub fn span_end(&self) -> (r: u64)
        requires
            self.wf(),
        ensures
            r == self.spec_base() + self.spec_frames() * FRAME_SIZE,
    {
        self.base + self.frames * FRAME_SIZE
    }

    /// Whether frame `i` is in use.
    pub closed spec fn is_used(&self, i: int) -> bool {
        bitmap_bit(self.bitmap@, i)
    }

    /// The allocator as a sequence of flags, one per frame: `true` when in use.
    pub open spec fn used(&self) -> Seq<bool> {
        Seq::new(self.spec_frames() as nat, |i: int| self.is_used(i))
    }

    /// Physical address of frame `i`.
    pub open spec fn frame_phys(&self, i: int) -> int {
        self.spec_base() + i * FRAME_SIZE
    }

    pub closed spec fn wf(&self) -> bool {
        &&& self.bitmap@.len() == (self.frames + 63) / 64
        &&& self.base + self.frames * FRAME_SIZE <= u64::MAX
        &&& forall|i: int|
            self.frames <= i < self.bitmap@.len() * 64 ==> #[trigger] bitmap_bit(self.bitmap@, i)
    }

    proof fn lemma_index(i: int)
        requires
            i >= 0,
        ensures
            i == (i / 64) * 64 + i % 64,
            0 <= i % 64 < 64,
    {
    }

    /// Sets bit `idx`.
    fn bit_set(bitmap: &mut Vec<u64>, idx: u64)
        requires
            idx < old(bitmap)@.len() * 64,
        ensures
            final(bitmap)@.len() == old(bitmap)@.len(),
            forall|i: int|
                0 <= i < old(bitmap)@.len() * 64 ==> #[trigger] bitmap_bit(final(bitmap)@, i) == (i
                    == idx || bitmap_bit(old(bitmap)@, i)),
    {
        let n = bitmap.len();
        assert(idx / 64 < n) by (nonlinear_arith)
            requires
                idx < n * 64,
        ;
        let w = (idx / 64) as usize;
        let b = idx % 64;
        let ghost old_bm = bitmap@;
        let nw = bitmap[w] | (1u64 << b);
        bitmap.set(w, nw);
        assert forall|i: int| 0 <= i < old_bm.len() * 64 implies #[trigger] bitmap_bit(bitmap@, i)
            == (i == idx || bitmap_bit(old_bm, i)) by {
            Self::lemma_index(i);
            Self::lemma_index(idx as int);
            assert(i / 64 < old_bm.len()) by (nonlinear_arith)
                requires
                    0 <= i < old_bm.len() * 64,
            ;
            if i / 64 == w as int {
                assert(bitmap@[i / 64] == nw);
                lemma_bit_set(old_bm[w as int], b, (i % 64) as u64);
            } else {
                assert(bitmap@[i / 64] == old_bm[i / 64]);
                assert(i != idx);
            }
        }
    }

    /// Clears bit `idx`.
    fn bit_clear(bitmap: &mut Vec<u64>, idx: u64)
        requires
            idx < old(bitmap)@.len() * 64,
        ensures
            final(bitmap)@.len() == old(bitmap)@.len(),
            forall|i: int|
                0 <= i < old(bitmap)@.len() * 64 ==> #[trigger] bitmap_bit(final(bitmap)@, i) == (i
                    != idx && bitmap_bit(old(bitmap)@, i)),
    {
        let n = bitmap.len();
        assert(idx / 64 < n) by (nonlinear_arith)
            requires
                idx < n * 64,
        ;
        let w = (idx / 64) as usize;
        let b = idx % 64;
        let ghost old_bm = bitmap@;
        let nw = bitmap[w] & !(1u64 << b);
        bitmap.set(w, nw);
        assert forall|i: int| 0 <= i < old_bm.len() * 64 implies #[trigger] bitmap_bit(bitmap@, i)
            == (i != idx && bitmap_bit(old_bm, i)) by {
            Self::lemma_index(i);
            Self::lemma_index(idx as int);
            assert(i / 64 < old_bm.len()) by (nonlinear_arith)
                requires
                    0 <= i < old_bm.len() * 64,
            ;
            if i / 64 == w as int {
                assert(bitmap@[i / 64] == nw);
                lemma_bit_clear(old_bm[w as int], b, (i % 64) as u64);
            } else {
                assert(bitmap@[i / 64] == old_bm[i / 64]);
                assert(i != idx);
            }
        }
    }

    /// Builds the allocator over the largest usable region of the memory map.
    ///
    /// Every frame of that span starts in use; a frame becomes free when some
    /// usable region covers its whole 4 KiB-aligned page. Returns `None` when
    /// the largest usable region is shorter than one frame or when the storage
    /// holds fewer words than the bitmap needs.
    pub fn init(entries: &[MemoryRegion], bitmap_storage: Vec<u64>) -> (r: Option<Self>)
        requires
            regions_in_range(entries@),
        ensures
            ({
                let best = largest_usable(entries@, entries@.len() as int);
                let frames = best.1 / 4096;
                match r {
                    None => best.1 < 4096 || bitmap_storage@.len() < (frames + 63) / 64,
                    Some(a) => {
                        &&& best.1 >= 4096
                        &&& bitmap_storage@.len() >= (frames + 63) / 64
                        &&& a.wf()
                        &&& a.spec_base() == best.0
                        &&& a.spec_frames() == frames
                        &&& forall|i: int|
                            0 <= i < frames ==> #[trigger] a.used()[i] == !covered_by_prefix(
                                entries@,
                                entries@.len() as int,
                                best.0,
                                best.1,
                                frame_page(best.0, i),
                            )
                    },
                }
            }),
    {
        let mut best_base = 0u64;
        let mut best_len = 0u64;
        let mut k: usize = 0;
        while k < entries.len()
            invariant
                k <= entries@.len(),
                largest_usable(entries@, k as int) == (best_base as int, best_len as int),
                best_len > 0 ==> exists|j: int|
                    0 <= j < k && (#[trigger] entries@[j]).usable && entries@[j].base == best_base
                        && entries@[j].length == best_len,
            decreases entries@.len() - k,
        {
            let e = entries[k];
            if e.usable && e.length > best_len {
                best_base = e.base;
                best_len = e.length;
            }
            k = k + 1;
        }
        if best_len < FRAME_SIZE {
            return None;
        }
        proof {
            let j = choose|j: int|
                0 <= j < entries@.len() && (#[trigger] entries@[j]).usable && entries@[j].base
                    == best_base && entries@[j].length == best_len;
            assert(entries@[j].usable);
        }
        let frames = best_len / FRAME_SIZE;
        let words = (frames + 63) / 64;
        if (bitmap_storage.len() as u64) < words {
            return None;
        }
        let mut bitmap = bitmap_storage;
        bitmap.truncate(words as usize);
        let mut w: usize = 0;
        while w < bitmap.len()
            invariant
                bitmap@.len() == words,
                w <= bitmap@.len(),
                forall|j: int| 0 <= j < w ==> bitmap@[j] == 0xFFFF_FFFF_FFFF_FFFFu64,
            decreases bitmap@.len() - w,
        {
            bitmap.set(w, 0xFFFF_FFFF_FFFF_FFFFu64);
            w = w + 1;
        }
        proof {
            assert forall|i: int| 0 <= i < bitmap@.len() * 64 implies #[trigger] bitmap_bit(
                bitmap@,
                i,
            ) by {
                Self::lemma_index(i);
                lemma_full_word((i % 64) as u64);
            }
        }
        assert(frames * 4096 <= best_len) by (nonlinear_arith)
            requires
                frames == best_len / 4096,
        ;
        let ghost bb = best_base as int;
        let ghost bl = best_len as int;
        let mut k: usize = 0;
        while k < entries.len()
            invariant
                k <= entries@.len(),
                regions_in_range(entries@),
                bb == best_base,
                bl == best_len,
                bb + bl + 4096 <= u64::MAX,
                frames == best_len / 4096,
                frames * 4096 <= best_len,
                bitmap@.len() == (frames + 63) / 64,
                forall|i: int| frames <= i < bitmap@.len() * 64 ==> #[trigger] bitmap_bit(bitmap@, i),
                forall|i: int|
                    0 <= i < frames ==> #[trigger] bitmap_bit(bitmap@, i) == !covered_by_prefix(
                        entries@,
                        k as int,
                        bb,
                        bl,
                        frame_page(bb, i),
                    ),
            decreases entries@.len() - k,
        {
            let e = entries[k];
            if e.usable {
                let start = if e.base > best_base {
                    e.base
                } else {
                    best_base
                };
                let end = if e.base + e.length < best_base + best_len {
                    e.base + e.length
                } else {
                    best_base + best_len
                };
                if start < end {
                    let mut p = align_up(start, FRAME_SIZE);
                    proof {
                        lemma_align_up(start as int);
                        assert forall|i: int| 0 <= i < frames implies #[trigger] bitmap_bit(
                            bitmap@,
                            i,
                        ) == !(covered_by_prefix(entries@, k as int, bb, bl, frame_page(bb, i)) || (
                        covers_page(e, bb, bl, frame_page(bb, i)) && frame_page(bb, i) < p)) by {
                            let fp = frame_page(bb, i);
                            if covers_page(e, bb, bl, fp) {
                                lemma_align_up_min(start as int, fp);
                            }
                        }
                    }
                    while p <= end && end - p >= FRAME_SIZE
                        invariant
                            regions_in_range(entries@),
                            bb == best_base,
                            bl == best_len,
                            bb + bl + 4096 <= u64::MAX,
                            frames == best_len / 4096,
                            frames * 4096 <= best_len,
                            k < entries@.len(),
                            e == entries@[k as int],
                            e.usable,
                            start as int == if e.base > bb {
                                e.base as int
                            } else {
                                bb
                            },
                            end as int == if e.base + e.length < bb + bl {
                                e.base + e.length
                            } else {
                                bb + bl
                            },
                            end <= bb + bl,
                            p % 4096 == 0,
                            start <= p,
                            p <= end + 4096,
                            bitmap@.len() == (frames + 63) / 64,
                            forall|i: int|
                                frames <= i < bitmap@.len() * 64 ==> #[trigger] bitmap_bit(
                                    bitmap@,
                                    i,
                                ),
                            forall|i: int|
                                0 <= i < frames ==> #[trigger] bitmap_bit(bitmap@, i) == !(
                                covered_by_prefix(entries@, k as int, bb, bl, frame_page(bb, i)) || (
                                covers_page(e, bb, bl, frame_page(bb, i)) && frame_page(bb, i)
                                    < p)),
                        decreases end + 4096 - p,
                    {
                        let idx = (p - best_base) / FRAME_SIZE;
                        proof {
                            lemma_frame_page_of(bb, p as int);
                            assert(idx < frames) by (nonlinear_arith)
                                requires
                                    idx == (p - bb) / 4096,
                                    p + 4096 <= bb + bl,
                                    p >= bb,
                                    frames == bl / 4096,
                            ;
                            assert(idx < bitmap@.len() * 64) by (nonlinear_arith)
                                requires
                                    idx < frames,
                                    bitmap@.len() == (frames + 63) / 64,
                            ;
                        }
                        let ghost old_bm = bitmap@;
                        Self::bit_clear(&mut bitmap, idx);
                        proof {
                            assert(covers_page(e, bb, bl, p as int));
                            assert forall|i: int| 0 <= i < frames implies #[trigger] bitmap_bit(
                                bitmap@,
                                i,
                            ) == !(covered_by_prefix(entries@, k as int, bb, bl, frame_page(bb, i))
                                || (covers_page(e, bb, bl, frame_page(bb, i)) && frame_page(bb, i)
                                < p + 4096)) by {
                                assert(bitmap_bit(old_bm, i) == !(covered_by_prefix(
                                    entries@,
                                    k as int,
                                    bb,
                                    bl,
                                    frame_page(bb, i),
                                ) || (covers_page(e, bb, bl, frame_page(bb, i)) && frame_page(bb, i)
                                    < p)));
                                if i != idx {
                                    lemma_frame_page_injective(bb, i, idx as int);
                                    lemma_align_up(bb + i * 4096);
                                    assert(i * 4096 >= 0) by (nonlinear_arith)
                                        requires
                                            i >= 0,
                                    ;
                                    let fp = frame_page(bb, i);
                                    assert(fp % 4096 == 0);
                                    assert(fp != p);
                                    assert(fp < p + 4096 ==> fp < p) by (nonlinear_arith)
                                        requires
                                            fp % 4096 == 0,
                                            p % 4096 == 0,
                                            fp != p,
                                    ;
                                }
                            }
                        }
                        p = p + FRAME_SIZE;
                    }
                    proof {
                        assert forall|i: int| 0 <= i < frames implies #[trigger] bitmap_bit(
                            bitmap@,
                            i,
                        ) == !covered_by_prefix(entries@, k + 1, bb, bl, frame_page(bb, i)) by {
                            let fp = frame_page(bb, i);
                            if covers_page(e, bb, bl, fp) {
                                assert(fp < p);
                            }
                        }
                    }
                } else {
                    proof {
                        assert forall|i: int| 0 <= i < frames implies #[trigger] bitmap_bit(
                            bitmap@,
                            i,
                        ) == !covered_by_prefix(entries@, k + 1, bb, bl, frame_page(bb, i)) by {
                            let fp = frame_page(bb, i);
                            assert(!covers_page(e, bb, bl, fp));
                        }
                    }
                }
            } else {
                proof {
                    assert forall|i: int| 0 <= i < frames implies #[trigger] bitmap_bit(
                        bitmap@,
                        i,
                    ) == !covered_by_prefix(entries@, k + 1, bb, bl, frame_page(bb, i)) by {}
                }
            }
            k = k + 1;
        }
        let a = BitmapFrameAllocator { base: best_base, frames, bitmap };
        proof {
            assert forall|i: int| 0 <= i < frames implies #[trigger] a.used()[i]
                == !covered_by_prefix(
                entries@,
                entries@.len() as int,
                bb,
                bl,
                frame_page(bb, i),
            ) by {
                assert(a.used()[i] == bitmap_bit(a.bitmap@, i));
            }
        }
        Some(a)
    }

    /// Allocates the lowest-numbered free frame and marks it used.
    /// Returns `None` exactly when every frame is in use.
    pub fn alloc_frame(&mut self) -> (r: Option<Frame>)
        requires
            old(self).wf(),
        ensures
            final(self).wf(),
            alloc_effect(*old(self), *final(self), r),
            final(self).spec_base() == old(self).spec_base(),
            final(self).spec_frames() == old(self).spec_frames(),
            match r {
                None => {
                    &&& final(self).used() == old(self).used()
                    &&& forall|i: int| 0 <= i < old(self).spec_frames() ==> #[trigger] old(
                        self,
                    ).used()[i]
                },
                Some(f) => {
                    let i = (f.phys - old(self).spec_base()) / 4096;
                    &&& 0 <= i < old(self).spec_frames()
                    &&& f.phys == old(self).frame_phys(i)
                    &&& !old(self).used()[i]
                    &&& forall|j: int| 0 <= j < i ==> #[trigger] old(self).used()[j]
                    &&& final(self).used() == old(self).used().update(i, true)
                },
            },
    {
        let mut wi: usize = 0;
        while wi < self.bitmap.len()
            invariant
                self.wf(),
                self == old(self),
                wi <= self.bitmap@.len(),
                forall|j: int| 0 <= j < wi * 64 ==> #[trigger] bitmap_bit(self.bitmap@, j),
            decreases self.bitmap@.len() - wi,
        {
            let word = self.bitmap[wi];
            if word != 0xFFFF_FFFF_FFFF_FFFFu64 {
                let inv = !word;
                proof {
                    lemma_not_zero(word);
                    axiom_u64_trailing_zeros(inv);
                }
                let bit = inv.trailing_zeros() as u64;
                assert(bit < 64);
                let idx = (wi as u64) * 64 + bit;
                proof {
                    assert(idx / 64 == wi && idx % 64 == bit);
                    lemma_not_bit(word, bit);
                    assert(!bitmap_bit(self.bitmap@, idx as int));
                    assert forall|j: int| wi * 64 <= j < idx implies #[trigger] bitmap_bit(
                        self.bitmap@,
                        j,
                    ) by {
                        Self::lemma_index(j);
                        assert(j / 64 == wi);
                        let c = (j % 64) as u64;
                        assert(c < bit);
                        assert((inv >> c) & 1u64 == 0u64);
                        lemma_not_bit(word, c);
                    }
                }
                if idx >= self.frames {
                    return None;
                }
                let ghost old_used = self.used();
                Self::bit_set(&mut self.bitmap, idx);
                assert(idx * 4096 <= self.frames * 4096) by (nonlinear_arith)
                    requires
                        idx < self.frames,
                ;
                let phys = self.base + idx * FRAME_SIZE;
                proof {
                    assert(self.used() =~= old_used.update(idx as int, true));
                    assert((phys - self.base) / 4096 == idx);
                }
                return Some(Frame { phys });
            }
            proof {
                assert forall|j: int| 0 <= j < (wi + 1) * 64 implies #[trigger] bitmap_bit(
                    self.bitmap@,
                    j,
                ) by {
                    if j >= wi * 64 {
                        Self::lemma_index(j);
                        assert(j / 64 == wi);
                        lemma_full_word((j % 64) as u64);
                    }
                }
            }
            wi = wi + 1;
        }
        proof {
            assert forall|i: int| 0 <= i < old(self).spec_frames() implies #[trigger] old(
                self,
            ).used()[i] by {
                assert(i < self.bitmap@.len() * 64) by (nonlinear_arith)
                    requires
                        0 <= i < self.frames,
                        self.bitmap@.len() == (self.frames + 63) / 64,
                ;
            }
        }
        None
    }

    /// Marks the frame containing `frame.phys` free again. Addresses outside
    /// the span are ignored.
    pub fn dealloc_frame(&mut self, frame: Frame)
        requires
            old(self).wf(),
        ensures
            final(self).wf(),
            dealloc_effect(*old(self), *final(self), frame),
            final(self).spec_base() == old(self).spec_base(),
            final(self).spec_frames() == old(self).spec_frames(),
            ({
                let i = (frame.phys - old(self).spec_base()) / 4096;
                if frame.phys < old(self).spec_base() || i >= old(self).spec_frames() {
                    final(self).used() == old(self).used()
                } else {
                    final(self).used() == old(self).used().update(i, false)
                }
            }),
    {
        if frame.phys < self.base {
            return;
        }
        let idx = (frame.phys - self.base) / FRAME_SIZE;
        if idx >= self.frames {
            return;
        }
        let ghost old_used = self.used();
        proof {
            assert(idx < self.bitmap@.len() * 64) by (nonlinear_arith)
                requires
                    idx < self.frames,
                    self.bitmap@.len() == (self.frames + 63) / 64,
            ;
        }
        Self::bit_clear(&mut self.bitmap, idx);
        assert(self.used() =~= old_used.update(idx as int, false));
    }
}

/// What `alloc_frame` does to the used map: the lowest free frame is
/// marked used and handed out; with every frame in use, nothing changes and
/// `None` comes back.
pub open spec fn alloc_effect(a0: BitmapFrameAllocator, a1: BitmapFrameAllocator, r: Option<Frame>) -> bool {
    &&& a1.spec_base() == a0.spec_base()
    &&& a1.spec_frames() == a0.spec_frames()
    &&& match r {
        None => {
            &&& a1.used() == a0.used()
            &&& forall|i: int| 0 <= i < a0.spec_frames() ==> #[trigger] a0.used()[i]
        },
        Some(f) => {
            let i = (f.phys - a0.spec_base()) / 4096;
            &&& 0 <= i < a0.spec_frames()
            &&& f.phys == a0.frame_phys(i)
            &&& !a0.used()[i]
            &&& forall|j: int| 0 <= j < i ==> #[trigger] a0.used()[j]
            &&& a1.used() == a0.used().update(i, true)
        },
    }
}

/// What `dealloc_frame` does to the used map: the frame holding `frame.phys`
/// is marked free; an address outside the span changes nothing.
pub open spec fn dealloc_effect(a0: BitmapFrameAllocator, a1: BitmapFrameAllocator, frame: Frame) -> bool {
    let i = (frame.phys - a0.spec_base()) / 4096;
    &&& a1.spec_base() == a0.spec_base()
    &&& a1.spec_frames() == a0.spec_frames()
    &&& if frame.phys < a0.spec_base() || i >= a0.spec_frames() {
        a1.used() == a0.used()
    } else {
        a1.used() == a0.used().update(i, false)
    }
}

/// No frame is handed out twice: two allocations in a row, with no free in
/// between, give different frames.
pub proof fn law_no_double_allocation(
    a0: BitmapFrameAllocator,
    a1: BitmapFrameAllocator,
    a2: BitmapFrameAllocator,
    f: Frame,
    g: Frame,
)
    requires
        alloc_effect(a0, a1, Some(f)),
        alloc_effect(a1, a2, Some(g)),
    ensures
        f.phys != g.phys,
{
    let i = (f.phys - a0.spec_base()) / 4096;
    assert(a1.used()[i]);
}

/// Freeing the frame that was just allocated puts the used map back as it
/// was before the allocation.
pub proof fn law_alloc_dealloc_restores(
    a0: BitmapFrameAllocator,
    a1: BitmapFrameAllocator,
    a2: BitmapFrameAllocator,
    f: Frame,
)
    requires
        alloc_effect(a0, a1, Some(f)),
        dealloc_effect(a1, a2, f),
    ensures
        a2.used() == a0.used(),
{
    let i = (f.phys - a0.spec_base()) / 4096;
    assert(a2.used() =~= a0.used());
}

/// The first free frame of `u` at or after `i`, or `u.len()` when none is.
pub open spec fn first_free_from(u: Seq<bool>, i: int) -> int
    decreases u.len() - i,
{
    if i < 0 || i >= u.len() || !u[i] {
        i
    } else {
        first_free_from(u, i + 1)
    }
}

/// `u` after taking its `n` lowest free frames, one at a time (as many as
/// there are).
pub open spec fn take_lowest(u: Seq<bool>, n: nat) -> Seq<bool>
    decreases n,
{
    if n == 0 {
        u
    } else if first_free_from(u, 0) < u.len() {
        take_lowest(u.update(first_free_from(u, 0), true), (n - 1) as nat)
    } else {
        u
    }
}

/// A free frame below which every frame is in use is the first free one.
pub proof fn lemma_first_free(u: Seq<bool>, k: int, i: int)
    requires
        0 <= i <= k < u.len(),
        !u[k],
        forall|j: int| 0 <= j < k ==> #[trigger] u[j],
    ensures
        first_free_from(u, i) == k,
    decreases k - i,
{
    if i < k {
        lemma_first_free(u, k, i + 1);
    }
}


/// The number of free frames in a used map.
pub open spec fn free_count(s: Seq<bool>) -> nat
    decreases s.len(),
{
    if s.len() == 0 {
        0
    } else {
        free_count(s.drop_last()) + if s.last() {
            0nat
        } else {
            1nat
        }
    }
}

/// Marking a free frame used leaves one free frame fewer.
pub proof fn lemma_free_count_take(s: Seq<bool>, k: int)
    requires
        0 <= k < s.len(),
        !s[k],
    ensures
        free_count(s) >= 1,
        free_count(s.update(k, true)) == free_count(s) - 1,
    decreases s.len(),
{
    let t = s.update(k, true);
    if k == s.len() - 1 {
        assert(t.drop_last() =~= s.drop_last());
    } else {
        assert(t.drop_last() =~= s.drop_last().update(k, true));
        lemma_free_count_take(s.drop_last(), k);
    }
}

/// A map with every frame used has no free frame.
pub proof fn lemma_free_count_none(s: Seq<bool>)
    requires
        forall|i: int| 0 <= i < s.len() ==> #[trigger] s[i],
    ensures
        free_count(s) == 0,
    decreases s.len(),
{
    if s.len() > 0 {
        lemma_free_count_none(s.drop_last());
    }
}

} // verus!
