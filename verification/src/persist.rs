//! Checkpoints: the process-graph summary and the filesystem image are
//! written behind a 16-byte header into a persistence region of RAM, which
//! is then copied to disk sector by sector; on boot the region is read back.
//!
//! Header layout: the magic value as 64-bit little-endian, then the graph
//! length and the filesystem length as 32-bit little-endian values.
use vstd::prelude::*;
use vstd::bytes::{
    spec_u32_from_le_bytes, spec_u32_to_le_bytes, spec_u64_from_le_bytes, spec_u64_to_le_bytes,
    u32_from_le_bytes, u32_to_le_bytes, u64_from_le_bytes, u64_to_le_bytes,
};

use crate::drivers::BlockDevice;

verus! {

/// "TSOSCKPT" read as a little-endian 64-bit value.
pub const PERSIST_MAGIC: u64 = 0x5453_4F53_434B_5054;
pub const CHECKPOINT_HEADER: usize = 16;
pub const FS_BUF_SIZE: usize = 16384;
pub const GRAPH_BUF_SIZE: usize = 64;
pub const DISK_CHECKPOINT_SECTOR: u32 = 0;
pub const SECTOR_SIZE: usize = 512;

pub open spec fn header_bytes(graph_len: u32, fs_len: u32) -> Seq<u8> {
    spec_u64_to_le_bytes(PERSIST_MAGIC) + spec_u32_to_le_bytes(graph_len) + spec_u32_to_le_bytes(fs_len)
}

/// What a checkpoint of `graph` and `fs` puts at the start of the region.
pub open spec fn checkpoint_image(graph: Seq<u8>, fs: Seq<u8>) -> Seq<u8> {
    header_bytes(graph.len() as u32, fs.len() as u32) + graph + fs
}

pub open spec fn stored_magic(r: Seq<u8>) -> u64 {
    spec_u64_from_le_bytes(r.subrange(0, 8))
}

pub open spec fn stored_graph_len(r: Seq<u8>) -> u32 {
    spec_u32_from_le_bytes(r.subrange(8, 12))
}

pub open spec fn stored_fs_len(r: Seq<u8>) -> u32 {
    spec_u32_from_le_bytes(r.subrange(12, 16))
}

/// The region holds a checkpoint header whose two parts lie inside the region.
pub open spec fn checkpoint_valid(r: Seq<u8>) -> bool {
    &&& r.len() >= CHECKPOINT_HEADER
    &&& stored_magic(r) == PERSIST_MAGIC
    &&& CHECKPOINT_HEADER + stored_graph_len(r) + stored_fs_len(r) <= r.len()
}

pub open spec fn min(a: int, b: int) -> int {
    if a < b {
        a
    } else {
        b
    }
}

/// The bytes of `r` from `lo` to `hi`, cut off at the end of `r`.
pub open spec fn clamped(r: Seq<u8>, lo: int, hi: int) -> Seq<u8> {
    if lo >= r.len() {
        Seq::empty()
    } else {
        r.subrange(lo, min(hi, r.len() as int))
    }
}

fn copy_into(dst: &mut [u8], off: usize, src: &[u8])
    requires
        off + src@.len() <= old(dst)@.len(),
    ensures
        final(dst)@.len() == old(dst)@.len(),
        forall|i: int|
            0 <= i < old(dst)@.len() ==> #[trigger] final(dst)@[i] == if off <= i < off + src@.len() {
                src@[i - off]
            } else {
                old(dst)@[i]
            },
{
    let n = dst.len();
    let m = src.len();
    let mut k: usize = 0;
    while k < m
        invariant
            k <= m,
            m == src@.len(),
            n == dst@.len(),
            off + m <= n,
            dst@.len() == old(dst)@.len(),
            forall|i: int|
                0 <= i < old(dst)@.len() ==> #[trigger] dst@[i] == if off <= i < off + k {
                    src@[i - off]
                } else {
                    old(dst)@[i]
                },
        decreases m - k,
    {
        dst[off + k] = src[k];
        k = k + 1;
    }
}

/// Writes the header, the graph bytes and the filesystem bytes to the start
/// of the region. False, and the region is untouched, when they do not fit.
pub fn do_checkpoint(region: &mut [u8], graph: &[u8], fs: &[u8]) -> (r: bool)
    ensures
        final(region)@.len() == old(region)@.len(),
        r == (CHECKPOINT_HEADER + graph@.len() + fs@.len() <= old(region)@.len()),
        r ==> final(region)@.subrange(0, CHECKPOINT_HEADER + graph@.len() + fs@.len()) == checkpoint_image(graph@, fs@),
        r ==> final(region)@.subrange(CHECKPOINT_HEADER + graph@.len() + fs@.len(), old(region)@.len() as int)
            == old(region)@.subrange(CHECKPOINT_HEADER + graph@.len() + fs@.len(), old(region)@.len() as int),
        !r ==> final(region)@ == old(region)@,
{
    let size = region.len();
    let g = graph.len();
    let f = fs.len();
    if size < CHECKPOINT_HEADER || size - CHECKPOINT_HEADER < g || size - CHECKPOINT_HEADER - g < f {
        return false;
    }
    let magic = u64_to_le_bytes(PERSIST_MAGIC);
    let gl = u32_to_le_bytes(g as u32);
    let fl = u32_to_le_bytes(f as u32);
    copy_into(region, 0, magic.as_slice());
    copy_into(region, 8, gl.as_slice());
    copy_into(region, 12, fl.as_slice());
    copy_into(region, CHECKPOINT_HEADER, graph);
    copy_into(region, CHECKPOINT_HEADER + g, fs);
    let ghost total = CHECKPOINT_HEADER + g + f;
    assert(region@.subrange(0, total) =~= checkpoint_image(graph@, fs@));
    assert(region@.subrange(total, size as int) =~= old(region)@.subrange(total, size as int));
    true
}

/// Whether the region starts with the checkpoint magic.
pub fn region_has_magic(region: &[u8]) -> (r: bool)
    requires
        region@.len() >= CHECKPOINT_HEADER,
    ensures
        r == (stored_magic(region@) == PERSIST_MAGIC),
{
    u64_from_le_bytes(vstd::slice::slice_subrange(region, 0, 8)) == PERSIST_MAGIC
}

/// Whether the region holds a checkpoint whose graph and filesystem parts
/// both lie inside it.
pub fn validate_current_checkpoint(region: &[u8]) -> (r: bool)
    ensures
        r == checkpoint_valid(region@),
{
    let size = region.len();
    if size < CHECKPOINT_HEADER {
        return false;
    }
    if !region_has_magic(region) {
        return false;
    }
    let g = u32_from_le_bytes(vstd::slice::slice_subrange(region, 8, 12)) as u64;
    let f = u32_from_le_bytes(vstd::slice::slice_subrange(region, 12, 16)) as u64;
    CHECKPOINT_HEADER as u64 + g + f <= size as u64
}

/// The bytes of `region` from `lo` up to `hi`, cut off at its end.
fn clamped_copy(region: &[u8], lo: u64, hi: u64) -> (r: Vec<u8>)
    requires
        lo <= hi,
    ensures
        r@ == clamped(region@, lo as int, hi as int),
{
    let size = region.len();
    if lo >= size as u64 {
        return Vec::new();
    }
    let end = if hi < size as u64 {
        hi as usize
    } else {
        size
    };
    let lo = lo as usize;
    let mut v: Vec<u8> = Vec::new();
    let mut i: usize = lo;
    while i < end
        invariant
            lo <= i <= end,
            end <= size,
            size == region@.len(),
            v@ == region@.subrange(lo as int, i as int),
        decreases end - i,
    {
        v.push(region[i]);
        i = i + 1;
        assert(v@ =~= region@.subrange(lo as int, i as int));
    }
    v
}

/// The stored graph bytes, at most `max_len` of them; empty without the magic.
/// Bytes past the end of the region are not read.
pub fn restore_graph(region: &[u8], max_len: usize) -> (r: Vec<u8>)
    requires
        region@.len() >= CHECKPOINT_HEADER,
    ensures
        r@ == restored_graph(region@, max_len as int),
{
    if !region_has_magic(region) {
        return Vec::new();
    }
    let g = u32_from_le_bytes(vstd::slice::slice_subrange(region, 8, 12)) as u64;
    let n = if g < max_len as u64 {
        g
    } else {
        max_len as u64
    };
    clamped_copy(region, CHECKPOINT_HEADER as u64, CHECKPOINT_HEADER as u64 + n)
}

/// The stored filesystem bytes, at most `max_len` of them; empty without the
/// magic or when the checkpoint holds none. Bytes past the end of the region
/// are not read.
pub fn restore_fs(region: &[u8], max_len: usize) -> (r: Vec<u8>)
    requires
        region@.len() >= CHECKPOINT_HEADER,
    ensures
        r@ == restored_fs(region@, max_len as int),
{
    if !region_has_magic(region) {
        return Vec::new();
    }
    let g = u32_from_le_bytes(vstd::slice::slice_subrange(region, 8, 12)) as u64;
    let f = u32_from_le_bytes(vstd::slice::slice_subrange(region, 12, 16)) as u64;
    if f == 0 {
        return Vec::new();
    }
    let n = if f < max_len as u64 {
        f
    } else {
        max_len as u64
    };
    let lo = CHECKPOINT_HEADER as u64 + g;
    clamped_copy(region, lo, lo + n)
}


/// The graph bytes a restore hands back (see `restore_graph`).
pub open spec fn restored_graph(r: Seq<u8>, max_len: int) -> Seq<u8> {
    if stored_magic(r) != PERSIST_MAGIC {
        Seq::empty()
    } else {
        clamped(r, CHECKPOINT_HEADER as int, CHECKPOINT_HEADER + min(stored_graph_len(r) as int, max_len))
    }
}

/// The filesystem bytes a restore hands back (see `restore_fs`).
pub open spec fn restored_fs(r: Seq<u8>, max_len: int) -> Seq<u8> {
    if stored_magic(r) != PERSIST_MAGIC || stored_fs_len(r) == 0 {
        Seq::empty()
    } else {
        let lo = CHECKPOINT_HEADER + stored_graph_len(r);
        clamped(r, lo, lo + min(stored_fs_len(r) as int, max_len))
    }
}

/// The sector buffer handed to the disk for the next chunk: the chunk, then
/// what the buffer held before, which is all zero once the previous write
/// went through (the buffer is cleared only after a successful write).
pub open spec fn sector_after(prev: Seq<u8>, prev_written: bool, chunk: Seq<u8>) -> Seq<u8> {
    let base = if prev_written {
        Seq::new(SECTOR_SIZE as nat, |i: int| 0u8)
    } else {
        prev
    };
    chunk + base.subrange(chunk.len() as int, SECTOR_SIZE as int)
}

/// Number of sectors that `total` bytes of checkpoint span.
pub open spec fn sectors_for(total: int) -> int {
    (total + SECTOR_SIZE - 1) / SECTOR_SIZE as int
}

/// Chunk `i` of the first `total` bytes of the region.
pub open spec fn chunk_of(r: Seq<u8>, total: int, i: int) -> Seq<u8> {
    r.subrange(i * SECTOR_SIZE, min((i + 1) * SECTOR_SIZE, total))
}

pub fn sector_count(total: u64) -> (r: u64)
    requires
        total < 0x1_0000_0000_0000,
    ensures
        r == sectors_for(total as int),
{
    (total + 511) / 512
}

/// Chunk `i` of the first `total` bytes of the region: at most one sector.
pub fn checkpoint_chunk(region: &[u8], total: usize, i: usize) -> (r: Vec<u8>)
    requires
        total <= region@.len(),
        i * SECTOR_SIZE < total,
    ensures
        r@ == chunk_of(region@, total as int, i as int),
{
    let lo = i * SECTOR_SIZE;
    let hi = if total - lo < SECTOR_SIZE {
        total
    } else {
        lo + SECTOR_SIZE
    };
    let mut v: Vec<u8> = Vec::new();
    let mut k: usize = lo;
    while k < hi
        invariant
            lo <= k <= hi,
            hi <= total,
            total <= region@.len(),
            v@ == region@.subrange(lo as int, k as int),
        decreases hi - k,
    {
        v.push(region[k]);
        k = k + 1;
        assert(v@ =~= region@.subrange(lo as int, k as int));
    }
    v
}

/// Fills the sector buffer for the next chunk (see `sector_after`).
pub fn next_sector_buf(prev: &[u8; SECTOR_SIZE], prev_written: bool, chunk: &[u8]) -> (r: [u8; SECTOR_SIZE])
    requires
        chunk@.len() <= SECTOR_SIZE,
    ensures
        r@ == sector_after(prev@, prev_written, chunk@),
{
    let mut buf: [u8; SECTOR_SIZE] = if prev_written {
        [0u8; SECTOR_SIZE]
    } else {
        *prev
    };
    let ghost base = buf@;
    let n = chunk.len();
    let mut k: usize = 0;
    while k < n
        invariant
            k <= n,
            n == chunk@.len(),
            n <= SECTOR_SIZE,
            buf@.len() == SECTOR_SIZE,
            forall|i: int| 0 <= i < SECTOR_SIZE ==> #[trigger] buf@[i] == if i < k { chunk@[i] } else { base[i] },
        decreases n - k,
    {
        buf[k] = chunk[k];
        k = k + 1;
    }
    proof {
        let z = Seq::new(SECTOR_SIZE as nat, |i: int| 0u8);
        assert(base =~= if prev_written { z } else { prev@ });
        assert(buf@ =~= sector_after(prev@, prev_written, chunk@));
    }
    buf
}

/// The checkpoint length a first sector announces (header plus both
/// parts), when the sector starts with the magic.
pub fn checkpoint_total(sector0: &[u8]) -> (r: Option<u64>)
    requires
        sector0@.len() >= CHECKPOINT_HEADER,
    ensures
        r == if stored_magic(sector0@) == PERSIST_MAGIC {
            Some((CHECKPOINT_HEADER + stored_graph_len(sector0@) + stored_fs_len(sector0@)) as u64)
        } else {
            None::<u64>
        },
{
    if !region_has_magic(sector0) {
        return None;
    }
    let g = u32_from_le_bytes(vstd::slice::slice_subrange(sector0, 8, 12)) as u64;
    let f = u32_from_le_bytes(vstd::slice::slice_subrange(sector0, 12, 16)) as u64;
    Some(CHECKPOINT_HEADER as u64 + g + f)
}

/// Copies what the checkpoint still needs from a sector that was read (at
/// most one sector's worth) to the region at `off`; returns the new offset.
pub fn restore_chunk(region: &mut [u8], off: usize, total: usize, sector: &[u8]) -> (r: usize)
    requires
        off <= total,
        total <= old(region)@.len(),
        sector@.len() >= SECTOR_SIZE,
    ensures
        r == off + min(total - off, SECTOR_SIZE as int),
        final(region)@.len() == old(region)@.len(),
        forall|i: int|
            0 <= i < old(region)@.len() ==> #[trigger] final(region)@[i] == if off <= i < r {
                sector@[i - off]
            } else {
                old(region)@[i]
            },
{
    let n = if total - off < SECTOR_SIZE {
        total - off
    } else {
        SECTOR_SIZE
    };
    copy_into(region, off, vstd::slice::slice_subrange(sector, 0, n));
    off + n
}


/// Copies the first `total` bytes of the region to the disk, one chunk of
/// at most a sector per sector from `DISK_CHECKPOINT_SECTOR` on. Each
/// sector written holds its chunk followed by what the sector buffer held
/// before (see `sector_after`); a failed write is not retried.
pub fn save_to_disk<D: BlockDevice>(disk: &D, region: &[u8], total: usize)
    requires
        total <= region@.len(),
{
    let sectors = total / SECTOR_SIZE + if total % SECTOR_SIZE == 0 {
        0
    } else {
        1
    };
    let mut buf: [u8; SECTOR_SIZE] = [0u8; SECTOR_SIZE];
    let mut written = false;
    let mut i: usize = 0;
    while i < sectors
        invariant
            total <= region@.len(),
            sectors == total / SECTOR_SIZE + if total % SECTOR_SIZE == 0 { 0int } else { 1int },
            i <= sectors,
        decreases sectors - i,
    {
        proof {
            assert(i * SECTOR_SIZE < total) by (nonlinear_arith)
                requires
                    i < sectors,
                    sectors == total / 512 + if total % 512 == 0 { 0int } else { 1int },
            ;
        }
        let chunk = checkpoint_chunk(region, total, i);
        proof {
            assert(chunk@.len() <= SECTOR_SIZE) by (nonlinear_arith)
                requires
                    chunk@ == chunk_of(region@, total as int, i as int),
                    i * 512 < total,
                    total <= region@.len(),
            ;
        }
        buf = next_sector_buf(&buf, written, chunk.as_slice());
        written = disk.write_sector(DISK_CHECKPOINT_SECTOR + i as u32, &buf);
        i = i + 1;
    }
}

/// Reads a checkpoint back from the disk into the region. When sector
/// `DISK_CHECKPOINT_SECTOR` can be read and starts with the magic, the
/// sectors of the checkpoint it announces are read in turn and each one
/// that could be read is copied to the region at the current offset, which
/// then moves on by the bytes copied (a sector that cannot be read is
/// skipped without moving the offset); copying stops at the end of the
/// region, and the result is true. Otherwise the region is left as it is,
/// and the result says whether it already starts with the magic.
pub fn try_restore<D: BlockDevice>(disk: &D, region: &mut [u8]) -> (r: bool)
    ensures
        final(region)@.len() == old(region)@.len(),
        old(region)@.len() >= CHECKPOINT_HEADER && stored_magic(old(region)@) == PERSIST_MAGIC ==> r,
        !r ==> final(region)@ == old(region)@,
{
    let size = region.len();
    let mut buf: [u8; SECTOR_SIZE] = [0u8; SECTOR_SIZE];
    if disk.read_sector(DISK_CHECKPOINT_SECTOR, &mut buf) {
        if let Some(announced) = checkpoint_total(&buf) {
            let total: usize = if announced < size as u64 {
                announced as usize
            } else {
                size
            };
            let sectors = total / SECTOR_SIZE + if total % SECTOR_SIZE == 0 {
                0
            } else {
                1
            };
            let mut off: usize = 0;
            let mut i: usize = 0;
            while i < sectors
                invariant
                    off <= total,
                    total <= size,
                    size == region@.len(),
                    region@.len() == old(region)@.len(),
                    i <= sectors,
                decreases sectors - i,
            {
                if disk.read_sector(DISK_CHECKPOINT_SECTOR + i as u32, &mut buf) {
                    off = restore_chunk(region, off, total, &buf);
                }
                i = i + 1;
            }
            return true;
        }
    }
    if size < CHECKPOINT_HEADER {
        return false;
    }
    region_has_magic(region)
}

/// A checkpoint reads back as it was written: once `do_checkpoint` has put
/// `graph` and `fs` (each shorter than 2^32 bytes) into the region, the
/// region holds a valid checkpoint, and restoring gives back the graph bytes
/// and the filesystem bytes, each cut to the length asked for (no
/// filesystem bytes when none were stored).
pub proof fn law_checkpoint_roundtrip(region: Seq<u8>, graph: Seq<u8>, fs: Seq<u8>, max_len: int)
    requires
        graph.len() < 0x1_0000_0000,
        fs.len() < 0x1_0000_0000,
        CHECKPOINT_HEADER + graph.len() + fs.len() <= region.len(),
        region.subrange(0, CHECKPOINT_HEADER + graph.len() + fs.len()) == checkpoint_image(graph, fs),
        max_len >= 0,
    ensures
        checkpoint_valid(region),
        restored_graph(region, max_len) == graph.subrange(0, min(graph.len() as int, max_len)),
        restored_fs(region, max_len) == if fs.len() == 0 {
            Seq::<u8>::empty()
        } else {
            fs.subrange(0, min(fs.len() as int, max_len))
        },
{
    vstd::bytes::lemma_auto_spec_u64_to_from_le_bytes();
    vstd::bytes::lemma_auto_spec_u32_to_from_le_bytes();
    let total = CHECKPOINT_HEADER + graph.len() + fs.len();
    let img = checkpoint_image(graph, fs);
    assert(spec_u64_to_le_bytes(PERSIST_MAGIC).len() == 8);
    assert(spec_u32_to_le_bytes(graph.len() as u32).len() == 4);
    assert(spec_u32_to_le_bytes(fs.len() as u32).len() == 4);
    assert(region.subrange(0, 8) =~= img.subrange(0, 8));
    assert(region.subrange(8, 12) =~= img.subrange(8, 12));
    assert(region.subrange(12, 16) =~= img.subrange(12, 16));
    assert(img.subrange(0, 8) =~= spec_u64_to_le_bytes(PERSIST_MAGIC));
    assert(region.subrange(8, 12) =~= spec_u32_to_le_bytes(graph.len() as u32));
    assert(region.subrange(12, 16) =~= spec_u32_to_le_bytes(fs.len() as u32));
    assert(stored_graph_len(region) == graph.len());
    assert(stored_fs_len(region) == fs.len());
    assert(header_bytes(graph.len() as u32, fs.len() as u32).len() == 16);
    assert forall|k: int| 0 <= k < graph.len() implies region[CHECKPOINT_HEADER + k] == graph[k] by {
        assert(region.subrange(0, total)[CHECKPOINT_HEADER + k] == img[CHECKPOINT_HEADER + k]);
    }
    assert forall|k: int| 0 <= k < fs.len() implies region[CHECKPOINT_HEADER + graph.len() + k] == fs[k] by {
        assert(region.subrange(0, total)[CHECKPOINT_HEADER + graph.len() + k] == img[CHECKPOINT_HEADER + graph.len() + k]);
    }
    assert(restored_graph(region, max_len) =~= graph.subrange(0, min(graph.len() as int, max_len)));
    if fs.len() != 0 {
        assert(restored_fs(region, max_len) =~= fs.subrange(0, min(fs.len() as int, max_len)));
    }
}

} // verus!
