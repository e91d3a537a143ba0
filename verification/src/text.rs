//! Byte-string helpers shared by the filesystem, the system calls and the
//! shell: UTF-8 validation, path splitting and whitespace handling.
use vstd::prelude::*;
use vstd::utf8::*;

use crate::parse::{all_digits, dec_value};

verus! {

pub const SLASH: u8 = 0x2F;
pub const SPACE: u8 = 0x20;
pub const TAB: u8 = 0x09;
pub const NEWLINE: u8 = 0x0A;
pub const CARRIAGE_RETURN: u8 = 0x0D;

/// Checks one UTF-8 encoded scalar at the front of `bytes[i..]` and returns
/// its length, or 0 when the bytes there do not begin with a valid scalar.
fn first_scalar_len(bytes: &[u8], i: usize) -> (r: usize)
    requires
        i < bytes@.len(),
    ensures
        ({
            let s = bytes@.subrange(i as int, bytes@.len() as int);
            if valid_first_scalar(s) {
                r == length_of_first_scalar(s) && 1 <= r <= 4
            } else {
                r == 0
            }
        }),
{
    let ghost s = bytes@.subrange(i as int, bytes@.len() as int);
    let n = bytes.len() - i;
    let b1 = bytes[i];
    if b1 <= 0x7f {
        return 1;
    }
    if 0xc0 <= b1 && b1 <= 0xdf {
        if n < 2 {
            return 0;
        }
        let b2 = bytes[i + 1];
        if !(0x80 <= b2 && b2 <= 0xbf) {
            return 0;
        }
        let cp: u32 = (((b1 & 0x1F) as u32) << 6) | ((b2 & 0x3f) as u32);
        assert(cp == codepoint_width_2(s[0], s[1]));
        if 0x80 <= cp && !(0xD800 <= cp && cp <= 0xDFFF) {
            return 2;
        }
        return 0;
    }
    if 0xe0 <= b1 && b1 <= 0xef {
        if n < 3 {
            return 0;
        }
        let b2 = bytes[i + 1];
        let b3 = bytes[i + 2];
        if !(0x80 <= b2 && b2 <= 0xbf) || !(0x80 <= b3 && b3 <= 0xbf) {
            return 0;
        }
        let cp: u32 = (((b1 & 0x0F) as u32) << 12) | (((b2 & 0x3f) as u32) << 6) | ((b3 & 0x3f) as u32);
        assert(cp == codepoint_width_3(s[0], s[1], s[2]));
        if 0x800 <= cp && !(0xD800 <= cp && cp <= 0xDFFF) {
            return 3;
        }
        return 0;
    }
    if 0xf0 <= b1 && b1 <= 0xf7 {
        if n < 4 {
            return 0;
        }
        let b2 = bytes[i + 1];
        let b3 = bytes[i + 2];
        let b4 = bytes[i + 3];
        if !(0x80 <= b2 && b2 <= 0xbf) || !(0x80 <= b3 && b3 <= 0xbf) || !(0x80 <= b4 && b4
            <= 0xbf) {
            return 0;
        }
        let cp: u32 = (((b1 & 0x07) as u32) << 18) | (((b2 & 0x3f) as u32) << 12) | (((b3
            & 0x3f) as u32) << 6) | ((b4 & 0x3f) as u32);
        assert(cp == codepoint_width_4(s[0], s[1], s[2], s[3]));
        if 0x10000 <= cp && cp <= 0x10ffff && !(0xD800 <= cp && cp <= 0xDFFF) {
            return 4;
        }
        return 0;
    }
    0
}

/// Whether `bytes` is valid UTF-8.
pub fn is_utf8(bytes: &[u8]) -> (r: bool)
    ensures
        r == valid_utf8(bytes@),
{
    let mut i: usize = 0;
    assert(bytes@.subrange(0, bytes@.len() as int) =~= bytes@);
    while i < bytes.len()
        invariant
            i <= bytes@.len(),
            valid_utf8(bytes@) == valid_utf8(bytes@.subrange(i as int, bytes@.len() as int)),
        decreases bytes@.len() - i,
    {
        let w = first_scalar_len(bytes, i);
        let ghost s = bytes@.subrange(i as int, bytes@.len() as int);
        if w == 0 {
            assert(s.len() != 0);
            return false;
        }
        proof {
            assert(pop_first_scalar(s) =~= bytes@.subrange(i + w, bytes@.len() as int));
        }
        i = i + w;
    }
    proof {
        assert(bytes@.subrange(i as int, bytes@.len() as int).len() == 0);
    }
    true
}

/// The segments of `p` from index `i` on, between `/` separators, dropping
/// empty ones; `cur` is the segment read so far.
pub open spec fn parts_from(p: Seq<u8>, i: int, cur: Seq<u8>) -> Seq<Seq<u8>>
    decreases p.len() - i,
{
    if i >= p.len() {
        if cur.len() > 0 {
            seq![cur]
        } else {
            seq![]
        }
    } else if p[i] == SLASH {
        (if cur.len() > 0 {
            seq![cur]
        } else {
            seq![]
        }) + parts_from(p, i + 1, seq![])
    } else {
        parts_from(p, i + 1, cur.push(p[i]))
    }
}

/// The non-empty components of a `/`-separated path.
pub open spec fn path_parts(p: Seq<u8>) -> Seq<Seq<u8>> {
    parts_from(p, 0, seq![])
}

/// Splits a path into its non-empty `/`-separated components.
pub fn split_path(p: &[u8]) -> (r: Vec<Vec<u8>>)
    ensures
        r@.len() == path_parts(p@).len(),
        forall|k: int| 0 <= k < r@.len() ==> #[trigger] r@[k]@ == path_parts(p@)[k],
{
    let mut out: Vec<Vec<u8>> = Vec::new();
    let mut cur: Vec<u8> = Vec::new();
    let mut i: usize = 0;
    while i < p.len()
        invariant
            i <= p@.len(),
            out@.map_values(|v: Vec<u8>| v@) + parts_from(p@, i as int, cur@) == path_parts(p@),
        decreases p@.len() - i,
    {
        let ghost old_out = out@.map_values(|v: Vec<u8>| v@);
        let ghost old_cur = cur@;
        if p[i] == SLASH {
            if cur.len() > 0 {
                out.push(cur);
                cur = Vec::new();
                assert(out@.map_values(|v: Vec<u8>| v@) =~= old_out + seq![old_cur]);
                assert(parts_from(p@, i as int, old_cur) == seq![old_cur] + parts_from(
                    p@,
                    i + 1,
                    seq![],
                ));
                assert(old_out + seq![old_cur] + parts_from(p@, i + 1, seq![]) =~= old_out + (
                seq![old_cur] + parts_from(p@, i + 1, seq![])));
            } else {
                assert(parts_from(p@, i as int, old_cur) =~= seq![] + parts_from(
                    p@,
                    i + 1,
                    seq![],
                ));
                assert(cur@ =~= seq![]);
            }
        } else {
            cur.push(p[i]);
        }
        i = i + 1;
    }
    let ghost old_out = out@.map_values(|v: Vec<u8>| v@);
    if cur.len() > 0 {
        let ghost c = cur@;
        out.push(cur);
        assert(out@.map_values(|v: Vec<u8>| v@) =~= old_out + seq![c]);
    } else {
        assert(old_out + parts_from(p@, i as int, cur@) =~= old_out);
    }
    assert(out@.map_values(|v: Vec<u8>| v@) =~= path_parts(p@));
    proof {
        assert forall|k: int| 0 <= k < out@.len() implies #[trigger] out@[k]@ == path_parts(
            p@,
        )[k] by {
            assert(out@.map_values(|v: Vec<u8>| v@)[k] == out@[k]@);
        }
    }
    out
}

/// Whether two byte strings are equal.
pub fn bytes_eq(a: &[u8], b: &[u8]) -> (r: bool)
    ensures
        r == (a@ == b@),
{
    if a.len() != b.len() {
        return false;
    }
    let mut i: usize = 0;
    while i < a.len()
        invariant
            a@.len() == b@.len(),
            i <= a@.len(),
            forall|j: int| 0 <= j < i ==> a@[j] == b@[j],
        decreases a@.len() - i,
    {
        if a[i] != b[i] {
            return false;
        }
        i = i + 1;
    }
    assert(a@ =~= b@);
    true
}

/// A copy of `s[lo..hi]`.
pub fn copy_range(s: &[u8], lo: usize, hi: usize) -> (r: Vec<u8>)
    requires
        lo <= hi <= s@.len(),
    ensures
        r@ == s@.subrange(lo as int, hi as int),
{
    let mut out: Vec<u8> = Vec::new();
    let mut i = lo;
    while i < hi
        invariant
            lo <= i <= hi <= s@.len(),
            out@ == s@.subrange(lo as int, i as int),
        decreases hi - i,
    {
        out.push(s[i]);
        i = i + 1;
        assert(out@ =~= s@.subrange(lo as int, i as int));
    }
    out
}

/// The decimal digits of `n`, most significant first.
pub open spec fn dec_spec(n: nat) -> Seq<u8>
    decreases n,
{
    if n < 10 {
        seq![(0x30 + n) as u8]
    } else {
        dec_spec(n / 10).push((0x30 + n % 10) as u8)
    }
}

/// The decimal text of `n` is made of the digits `0` to `9`, reads back
/// as `n`, and starts with `0` only when `n` is zero.
pub proof fn law_dec_reads_back(n: nat)
    ensures
        dec_spec(n).len() >= 1,
        all_digits(dec_spec(n)),
        dec_value(dec_spec(n)) == n,
        dec_spec(n)[0] == 0x30 ==> n == 0,
    decreases n,
{
    if n < 10 {
        let s = dec_spec(n);
        assert(s.drop_last() =~= Seq::<u8>::empty());
        assert(dec_value(s.drop_last()) == 0);
    } else {
        law_dec_reads_back(n / 10);
        let s = dec_spec(n / 10);
        let d = (0x30 + n % 10) as u8;
        assert(s.push(d).drop_last() =~= s);
        assert(dec_spec(n) == s.push(d));
        assert forall|i: int| 0 <= i < s.push(d).len() implies 0x30 <= #[trigger] s.push(d)[i] && s.push(d)[i] <= 0x39 by {
            if i < s.len() {
                assert(s.push(d)[i] == s[i]);
            }
        }
        assert((n / 10) * 10 + n % 10 == n) by (nonlinear_arith);
        assert(s.push(d).last() == d);
        assert(d - 0x30 == n % 10);
        assert(dec_value(s.push(d)) == dec_value(s) * 10 + (d - 0x30) as nat);
        assert(n / 10 > 0);
    }
}

/// The ASCII hex digit (upper case) for `d < 16`.
pub open spec fn hex_digit(d: nat) -> u8 {
    if d < 10 {
        (0x30 + d) as u8
    } else {
        (0x41 + d - 10) as u8
    }
}

/// The upper-case hexadecimal digits of `n` without leading zeros.
pub open spec fn hex_spec(n: nat) -> Seq<u8>
    decreases n,
{
    if n < 16 {
        seq![hex_digit(n)]
    } else {
        hex_spec(n / 16).push(hex_digit(n % 16))
    }
}

/// Formats `n` in decimal.
pub fn fmt_dec(n: u64) -> (r: Vec<u8>)
    ensures
        r@ == dec_spec(n as nat),
    decreases n,
{
    if n < 10 {
        let mut v: Vec<u8> = Vec::new();
        v.push(0x30 + n as u8);
        assert(v@ =~= dec_spec(n as nat));
        v
    } else {
        let mut v = fmt_dec(n / 10);
        v.push(0x30 + (n % 10) as u8);
        v
    }
}

/// Formats `n` in upper-case hexadecimal without leading zeros.
pub fn fmt_hex(n: u64) -> (r: Vec<u8>)
    ensures
        r@ == hex_spec(n as nat),
    decreases n,
{
    let d = if n < 16 {
        n
    } else {
        n % 16
    };
    let c: u8 = if d < 10 {
        0x30 + d as u8
    } else {
        0x41 + (d - 10) as u8
    };
    if n < 16 {
        let mut v: Vec<u8> = Vec::new();
        v.push(c);
        assert(v@ =~= hex_spec(n as nat));
        v
    } else {
        let mut v = fmt_hex(n / 16);
        v.push(c);
        v
    }
}

/// Appends `b` to `v`.
pub fn append(v: &mut Vec<u8>, b: &[u8])
    ensures
        final(v)@ == old(v)@ + b@,
{
    let mut i: usize = 0;
    while i < b.len()
        invariant
            i <= b@.len(),
            v@ == old(v)@ + b@.subrange(0, i as int),
        decreases b@.len() - i,
    {
        v.push(b[i]);
        i = i + 1;
        assert(v@ =~= old(v)@ + b@.subrange(0, i as int));
    }
    assert(b@.subrange(0, b@.len() as int) =~= b@);
}

} // verus!
