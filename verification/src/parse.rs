//! Text handling for the shell, on UTF-8 byte strings: whitespace (the
//! Unicode White_Space characters), trimming, splitting into words and
//! lines, and decimal numbers.
use vstd::prelude::*;

verus! {

/// The bytes the shell's own `trim` removes: space, tab, CR and LF.
pub open spec fn is_trim_byte(b: u8) -> bool {
    b == 0x20 || b == 0x09 || b == 0x0D || b == 0x0A
}

/// A three-byte UTF-8 encoding of a White_Space character.
pub open spec fn is_ws3(a: u8, b: u8, c: u8) -> bool {
    ||| a == 0xE1 && b == 0x9A && c == 0x80
    ||| a == 0xE2 && b == 0x80 && ((0x80 <= c && c <= 0x8A) || c == 0xA8 || c == 0xA9 || c == 0xAF)
    ||| a == 0xE2 && b == 0x81 && c == 0x9F
    ||| a == 0xE3 && b == 0x80 && c == 0x80
}

pub open spec fn is_ascii_ws(b: u8) -> bool {
    b == 0x20 || (0x09 <= b && b <= 0x0D)
}

/// Length of the whitespace character that starts at `i`, or 0.
pub open spec fn ws_len(s: Seq<u8>, i: int) -> int {
    if i < 0 || i >= s.len() {
        0
    } else if is_ascii_ws(s[i]) {
        1
    } else if s[i] == 0xC2 && i + 1 < s.len() && (s[i + 1] == 0x85 || s[i + 1] == 0xA0) {
        2
    } else if i + 2 < s.len() && is_ws3(s[i], s[i + 1], s[i + 2]) {
        3
    } else {
        0
    }
}

/// Length of the whitespace character that ends at `j`, not reaching below `lo`, or 0.
pub open spec fn ws_end_len(s: Seq<u8>, lo: int, j: int) -> int {
    if j <= lo || j > s.len() {
        0
    } else if is_ascii_ws(s[j - 1]) {
        1
    } else if j - 2 >= lo && s[j - 2] == 0xC2 && (s[j - 1] == 0x85 || s[j - 1] == 0xA0) {
        2
    } else if j - 3 >= lo && is_ws3(s[j - 3], s[j - 2], s[j - 1]) {
        3
    } else {
        0
    }
}

/// The words of `s` from `i` on (maximal runs without whitespace); `cur`
/// is the word read so far.
pub open spec fn words_from(s: Seq<u8>, i: int, cur: Seq<u8>) -> Seq<Seq<u8>>
    decreases s.len() - i,
{
    if i >= s.len() {
        if cur.len() > 0 {
            seq![cur]
        } else {
            seq![]
        }
    } else if ws_len(s, i) > 0 {
        (if cur.len() > 0 {
            seq![cur]
        } else {
            seq![]
        }) + words_from(s, i + ws_len(s, i), seq![])
    } else {
        words_from(s, i + 1, cur.push(s[i]))
    }
}

/// The words of `s`, as `split_whitespace` gives them.
pub open spec fn words(s: Seq<u8>) -> Seq<Seq<u8>> {
    words_from(s, 0, seq![])
}

/// First index at or after `i` whose byte the shell's `trim` keeps.
pub open spec fn skip_front(s: Seq<u8>, i: int) -> int
    decreases s.len() - i,
{
    if 0 <= i < s.len() && is_trim_byte(s[i]) {
        skip_front(s, i + 1)
    } else {
        i
    }
}

/// Index just past the last byte before `j` (not below `lo`) that the
/// shell's `trim` keeps.
pub open spec fn skip_back(s: Seq<u8>, lo: int, j: int) -> int
    decreases j - lo,
{
    if lo < j <= s.len() && is_trim_byte(s[j - 1]) {
        skip_back(s, lo, j - 1)
    } else {
        j
    }
}

/// The shell's `trim`: no leading or trailing space, tab, CR or LF.
pub open spec fn trim_spec(s: Seq<u8>) -> Seq<u8> {
    let a = skip_front(s, 0);
    s.subrange(a, skip_back(s, a, s.len() as int))
}

/// First index at or after `i` that does not hold `c`.
pub open spec fn skip_front_c(s: Seq<u8>, i: int, c: u8) -> int
    decreases s.len() - i,
{
    if 0 <= i < s.len() && s[i] == c {
        skip_front_c(s, i + 1, c)
    } else {
        i
    }
}

/// Index just past the last byte before `j` (not below `lo`) that is not `c`.
pub open spec fn skip_back_c(s: Seq<u8>, lo: int, j: int, c: u8) -> int
    decreases j - lo,
{
    if lo < j <= s.len() && s[j - 1] == c {
        skip_back_c(s, lo, j - 1, c)
    } else {
        j
    }
}

/// `s` without leading and trailing bytes equal to `c` (`trim_matches(c)`).
pub open spec fn trim_c(s: Seq<u8>, c: u8) -> Seq<u8> {
    let a = skip_front_c(s, 0, c);
    s.subrange(a, skip_back_c(s, a, s.len() as int, c))
}

/// First index at or after `i` that starts no whitespace character.
pub open spec fn uskip_front(s: Seq<u8>, i: int) -> int
    decreases s.len() - i,
{
    if 0 <= i < s.len() && ws_len(s, i) > 0 {
        uskip_front(s, i + ws_len(s, i))
    } else {
        i
    }
}

/// Index just past the last character before `j` (not below `lo`) that is
/// not whitespace.
pub open spec fn uskip_back(s: Seq<u8>, lo: int, j: int) -> int
    decreases j - lo,
{
    if lo < j <= s.len() && ws_end_len(s, lo, j) > 0 {
        uskip_back(s, lo, j - ws_end_len(s, lo, j))
    } else {
        j
    }
}

/// `str::trim`: no leading or trailing whitespace character.
pub open spec fn utrim(s: Seq<u8>) -> Seq<u8> {
    let a = uskip_front(s, 0);
    s.subrange(a, uskip_back(s, a, s.len() as int))
}

/// Index of the first `c` at or after `i`.
pub open spec fn find_from(s: Seq<u8>, c: u8, i: int) -> Option<int>
    decreases s.len() - i,
{
    if i < 0 || i >= s.len() {
        None
    } else if s[i] == c {
        Some(i)
    } else {
        find_from(s, c, i + 1)
    }
}

pub open spec fn find(s: Seq<u8>, c: u8) -> Option<int> {
    find_from(s, c, 0)
}

/// A line without its final CR, if it has one.
pub open spec fn strip_cr(l: Seq<u8>) -> Seq<u8> {
    if l.len() > 0 && l.last() == 0x0D {
        l.drop_last()
    } else {
        l
    }
}

/// The lines of `s` from `start` on, as `str::lines` gives them: split
/// after each LF, the LF and a CR before it removed, no empty last line.
pub open spec fn lines_from(s: Seq<u8>, start: int) -> Seq<Seq<u8>>
    decreases s.len() - start,
{
    if start < 0 || start >= s.len() {
        seq![]
    } else {
        match find_from(s, 0x0A, start) {
            Some(k) => {
                if start <= k < s.len() {
                    seq![strip_cr(s.subrange(start, k))] + lines_from(s, k + 1)
                } else {
                    seq![]
                }
            },
            None => seq![s.subrange(start, s.len() as int)],
        }
    }
}

pub open spec fn lines(s: Seq<u8>) -> Seq<Seq<u8>> {
    lines_from(s, 0)
}

/// The value of a string of decimal digits.
pub open spec fn dec_value(d: Seq<u8>) -> nat
    decreases d.len(),
{
    if d.len() == 0 {
        0
    } else {
        dec_value(d.drop_last()) * 10 + (d.last() - 0x30) as nat
    }
}

pub open spec fn all_digits(d: Seq<u8>) -> bool {
    forall|i: int| 0 <= i < d.len() ==> 0x30 <= #[trigger] d[i] && d[i] <= 0x39
}

/// What `from_str` of an unsigned integer type reads: an optional `+`,
/// then one or more decimal digits, at most `max`.
pub open spec fn parse_dec(s: Seq<u8>, max: nat) -> Option<nat> {
    let body = if s.len() > 0 && s[0] == 0x2B {
        s.subrange(1, s.len() as int)
    } else {
        s
    };
    if body.len() > 0 && all_digits(body) && dec_value(body) <= max {
        Some(dec_value(body))
    } else {
        None
    }
}

/// Length of the whitespace character at `i` (see `ws_len`).
pub fn ws_len_at(s: &[u8], i: usize) -> (r: usize)
    ensures
        r == ws_len(s@, i as int),
{
    let n = s.len();
    if i >= n {
        return 0;
    }
    let a = s[i];
    if a == 0x20 || (0x09 <= a && a <= 0x0D) {
        return 1;
    }
    if a == 0xC2 && i + 1 < n {
        let b = s[i + 1];
        if b == 0x85 || b == 0xA0 {
            return 2;
        }
    }
    if n - i > 2 {
        let b = s[i + 1];
        let c = s[i + 2];
        if (a == 0xE1 && b == 0x9A && c == 0x80) || (a == 0xE2 && b == 0x80 && ((0x80 <= c && c <= 0x8A) || c == 0xA8
            || c == 0xA9 || c == 0xAF)) || (a == 0xE2 && b == 0x81 && c == 0x9F) || (a == 0xE3 && b == 0x80 && c
            == 0x80) {
            return 3;
        }
    }
    0
}

/// Length of the whitespace character ending at `j` (see `ws_end_len`).
fn ws_end_len_at(s: &[u8], lo: usize, j: usize) -> (r: usize)
    ensures
        r == ws_end_len(s@, lo as int, j as int),
{
    let n = s.len();
    if j <= lo || j > n {
        return 0;
    }
    let z = s[j - 1];
    if z == 0x20 || (0x09 <= z && z <= 0x0D) {
        return 1;
    }
    if j >= 2 && j - 2 >= lo {
        if s[j - 2] == 0xC2 && (z == 0x85 || z == 0xA0) {
            return 2;
        }
    }
    if j >= 3 && j - 3 >= lo {
        let a = s[j - 3];
        let b = s[j - 2];
        if (a == 0xE1 && b == 0x9A && z == 0x80) || (a == 0xE2 && b == 0x80 && ((0x80 <= z && z <= 0x8A) || z == 0xA8
            || z == 0xA9 || z == 0xAF)) || (a == 0xE2 && b == 0x81 && z == 0x9F) || (a == 0xE3 && b == 0x80 && z
            == 0x80) {
            return 3;
        }
    }
    0
}

/// The words of `s` (see `words`).
pub fn split_whitespace(s: &[u8]) -> (r: Vec<Vec<u8>>)
    ensures
        r@.map_values(|v: Vec<u8>| v@) == words(s@),
{
    let mut out: Vec<Vec<u8>> = Vec::new();
    let mut cur: Vec<u8> = Vec::new();
    let mut i: usize = 0;
    let n = s.len();
    while i < n
        invariant
            i <= n,
            n == s@.len(),
            out@.map_values(|v: Vec<u8>| v@) + words_from(s@, i as int, cur@) == words(s@),
        decreases n - i,
    {
        let ghost old_out = out@.map_values(|v: Vec<u8>| v@);
        let ghost old_cur = cur@;
        let w = ws_len_at(s, i);
        if w > 0 {
            if cur.len() > 0 {
                out.push(cur);
                cur = Vec::new();
                assert(out@.map_values(|v: Vec<u8>| v@) =~= old_out + seq![old_cur]);
                assert(old_out + seq![old_cur] + words_from(s@, i + w, seq![]) =~= old_out + (seq![old_cur]
                    + words_from(s@, i + w, seq![])));
            } else {
                assert(words_from(s@, i as int, old_cur) =~= seq![] + words_from(s@, i + w, seq![]));
                assert(cur@ =~= seq![]);
            }
            i = i + w;
        } else {
            cur.push(s[i]);
            i = i + 1;
        }
    }
    let ghost old_out = out@.map_values(|v: Vec<u8>| v@);
    if cur.len() > 0 {
        let ghost c = cur@;
        out.push(cur);
        assert(out@.map_values(|v: Vec<u8>| v@) =~= old_out + seq![c]);
    } else {
        assert(old_out + words_from(s@, i as int, cur@) =~= old_out);
    }
    out
}

/// The shell's `trim` (see `trim_spec`).
pub fn trim(s: &[u8]) -> (r: Vec<u8>)
    ensures
        r@ == trim_spec(s@),
{
    let n = s.len();
    let mut a: usize = 0;
    while a < n && (s[a] == 0x20 || s[a] == 0x09 || s[a] == 0x0D || s[a] == 0x0A)
        invariant
            a <= n,
            n == s@.len(),
            skip_front(s@, 0) == skip_front(s@, a as int),
        decreases n - a,
    {
        a = a + 1;
    }
    let mut b: usize = n;
    while b > a && (s[b - 1] == 0x20 || s[b - 1] == 0x09 || s[b - 1] == 0x0D || s[b - 1] == 0x0A)
        invariant
            a <= b <= n,
            n == s@.len(),
            skip_front(s@, 0) == a,
            skip_back(s@, a as int, n as int) == skip_back(s@, a as int, b as int),
        decreases b - a,
    {
        b = b - 1;
    }
    crate::text::copy_range(s, a, b)
}

/// `s` without leading and trailing bytes equal to `c` (`trim_matches(c)`).
pub fn trim_byte(s: &[u8], c: u8) -> (r: Vec<u8>)
    ensures
        r@ == trim_c(s@, c),
{
    let n = s.len();
    let mut a: usize = 0;
    while a < n && s[a] == c
        invariant
            a <= n,
            n == s@.len(),
            skip_front_c(s@, 0, c) == skip_front_c(s@, a as int, c),
        decreases n - a,
    {
        a = a + 1;
    }
    let mut b: usize = n;
    while b > a && s[b - 1] == c
        invariant
            a <= b <= n,
            n == s@.len(),
            skip_front_c(s@, 0, c) == a,
            skip_back_c(s@, a as int, n as int, c) == skip_back_c(s@, a as int, b as int, c),
        decreases b - a,
    {
        b = b - 1;
    }
    crate::text::copy_range(s, a, b)
}

/// `str::trim` (see `utrim`).
pub fn utrim_exec(s: &[u8]) -> (r: Vec<u8>)
    ensures
        r@ == utrim(s@),
{
    let n = s.len();
    let mut a: usize = 0;
    while a < n && ws_len_at(s, a) > 0
        invariant
            a <= n,
            n == s@.len(),
            uskip_front(s@, 0) == uskip_front(s@, a as int),
        decreases n - a,
    {
        a = a + ws_len_at(s, a);
    }
    let mut b: usize = n;
    while b > a && ws_end_len_at(s, a, b) > 0
        invariant
            a <= b <= n,
            n == s@.len(),
            uskip_front(s@, 0) == a,
            uskip_back(s@, a as int, n as int) == uskip_back(s@, a as int, b as int),
        decreases b - a,
    {
        b = b - ws_end_len_at(s, a, b);
    }
    crate::text::copy_range(s, a, b)
}

/// Index of the first `c` in `s` (see `find`).
pub fn find_byte(s: &[u8], c: u8) -> (r: Option<usize>)
    ensures
        match r {
            Some(i) => find(s@, c) == Some(i as int) && i < s@.len() && s@[i as int] == c,
            None => find(s@, c) is None,
        },
{
    proof {
        lemma_find_from_bounds(s@, c, 0);
    }
    let n = s.len();
    let mut i: usize = 0;
    while i < n
        invariant
            i <= n,
            n == s@.len(),
            find(s@, c) == find_from(s@, c, i as int),
        decreases n - i,
    {
        if s[i] == c {
            return Some(i);
        }
        i = i + 1;
    }
    None
}

/// Whether `s` starts with `p`.
pub fn starts_with(s: &[u8], p: &[u8]) -> (r: bool)
    ensures
        r == (p@.len() <= s@.len() && s@.subrange(0, p@.len() as int) == p@),
{
    if p.len() > s.len() {
        return false;
    }
    let r = crate::text::bytes_eq(vstd::slice::slice_subrange(s, 0, p.len()), p);
    r
}

/// Reads an unsigned decimal number of at most `max` (see `parse_dec`).
pub fn parse_dec_exec(s: &[u8], max: u64) -> (r: Option<u64>)
    ensures
        match r {
            Some(v) => parse_dec(s@, max as nat) == Some(v as nat),
            None => parse_dec(s@, max as nat) is None,
        },
{
    let n = s.len();
    let start: usize = if n > 0 && s[0] == 0x2B {
        1
    } else {
        0
    };
    let ghost body = if s@.len() > 0 && s@[0] == 0x2B {
        s@.subrange(1, s@.len() as int)
    } else {
        s@
    };
    assert(body =~= s@.subrange(start as int, n as int));
    if start >= n {
        return None;
    }
    let mut v: u64 = 0;
    let mut i: usize = start;
    while i < n
        invariant
            start <= i <= n,
            n == s@.len(),
            start < n,
            body == s@.subrange(start as int, n as int),
            body == (if s@.len() > 0 && s@[0] == 0x2B {
                s@.subrange(1, s@.len() as int)
            } else {
                s@
            }),
            all_digits(s@.subrange(start as int, i as int)),
            v == dec_value(s@.subrange(start as int, i as int)),
            v <= max,
        decreases n - i,
    {
        let d = s[i];
        assert(s@.subrange(start as int, i + 1).drop_last() =~= s@.subrange(start as int, i as int));
        if d < 0x30 || d > 0x39 {
            proof {
                assert(body[i - start] == d);
                assert(!(0x30 <= body[i - start] && body[i - start] <= 0x39));
                assert(!all_digits(body));
                assert(parse_dec(s@, max as nat) is None);
            }
            return None;
        }
        let dv = (d - 0x30) as u64;
        if dv > max || v > (max - dv) / 10 {
            proof {
                assert(v * 10 + dv > max) by (nonlinear_arith)
                    requires
                        dv > max || (dv <= max && v > (max - dv) / 10),
                        v >= 0,
                ;
                assert(s@.subrange(start as int, n as int).subrange(0, i - start) =~= s@.subrange(start as int, i as int));
                lemma_dec_grows(s@.subrange(start as int, n as int), i - start + 1, v as nat, max as nat, dv as nat);
            }
            return None;
        }
        v = v * 10 + dv;
        i = i + 1;
        proof {
            assert forall|q: int| 0 <= q < s@.subrange(start as int, i as int).len() implies 0x30 <= #[trigger] s@.subrange(start as int, i as int)[q] && s@.subrange(start as int, i as int)[q] <= 0x39 by {
                if q < i - 1 - start {
                    assert(s@.subrange(start as int, i as int)[q] == s@.subrange(start as int, (i - 1) as int)[q]);
                }
            }
        }
    }
    assert(s@.subrange(start as int, n as int) =~= body);
    Some(v)
}

/// Once the digits read so far are worth more than `max` allows, the whole
/// number is either not all digits or too large.
proof fn lemma_dec_grows(body: Seq<u8>, k: int, v: nat, max: nat, dv: nat)
    requires
        1 <= k <= body.len(),
        v == dec_value(body.subrange(0, k - 1)),
        dv == body[k - 1] - 0x30,
        0 <= dv <= 9,
        v * 10 + dv > max,
    ensures
        !(all_digits(body) && dec_value(body) <= max),
    decreases body.len() - k,
{
    assert(body.subrange(0, k).drop_last() =~= body.subrange(0, k - 1));
    assert(dec_value(body.subrange(0, k)) == v * 10 + dv);
    lemma_dec_monotone(body, k);
}

/// Reading more digits never makes the value smaller.
proof fn lemma_dec_monotone(body: Seq<u8>, k: int)
    requires
        0 <= k <= body.len(),
    ensures
        all_digits(body) ==> dec_value(body.subrange(0, k)) <= dec_value(body),
    decreases body.len() - k,
{
    if k < body.len() {
        lemma_dec_monotone(body, k + 1);
        assert(body.subrange(0, k + 1).drop_last() =~= body.subrange(0, k));
    } else {
        assert(body.subrange(0, k) =~= body);
    }
}


pub proof fn lemma_find_from_bounds(s: Seq<u8>, c: u8, i: int)
    ensures
        find_from(s, c, i) matches Some(k) ==> i <= k < s.len() && s[k] == c,
    decreases s.len() - i,
{
    if 0 <= i < s.len() && s[i] != c {
        lemma_find_from_bounds(s, c, i + 1);
    }
}

/// Index of the first `c` at or after `i` (see `find_from`).
fn find_byte_from(s: &[u8], c: u8, i: usize) -> (r: Option<usize>)
    ensures
        match r {
            Some(k) => find_from(s@, c, i as int) == Some(k as int),
            None => find_from(s@, c, i as int) is None,
        },
{
    let n = s.len();
    let mut k: usize = i;
    while k < n
        invariant
            i <= k,
            n == s@.len(),
            find_from(s@, c, i as int) == find_from(s@, c, k as int),
        decreases n - k,
    {
        if s[k] == c {
            return Some(k);
        }
        k = k + 1;
    }
    None
}

/// The lines of `s` (see `lines`).
pub fn split_lines(s: &[u8]) -> (r: Vec<Vec<u8>>)
    ensures
        r@.map_values(|v: Vec<u8>| v@) == lines(s@),
{
    let n = s.len();
    let mut out: Vec<Vec<u8>> = Vec::new();
    let mut start: usize = 0;
    while start < n
        invariant
            start <= n,
            n == s@.len(),
            out@.map_values(|v: Vec<u8>| v@) + lines_from(s@, start as int) == lines(s@),
        decreases n - start,
    {
        let ghost before = out@.map_values(|v: Vec<u8>| v@);
        proof {
            lemma_find_from_bounds(s@, 0x0A, start as int);
        }
        match find_byte_from(s, 0x0A, start) {
            Some(k) => {
                let mut line = crate::text::copy_range(s, start, k);
                if line.len() > 0 && line[line.len() - 1] == 0x0D {
                    line.pop();
                }
                assert(line@ == strip_cr(s@.subrange(start as int, k as int)));
                out.push(line);
                assert(out@.map_values(|v: Vec<u8>| v@) =~= before + seq![strip_cr(s@.subrange(start as int, k as int))]);
                assert(before + lines_from(s@, start as int) =~= out@.map_values(|v: Vec<u8>| v@) + lines_from(s@, k + 1));
                start = k + 1;
            },
            None => {
                let line = crate::text::copy_range(s, start, n);
                out.push(line);
                assert(out@.map_values(|v: Vec<u8>| v@) =~= before + seq![s@.subrange(start as int, n as int)]);
                assert(lines_from(s@, n as int) =~= seq![]);
                assert(out@.map_values(|v: Vec<u8>| v@) + lines_from(s@, n as int) =~= before + lines_from(s@, start as int));
                start = n;
            },
        }
    }
    assert(lines_from(s@, start as int) =~= seq![]);
    assert(out@.map_values(|v: Vec<u8>| v@) + seq![] =~= out@.map_values(|v: Vec<u8>| v@));
    out
}

} // verus!
