//! The shell that runs as node 0: path resolution, command parsing, and
//! what each command asks of the kernel and prints.
//!
//! A command is planned in two steps: `run_cmd` parses the line and gives
//! the output that needs no system call plus at most one system call to
//! make; `finish_cmd` turns that call's reply into the rest of the output.
use vstd::prelude::*;
use vstd::string::StringSliceAdditionalSpecFns;
use vstd::utf8::valid_utf8;

use crate::parse::{
    find, find_byte, parse_dec, parse_dec_exec, split_whitespace, starts_with, trim, trim_byte, trim_c,
    trim_spec, uskip_back, uskip_front, utrim, utrim_exec, words, ws_end_len, ws_len,
};
use crate::text::{append, copy_range, is_utf8, parts_from, path_parts, split_path, SLASH};

verus! {

pub const HISTORY_MAX: usize = 16;
pub const LINE_MAX: usize = 128;
/// Size of the buffer system-call output is read into.
pub const OUT_BUF: u64 = 512;
/// How many 10 ms ticks the welcome screen waits for a key.
pub const WAIT_TICKS: u32 = 400;
/// Lines `head` and `tail` show when no count is given.
pub const DEFAULT_LINES: u64 = 10;

pub const HELP_TEXT: &'static str = "\r\n  TS-OS Commands\r\n  --------------\r\n  help       Show this command list\r\n  about      Strongest Node philosophy and status\r\n  ps         List all processes (nodes) with activation/tension\r\n  spawn      Spawn a new process (node emerges)\r\n  echo TEXT  Print TEXT to screen\r\n  echo \"TEXT\" > PATH  Write TEXT to file\r\n  ls [PATH]  List directory (default: cwd)\r\n  cat PATH   Read and display file contents\r\n  touch PATH   Create empty file\r\n  mkdir PATH   Create directory\r\n  rm PATH    Remove file or empty directory\r\n  cd [PATH]  Change directory (default: /)\r\n  pwd        Print working directory\r\n  getpid     Print process ID\r\n  wait       Wait for a child process to exit\r\n  kill PID   Send SIGKILL (9) to process\r\n  wc [FILE]  Word/line/char count\r\n  head [FILE] [N]  First N lines (default 10)\r\n  tail [FILE] [N]  Last N lines (default 10)\r\n  cmd1 | cmd2  Pipe output of cmd1 to input of cmd2\r\n  cmd > FILE  Redirect stdout to file\r\n  cmd < FILE  Redirect stdin from file\r\n  exit       Exit current process\r\n  shutdown   Checkpoint filesystem and halt\r\n\r\n";

pub const ABOUT_TEXT: &'static str = "\r\n  TS-OS - Strongest Node Operating System\r\n  ----------------------------------------\r\n  The kernel is the Strongest Node. All other components\r\n  exist as secondary nodes that dynamically emerge,\r\n  strengthen, spread activation, detect tension, decay,\r\n  merge, or get pruned.\r\n\r\n  Philosophy (from BoggersTheCIG):\r\n  - Strongest Node drives everything\r\n  - Secondary nodes = processes\r\n  - Emergence: nodes spawn when tension is high\r\n  - Tension resolution: bugs and inefficiency are tensions\r\n\r\n  Current status: VGA + keyboard, Strongest Node scheduler,\r\n  dynamic process spawning, in-RAM filesystem.\r\n\r\n";

pub const WELCOME_TEXT: &'static str = "\r\n  ==========================================\r\n            T S - O S\r\n  ==========================================\r\n\r\n  This is a living operating system powered by the\r\n  Strongest Node Framework from BoggersTheCIG.\r\n\r\n  Basic commands:\r\n    help   - show full command list\r\n    ps     - list processes (nodes)\r\n    spawn  - spawn new process\r\n    echo   - echo text (or echo \"x\" > file)\r\n    ls     - list directory\r\n    cat    - read file\r\n    touch  - create file\r\n    mkdir  - create directory\r\n    shutdown - checkpoint and halt\r\n\r\n  Type 'help' for full command list.\r\n  Nodes emerge automatically based on system tension.\r\n\r\n  Press any key to continue, or wait 4 seconds...\r\n\r\n";

/// A system call the shell makes.
#[derive(Debug, PartialEq, Eq)]
pub enum Request {
    Write(Vec<u8>),
    Spawn,
    Ls { path: Vec<u8>, out_len: u64 },
    Cat { path: Vec<u8>, out_len: u64 },
    Ps { out_len: u64 },
    Touch(Vec<u8>),
    Mkdir(Vec<u8>),
    Rm(Vec<u8>),
    WriteFile { path: Vec<u8>, data: Vec<u8> },
    GetPid,
    Chdir(Vec<u8>),
    Wait,
    Kill { pid: u32, sig: u32 },
    Exit(u64),
    Shutdown,
}

/// A request with its byte strings as sequences.
pub enum RequestView {
    Write(Seq<u8>),
    Spawn,
    Ls { path: Seq<u8>, out_len: u64 },
    Cat { path: Seq<u8>, out_len: u64 },
    Ps { out_len: u64 },
    Touch(Seq<u8>),
    Mkdir(Seq<u8>),
    Rm(Seq<u8>),
    WriteFile { path: Seq<u8>, data: Seq<u8> },
    GetPid,
    Chdir(Seq<u8>),
    Wait,
    Kill { pid: u32, sig: u32 },
    Exit(u64),
    Shutdown,
}

impl View for Request {
    type V = RequestView;

    open spec fn view(&self) -> RequestView {
        match self {
            Request::Write(b) => RequestView::Write(b@),
            Request::Spawn => RequestView::Spawn,
            Request::Ls { path, out_len } => RequestView::Ls { path: path@, out_len: *out_len },
            Request::Cat { path, out_len } => RequestView::Cat { path: path@, out_len: *out_len },
            Request::Ps { out_len } => RequestView::Ps { out_len: *out_len },
            Request::Touch(p) => RequestView::Touch(p@),
            Request::Mkdir(p) => RequestView::Mkdir(p@),
            Request::Rm(p) => RequestView::Rm(p@),
            Request::WriteFile { path, data } => RequestView::WriteFile { path: path@, data: data@ },
            Request::GetPid => RequestView::GetPid,
            Request::Chdir(p) => RequestView::Chdir(p@),
            Request::Wait => RequestView::Wait,
            Request::Kill { pid, sig } => RequestView::Kill { pid: *pid, sig: *sig },
            Request::Exit(s) => RequestView::Exit(*s),
            Request::Shutdown => RequestView::Shutdown,
        }
    }
}

pub open spec fn reqs(v: Seq<Request>) -> Seq<RequestView> {
    v.map_values(|r: Request| r@)
}

pub open spec fn crlf() -> Seq<u8> {
    seq![0x0Du8, 0x0Au8]
}

/// `cur` after the segments of a relative path: "." stays, ".." goes up
/// (not above the root), anything else goes down.
pub open spec fn apply_segs(cur: Seq<Seq<u8>>, segs: Seq<Seq<u8>>) -> Seq<Seq<u8>>
    decreases segs.len(),
{
    if segs.len() == 0 {
        cur
    } else {
        let seg = segs[0];
        let next = if seg == seq![0x2Eu8] {
            cur
        } else if seg == seq![0x2Eu8, 0x2Eu8] {
            if cur.len() > 0 {
                cur.drop_last()
            } else {
                cur
            }
        } else {
            cur.push(seg)
        };
        apply_segs(next, segs.drop_first())
    }
}

/// "/a/b" for the components a, b.
pub open spec fn join_abs(parts: Seq<Seq<u8>>) -> Seq<u8>
    decreases parts.len(),
{
    if parts.len() == 0 {
        seq![]
    } else {
        join_abs(parts.drop_last()) + seq![SLASH] + parts.last()
    }
}

/// The absolute path `p` names with `cwd` as working directory: `p`
/// (without surrounding whitespace) when it starts with "/", else the
/// components of `cwd` followed by those of `p`, with "." and ".." applied.
pub open spec fn resolve_path_spec(cwd: Seq<u8>, p: Seq<u8>) -> Seq<u8> {
    let q = utrim(p);
    if q.len() > 0 && q[0] == SLASH {
        q
    } else {
        let parts = apply_segs(path_parts(cwd), path_parts(q));
        if parts.len() == 0 {
            seq![SLASH]
        } else {
            join_abs(parts)
        }
    }
}

fn bytes_of(s: &str) -> (r: Vec<u8>)
    ensures
        r@ == s.spec_bytes(),
{
    let b = s.as_bytes();
    copy_range(b, 0, b.len())
}

fn is_lit(s: &[u8], lit: &str) -> (r: bool)
    ensures
        r == (s@ == lit.spec_bytes()),
{
    crate::text::bytes_eq(s, lit.as_bytes())
}

/// Resolves `p` against the working directory `cwd` (see `resolve_path_spec`).
pub fn resolve_path(cwd: &[u8], p: &[u8]) -> (r: Vec<u8>)
    ensures
        r@ == resolve_path_spec(cwd@, p@),
{
    let q = utrim_exec(p);
    if q.len() > 0 && q[0] == SLASH {
        return q;
    }
    let cparts = split_path(cwd);
    let segs = split_path(q.as_slice());
    let ghost sv = segs@.map_values(|v: Vec<u8>| v@);
    let mut parts: Vec<Vec<u8>> = cparts;
    proof {
        assert(parts@.map_values(|v: Vec<u8>| v@) =~= path_parts(cwd@));
        assert(sv =~= path_parts(q@));
        assert(sv.skip(0) =~= sv);
    }
    let dot = [0x2Eu8];
    let dotdot = [0x2Eu8, 0x2Eu8];
    let mut k: usize = 0;
    while k < segs.len()
        invariant
            k <= segs@.len(),
            sv == segs@.map_values(|v: Vec<u8>| v@),
            dot@ == seq![0x2Eu8],
            dotdot@ == seq![0x2Eu8, 0x2Eu8],
            apply_segs(parts@.map_values(|v: Vec<u8>| v@), sv.skip(k as int)) == apply_segs(path_parts(cwd@), sv),
        decreases segs@.len() - k,
    {
        let ghost pv = parts@.map_values(|v: Vec<u8>| v@);
        let seg = &segs[k];
        assert(sv.skip(k as int)[0] == seg@);
        assert(sv.skip(k as int).drop_first() =~= sv.skip(k + 1));
        if crate::text::bytes_eq(seg.as_slice(), dot.as_slice()) {
        } else if crate::text::bytes_eq(seg.as_slice(), dotdot.as_slice()) {
            if parts.len() > 0 {
                parts.pop();
                assert(parts@.map_values(|v: Vec<u8>| v@) =~= pv.drop_last());
            }
        } else {
            let c = copy_range(seg.as_slice(), 0, seg.len());
            assert(c@ =~= seg@);
            parts.push(c);
            assert(parts@.map_values(|v: Vec<u8>| v@) =~= pv.push(seg@));
        }
        k = k + 1;
    }
    let ghost fin = parts@.map_values(|v: Vec<u8>| v@);
    assert(sv.skip(k as int) =~= seq![]);
    if parts.len() == 0 {
        let mut r: Vec<u8> = Vec::new();
        r.push(SLASH);
        assert(r@ =~= seq![SLASH]);
        return r;
    }
    let mut out: Vec<u8> = Vec::new();
    let mut i: usize = 0;
    while i < parts.len()
        invariant
            i <= parts@.len(),
            fin == parts@.map_values(|v: Vec<u8>| v@),
            out@ == join_abs(fin.subrange(0, i as int)),
        decreases parts@.len() - i,
    {
        out.push(SLASH);
        append(&mut out, parts[i].as_slice());
        proof {
            let s = fin.subrange(0, i + 1);
            assert(s.drop_last() =~= fin.subrange(0, i as int));
            assert(s.last() == parts@[i as int]@);
        }
        i = i + 1;
    }
    assert(fin.subrange(0, i as int) =~= fin);
    out
}

/// A resolved path is absolute: it starts with "/", whatever the working
/// directory and the argument.
pub proof fn law_resolved_path_is_absolute(cwd: Seq<u8>, p: Seq<u8>)
    ensures
        resolve_path_spec(cwd, p).len() > 0,
        resolve_path_spec(cwd, p)[0] == SLASH,
{
    let q = utrim(p);
    if !(q.len() > 0 && q[0] == SLASH) {
        let parts = apply_segs(path_parts(cwd), path_parts(q));
        if parts.len() > 0 {
            lemma_join_abs_starts(parts);
        }
    }
}

proof fn lemma_join_abs_starts(parts: Seq<Seq<u8>>)
    requires
        parts.len() > 0,
    ensures
        join_abs(parts).len() > 0,
        join_abs(parts)[0] == SLASH,
    decreases parts.len(),
{
    if parts.len() > 1 {
        lemma_join_abs_starts(parts.drop_last());
    } else {
        assert(join_abs(parts.drop_last()) == Seq::<u8>::empty());
    }
}

/// A component as `path_parts` gives them: not empty, without "/".
pub open spec fn plain_part(s: Seq<u8>) -> bool {
    &&& s.len() > 0
    &&& forall|i: int| 0 <= i < s.len() ==> s[i] != SLASH
}

/// A clean component: plain, and neither "." nor "..".
pub open spec fn clean_part(s: Seq<u8>) -> bool {
    &&& plain_part(s)
    &&& s != seq![0x2Eu8]
    &&& s != seq![0x2Eu8, 0x2Eu8]
}

proof fn lemma_parts_plain(p: Seq<u8>, i: int, cur: Seq<u8>)
    requires
        forall|k: int| 0 <= k < cur.len() ==> cur[k] != SLASH,
    ensures
        forall|k: int| 0 <= k < parts_from(p, i, cur).len() ==> plain_part(#[trigger] parts_from(p, i, cur)[k]),
    decreases p.len() - i,
{
    let pre = if cur.len() > 0 {
        seq![cur]
    } else {
        Seq::<Seq<u8>>::empty()
    };
    if i >= p.len() {
        assert(parts_from(p, i, cur) == pre);
        assert forall|k: int| 0 <= k < pre.len() implies plain_part(#[trigger] pre[k]) by {
            assert(pre[k] == cur);
        }
    } else if p[i] == SLASH {
        lemma_parts_plain(p, i + 1, seq![]);
        let rest = parts_from(p, i + 1, seq![]);
        assert(parts_from(p, i, cur) == pre + rest);
        assert forall|k: int| 0 <= k < parts_from(p, i, cur).len() implies plain_part(
            #[trigger] parts_from(p, i, cur)[k],
        ) by {
            if k >= pre.len() {
                assert((pre + rest)[k] == rest[k - pre.len()]);
                assert(plain_part(rest[k - pre.len()]));
            } else {
                assert((pre + rest)[k] == cur);
            }
        }
    } else {
        let c2 = cur.push(p[i]);
        assert forall|k: int| 0 <= k < c2.len() implies c2[k] != SLASH by {
            if k < cur.len() {
                assert(c2[k] == cur[k]);
            }
        }
        lemma_parts_plain(p, i + 1, c2);
        assert(parts_from(p, i, cur) == parts_from(p, i + 1, c2));
    }
}

proof fn lemma_parts_shift(x: Seq<u8>, y: Seq<u8>, k: int, c: Seq<u8>)
    requires
        0 <= k,
    ensures
        parts_from(x + y, x.len() + k, c) == parts_from(y, k, c),
    decreases y.len() - k,
{
    if k < y.len() {
        assert((x + y)[x.len() + k] == y[k]);
        if y[k] == SLASH {
            lemma_parts_shift(x, y, k + 1, seq![]);
        } else {
            lemma_parts_shift(x, y, k + 1, c.push(y[k]));
        }
    }
}

/// Splitting at a "/" splits the components.
proof fn lemma_parts_split(x: Seq<u8>, y: Seq<u8>, i: int, cur: Seq<u8>)
    requires
        0 <= i <= x.len(),
        y.len() > 0,
        y[0] == SLASH,
    ensures
        parts_from(x + y, i, cur) == parts_from(x, i, cur) + parts_from(y, 0, seq![]),
    decreases x.len() - i,
{
    let pre = if cur.len() > 0 {
        seq![cur]
    } else {
        Seq::<Seq<u8>>::empty()
    };
    let tail = parts_from(y, 0, seq![]);
    if i == x.len() {
        assert((x + y)[i] == SLASH);
        lemma_parts_shift(x, y, 1, seq![]);
        assert(tail == Seq::<Seq<u8>>::empty() + parts_from(y, 1, seq![]));
        assert(Seq::<Seq<u8>>::empty() + parts_from(y, 1, seq![]) =~= parts_from(y, 1, seq![]));
        assert(parts_from(x, i, cur) == pre);
    } else {
        assert((x + y)[i] == x[i]);
        if x[i] == SLASH {
            lemma_parts_split(x, y, i + 1, seq![]);
            assert(pre + (parts_from(x, i + 1, seq![]) + tail) =~= (pre + parts_from(x, i + 1, seq![])) + tail);
        } else {
            lemma_parts_split(x, y, i + 1, cur.push(x[i]));
        }
    }
}

proof fn lemma_parts_tail(s: Seq<u8>, i: int, cur: Seq<u8>)
    requires
        0 <= i <= s.len(),
        forall|k: int| i <= k < s.len() ==> s[k] != SLASH,
        cur.len() + s.len() - i > 0,
    ensures
        parts_from(s, i, cur) == seq![cur + s.subrange(i, s.len() as int)],
    decreases s.len() - i,
{
    if i < s.len() {
        lemma_parts_tail(s, i + 1, cur.push(s[i]));
        assert(cur.push(s[i]) + s.subrange(i + 1, s.len() as int) =~= cur + s.subrange(i, s.len() as int));
    } else {
        assert(cur + s.subrange(i, i) =~= cur);
    }
}

/// Joining plain components and splitting the result gives them back.
proof fn lemma_join_parts(parts: Seq<Seq<u8>>)
    requires
        forall|k: int| 0 <= k < parts.len() ==> plain_part(#[trigger] parts[k]),
    ensures
        path_parts(join_abs(parts)) == parts,
    decreases parts.len(),
{
    if parts.len() > 0 {
        let init = parts.drop_last();
        let last = parts.last();
        assert forall|k: int| 0 <= k < init.len() implies plain_part(#[trigger] init[k]) by {
            assert(init[k] == parts[k]);
        }
        lemma_join_parts(init);
        let x = join_abs(init);
        let y = seq![SLASH] + last;
        assert(x + seq![SLASH] + last =~= x + y);
        lemma_parts_split(x, y, 0, seq![]);
        assert(plain_part(parts[parts.len() - 1]));
        lemma_parts_tail(y, 1, seq![]);
        assert(Seq::<u8>::empty() + y.subrange(1, y.len() as int) =~= last);
        assert(parts_from(y, 0, seq![]) == Seq::<Seq<u8>>::empty() + parts_from(y, 1, seq![]));
        assert(parts_from(y, 0, seq![]) =~= seq![last]);
        assert(init + seq![last] =~= parts);
    } else {
        assert(join_abs(parts) == Seq::<u8>::empty());
    }
}

proof fn lemma_apply_clean(cur: Seq<Seq<u8>>, segs: Seq<Seq<u8>>)
    requires
        forall|k: int| 0 <= k < cur.len() ==> clean_part(#[trigger] cur[k]),
        forall|k: int| 0 <= k < segs.len() ==> plain_part(#[trigger] segs[k]),
    ensures
        forall|k: int| 0 <= k < apply_segs(cur, segs).len() ==> clean_part(#[trigger] apply_segs(cur, segs)[k]),
    decreases segs.len(),
{
    if segs.len() > 0 {
        let seg = segs[0];
        let next = if seg == seq![0x2Eu8] {
            cur
        } else if seg == seq![0x2Eu8, 0x2Eu8] {
            if cur.len() > 0 {
                cur.drop_last()
            } else {
                cur
            }
        } else {
            cur.push(seg)
        };
        assert(plain_part(segs[0]));
        assert forall|k: int| 0 <= k < next.len() implies clean_part(#[trigger] next[k]) by {
            if seg != seq![0x2Eu8] && seg != seq![0x2Eu8, 0x2Eu8] {
                if k < cur.len() {
                    assert(next[k] == cur[k]);
                }
            } else if seg == seq![0x2Eu8, 0x2Eu8] && cur.len() > 0 {
                assert(next[k] == cur[k]);
            }
        }
        let rest = segs.drop_first();
        assert forall|k: int| 0 <= k < rest.len() implies plain_part(#[trigger] rest[k]) by {
            assert(rest[k] == segs[k + 1]);
        }
        assert(apply_segs(cur, segs) == apply_segs(next, rest));
        lemma_apply_clean(next, rest);
    }
}

/// A relative path resolves to a clean path: when no component of the
/// working directory is "." or "..", the components of the result are
/// those of the working directory with the argument's applied (see
/// `apply_segs`), and none of them is empty, "." or "..".
pub proof fn law_resolved_path_is_clean(cwd: Seq<u8>, p: Seq<u8>)
    requires
        forall|k: int| 0 <= k < path_parts(cwd).len() ==> clean_part(#[trigger] path_parts(cwd)[k]),
        !(utrim(p).len() > 0 && utrim(p)[0] == SLASH),
    ensures
        path_parts(resolve_path_spec(cwd, p)) == apply_segs(path_parts(cwd), path_parts(utrim(p))),
        forall|k: int|
            0 <= k < path_parts(resolve_path_spec(cwd, p)).len() ==> clean_part(
                #[trigger] path_parts(resolve_path_spec(cwd, p))[k],
            ),
{
    let q = utrim(p);
    lemma_parts_plain(q, 0, seq![]);
    lemma_apply_clean(path_parts(cwd), path_parts(q));
    let parts = apply_segs(path_parts(cwd), path_parts(q));
    assert forall|k: int| 0 <= k < parts.len() implies plain_part(#[trigger] parts[k]) by {
        assert(clean_part(parts[k]));
    }
    lemma_join_parts(parts);
    if parts.len() == 0 {
        let r = seq![SLASH];
        assert(parts_from(r, 1, seq![]) == Seq::<Seq<u8>>::empty());
        assert(parts_from(r, 0, seq![]) == Seq::<Seq<u8>>::empty() + parts_from(r, 1, seq![]));
        assert(path_parts(r) =~= parts);
    }
}

/// No whitespace character starts anywhere in `s`.
pub open spec fn no_ws(s: Seq<u8>) -> bool {
    forall|i: int| 0 <= i < s.len() ==> #[trigger] ws_len(s, i) == 0
}

/// Text without whitespace is its own trim.
proof fn lemma_utrim_no_ws(s: Seq<u8>)
    requires
        no_ws(s),
    ensures
        utrim(s) == s,
{
    let n = s.len() as int;
    if n > 0 {
        assert(ws_len(s, 0) == 0);
        assert(ws_len(s, n - 1) == 0);
        if n >= 2 {
            assert(ws_len(s, n - 2) == 0);
        }
        if n >= 3 {
            assert(ws_len(s, n - 3) == 0);
        }
        assert(ws_end_len(s, 0, n) == 0);
    }
    assert(uskip_front(s, 0) == 0);
    assert(uskip_back(s, 0, n) == n);
    assert(s.subrange(0, n) =~= s);
}

/// Whitespace ends `s`.
pub open spec fn ends_in_ws(s: Seq<u8>) -> bool {
    ws_end_len(s, 0, s.len() as int) > 0
}

/// A path that starts with "/" and does not end in whitespace is its own trim.
proof fn lemma_utrim_slash_start(r: Seq<u8>)
    requires
        r.len() > 0,
        r[0] == SLASH,
        !ends_in_ws(r),
    ensures
        utrim(r) == r,
{
    assert(ws_len(r, 0) == 0);
    assert(uskip_front(r, 0) == 0);
    assert(uskip_back(r, 0, r.len() as int) == r.len());
    assert(r.subrange(0, r.len() as int) =~= r);
}

/// A joined path ends in whitespace only when its last component does.
proof fn lemma_join_end(parts: Seq<Seq<u8>>)
    requires
        parts.len() > 0,
        plain_part(parts.last()),
        !ends_in_ws(parts.last()),
    ensures
        !ends_in_ws(join_abs(parts)),
{
    let x = join_abs(parts.drop_last());
    let last = parts.last();
    let r = x + seq![SLASH] + last;
    assert(join_abs(parts) == r);
    let n = r.len() as int;
    let l = last.len() as int;
    assert(r[n - 1] == last[l - 1]);
    if l >= 2 {
        assert(r[n - 2] == last[l - 2]);
    } else {
        assert(r[n - 2] == SLASH);
    }
    if l >= 3 {
        assert(r[n - 3] == last[l - 3]);
    } else if l == 2 {
        assert(r[n - 3] == SLASH);
    }
}

/// Resolving twice is resolving once: when the argument holds no
/// whitespace character, resolving the result again against the same
/// working directory gives it back. This fails only when the result's last
/// component comes from the working directory and ends in whitespace (the
/// second resolution trims it), so that case is left out.
pub proof fn law_resolve_path_idempotent(cwd: Seq<u8>, p: Seq<u8>)
    requires
        no_ws(p),
        !(p.len() > 0 && p[0] == SLASH) && apply_segs(path_parts(cwd), path_parts(p)).len() > 0
            ==> !ends_in_ws(apply_segs(path_parts(cwd), path_parts(p)).last()),
    ensures
        resolve_path_spec(cwd, resolve_path_spec(cwd, p)) == resolve_path_spec(cwd, p),
{
    let r = resolve_path_spec(cwd, p);
    law_resolved_path_is_absolute(cwd, p);
    lemma_utrim_no_ws(p);
    let q = utrim(p);
    if !(q.len() > 0 && q[0] == SLASH) {
        lemma_parts_plain(cwd, 0, seq![]);
        lemma_parts_plain(q, 0, seq![]);
        let parts = apply_segs(path_parts(cwd), path_parts(q));
        lemma_apply_plain(path_parts(cwd), path_parts(q));
        if parts.len() == 0 {
            assert(r == seq![SLASH]);
            assert(!ends_in_ws(r));
        } else {
            assert(plain_part(parts[parts.len() - 1]));
            lemma_join_end(parts);
        }
        lemma_utrim_slash_start(r);
    } else {
        assert(r == p);
    }
}

proof fn lemma_apply_plain(cur: Seq<Seq<u8>>, segs: Seq<Seq<u8>>)
    requires
        forall|k: int| 0 <= k < cur.len() ==> plain_part(#[trigger] cur[k]),
        forall|k: int| 0 <= k < segs.len() ==> plain_part(#[trigger] segs[k]),
    ensures
        forall|k: int| 0 <= k < apply_segs(cur, segs).len() ==> plain_part(#[trigger] apply_segs(cur, segs)[k]),
    decreases segs.len(),
{
    if segs.len() > 0 {
        let seg = segs[0];
        let next = if seg == seq![0x2Eu8] {
            cur
        } else if seg == seq![0x2Eu8, 0x2Eu8] {
            if cur.len() > 0 {
                cur.drop_last()
            } else {
                cur
            }
        } else {
            cur.push(seg)
        };
        assert(plain_part(segs[0]));
        assert forall|k: int| 0 <= k < next.len() implies plain_part(#[trigger] next[k]) by {
            if seg != seq![0x2Eu8] && seg != seq![0x2Eu8, 0x2Eu8] {
                if k < cur.len() {
                    assert(next[k] == cur[k]);
                }
            } else if seg == seq![0x2Eu8, 0x2Eu8] && cur.len() > 0 {
                assert(next[k] == cur[k]);
            }
        }
        let rest = segs.drop_first();
        assert forall|k: int| 0 <= k < rest.len() implies plain_part(#[trigger] rest[k]) by {
            assert(rest[k] == segs[k + 1]);
        }
        assert(apply_segs(cur, segs) == apply_segs(next, rest));
        lemma_apply_plain(next, rest);
    }
}

/// What `echo` does.
#[derive(Debug, PartialEq, Eq)]
pub enum EchoResult {
    ToStdout(Vec<u8>),
    ToFile { content: Vec<u8>, path: Vec<u8> },
}

pub enum EchoView {
    ToStdout(Seq<u8>),
    ToFile { content: Seq<u8>, path: Seq<u8> },
}

impl View for EchoResult {
    type V = EchoView;

    open spec fn view(&self) -> EchoView {
        match self {
            EchoResult::ToStdout(c) => EchoView::ToStdout(c@),
            EchoResult::ToFile { content, path } => EchoView::ToFile { content: content@, path: path@ },
        }
    }
}

/// The text after "echo", trimmed: with a `>` followed by a path, the text
/// before it (trimmed, quotes removed) goes to that path; otherwise the
/// whole text (quotes removed) goes to the screen. `None` when the line
/// does not start with "echo".
pub open spec fn echo_spec(line: Seq<u8>) -> Option<EchoView> {
    let e = "echo".spec_bytes();
    if !(e.len() <= line.len() && line.subrange(0, e.len() as int) == e) {
        None
    } else {
        let rest = trim_spec(line.subrange(e.len() as int, line.len() as int));
        match find(rest, 0x3E) {
            Some(idx) if trim_spec(rest.subrange(idx + 1, rest.len() as int)).len() > 0 => Some(
                EchoView::ToFile {
                    content: trim_c(trim_spec(rest.subrange(0, idx)), 0x22),
                    path: trim_spec(rest.subrange(idx + 1, rest.len() as int)),
                },
            ),
            _ => Some(EchoView::ToStdout(trim_c(trim_spec(rest), 0x22))),
        }
    }
}

/// Splits an `echo` line (see `echo_spec`).
pub fn parse_echo_args(line: &[u8]) -> (r: Option<EchoResult>)
    ensures
        match r {
            Some(e) => echo_spec(line@) == Some(e@),
            None => echo_spec(line@) is None,
        },
{
    let e = "echo".as_bytes();
    if !starts_with(line, e) {
        return None;
    }
    let rest = trim(vstd::slice::slice_subrange(line, e.len(), line.len()));
    let rl = rest.len();
    if let Some(idx) = find_byte(rest.as_slice(), 0x3E) {
        let left = copy_range(rest.as_slice(), 0, idx);
        let right = copy_range(rest.as_slice(), idx + 1, rl);
        let path = trim(right.as_slice());
        if path.len() > 0 {
            let content = trim_byte(trim(left.as_slice()).as_slice(), 0x22);
            return Some(EchoResult::ToFile { content, path });
        }
    }
    let t = trim(rest.as_slice());
    Some(EchoResult::ToStdout(trim_byte(t.as_slice(), 0x22)))
}

/// The first word of `s`, or nothing.
pub open spec fn first_word(s: Seq<u8>) -> Seq<u8> {
    if words(s).len() > 0 {
        words(s)[0]
    } else {
        seq![]
    }
}

/// Splits off an output redirection (`> path`) and then an input
/// redirection (`< path`): each takes the first word after its sign, and
/// the command is what stands before the sign. A sign with no word after
/// it redirects nothing.
pub open spec fn redirects_spec(line: Seq<u8>) -> (Seq<u8>, Option<Seq<u8>>, Option<Seq<u8>>) {
    let c0 = trim_spec(line);
    let (c1, out) = match find(c0, 0x3E) {
        Some(i) => {
            let p = first_word(trim_spec(c0.subrange(i + 1, c0.len() as int)));
            (trim_spec(c0.subrange(0, i)), if p.len() > 0 { Some(p) } else { None })
        },
        None => (c0, None),
    };
    match find(c1, 0x3C) {
        Some(i) => {
            let p = first_word(trim_spec(c1.subrange(i + 1, c1.len() as int)));
            (trim_spec(c1.subrange(0, i)), out, if p.len() > 0 { Some(p) } else { None })
        },
        None => (c1, out, None),
    }
}

fn split_redirect(cmd: Vec<u8>, sign: u8) -> (r: (Vec<u8>, Option<Vec<u8>>))
    ensures
        match find(cmd@, sign) {
            Some(i) => {
                let p = first_word(trim_spec(cmd@.subrange(i + 1, cmd@.len() as int)));
                &&& r.0@ == trim_spec(cmd@.subrange(0, i))
                &&& match r.1 {
                    Some(v) => p.len() > 0 && v@ == p,
                    None => p.len() == 0,
                }
            },
            None => r.0@ == cmd@ && r.1 is None,
        },
{
    let cl = cmd.len();
    match find_byte(cmd.as_slice(), sign) {
        Some(idx) => {
            let left = copy_range(cmd.as_slice(), 0, idx);
            let right = copy_range(cmd.as_slice(), idx + 1, cl);
            let w = split_whitespace(trim(right.as_slice()).as_slice());
            let ghost ws = w@.map_values(|v: Vec<u8>| v@);
            let path = if w.len() > 0 {
                assert(ws[0] == w@[0]@);
                copy_range(w[0].as_slice(), 0, w[0].len())
            } else {
                Vec::new()
            };
            let c = trim(left.as_slice());
            if path.len() > 0 {
                (c, Some(path))
            } else {
                (c, None)
            }
        },
        None => (cmd, None),
    }
}

/// Splits the redirections off a command line (see `redirects_spec`).
pub fn parse_redirects(line: &[u8]) -> (r: (Vec<u8>, Option<Vec<u8>>, Option<Vec<u8>>))
    ensures
        r.0@ == redirects_spec(line@).0,
        opt_view(r.1) == redirects_spec(line@).1,
        opt_view(r.2) == redirects_spec(line@).2,
{
    let c0 = trim(line);
    let (c1, out) = split_redirect(c0, 0x3E);
    let (c2, inp) = split_redirect(c1, 0x3C);
    (c2, out, inp)
}

pub open spec fn opt_view(o: Option<Vec<u8>>) -> Option<Seq<u8>> {
    match o {
        Some(v) => Some(v@),
        None => None,
    }
}

/// The name and description `help` shows for a command.
pub open spec fn help_entry(cmd: Seq<u8>) -> Option<(&'static str, &'static str)> {
    if cmd == "help".spec_bytes() {
        Some(("help [cmd]", "Show command list or help for specific command"))
    } else if cmd == "about".spec_bytes() || cmd == "welcome".spec_bytes() {
        Some(("about", "Strongest Node philosophy and status"))
    } else if cmd == "ps".spec_bytes() {
        Some(("ps", "List all processes (nodes) with activation/tension"))
    } else if cmd == "spawn".spec_bytes() {
        Some(("spawn", "Spawn a new process (node emerges)"))
    } else if cmd == "echo".spec_bytes() {
        Some(("echo TEXT [> FILE]", "Print TEXT or write to FILE"))
    } else if cmd == "ls".spec_bytes() {
        Some(("ls [PATH]", "List directory (default: cwd)"))
    } else if cmd == "cat".spec_bytes() {
        Some(("cat PATH", "Read and display file contents"))
    } else if cmd == "touch".spec_bytes() {
        Some(("touch PATH", "Create empty file"))
    } else if cmd == "mkdir".spec_bytes() {
        Some(("mkdir PATH", "Create directory"))
    } else if cmd == "rm".spec_bytes() {
        Some(("rm PATH", "Remove file or empty directory"))
    } else if cmd == "cd".spec_bytes() {
        Some(("cd [PATH]", "Change directory (default: /)"))
    } else if cmd == "pwd".spec_bytes() {
        Some(("pwd", "Print working directory"))
    } else if cmd == "getpid".spec_bytes() {
        Some(("getpid", "Print process ID"))
    } else if cmd == "wait".spec_bytes() {
        Some(("wait", "Wait for a child process to exit"))
    } else if cmd == "kill".spec_bytes() {
        Some(("kill PID", "Send SIGKILL to process"))
    } else if cmd == "wc".spec_bytes() {
        Some(("wc FILE", "Word/line/char count"))
    } else if cmd == "head".spec_bytes() {
        Some(("head FILE [N]", "First N lines (default 10)"))
    } else if cmd == "tail".spec_bytes() {
        Some(("tail FILE [N]", "Last N lines (default 10)"))
    } else if cmd == "exit".spec_bytes() {
        Some(("exit", "Exit current process"))
    } else if cmd == "shutdown".spec_bytes() {
        Some(("shutdown", "Checkpoint filesystem and halt"))
    } else {
        None
    }
}

fn help_entry_exec(cmd: &[u8]) -> (r: Option<(&'static str, &'static str)>)
    ensures
        r == help_entry(cmd@),
{
    if is_lit(cmd, "help") {
        Some(("help [cmd]", "Show command list or help for specific command"))
    } else if is_lit(cmd, "about") || is_lit(cmd, "welcome") {
        Some(("about", "Strongest Node philosophy and status"))
    } else if is_lit(cmd, "ps") {
        Some(("ps", "List all processes (nodes) with activation/tension"))
    } else if is_lit(cmd, "spawn") {
        Some(("spawn", "Spawn a new process (node emerges)"))
    } else if is_lit(cmd, "echo") {
        Some(("echo TEXT [> FILE]", "Print TEXT or write to FILE"))
    } else if is_lit(cmd, "ls") {
        Some(("ls [PATH]", "List directory (default: cwd)"))
    } else if is_lit(cmd, "cat") {
        Some(("cat PATH", "Read and display file contents"))
    } else if is_lit(cmd, "touch") {
        Some(("touch PATH", "Create empty file"))
    } else if is_lit(cmd, "mkdir") {
        Some(("mkdir PATH", "Create directory"))
    } else if is_lit(cmd, "rm") {
        Some(("rm PATH", "Remove file or empty directory"))
    } else if is_lit(cmd, "cd") {
        Some(("cd [PATH]", "Change directory (default: /)"))
    } else if is_lit(cmd, "pwd") {
        Some(("pwd", "Print working directory"))
    } else if is_lit(cmd, "getpid") {
        Some(("getpid", "Print process ID"))
    } else if is_lit(cmd, "wait") {
        Some(("wait", "Wait for a child process to exit"))
    } else if is_lit(cmd, "kill") {
        Some(("kill PID", "Send SIGKILL to process"))
    } else if is_lit(cmd, "wc") {
        Some(("wc FILE", "Word/line/char count"))
    } else if is_lit(cmd, "head") {
        Some(("head FILE [N]", "First N lines (default 10)"))
    } else if is_lit(cmd, "tail") {
        Some(("tail FILE [N]", "Last N lines (default 10)"))
    } else if is_lit(cmd, "exit") {
        Some(("exit", "Exit current process"))
    } else if is_lit(cmd, "shutdown") {
        Some(("shutdown", "Checkpoint filesystem and halt"))
    } else {
        None
    }
}

/// The help for one command: "\r\n  NAME - DESCRIPTION\r\n\r\n".
pub open spec fn cmd_help_text(name: &str, desc: &str) -> Seq<u8> {
    "\r\n  ".spec_bytes() + name.spec_bytes() + " - ".spec_bytes() + desc.spec_bytes() + "\r\n\r\n".spec_bytes()
}

/// The help text for a command, when `help` knows it.
pub fn show_cmd_help(cmd: &[u8]) -> (r: Option<Vec<u8>>)
    ensures
        match help_entry(cmd@) {
            Some((n, d)) => r matches Some(v) && v@ == cmd_help_text(n, d),
            None => r is None,
        },
{
    match help_entry_exec(cmd) {
        Some((n, d)) => {
            let mut v = bytes_of("\r\n  ");
            append(&mut v, n.as_bytes());
            append(&mut v, " - ".as_bytes());
            append(&mut v, d.as_bytes());
            append(&mut v, "\r\n\r\n".as_bytes());
            Some(v)
        },
        None => None,
    }
}

/// The full command list.
pub fn show_help() -> (r: Vec<u8>)
    ensures
        r@ == HELP_TEXT.spec_bytes(),
{
    bytes_of(HELP_TEXT)
}

/// The philosophy and status text.
pub fn show_about() -> (r: Vec<u8>)
    ensures
        r@ == ABOUT_TEXT.spec_bytes(),
{
    bytes_of(ABOUT_TEXT)
}

/// The welcome screen, shown between two screen clears; it waits up to
/// `WAIT_TICKS` yields for a key.
pub fn show_welcome_screen() -> (r: Vec<u8>)
    ensures
        r@ == WELCOME_TEXT.spec_bytes(),
{
    bytes_of(WELCOME_TEXT)
}

} // verus!
