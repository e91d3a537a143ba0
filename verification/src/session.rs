//! The shell's session: the line editor (backspace, arrow-key history),
//! the history, the working directory, and what a whole input line does:
//! a pipe, a `cd`, or a command.
use vstd::prelude::*;
use vstd::string::StringSliceAdditionalSpecFns;
use vstd::utf8::valid_utf8;

use crate::command::{buffered, cmd_plan, finish_spec, opt_req, run_cmd, text_of, CmdPlan, CmdPlanView};
use crate::fs::nul_len_from;
use crate::parse::{find, find_byte, split_whitespace, starts_with, trim, trim_byte, trim_c, trim_spec, words};
use crate::shell::{
    opt_view, parse_redirects, redirects_spec, reqs, resolve_path, resolve_path_spec, Request, RequestView,
    HISTORY_MAX, LINE_MAX, OUT_BUF,
};
use crate::text::{append, copy_range, is_utf8, SLASH};

verus! {

/// The longest line the editor takes (one byte of the buffer is kept for
/// the terminating zero).
pub const LINE_LIMIT: usize = 127;
/// At most this many bytes of `echo` text go into a pipe.
pub const PIPE_DATA_MAX: usize = 511;
pub const ESC: u8 = 0x1B;
pub const BACKSPACE: u8 = 0x08;
pub const DELETE: u8 = 0x7F;

pub const PIPE_LEFT_UNSUPPORTED: &'static str = "pipe: left cmd not supported (ls, cat, ps, echo)\r\n";
pub const PIPE_RIGHT_UNSUPPORTED: &'static str = "pipe: right must be 'cat [file]' (e.g. ls | cat out.txt)\r\n";
pub const CD_FAILED: &'static str = "cd failed\r\n";

/// The text of a history entry: its bytes up to the first zero byte.
pub open spec fn recall(h: Seq<u8>) -> Seq<u8> {
    let n = nul_len_from(h, 0);
    h.subrange(0, if n < LINE_LIMIT { n } else { LINE_LIMIT as int })
}

/// The history after `line` was added: the oldest entry goes when all 16
/// are taken; the entry keeps the first 127 bytes.
pub open spec fn history_after(h: Seq<Seq<u8>>, line: Seq<u8>) -> Seq<Seq<u8>> {
    let kept = if h.len() >= HISTORY_MAX {
        h.subrange(h.len() - (HISTORY_MAX - 1), h.len() as int)
    } else {
        h
    };
    kept.push(if line.len() <= LINE_LIMIT { line } else { line.subrange(0, LINE_LIMIT as int) })
}

/// The state of the line editor.
pub struct LineEditor {
    /// The line typed so far.
    pub line: Vec<u8>,
    /// 0, 1 after ESC, 2 after ESC `[`.
    pub esc: u8,
    /// The history entry shown (the history length: none).
    pub hist_idx: usize,
}

/// What feeding one byte gives: the bytes to echo, and whether the line is complete.
#[derive(Debug, PartialEq, Eq)]
pub struct Feed {
    pub echo: Vec<u8>,
    pub done: bool,
}

/// "\r> " and the shown line (when it is valid UTF-8).
pub open spec fn redraw(line: Seq<u8>) -> Seq<u8> {
    seq![0x0Du8, 0x3Eu8, 0x20u8] + text_of(line)
}

/// The editor after byte `b`, with the history `h`: `(line, esc, hist_idx, echo, done)`.
/// ESC `[` `A` shows the previous history entry and ESC `[` `B` the next (or
/// an empty line past the newest); backspace and delete remove the last
/// byte; CR or LF ends the line; any other byte is added and echoed when
/// it is ASCII. The line also ends when it reaches 127 bytes.
pub open spec fn feed_spec(line: Seq<u8>, esc: u8, idx: int, b: u8, h: Seq<Seq<u8>>) -> (Seq<u8>, u8, int, Seq<u8>, bool) {
    if esc == 1 {
        (line, if b == 0x5B { 2u8 } else { 0u8 }, idx, seq![], false)
    } else if esc == 2 {
        if b == 0x41 && h.len() > 0 && idx > 0 {
            let l = recall(h[idx - 1]);
            (l, 0u8, idx - 1, redraw(l), l.len() >= LINE_LIMIT)
        } else if b == 0x42 && idx < h.len() {
            let l = if idx + 1 < h.len() { recall(h[idx + 1]) } else { seq![] };
            (l, 0u8, idx + 1, redraw(l), l.len() >= LINE_LIMIT)
        } else {
            (line, 0u8, idx, seq![], false)
        }
    } else if b == ESC {
        (line, 1u8, idx, seq![], false)
    } else if b == BACKSPACE || b == DELETE {
        if line.len() > 0 {
            (line.drop_last(), esc, idx, seq![0x08u8, 0x20u8, 0x08u8], false)
        } else {
            (line, esc, idx, seq![], false)
        }
    } else if b == 0x0A || b == 0x0D {
        (line, esc, idx, seq![], true)
    } else {
        (line.push(b), esc, idx, if b < 0x80 { seq![b] } else { seq![] }, line.len() + 1 >= LINE_LIMIT)
    }
}

/// The up arrow right after a line went into the history brings that line
/// back (its first 127 bytes), when it holds no zero byte.
pub proof fn law_up_arrow_recalls_last(h: Seq<Seq<u8>>, line: Seq<u8>, typed: Seq<u8>)
    requires
        forall|j: int| 0 <= j < line.len() ==> line[j] != 0,
    ensures
        feed_spec(typed, 2, history_after(h, line).len() as int, 0x41, history_after(h, line)).0 == if line.len()
            <= LINE_LIMIT {
            line
        } else {
            line.subrange(0, LINE_LIMIT as int)
        },
{
    let h1 = history_after(h, line);
    let e = h1[h1.len() - 1];
    assert(e == if line.len() <= LINE_LIMIT { line } else { line.subrange(0, LINE_LIMIT as int) });
    crate::fs::lemma_nul_len_bounds_pub(e, 0);
    let n = nul_len_from(e, 0);
    if n < e.len() {
        assert(e[n] == line[n]);
    }
    assert(recall(e) =~= e);
}

/// Typing a byte and then erasing it (backspace 0x08 or delete 0x7F) gives
/// back the line as it was: the byte is added to the end and echoed when
/// it is ASCII, and erasing removes exactly that byte and echoes
/// backspace, space, backspace. Enter (CR or LF) ends the line as it is.
pub proof fn law_type_then_erase(line: Seq<u8>, idx: int, b: u8, e: u8, h: Seq<Seq<u8>>)
    requires
        b != 0x1B && b != 0x08 && b != 0x7F && b != 0x0A && b != 0x0D,
        e == 0x08 || e == 0x7F,
    ensures
        ({
            let (l1, s1, i1, echo1, _d1) = feed_spec(line, 0, idx, b, h);
            let (l2, s2, i2, echo2, d2) = feed_spec(l1, s1, i1, e, h);
            &&& l1 == line.push(b)
            &&& echo1 == if b < 0x80 { seq![b] } else { seq![] }
            &&& l2 == line
            &&& echo2 == seq![0x08u8, 0x20u8, 0x08u8]
            &&& s2 == 0 && i2 == idx && !d2
        }),
        feed_spec(line, 0, idx, 0x0D, h) == (line, 0u8, idx, Seq::<u8>::empty(), true),
        feed_spec(line, 0, idx, 0x0A, h) == (line, 0u8, idx, Seq::<u8>::empty(), true),
{
    assert(line.push(b).drop_last() =~= line);
}

fn recall_exec(h: &Vec<u8>) -> (r: Vec<u8>)
    ensures
        r@ == recall(h@),
{
    let mut len: usize = 0;
    proof {
        crate::fs::lemma_nul_len_bounds_pub(h@, 0);
    }
    while len < LINE_LIMIT && len < h.len() && h[len] != 0
        invariant
            len <= LINE_LIMIT,
            len <= h@.len(),
            forall|j: int| 0 <= j < len ==> h@[j] != 0,
            nul_len_from(h@, 0) == nul_len_from(h@, len as int),
        decreases LINE_LIMIT - len,
    {
        len = len + 1;
    }
    proof {
        crate::fs::lemma_nul_len_bounds_pub(h@, len as int);
    }
    copy_range(h.as_slice(), 0, len)
}

fn redraw_exec(line: &Vec<u8>) -> (r: Vec<u8>)
    ensures
        r@ == redraw(line@),
{
    let mut v: Vec<u8> = Vec::new();
    v.push(0x0D);
    v.push(0x3E);
    v.push(0x20);
    if is_utf8(line.as_slice()) {
        append(&mut v, line.as_slice());
    }
    assert(v@ =~= redraw(line@));
    v
}

impl LineEditor {
    /// An empty line, with no history entry shown.
    pub fn new(history_len: usize) -> (r: Self)
        ensures
            r.line@ == Seq::<u8>::empty(),
            r.esc == 0,
            r.hist_idx == history_len,
    {
        LineEditor { line: Vec::new(), esc: 0, hist_idx: history_len }
    }

    /// Takes one input byte (see `feed_spec`).
    pub fn feed(&mut self, b: u8, history: &Vec<Vec<u8>>) -> (r: Feed)
        requires
            old(self).hist_idx <= history@.len(),
        ensures
            ({
                let (l, e, i, echo, done) = feed_spec(
                    old(self).line@,
                    old(self).esc,
                    old(self).hist_idx as int,
                    b,
                    history@.map_values(|v: Vec<u8>| v@),
                );
                &&& final(self).line@ == l
                &&& final(self).esc == e
                &&& final(self).hist_idx == i
                &&& r.echo@ == echo
                &&& r.done == done
            }),
            final(self).hist_idx <= history@.len(),
    {
        let ghost hv = history@.map_values(|v: Vec<u8>| v@);
        let n = history.len();
        if self.esc == 1 {
            self.esc = if b == 0x5B {
                2
            } else {
                0
            };
            return Feed { echo: Vec::new(), done: false };
        }
        if self.esc == 2 {
            self.esc = 0;
            if b == 0x41 && n > 0 && self.hist_idx > 0 {
                self.hist_idx = self.hist_idx - 1;
                assert(hv[self.hist_idx as int] == history@[self.hist_idx as int]@);
                self.line = recall_exec(&history[self.hist_idx]);
                let echo = redraw_exec(&self.line);
                let done = self.line.len() >= LINE_LIMIT;
                return Feed { echo, done };
            } else if b == 0x42 && self.hist_idx < n {
                self.hist_idx = self.hist_idx + 1;
                if self.hist_idx < n {
                    assert(hv[self.hist_idx as int] == history@[self.hist_idx as int]@);
                    self.line = recall_exec(&history[self.hist_idx]);
                } else {
                    self.line = Vec::new();
                }
                let echo = redraw_exec(&self.line);
                let done = self.line.len() >= LINE_LIMIT;
                return Feed { echo, done };
            }
            return Feed { echo: Vec::new(), done: false };
        }
        if b == ESC {
            self.esc = 1;
            return Feed { echo: Vec::new(), done: false };
        }
        if b == BACKSPACE || b == DELETE {
            if self.line.len() > 0 {
                self.line.pop();
                let mut e: Vec<u8> = Vec::new();
                e.push(0x08);
                e.push(0x20);
                e.push(0x08);
                assert(e@ =~= seq![0x08u8, 0x20u8, 0x08u8]);
                return Feed { echo: e, done: false };
            }
            return Feed { echo: Vec::new(), done: false };
        }
        if b == 0x0A || b == 0x0D {
            return Feed { echo: Vec::new(), done: true };
        }
        let old_len = self.line.len();
        self.line.push(b);
        let mut e: Vec<u8> = Vec::new();
        if b < 0x80 {
            e.push(b);
        }
        assert(b < 0x80 ==> e@ =~= seq![b]);
        assert(b >= 0x80 ==> e@ =~= seq![]);
        Feed { echo: e, done: self.line.len() >= LINE_LIMIT }
    }
}

/// Where the data of a pipe comes from.
#[derive(Debug, PartialEq, Eq)]
pub enum PipeSource {
    /// The output of this system call.
    Query(Request),
    /// Text given on the line.
    Data(Vec<u8>),
}

/// Where the data of a pipe goes.
#[derive(Debug, PartialEq, Eq)]
pub enum PipeSink {
    File(Vec<u8>),
    Stdout,
    Unsupported,
}

/// What an input line does.
#[derive(Debug, PartialEq, Eq)]
pub enum LinePlan {
    /// Nothing typed.
    Empty,
    /// A pipe with an empty side: nothing happens.
    Idle,
    /// A pipe whose left command is not one of ls, cat, ps, echo.
    PipeUnsupported,
    Pipe { source: PipeSource, sink: PipeSink },
    /// Change to this absolute directory.
    Cd { path: Vec<u8> },
    Cmd(CmdPlan),
}

pub enum PipeSourceView {
    Query(RequestView),
    Data(Seq<u8>),
}

pub enum PipeSinkView {
    File(Seq<u8>),
    Stdout,
    Unsupported,
}

pub enum LinePlanView {
    Empty,
    Idle,
    PipeUnsupported,
    Pipe { source: PipeSourceView, sink: PipeSinkView },
    Cd { path: Seq<u8> },
    Cmd(CmdPlanView),
}

impl View for LinePlan {
    type V = LinePlanView;

    open spec fn view(&self) -> LinePlanView {
        match self {
            LinePlan::Empty => LinePlanView::Empty,
            LinePlan::Idle => LinePlanView::Idle,
            LinePlan::PipeUnsupported => LinePlanView::PipeUnsupported,
            LinePlan::Pipe { source, sink } => LinePlanView::Pipe {
                source: match source {
                    PipeSource::Query(q) => PipeSourceView::Query(q@),
                    PipeSource::Data(d) => PipeSourceView::Data(d@),
                },
                sink: match sink {
                    PipeSink::File(p) => PipeSinkView::File(p@),
                    PipeSink::Stdout => PipeSinkView::Stdout,
                    PipeSink::Unsupported => PipeSinkView::Unsupported,
                },
            },
            LinePlan::Cd { path } => LinePlanView::Cd { path: path@ },
            LinePlan::Cmd(c) => LinePlanView::Cmd(c@),
        }
    }
}

/// Word 1 of `left` resolved as a path, or `fallback`.
pub open spec fn pipe_path(left: Seq<u8>, cwd: Seq<u8>, fallback: Seq<u8>) -> Seq<u8> {
    if words(left).len() > 1 {
        resolve_path_spec(cwd, words(left)[1])
    } else {
        fallback
    }
}

/// The source of a pipe, by its left command: `ls ` and `cat ` with a
/// path, `ps`, or `echo ` with text (at most 511 bytes, quotes removed).
pub open spec fn pipe_source(left: Seq<u8>, cwd: Seq<u8>) -> Option<PipeSourceView> {
    let has = |p: Seq<u8>| p.len() <= left.len() && left.subrange(0, p.len() as int) == p;
    if has(seq![0x6Cu8, 0x73u8, 0x20u8]) {
        Some(PipeSourceView::Query(RequestView::Ls { path: pipe_path(left, cwd, cwd), out_len: OUT_BUF }))
    } else if has(seq![0x63u8, 0x61u8, 0x74u8, 0x20u8]) {
        Some(PipeSourceView::Query(RequestView::Cat { path: pipe_path(left, cwd, seq![]), out_len: OUT_BUF }))
    } else if left == "ps".spec_bytes() {
        Some(PipeSourceView::Query(RequestView::Ps { out_len: OUT_BUF }))
    } else if has(seq![0x65u8, 0x63u8, 0x68u8, 0x6Fu8, 0x20u8]) {
        let content = trim_c(trim_spec(left.subrange(4, left.len() as int)), 0x22);
        Some(PipeSourceView::Data(if content.len() <= PIPE_DATA_MAX { content } else { content.subrange(0, PIPE_DATA_MAX as int) }))
    } else {
        None
    }
}

/// The sink of a pipe: `cat FILE` writes the file, `cat` shows the data.
pub open spec fn pipe_sink(right: Seq<u8>, cwd: Seq<u8>) -> PipeSinkView {
    let ws = words(right);
    if ws.len() > 0 && ws[0] == "cat".spec_bytes() {
        if ws.len() > 1 {
            PipeSinkView::File(resolve_path_spec(cwd, ws[1]))
        } else {
            PipeSinkView::Stdout
        }
    } else {
        PipeSinkView::Unsupported
    }
}

/// What an input line does, with `cwd` as working directory (bytes that
/// are not valid UTF-8 count as an empty line).
pub open spec fn line_plan(raw: Seq<u8>, cwd: Seq<u8>) -> LinePlanView {
    let line = trim_spec(if valid_utf8(raw) { raw } else { seq![] });
    if line.len() == 0 {
        LinePlanView::Empty
    } else {
        match find(line, 0x7C) {
            Some(i) => {
                let left = trim_spec(line.subrange(0, i));
                let right = trim_spec(line.subrange(i + 1, line.len() as int));
                if left.len() == 0 || right.len() == 0 {
                    LinePlanView::Idle
                } else {
                    match pipe_source(left, cwd) {
                        Some(src) => LinePlanView::Pipe { source: src, sink: pipe_sink(right, cwd) },
                        None => LinePlanView::PipeUnsupported,
                    }
                }
            },
            None => {
                let (cmd, out, inp) = redirects_spec(line);
                let args = words(cmd);
                if args.len() > 0 && args[0] == "cd".spec_bytes() {
                    LinePlanView::Cd {
                        path: if args.len() > 1 { resolve_path_spec(cwd, args[1]) } else { seq![SLASH] },
                    }
                } else {
                    LinePlanView::Cmd(cmd_plan(cmd, cwd, out, inp))
                }
            },
        }
    }
}

/// The trimmed line that enters the history, if any.
pub open spec fn history_line(raw: Seq<u8>) -> Seq<u8> {
    trim_spec(if valid_utf8(raw) { raw } else { seq![] })
}

/// What a pipe writes once it has its data, as read from the shell's
/// 512-byte buffer (see `buffered`).
pub open spec fn pipe_finish(sink: PipeSinkView, data: Seq<u8>) -> Seq<RequestView> {
    match sink {
        PipeSinkView::File(p) => seq![RequestView::WriteFile { path: p, data: buffered(data) }],
        PipeSinkView::Stdout => seq![RequestView::Write(text_of(buffered(data)))],
        PipeSinkView::Unsupported => seq![RequestView::Write(PIPE_RIGHT_UNSUPPORTED.spec_bytes())],
    }
}

/// The shell's state between lines.
pub struct Shell {
    pub cwd: Vec<u8>,
    pub history: Vec<Vec<u8>>,
}

fn lit(s: &str) -> (r: Vec<u8>)
    ensures
        r@ == s.spec_bytes(),
{
    let b = s.as_bytes();
    copy_range(b, 0, b.len())
}

impl Shell {
    /// Working directory "/", no history.
    pub fn new() -> (r: Self)
        ensures
            r.cwd@ == seq![SLASH],
            r.history@.len() == 0,
    {
        let mut cwd: Vec<u8> = Vec::new();
        cwd.push(SLASH);
        assert(cwd@ =~= seq![SLASH]);
        Shell { cwd, history: Vec::new() }
    }

    /// Adds a line to the history (see `history_after`).
    pub fn push_history(&mut self, line: &[u8])
        requires
            old(self).history@.len() <= HISTORY_MAX,
        ensures
            final(self).history@.map_values(|v: Vec<u8>| v@) == history_after(old(self).history@.map_values(|v: Vec<u8>| v@), line@),
            final(self).history@.len() <= HISTORY_MAX,
            final(self).cwd@ == old(self).cwd@,
    {
        let ghost h0 = self.history@.map_values(|v: Vec<u8>| v@);
        if self.history.len() >= HISTORY_MAX {
            self.history.remove(0);
            assert(self.history@.map_values(|v: Vec<u8>| v@) =~= h0.subrange(h0.len() - (HISTORY_MAX - 1), h0.len() as int));
        }
        let ghost h1 = self.history@.map_values(|v: Vec<u8>| v@);
        let copy = if line.len() <= LINE_LIMIT {
            line.len()
        } else {
            LINE_LIMIT
        };
        let entry = copy_range(line, 0, copy);
        assert(line@.len() <= LINE_LIMIT ==> entry@ =~= line@);
        self.history.push(entry);
        assert(self.history@.map_values(|v: Vec<u8>| v@) =~= h1.push(entry@));
    }

    /// Takes a complete input line: adds it to the history unless it is
    /// empty, and says what it does (see `line_plan`).
    pub fn plan_line(&mut self, raw: &[u8]) -> (r: LinePlan)
        requires
            old(self).history@.len() <= HISTORY_MAX,
        ensures
            r@ == line_plan(raw@, old(self).cwd@),
            final(self).cwd@ == old(self).cwd@,
            final(self).history@.len() <= HISTORY_MAX,
            final(self).history@.map_values(|v: Vec<u8>| v@) == if history_line(raw@).len() == 0 {
                old(self).history@.map_values(|v: Vec<u8>| v@)
            } else {
                history_after(old(self).history@.map_values(|v: Vec<u8>| v@), history_line(raw@))
            },
    {
        let line = if is_utf8(raw) {
            trim(raw)
        } else {
            let e: [u8; 0] = [];
            assert(e@ =~= Seq::<u8>::empty());
            trim(e.as_slice())
        };
        if line.len() == 0 {
            return LinePlan::Empty;
        }
        self.push_history(line.as_slice());
        let cwd = self.cwd.as_slice();
        let ll = line.len();
        match find_byte(line.as_slice(), 0x7C) {
            Some(i) => {
                let left = trim(copy_range(line.as_slice(), 0, i).as_slice());
                let right = trim(copy_range(line.as_slice(), i + 1, ll).as_slice());
                if left.len() == 0 || right.len() == 0 {
                    return LinePlan::Idle;
                }
                match pipe_source_exec(left.as_slice(), cwd) {
                    Some(src) => LinePlan::Pipe { source: src, sink: pipe_sink_exec(right.as_slice(), cwd) },
                    None => LinePlan::PipeUnsupported,
                }
            },
            None => {
                let (cmd, out, inp) = parse_redirects(line.as_slice());
                let args = split_whitespace(cmd.as_slice());
                let ghost av = args@.map_values(|v: Vec<u8>| v@);
                if args.len() > 0 && crate::text::bytes_eq(args[0].as_slice(), "cd".as_bytes()) {
                    assert(av[0] == args@[0]@);
                    let path = if args.len() > 1 {
                        assert(av[1] == args@[1]@);
                        resolve_path(cwd, args[1].as_slice())
                    } else {
                        let mut p: Vec<u8> = Vec::new();
                        p.push(SLASH);
                        assert(p@ =~= seq![SLASH]);
                        p
                    };
                    LinePlan::Cd { path }
                } else {
                    proof {
                        if args@.len() > 0 {
                            assert(av[0] == args@[0]@);
                        }
                    }
                    LinePlan::Cmd(run_cmd(cmd.as_slice(), cwd, &out, &inp))
                }
            },
        }
    }

    /// The answer to a `cd`: a non-zero result makes `path` the working
    /// directory; otherwise "cd failed" is printed.
    pub fn finish_cd(&mut self, path: Vec<u8>, value: u64) -> (r: Vec<Request>)
        ensures
            value != 0 ==> final(self).cwd@ == path@ && reqs(r@) == Seq::<RequestView>::empty(),
            value == 0 ==> final(self).cwd@ == old(self).cwd@ && reqs(r@) == seq![RequestView::Write(CD_FAILED.spec_bytes())],
            final(self).history@ == old(self).history@,
    {
        let mut w: Vec<Request> = Vec::new();
        if value != 0 {
            self.cwd = path;
            assert(reqs(w@) =~= Seq::<RequestView>::empty());
        } else {
            w.push(Request::Write(lit(CD_FAILED)));
            assert(reqs(w@) =~= seq![RequestView::Write(CD_FAILED.spec_bytes())]);
        }
        w
    }
}

fn pipe_source_exec(left: &[u8], cwd: &[u8]) -> (r: Option<PipeSource>)
    ensures
        match r {
            Some(PipeSource::Query(q)) => pipe_source(left@, cwd@) == Some(PipeSourceView::Query(q@)),
            Some(PipeSource::Data(d)) => pipe_source(left@, cwd@) == Some(PipeSourceView::Data(d@)),
            None => pipe_source(left@, cwd@) is None,
        },
{
    let ws = split_whitespace(left);
    let ghost wv = ws@.map_values(|v: Vec<u8>| v@);
    let ls_p = [0x6Cu8, 0x73u8, 0x20u8];
    let cat_p = [0x63u8, 0x61u8, 0x74u8, 0x20u8];
    let echo_p = [0x65u8, 0x63u8, 0x68u8, 0x6Fu8, 0x20u8];
    assert(ls_p@ =~= seq![0x6Cu8, 0x73u8, 0x20u8]);
    assert(cat_p@ =~= seq![0x63u8, 0x61u8, 0x74u8, 0x20u8]);
    assert(echo_p@ =~= seq![0x65u8, 0x63u8, 0x68u8, 0x6Fu8, 0x20u8]);
    if starts_with(left, ls_p.as_slice()) {
        let path = if ws.len() > 1 {
            assert(wv[1] == ws@[1]@);
            resolve_path(cwd, ws[1].as_slice())
        } else {
            copy_range(cwd, 0, cwd.len())
        };
        assert(ws@.len() <= 1 ==> path@ =~= cwd@);
        Some(PipeSource::Query(Request::Ls { path, out_len: OUT_BUF }))
    } else if starts_with(left, cat_p.as_slice()) {
        let path = if ws.len() > 1 {
            assert(wv[1] == ws@[1]@);
            resolve_path(cwd, ws[1].as_slice())
        } else {
            Vec::new()
        };
        Some(PipeSource::Query(Request::Cat { path, out_len: OUT_BUF }))
    } else if crate::text::bytes_eq(left, "ps".as_bytes()) {
        Some(PipeSource::Query(Request::Ps { out_len: OUT_BUF }))
    } else if starts_with(left, echo_p.as_slice()) {
        let rest = trim(vstd::slice::slice_subrange(left, 4, left.len()));
        let content = trim_byte(rest.as_slice(), 0x22);
        let n = if content.len() <= PIPE_DATA_MAX {
            content.len()
        } else {
            PIPE_DATA_MAX
        };
        let d = copy_range(content.as_slice(), 0, n);
        assert(content@.len() <= PIPE_DATA_MAX ==> d@ =~= content@);
        Some(PipeSource::Data(d))
    } else {
        None
    }
}

fn pipe_sink_exec(right: &[u8], cwd: &[u8]) -> (r: PipeSink)
    ensures
        match r {
            PipeSink::File(p) => pipe_sink(right@, cwd@) == PipeSinkView::File(p@),
            PipeSink::Stdout => pipe_sink(right@, cwd@) == PipeSinkView::Stdout,
            PipeSink::Unsupported => pipe_sink(right@, cwd@) == PipeSinkView::Unsupported,
        },
{
    let ws = split_whitespace(right);
    let ghost wv = ws@.map_values(|v: Vec<u8>| v@);
    if ws.len() > 0 && crate::text::bytes_eq(ws[0].as_slice(), "cat".as_bytes()) {
        assert(wv[0] == ws@[0]@);
        if ws.len() > 1 {
            assert(wv[1] == ws@[1]@);
            PipeSink::File(resolve_path(cwd, ws[1].as_slice()))
        } else {
            PipeSink::Stdout
        }
    } else {
        proof {
            if ws@.len() > 0 {
                assert(wv[0] == ws@[0]@);
            }
        }
        PipeSink::Unsupported
    }
}

/// What a pipe writes once it has its data (see `pipe_finish`).
pub fn finish_pipe(sink: &PipeSink, data: &Vec<u8>) -> (r: Vec<Request>)
    ensures
        reqs(r@) == pipe_finish(
            match sink {
                PipeSink::File(p) => PipeSinkView::File(p@),
                PipeSink::Stdout => PipeSinkView::Stdout,
                PipeSink::Unsupported => PipeSinkView::Unsupported,
            },
            data@,
        ),
{
    let mut d = copy_range(data.as_slice(), 0, data.len());
    if d.len() >= 512 {
        d.set(511, 0);
    }
    assert(d@ =~= buffered(data@));
    let mut w: Vec<Request> = Vec::new();
    match sink {
        PipeSink::File(p) => {
            w.push(Request::WriteFile { path: copy_range(p.as_slice(), 0, p.len()), data: d });
        },
        PipeSink::Stdout => {
            let t = if is_utf8(d.as_slice()) {
                d
            } else {
                Vec::new()
            };
            w.push(Request::Write(t));
        },
        PipeSink::Unsupported => {
            w.push(Request::Write(lit(PIPE_RIGHT_UNSUPPORTED)));
        },
    }
    proof {
        match sink {
            PipeSink::File(p) => {
                assert(p@.subrange(0, p@.len() as int) =~= p@);
            },
            _ => {},
        }
        assert(reqs(w@) =~= seq![w@[0]@]);
    }
    w
}

} // verus!
