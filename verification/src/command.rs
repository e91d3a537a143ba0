//! Shell commands: `run_cmd` plans a command line, `finish_cmd` turns the
//! reply to its system call into the rest of its output.
use vstd::prelude::*;
use vstd::string::StringSliceAdditionalSpecFns;
use vstd::utf8::valid_utf8;

use crate::parse::{
    parse_dec, parse_dec_exec, skip_back, skip_front, split_lines, split_whitespace, trim, trim_spec, lines, words,
    words_from, ws_len,
};
use crate::shell::{
    crlf, echo_spec, help_entry, cmd_help_text, opt_view, parse_echo_args, reqs, resolve_path,
    resolve_path_spec, show_cmd_help, show_help, show_about, EchoResult, EchoView, Request, RequestView,
    ABOUT_TEXT, DEFAULT_LINES, HELP_TEXT, OUT_BUF,
};
use crate::syscall::{child_code, listing, ERR, SIGKILL};
use crate::text::{append, copy_range, dec_spec, fmt_dec, is_utf8};

verus! {

/// What the rest of a command does with the reply to its system call.
#[derive(Debug, PartialEq, Eq)]
pub enum After {
    Nothing,
    /// Show the returned text, or write it to the file (an absolute path).
    Show { redirect: Option<Vec<u8>> },
    Spawned,
    /// Report "ok" on a non-zero result, else the message.
    Done { fail: &'static str },
    Pid,
    Waited,
    Killed,
    /// Count the lines, words and bytes of the returned text.
    Wc { path: Vec<u8> },
    /// Show the first `n` lines of the returned text.
    Head { n: u64 },
    /// Show the last `n` lines of the returned text.
    Tail { n: u64 },
}

pub enum AfterView {
    Nothing,
    Show { redirect: Option<Seq<u8>> },
    Spawned,
    Done { fail: &'static str },
    Pid,
    Waited,
    Killed,
    Wc { path: Seq<u8> },
    Head { n: u64 },
    Tail { n: u64 },
}

impl View for After {
    type V = AfterView;

    open spec fn view(&self) -> AfterView {
        match self {
            After::Nothing => AfterView::Nothing,
            After::Show { redirect } => AfterView::Show { redirect: opt_view(*redirect) },
            After::Spawned => AfterView::Spawned,
            After::Done { fail } => AfterView::Done { fail: *fail },
            After::Pid => AfterView::Pid,
            After::Waited => AfterView::Waited,
            After::Killed => AfterView::Killed,
            After::Wc { path } => AfterView::Wc { path: path@ },
            After::Head { n } => AfterView::Head { n: *n },
            After::Tail { n } => AfterView::Tail { n: *n },
        }
    }
}

/// A planned command: whether the line held one, the output that needs no
/// system call, the system call to make, and what to do with its reply.
#[derive(Debug, PartialEq, Eq)]
pub struct CmdPlan {
    pub handled: bool,
    pub writes: Vec<Request>,
    pub query: Option<Request>,
    pub after: After,
}

pub struct CmdPlanView {
    pub handled: bool,
    pub writes: Seq<RequestView>,
    pub query: Option<RequestView>,
    pub after: AfterView,
}

pub open spec fn opt_req(q: Option<Request>) -> Option<RequestView> {
    match q {
        Some(r) => Some(r@),
        None => None,
    }
}

impl View for CmdPlan {
    type V = CmdPlanView;

    open spec fn view(&self) -> CmdPlanView {
        CmdPlanView { handled: self.handled, writes: reqs(self.writes@), query: opt_req(self.query), after: self.after@ }
    }
}

/// The reply to a system call: its result, and the bytes it stored (for
/// `ls`, `cat` and `ps`).
#[derive(Debug, PartialEq, Eq)]
pub struct Reply {
    pub value: u64,
    pub bytes: Vec<u8>,
}

/// A plan that only prints.
pub open spec fn prints(w: Seq<RequestView>) -> CmdPlanView {
    CmdPlanView { handled: true, writes: w, query: None, after: AfterView::Nothing }
}

/// A plan that makes one system call and goes on with `after`.
pub open spec fn asks(q: RequestView, after: AfterView) -> CmdPlanView {
    CmdPlanView { handled: true, writes: seq![], query: Some(q), after }
}

pub open spec fn say(s: &str) -> Seq<RequestView> {
    seq![RequestView::Write(s.spec_bytes())]
}

/// Argument `i` resolved as a path, or nothing when there is no such argument.
pub open spec fn path_arg(args: Seq<Seq<u8>>, i: int, cwd: Seq<u8>) -> Seq<u8> {
    if i < args.len() {
        resolve_path_spec(cwd, args[i])
    } else {
        seq![]
    }
}

/// The line count `head` and `tail` read from argument 2 (10 when it is
/// missing or not a number).
pub open spec fn count_arg(args: Seq<Seq<u8>>) -> u64 {
    if args.len() > 2 {
        match parse_dec(args[2], usize::MAX as nat) {
            Some(v) => v as u64,
            None => DEFAULT_LINES,
        }
    } else {
        DEFAULT_LINES
    }
}

/// A command that reads a file argument: its usage line when the argument
/// is missing, else `cat` of it and after `after`.
pub open spec fn file_cmd(path: Seq<u8>, usage: &str, after: AfterView) -> CmdPlanView {
    if path.len() == 0 {
        prints(say(usage))
    } else {
        asks(RequestView::Cat { path, out_len: OUT_BUF }, after)
    }
}

/// A command that changes the filesystem at its path argument.
pub open spec fn fs_cmd(path: Seq<u8>, usage: &str, fail: &'static str, q: RequestView) -> CmdPlanView {
    if path.len() == 0 {
        prints(say(usage))
    } else {
        asks(q, AfterView::Done { fail })
    }
}

/// What a command line does (after redirections were split off), with
/// `cwd` as working directory. An empty line is not handled. `kill` reads
/// its argument as a process id.
pub open spec fn cmd_plan(line0: Seq<u8>, cwd: Seq<u8>, out: Option<Seq<u8>>, inp: Option<Seq<u8>>) -> CmdPlanView {
    let line = trim_spec(line0);
    let args = words(line);
    let redirect = match out {
        Some(p) => Some(resolve_path_spec(cwd, p)),
        None => None,
    };
    if line.len() == 0 || args.len() == 0 {
        CmdPlanView { handled: false, writes: seq![], query: None, after: AfterView::Nothing }
    } else {
        plan_a(args, line, cwd, redirect, inp)
    }
}

/// `cmd_plan` for help, about, ps, echo, spawn, ls and cat.
pub open spec fn plan_a(args: Seq<Seq<u8>>, line: Seq<u8>, cwd: Seq<u8>, redirect: Option<Seq<u8>>, inp: Option<Seq<u8>>) -> CmdPlanView {
    let c = args[0];
    if c == "help".spec_bytes() {
        if args.len() > 1 {
            match help_entry(args[1]) {
                Some((n, d)) => prints(seq![RequestView::Write(cmd_help_text(n, d))]),
                None => prints(
                    seq![RequestView::Write("  Unknown command: ".spec_bytes() + args[1] + crlf())],
                ),
            }
        } else {
            prints(say(HELP_TEXT))
        }
    } else if c == "about".spec_bytes() || c == "welcome".spec_bytes() {
        prints(say(ABOUT_TEXT))
    } else if c == "ps".spec_bytes() {
        asks(RequestView::Ps { out_len: OUT_BUF }, AfterView::Show { redirect })
    } else if c == "echo".spec_bytes() {
        match echo_spec(line) {
            Some(EchoView::ToStdout(content)) => match redirect {
                Some(p) => prints(seq![RequestView::WriteFile { path: p, data: content }]),
                None => prints(seq![RequestView::Write(content + crlf())]),
            },
            Some(EchoView::ToFile { content, path }) => prints(
                seq![RequestView::WriteFile { path: resolve_path_spec(cwd, path), data: content }],
            ),
            None => prints(seq![]),
        }
    } else if c == "spawn".spec_bytes() {
        asks(RequestView::Spawn, AfterView::Spawned)
    } else if c == "ls".spec_bytes() {
        let path = if args.len() > 1 { path_arg(args, 1, cwd) } else { cwd };
        asks(RequestView::Ls { path, out_len: OUT_BUF }, AfterView::Show { redirect })
    } else if c == "cat".spec_bytes() {
        let path = match inp {
            Some(p) => resolve_path_spec(cwd, p),
            None => path_arg(args, 1, cwd),
        };
        file_cmd(path, "cat <path>\r\n", AfterView::Show { redirect })
    } else {
        plan_b(args, cwd, redirect)
    }
}

/// `cmd_plan` for touch, mkdir, rm, pwd, getpid, wait and kill.
pub open spec fn plan_b(args: Seq<Seq<u8>>, cwd: Seq<u8>, redirect: Option<Seq<u8>>) -> CmdPlanView {
    let c = args[0];
    if c == "touch".spec_bytes() {
        let path = path_arg(args, 1, cwd);
        fs_cmd(path, "touch <path>\r\n", "touch failed\r\n", RequestView::Touch(path))
    } else if c == "mkdir".spec_bytes() {
        let path = path_arg(args, 1, cwd);
        fs_cmd(path, "mkdir <path>\r\n", "mkdir failed\r\n", RequestView::Mkdir(path))
    } else if c == "rm".spec_bytes() {
        let path = path_arg(args, 1, cwd);
        fs_cmd(path, "rm <path>\r\n", "rm failed (file not found or dir not empty)\r\n", RequestView::Rm(path))
    } else if c == "pwd".spec_bytes() {
        match redirect {
            Some(p) => prints(seq![RequestView::WriteFile { path: p, data: cwd }]),
            None => prints(seq![RequestView::Write(cwd + crlf())]),
        }
    } else if c == "getpid".spec_bytes() {
        asks(RequestView::GetPid, AfterView::Pid)
    } else if c == "wait".spec_bytes() {
        asks(RequestView::Wait, AfterView::Waited)
    } else if c == "kill".spec_bytes() {
        if args.len() < 2 {
            prints(say("kill <pid>\r\n"))
        } else {
            match parse_dec(args[1], u32::MAX as nat) {
                Some(pid) => asks(RequestView::Kill { pid: pid as u32, sig: SIGKILL as u32 }, AfterView::Killed),
                None => prints(say("kill: invalid pid\r\n")),
            }
        }
    } else {
        plan_c(args, cwd)
    }
}

/// `cmd_plan` for wc, head, tail, exit, shutdown and unknown commands.
pub open spec fn plan_c(args: Seq<Seq<u8>>, cwd: Seq<u8>) -> CmdPlanView {
    let c = args[0];
    if c == "wc".spec_bytes() {
        let path = path_arg(args, 1, cwd);
        file_cmd(path, "wc <file>\r\n", AfterView::Wc { path })
    } else if c == "head".spec_bytes() {
        file_cmd(path_arg(args, 1, cwd), "head <file> [n]\r\n", AfterView::Head { n: count_arg(args) })
    } else if c == "tail".spec_bytes() {
        file_cmd(path_arg(args, 1, cwd), "tail <file> [n]\r\n", AfterView::Tail { n: count_arg(args) })
    } else if c == "exit".spec_bytes() {
        asks(RequestView::Exit(0), AfterView::Nothing)
    } else if c == "shutdown".spec_bytes() {
        asks(RequestView::Shutdown, AfterView::Nothing)
    } else {
        prints(
            seq![
                RequestView::Write("unknown: ".spec_bytes()),
                RequestView::Write(c),
                RequestView::Write(crlf()),
            ],
        )
    }
}

/// The text a reply carries: its bytes when they are valid UTF-8, else nothing.
pub open spec fn text_of(b: Seq<u8>) -> Seq<u8> {
    if valid_utf8(b) {
        b
    } else {
        seq![]
    }
}

/// The bytes of a reply as the shell reads them from its 512-byte buffer:
/// a reply that fills the buffer has its last byte zeroed first.
pub open spec fn buffered(b: Seq<u8>) -> Seq<u8> {
    if b.len() >= 512 {
        b.update(511, 0u8)
    } else {
        b
    }
}

/// The text of a reply read from the shell's buffer (see `buffered`).
pub open spec fn reply_text(b: Seq<u8>) -> Seq<u8> {
    text_of(buffered(b))
}

/// "LINES\tWORDS\tBYTES\tPATH\r\n" for the text `s`.
pub open spec fn wc_text(s: Seq<u8>, path: Seq<u8>) -> Seq<u8> {
    dec_spec(lines(s).len()) + seq![0x09u8] + dec_spec(words(s).len()) + seq![0x09u8] + dec_spec(s.len())
        + seq![0x09u8] + path + crlf()
}

/// The first `n` lines of `s`, each followed by "\r\n".
pub open spec fn head_text(s: Seq<u8>, n: u64) -> Seq<u8> {
    let ls = lines(s);
    listing(ls.subrange(0, if ls.len() < n { ls.len() as int } else { n as int }))
}

/// The last `n` lines of `s`, each followed by "\r\n".
pub open spec fn tail_text(s: Seq<u8>, n: u64) -> Seq<u8> {
    let ls = lines(s);
    listing(ls.subrange(if ls.len() > n { ls.len() - n } else { 0 }, ls.len() as int))
}

/// "child PID exited with status STATUS\r\n", from the id and status
/// packed into a `wait` result.
pub open spec fn waited_text(v: u64) -> Seq<u8> {
    "child ".spec_bytes() + dec_spec(((v / 256) % 256) as nat) + " exited with status ".spec_bytes() + dec_spec(
        (v % 256) as nat,
    ) + crlf()
}

/// What `wait` prints decodes what the kernel packed for the parent: for
/// a child whose id is below 256, the message names that id and the status
/// the child ended with.
pub proof fn law_wait_report_decodes(pid: u32, status: u8)
    requires
        pid < 256,
    ensures
        waited_text(child_code(pid, status)) == "child ".spec_bytes() + dec_spec(pid as nat)
            + " exited with status ".spec_bytes() + dec_spec(status as nat) + crlf(),
{
    let v = child_code(pid, status);
    assert(v == pid * 256 + status);
    assert((v / 256) % 256 == pid && v % 256 == status) by (nonlinear_arith)
        requires
            v == pid * 256 + status,
            pid < 256,
            status < 256,
    ;
}

/// The `wait` command asks for a child's end and reports what the kernel
/// packed: the line "wait" plans the wait system call; its answer for a
/// child whose id is below 256 prints that id and the status, and the
/// error answer prints the failure message.
pub proof fn law_wait_command(pid: u32, status: u8, cwd: Seq<u8>)
    requires
        pid < 256,
    ensures
        cmd_plan("wait".spec_bytes(), cwd, None, None) == asks(RequestView::Wait, AfterView::Waited),
        finish_spec(AfterView::Waited, child_code(pid, status), seq![]) == seq![
            RequestView::Write(
                "child ".spec_bytes() + dec_spec(pid as nat) + " exited with status ".spec_bytes() + dec_spec(
                    status as nat,
                ) + crlf(),
            ),
        ],
        finish_spec(AfterView::Waited, ERR, seq![]) == say("wait failed (no children or not a parent)\r\n"),
{
    law_wait_report_decodes(pid, status);
    assert(child_code(pid, status) != ERR);
    lemma_wait_words();
    let w = "wait".spec_bytes();
    assert(plan_a(seq![w], w, cwd, None, None) == asks(RequestView::Wait, AfterView::Waited)) by {
        lemma_wait_plan(cwd);
    }
}

/// Listing two runs of lines one after the other gives the listing of
/// both.
proof fn lemma_listing_concat(a: Seq<Seq<u8>>, b: Seq<Seq<u8>>)
    ensures
        listing(a + b) == listing(a) + listing(b),
    decreases b.len(),
{
    if b.len() == 0 {
        assert(a + b =~= a);
        assert(listing(a) + listing(b) =~= listing(a));
    } else {
        lemma_listing_concat(a, b.drop_last());
        assert((a + b).drop_last() =~= a + b.drop_last());
        assert((a + b).last() == b.last());
        assert(listing(a) + listing(b) =~= listing(a) + listing(b.drop_last()) + b.last() + crlf());
    }
}

/// `head` with `n` lines and `tail` with the remaining lines, one after the
/// other, show the whole text; `head` and `tail` with at least as many
/// lines as the text has both show it whole.
pub proof fn law_head_tail_split(s: Seq<u8>, n: u64, m: u64)
    requires
        n + m == lines(s).len(),
        lines(s).len() <= u64::MAX,
    ensures
        head_text(s, n) + tail_text(s, m) == head_text(s, (n + m) as u64),
        head_text(s, (n + m) as u64) == tail_text(s, (n + m) as u64),
{
    let ls = lines(s);
    let l = ls.len() as int;
    assert(head_text(s, n) == listing(ls.subrange(0, n as int)));
    assert(tail_text(s, m) == listing(ls.subrange(n as int, l)));
    assert(head_text(s, (n + m) as u64) == listing(ls.subrange(0, l)));
    assert(tail_text(s, (n + m) as u64) == listing(ls.subrange(0, l)));
    lemma_listing_concat(ls.subrange(0, n as int), ls.subrange(n as int, l));
    assert(ls.subrange(0, n as int) + ls.subrange(n as int, l) =~= ls.subrange(0, l));
}

/// `ls` lists the directory its argument names, resolved against the
/// working directory; only `ls` with no argument lists the working
/// directory itself. The listing is asked for with a 512-byte buffer.
#[verifier::rlimit(50)]
#[verifier::spinoff_prover]
pub proof fn law_ls_lists_its_argument(line: Seq<u8>, cwd: Seq<u8>, out: Option<Seq<u8>>, inp: Option<Seq<u8>>)
    requires
        words(trim_spec(line)).len() >= 1,
        words(trim_spec(line))[0] == seq![0x6Cu8, 0x73u8],
    ensures
        cmd_plan(line, cwd, out, inp).handled,
        cmd_plan(line, cwd, out, inp).query == Some(
            RequestView::Ls {
                path: if words(trim_spec(line)).len() >= 2 {
                    resolve_path_spec(cwd, words(trim_spec(line))[1])
                } else {
                    cwd
                },
                out_len: 512,
            },
        ),
{
    lemma_command_names();
    let l = trim_spec(line);
    assert(l.len() > 0) by {
        if l.len() == 0 {
            assert(words(l) == Seq::<Seq<u8>>::empty());
        }
    }
}

/// The commands that act on a file name it by their first argument,
/// resolved against the working directory: `cat` (without an input
/// redirection), `wc`, `head` and `tail` read that file, and `touch`,
/// `mkdir` and `rm` create or remove it.
#[verifier::rlimit(50)]
#[verifier::spinoff_prover]
pub proof fn law_path_commands(line: Seq<u8>, cwd: Seq<u8>, out: Option<Seq<u8>>)
    requires
        words(trim_spec(line)).len() >= 2,
        resolve_path_spec(cwd, words(trim_spec(line))[1]).len() > 0,
    ensures
        ({
            let w = words(trim_spec(line));
            let p = resolve_path_spec(cwd, w[1]);
            let q = cmd_plan(line, cwd, out, None).query;
            &&& w[0] == seq![0x63u8, 0x61u8, 0x74u8] ==> q == Some(RequestView::Cat { path: p, out_len: 512 })
            &&& w[0] == seq![0x77u8, 0x63u8] ==> q == Some(RequestView::Cat { path: p, out_len: 512 })
            &&& w[0] == seq![0x68u8, 0x65u8, 0x61u8, 0x64u8] ==> q == Some(RequestView::Cat { path: p, out_len: 512 })
            &&& w[0] == seq![0x74u8, 0x61u8, 0x69u8, 0x6Cu8] ==> q == Some(RequestView::Cat { path: p, out_len: 512 })
            &&& w[0] == seq![0x74u8, 0x6Fu8, 0x75u8, 0x63u8, 0x68u8] ==> q == Some(RequestView::Touch(p))
            &&& w[0] == seq![0x6Du8, 0x6Bu8, 0x64u8, 0x69u8, 0x72u8] ==> q == Some(RequestView::Mkdir(p))
            &&& w[0] == seq![0x72u8, 0x6Du8] ==> q == Some(RequestView::Rm(p))
        }),
{
    lemma_command_names();
    lemma_more_command_names();
    let l = trim_spec(line);
    assert(l.len() > 0) by {
        if l.len() == 0 {
            assert(words(l) == Seq::<Seq<u8>>::empty());
        }
    }
}

/// The bytes of the command names the planner tests after "wait".
proof fn lemma_more_command_names()
    ensures
        "kill".spec_bytes() == seq![0x6Bu8, 0x69u8, 0x6Cu8, 0x6Cu8],
        "wc".spec_bytes() == seq![0x77u8, 0x63u8],
        "head".spec_bytes() == seq![0x68u8, 0x65u8, 0x61u8, 0x64u8],
        "tail".spec_bytes() == seq![0x74u8, 0x61u8, 0x69u8, 0x6Cu8],
{
    reveal_strlit("kill");
    vstd::string::is_ascii_spec_bytes("kill");
    assert(vstd::string::is_ascii("kill"));
    assert("kill".spec_bytes() =~= seq![0x6Bu8, 0x69u8, 0x6Cu8, 0x6Cu8]);
    reveal_strlit("wc");
    vstd::string::is_ascii_spec_bytes("wc");
    assert(vstd::string::is_ascii("wc"));
    assert("wc".spec_bytes() =~= seq![0x77u8, 0x63u8]);
    reveal_strlit("head");
    vstd::string::is_ascii_spec_bytes("head");
    assert(vstd::string::is_ascii("head"));
    assert("head".spec_bytes() =~= seq![0x68u8, 0x65u8, 0x61u8, 0x64u8]);
    reveal_strlit("tail");
    vstd::string::is_ascii_spec_bytes("tail");
    assert(vstd::string::is_ascii("tail"));
    assert("tail".spec_bytes() =~= seq![0x74u8, 0x61u8, 0x69u8, 0x6Cu8]);
}

/// The bytes of the command names the planner tests before "wait".
proof fn lemma_command_names()
    ensures
        "wait".spec_bytes() == seq![0x77u8, 0x61u8, 0x69u8, 0x74u8],
        "help".spec_bytes() == seq![0x68u8, 0x65u8, 0x6Cu8, 0x70u8],
        "about".spec_bytes() == seq![0x61u8, 0x62u8, 0x6Fu8, 0x75u8, 0x74u8],
        "welcome".spec_bytes() == seq![0x77u8, 0x65u8, 0x6Cu8, 0x63u8, 0x6Fu8, 0x6Du8, 0x65u8],
        "ps".spec_bytes() == seq![0x70u8, 0x73u8],
        "echo".spec_bytes() == seq![0x65u8, 0x63u8, 0x68u8, 0x6Fu8],
        "spawn".spec_bytes() == seq![0x73u8, 0x70u8, 0x61u8, 0x77u8, 0x6Eu8],
        "ls".spec_bytes() == seq![0x6Cu8, 0x73u8],
        "cat".spec_bytes() == seq![0x63u8, 0x61u8, 0x74u8],
        "touch".spec_bytes() == seq![0x74u8, 0x6Fu8, 0x75u8, 0x63u8, 0x68u8],
        "mkdir".spec_bytes() == seq![0x6Du8, 0x6Bu8, 0x64u8, 0x69u8, 0x72u8],
        "rm".spec_bytes() == seq![0x72u8, 0x6Du8],
        "pwd".spec_bytes() == seq![0x70u8, 0x77u8, 0x64u8],
        "getpid".spec_bytes() == seq![0x67u8, 0x65u8, 0x74u8, 0x70u8, 0x69u8, 0x64u8],
{
    reveal_strlit("wait");
    vstd::string::is_ascii_spec_bytes("wait");
    assert(vstd::string::is_ascii("wait"));
    assert("wait".spec_bytes() =~= seq![0x77u8, 0x61u8, 0x69u8, 0x74u8]);
    reveal_strlit("help");
    vstd::string::is_ascii_spec_bytes("help");
    assert(vstd::string::is_ascii("help"));
    assert("help".spec_bytes() =~= seq![0x68u8, 0x65u8, 0x6Cu8, 0x70u8]);
    reveal_strlit("about");
    vstd::string::is_ascii_spec_bytes("about");
    assert(vstd::string::is_ascii("about"));
    assert("about".spec_bytes() =~= seq![0x61u8, 0x62u8, 0x6Fu8, 0x75u8, 0x74u8]);
    reveal_strlit("welcome");
    vstd::string::is_ascii_spec_bytes("welcome");
    assert(vstd::string::is_ascii("welcome"));
    assert("welcome".spec_bytes() =~= seq![0x77u8, 0x65u8, 0x6Cu8, 0x63u8, 0x6Fu8, 0x6Du8, 0x65u8]);
    reveal_strlit("ps");
    vstd::string::is_ascii_spec_bytes("ps");
    assert(vstd::string::is_ascii("ps"));
    assert("ps".spec_bytes() =~= seq![0x70u8, 0x73u8]);
    reveal_strlit("echo");
    vstd::string::is_ascii_spec_bytes("echo");
    assert(vstd::string::is_ascii("echo"));
    assert("echo".spec_bytes() =~= seq![0x65u8, 0x63u8, 0x68u8, 0x6Fu8]);
    reveal_strlit("spawn");
    vstd::string::is_ascii_spec_bytes("spawn");
    assert(vstd::string::is_ascii("spawn"));
    assert("spawn".spec_bytes() =~= seq![0x73u8, 0x70u8, 0x61u8, 0x77u8, 0x6Eu8]);
    reveal_strlit("ls");
    vstd::string::is_ascii_spec_bytes("ls");
    assert(vstd::string::is_ascii("ls"));
    assert("ls".spec_bytes() =~= seq![0x6Cu8, 0x73u8]);
    reveal_strlit("cat");
    vstd::string::is_ascii_spec_bytes("cat");
    assert(vstd::string::is_ascii("cat"));
    assert("cat".spec_bytes() =~= seq![0x63u8, 0x61u8, 0x74u8]);
    reveal_strlit("touch");
    vstd::string::is_ascii_spec_bytes("touch");
    assert(vstd::string::is_ascii("touch"));
    assert("touch".spec_bytes() =~= seq![0x74u8, 0x6Fu8, 0x75u8, 0x63u8, 0x68u8]);
    reveal_strlit("mkdir");
    vstd::string::is_ascii_spec_bytes("mkdir");
    assert(vstd::string::is_ascii("mkdir"));
    assert("mkdir".spec_bytes() =~= seq![0x6Du8, 0x6Bu8, 0x64u8, 0x69u8, 0x72u8]);
    reveal_strlit("rm");
    vstd::string::is_ascii_spec_bytes("rm");
    assert(vstd::string::is_ascii("rm"));
    assert("rm".spec_bytes() =~= seq![0x72u8, 0x6Du8]);
    reveal_strlit("pwd");
    vstd::string::is_ascii_spec_bytes("pwd");
    assert(vstd::string::is_ascii("pwd"));
    assert("pwd".spec_bytes() =~= seq![0x70u8, 0x77u8, 0x64u8]);
    reveal_strlit("getpid");
    vstd::string::is_ascii_spec_bytes("getpid");
    assert(vstd::string::is_ascii("getpid"));
    assert("getpid".spec_bytes() =~= seq![0x67u8, 0x65u8, 0x74u8, 0x70u8, 0x69u8, 0x64u8]);
}

/// The line "wait" is one word, and is its own trim.
proof fn lemma_wait_words()
    ensures
        trim_spec("wait".spec_bytes()) == "wait".spec_bytes(),
        words("wait".spec_bytes()) == seq!["wait".spec_bytes()],
{
    lemma_command_names();
    let w = "wait".spec_bytes();
    assert(w.len() == 4);
    assert(skip_front(w, 0) == 0);
    assert(skip_back(w, 0, 4) == 4);
    assert(trim_spec(w) =~= w);
    assert(ws_len(w, 0) == 0 && ws_len(w, 1) == 0 && ws_len(w, 2) == 0 && ws_len(w, 3) == 0);
    assert(words_from(w, 4, w) == seq![w]);
    assert(words_from(w, 3, w.subrange(0, 3)) == words_from(w, 4, w.subrange(0, 3).push(w[3])));
    assert(w.subrange(0, 3).push(w[3]) =~= w);
    assert(words_from(w, 2, w.subrange(0, 2)) == words_from(w, 3, w.subrange(0, 2).push(w[2])));
    assert(w.subrange(0, 2).push(w[2]) =~= w.subrange(0, 3));
    assert(words_from(w, 1, w.subrange(0, 1)) == words_from(w, 2, w.subrange(0, 1).push(w[1])));
    assert(w.subrange(0, 1).push(w[1]) =~= w.subrange(0, 2));
    assert(words_from(w, 0, seq![]) == words_from(w, 1, Seq::<u8>::empty().push(w[0])));
    assert(Seq::<u8>::empty().push(w[0]) =~= w.subrange(0, 1));
}

/// "wait" is none of the commands tested before it.
proof fn lemma_wait_plan(cwd: Seq<u8>)
    ensures
        plan_a(seq!["wait".spec_bytes()], "wait".spec_bytes(), cwd, None, None) == asks(RequestView::Wait, AfterView::Waited),
{
    lemma_command_names();
    let w = "wait".spec_bytes();
    assert(w[0] != "help".spec_bytes()[0]);
    assert(w.len() != "about".spec_bytes().len() && w.len() != "welcome".spec_bytes().len());
    assert(w.len() != "ps".spec_bytes().len() && w[0] != "echo".spec_bytes()[0]);
    assert(w.len() != "spawn".spec_bytes().len() && w.len() != "ls".spec_bytes().len() && w.len() != "cat".spec_bytes().len());
    assert(w.len() != "touch".spec_bytes().len() && w.len() != "mkdir".spec_bytes().len() && w.len() != "rm".spec_bytes().len());
    assert(w.len() != "pwd".spec_bytes().len() && w.len() != "getpid".spec_bytes().len());
    assert(seq![w][0] == w);
    assert(plan_b(seq![w], cwd, None) == asks(RequestView::Wait, AfterView::Waited));
}

/// What a command prints or writes once its system call answered.
pub open spec fn finish_spec(after: AfterView, value: u64, bytes: Seq<u8>) -> Seq<RequestView> {
    match after {
        AfterView::Nothing => seq![],
        AfterView::Show { redirect } => match redirect {
            Some(p) => seq![RequestView::WriteFile { path: p, data: reply_text(bytes) }],
            None => seq![RequestView::Write(reply_text(bytes))],
        },
        AfterView::Spawned => if value == ERR { say("spawn failed\r\n") } else { say("spawned\r\n") },
        AfterView::Done { fail } => if value != 0 { say("ok\r\n") } else { say(fail) },
        AfterView::Pid => if value == ERR {
            say("getpid failed\r\n")
        } else {
            seq![RequestView::Write(dec_spec(value as nat) + crlf())]
        },
        AfterView::Waited => if value == ERR {
            say("wait failed (no children or not a parent)\r\n")
        } else {
            seq![RequestView::Write(waited_text(value))]
        },
        AfterView::Killed => if value != ERR { say("ok\r\n") } else { say("kill failed\r\n") },
        AfterView::Wc { path } => seq![RequestView::Write(wc_text(reply_text(bytes), path))],
        AfterView::Head { n } => seq![RequestView::Write(head_text(reply_text(bytes), n))],
        AfterView::Tail { n } => seq![RequestView::Write(tail_text(reply_text(bytes), n))],
    }
}


fn lit(s: &str) -> (r: Vec<u8>)
    ensures
        r@ == s.spec_bytes(),
{
    let b = s.as_bytes();
    copy_range(b, 0, b.len())
}

fn is_lit(s: &[u8], l: &str) -> (r: bool)
    ensures
        r == (s@ == l.spec_bytes()),
{
    crate::text::bytes_eq(s, l.as_bytes())
}

fn say_exec(s: &str) -> (r: Vec<Request>)
    ensures
        reqs(r@) == say(s),
{
    let mut v: Vec<Request> = Vec::new();
    v.push(Request::Write(lit(s)));
    assert(reqs(v@) =~= say(s));
    v
}

fn one(r: Request) -> (v: Vec<Request>)
    ensures
        reqs(v@) == seq![r@],
{
    let mut v: Vec<Request> = Vec::new();
    v.push(r);
    assert(reqs(v@) =~= seq![r@]);
    v
}

fn prints_exec(w: Vec<Request>) -> (r: CmdPlan)
    ensures
        r@ == prints(reqs(w@)),
{
    CmdPlan { handled: true, writes: w, query: None, after: After::Nothing }
}

fn asks_exec(q: Request, a: After) -> (r: CmdPlan)
    ensures
        r@ == asks(q@, a@),
{
    let w: Vec<Request> = Vec::new();
    assert(reqs(w@) =~= seq![]);
    CmdPlan { handled: true, writes: w, query: Some(q), after: a }
}

fn clone_bytes(v: &Vec<u8>) -> (r: Vec<u8>)
    ensures
        r@ == v@,
{
    let r = copy_range(v.as_slice(), 0, v.len());
    assert(r@ =~= v@);
    r
}

fn path_arg_exec(args: &Vec<Vec<u8>>, i: usize, cwd: &[u8]) -> (r: Vec<u8>)
    ensures
        r@ == path_arg(args@.map_values(|v: Vec<u8>| v@), i as int, cwd@),
{
    if i < args.len() {
        assert(args@.map_values(|v: Vec<u8>| v@)[i as int] == args@[i as int]@);
        resolve_path(cwd, args[i].as_slice())
    } else {
        Vec::new()
    }
}

fn count_arg_exec(args: &Vec<Vec<u8>>) -> (r: u64)
    ensures
        r == count_arg(args@.map_values(|v: Vec<u8>| v@)),
{
    if args.len() > 2 {
        assert(args@.map_values(|v: Vec<u8>| v@)[2] == args@[2]@);
        match parse_dec_exec(args[2].as_slice(), usize::MAX as u64) {
            Some(v) => v,
            None => DEFAULT_LINES,
        }
    } else {
        DEFAULT_LINES
    }
}

fn file_cmd_exec(path: Vec<u8>, usage: &str, a: After) -> (r: CmdPlan)
    ensures
        r@ == file_cmd(path@, usage, a@),
{
    if path.len() == 0 {
        prints_exec(say_exec(usage))
    } else {
        asks_exec(Request::Cat { path, out_len: OUT_BUF }, a)
    }
}

fn fs_cmd_exec(path: Vec<u8>, usage: &str, fail: &'static str, kind: u8) -> (r: CmdPlan)
    requires
        kind < 3,
    ensures
        r@ == fs_cmd(
            path@,
            usage,
            fail,
            if kind == 0 {
                RequestView::Touch(path@)
            } else if kind == 1 {
                RequestView::Mkdir(path@)
            } else {
                RequestView::Rm(path@)
            },
        ),
{
    if path.len() == 0 {
        prints_exec(say_exec(usage))
    } else {
        let q = if kind == 0 {
            Request::Touch(path)
        } else if kind == 1 {
            Request::Mkdir(path)
        } else {
            Request::Rm(path)
        };
        asks_exec(q, After::Done { fail })
    }
}

/// Plans a command line (see `cmd_plan`).
pub fn run_cmd(line: &[u8], cwd: &[u8], out_redirect: &Option<Vec<u8>>, in_redirect: &Option<Vec<u8>>) -> (r: CmdPlan)
    ensures
        r@ == cmd_plan(line@, cwd@, opt_view(*out_redirect), opt_view(*in_redirect)),
{
    let line = trim(line);
    let args = split_whitespace(line.as_slice());
    if line.len() == 0 || args.len() == 0 {
        let w: Vec<Request> = Vec::new();
        assert(reqs(w@) =~= seq![]);
        return CmdPlan { handled: false, writes: w, query: None, after: After::Nothing };
    }
    let redirect = match out_redirect {
        Some(p) => Some(resolve_path(cwd, p.as_slice())),
        None => None,
    };
    run_a(&args, line.as_slice(), cwd, redirect, in_redirect)
}

fn run_a(args: &Vec<Vec<u8>>, line: &[u8], cwd: &[u8], redirect: Option<Vec<u8>>, in_redirect: &Option<Vec<u8>>) -> (r: CmdPlan)
    requires
        args@.len() > 0,
        args@.map_values(|v: Vec<u8>| v@) == words(line@),
    ensures
        r@ == plan_a(args@.map_values(|v: Vec<u8>| v@), line@, cwd@, opt_view(redirect), opt_view(*in_redirect)),
{
    let ghost av = args@.map_values(|v: Vec<u8>| v@);
    assert(av[0] == args@[0]@);
    let c = args[0].as_slice();
    if is_lit(c, "help") {
        if args.len() > 1 {
            assert(av[1] == args@[1]@);
            match show_cmd_help(args[1].as_slice()) {
                Some(t) => prints_exec(one(Request::Write(t))),
                None => {
                    let mut m = lit("  Unknown command: ");
                    append(&mut m, args[1].as_slice());
                    m.push(0x0D);
                    m.push(0x0A);
                    assert(m@ =~= "  Unknown command: ".spec_bytes() + av[1] + crlf());
                    prints_exec(one(Request::Write(m)))
                },
            }
        } else {
            prints_exec(say_exec(HELP_TEXT))
        }
    } else if is_lit(c, "about") || is_lit(c, "welcome") {
        prints_exec(say_exec(ABOUT_TEXT))
    } else if is_lit(c, "ps") {
        asks_exec(Request::Ps { out_len: OUT_BUF }, After::Show { redirect })
    } else if is_lit(c, "echo") {
        match parse_echo_args(line) {
            Some(EchoResult::ToStdout(content)) => match redirect {
                Some(p) => prints_exec(one(Request::WriteFile { path: p, data: content })),
                None => {
                    let ghost c0 = content@;
                    let mut m = content;
                    m.push(0x0D);
                    m.push(0x0A);
                    assert(m@ =~= c0 + crlf());
                    prints_exec(one(Request::Write(m)))
                },
            },
            Some(EchoResult::ToFile { content, path }) => {
                let p = resolve_path(cwd, path.as_slice());
                prints_exec(one(Request::WriteFile { path: p, data: content }))
            },
            None => {
                let w: Vec<Request> = Vec::new();
                assert(reqs(w@) =~= seq![]);
                prints_exec(w)
            },
        }
    } else if is_lit(c, "spawn") {
        asks_exec(Request::Spawn, After::Spawned)
    } else if is_lit(c, "ls") {
        let path = if args.len() > 1 {
            path_arg_exec(args, 1, cwd)
        } else {
            copy_range(cwd, 0, cwd.len())
        };
        assert(args.len() <= 1 ==> path@ =~= cwd@);
        asks_exec(Request::Ls { path, out_len: OUT_BUF }, After::Show { redirect })
    } else if is_lit(c, "cat") {
        let path = match in_redirect {
            Some(p) => resolve_path(cwd, p.as_slice()),
            None => path_arg_exec(args, 1, cwd),
        };
        file_cmd_exec(path, "cat <path>\r\n", After::Show { redirect })
    } else {
        run_b(args, cwd, redirect)
    }
}

fn run_b(args: &Vec<Vec<u8>>, cwd: &[u8], redirect: Option<Vec<u8>>) -> (r: CmdPlan)
    requires
        args@.len() > 0,
    ensures
        r@ == plan_b(args@.map_values(|v: Vec<u8>| v@), cwd@, opt_view(redirect)),
{
    let ghost av = args@.map_values(|v: Vec<u8>| v@);
    assert(av[0] == args@[0]@);
    let c = args[0].as_slice();
    if is_lit(c, "touch") {
        fs_cmd_exec(path_arg_exec(args, 1, cwd), "touch <path>\r\n", "touch failed\r\n", 0)
    } else if is_lit(c, "mkdir") {
        fs_cmd_exec(path_arg_exec(args, 1, cwd), "mkdir <path>\r\n", "mkdir failed\r\n", 1)
    } else if is_lit(c, "rm") {
        fs_cmd_exec(path_arg_exec(args, 1, cwd), "rm <path>\r\n", "rm failed (file not found or dir not empty)\r\n", 2)
    } else if is_lit(c, "pwd") {
        let d = copy_range(cwd, 0, cwd.len());
        assert(d@ =~= cwd@);
        match redirect {
            Some(p) => prints_exec(one(Request::WriteFile { path: p, data: d })),
            None => {
                let mut m = d;
                m.push(0x0D);
                m.push(0x0A);
                assert(m@ =~= cwd@ + crlf());
                prints_exec(one(Request::Write(m)))
            },
        }
    } else if is_lit(c, "getpid") {
        asks_exec(Request::GetPid, After::Pid)
    } else if is_lit(c, "wait") {
        asks_exec(Request::Wait, After::Waited)
    } else if is_lit(c, "kill") {
        if args.len() < 2 {
            prints_exec(say_exec("kill <pid>\r\n"))
        } else {
            assert(av[1] == args@[1]@);
            match parse_dec_exec(args[1].as_slice(), u32::MAX as u64) {
                Some(pid) => asks_exec(Request::Kill { pid: pid as u32, sig: SIGKILL as u32 }, After::Killed),
                None => prints_exec(say_exec("kill: invalid pid\r\n")),
            }
        }
    } else {
        run_c(args, cwd)
    }
}

fn run_c(args: &Vec<Vec<u8>>, cwd: &[u8]) -> (r: CmdPlan)
    requires
        args@.len() > 0,
    ensures
        r@ == plan_c(args@.map_values(|v: Vec<u8>| v@), cwd@),
{
    let ghost av = args@.map_values(|v: Vec<u8>| v@);
    assert(av[0] == args@[0]@);
    let c = args[0].as_slice();
    if is_lit(c, "wc") {
        let path = path_arg_exec(args, 1, cwd);
        let shown = clone_bytes(&path);
        file_cmd_exec(path, "wc <file>\r\n", After::Wc { path: shown })
    } else if is_lit(c, "head") {
        let n = count_arg_exec(args);
        file_cmd_exec(path_arg_exec(args, 1, cwd), "head <file> [n]\r\n", After::Head { n })
    } else if is_lit(c, "tail") {
        let n = count_arg_exec(args);
        file_cmd_exec(path_arg_exec(args, 1, cwd), "tail <file> [n]\r\n", After::Tail { n })
    } else if is_lit(c, "exit") {
        asks_exec(Request::Exit(0), After::Nothing)
    } else if is_lit(c, "shutdown") {
        asks_exec(Request::Shutdown, After::Nothing)
    } else {
        let mut w: Vec<Request> = Vec::new();
        w.push(Request::Write(lit("unknown: ")));
        w.push(Request::Write(clone_bytes(&args[0])));
        let mut e: Vec<u8> = Vec::new();
        e.push(0x0D);
        e.push(0x0A);
        w.push(Request::Write(e));
        proof {
            assert(e@ =~= crlf());
            assert(reqs(w@) =~= seq![
                RequestView::Write("unknown: ".spec_bytes()),
                RequestView::Write(av[0]),
                RequestView::Write(crlf()),
            ]);
        }
        prints_exec(w)
    }
}


fn text_of_exec(b: &Vec<u8>) -> (r: Vec<u8>)
    ensures
        r@ == text_of(b@),
{
    if is_utf8(b.as_slice()) {
        clone_bytes(b)
    } else {
        Vec::new()
    }
}

fn reply_text_exec(b: &Vec<u8>) -> (r: Vec<u8>)
    ensures
        r@ == reply_text(b@),
{
    let mut c = clone_bytes(b);
    if c.len() >= 512 {
        c.set(511, 0);
    }
    assert(c@ =~= buffered(b@));
    text_of_exec(&c)
}

/// Lines `lo` to `hi` of `ls`, each followed by "\r\n".
fn join_lines(ls: &Vec<Vec<u8>>, lo: usize, hi: usize) -> (r: Vec<u8>)
    requires
        lo <= hi <= ls@.len(),
    ensures
        r@ == listing(ls@.map_values(|v: Vec<u8>| v@).subrange(lo as int, hi as int)),
{
    let ghost lv = ls@.map_values(|v: Vec<u8>| v@);
    let mut out: Vec<u8> = Vec::new();
    let mut i: usize = lo;
    while i < hi
        invariant
            lo <= i <= hi <= ls@.len(),
            lv == ls@.map_values(|v: Vec<u8>| v@),
            out@ == listing(lv.subrange(lo as int, i as int)),
        decreases hi - i,
    {
        append(&mut out, ls[i].as_slice());
        out.push(0x0D);
        out.push(0x0A);
        proof {
            let t = lv.subrange(lo as int, i + 1);
            assert(t.drop_last() =~= lv.subrange(lo as int, i as int));
            assert(t.last() == ls@[i as int]@);
            assert(out@ =~= listing(t.drop_last()) + t.last() + crate::syscall::crlf());
        }
        i = i + 1;
    }
    out
}

/// What a command prints or writes once its system call answered (see `finish_spec`).
pub fn finish_cmd(after: &After, reply: &Reply) -> (r: Vec<Request>)
    ensures
        reqs(r@) == finish_spec(after@, reply.value, reply.bytes@),
{
    let v = reply.value;
    match after {
        After::Nothing => {
            let w: Vec<Request> = Vec::new();
            assert(reqs(w@) =~= seq![]);
            w
        },
        After::Show { redirect } => {
            let t = reply_text_exec(&reply.bytes);
            match redirect {
                Some(p) => one(Request::WriteFile { path: clone_bytes(p), data: t }),
                None => one(Request::Write(t)),
            }
        },
        After::Spawned => if v == ERR {
            say_exec("spawn failed\r\n")
        } else {
            say_exec("spawned\r\n")
        },
        After::Done { fail } => if v != 0 {
            say_exec("ok\r\n")
        } else {
            say_exec(fail)
        },
        After::Pid => if v == ERR {
            say_exec("getpid failed\r\n")
        } else {
            let mut m = fmt_dec(v);
            let ghost d = m@;
            m.push(0x0D);
            m.push(0x0A);
            assert(m@ =~= d + crlf());
            one(Request::Write(m))
        },
        After::Waited => if v == ERR {
            say_exec("wait failed (no children or not a parent)\r\n")
        } else {
            let mut m = lit("child ");
            append(&mut m, fmt_dec((v / 256) % 256).as_slice());
            append(&mut m, " exited with status ".as_bytes());
            append(&mut m, fmt_dec(v % 256).as_slice());
            m.push(0x0D);
            m.push(0x0A);
            assert(m@ =~= waited_text(v));
            one(Request::Write(m))
        },
        After::Killed => if v != ERR {
            say_exec("ok\r\n")
        } else {
            say_exec("kill failed\r\n")
        },
        After::Wc { path } => {
            let t = reply_text_exec(&reply.bytes);
            let ls = split_lines(t.as_slice());
            let ws = split_whitespace(t.as_slice());
            proof {
                assert(ls@.len() == ls@.map_values(|x: Vec<u8>| x@).len());
                assert(ws@.len() == ws@.map_values(|x: Vec<u8>| x@).len());
            }
            let mut m = fmt_dec(ls.len() as u64);
            m.push(0x09);
            append(&mut m, fmt_dec(ws.len() as u64).as_slice());
            m.push(0x09);
            append(&mut m, fmt_dec(t.len() as u64).as_slice());
            m.push(0x09);
            append(&mut m, path.as_slice());
            m.push(0x0D);
            m.push(0x0A);
            assert(m@ =~= wc_text(t@, path@));
            one(Request::Write(m))
        },
        After::Head { n } => {
            let t = reply_text_exec(&reply.bytes);
            let ls = split_lines(t.as_slice());
            let k = if (ls.len() as u64) < *n {
                ls.len()
            } else {
                *n as usize
            };
            assert(ls@.len() == ls@.map_values(|x: Vec<u8>| x@).len());
            one(Request::Write(join_lines(&ls, 0, k)))
        },
        After::Tail { n } => {
            let t = reply_text_exec(&reply.bytes);
            let ls = split_lines(t.as_slice());
            let start = if ls.len() as u64 > *n {
                ls.len() - *n as usize
            } else {
                0
            };
            assert(ls@.len() == ls@.map_values(|x: Vec<u8>| x@).len());
            one(Request::Write(join_lines(&ls, start, ls.len())))
        },
    }
}

} // verus!
