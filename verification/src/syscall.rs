//! System calls. The number travels in `rax`, the arguments in `rdi`, `rsi`,
//! `rdx` and `rcx`, and the result comes back in `rax`; `!0` reports a
//! refused call.
//!
//! The entry glue first asks `input_plan` which user bytes a call reads,
//! copies them, and passes them to `syscall_handler` with the saved frame.
//! The handler decides everything else and describes its effects in a
//! `SyscallOutcome`.
use vstd::prelude::*;
use vstd::string::StringSliceAdditionalSpecFns;
use vstd::utf8::valid_utf8;

use crate::elf::{elf_arith_fits, elf_arith_ok, first_bad_seg, header_check, le16, load_elf, load_pages};
use crate::load_map::{image_loaded, load_hyp};
use crate::frame_allocator::free_count;
use crate::fs::{child_names_from, mkdir_effect, nul_len_from, read_spec, resolve_spec, rm_effect, touch_effect, write_effect, FsNodeKind};
use crate::text::path_parts;
use crate::kernel::{
    buf_ok, frame_for, opt_int, parent_of_new, scheduled_from, spawned, table_made, validate_buf, InitFrame,
    Kernel, Schedule, NO_CURRENT,
};
use crate::process::{Process, TrapFrame};
use crate::scheduler::{NodeState, CWD_MAX, MAX_NODES, PARENT_NONE};
use crate::persist::{checkpoint_image, CHECKPOINT_HEADER, FS_BUF_SIZE, GRAPH_BUF_SIZE};
use crate::fs::{image_byte, image_len};
use crate::text::{append, dec_spec, fmt_dec, is_utf8};

verus! {

pub const SYS_WRITE: u64 = 1;
pub const SYS_YIELD: u64 = 2;
pub const SYS_SPAWN: u64 = 3;
pub const SYS_READ: u64 = 4;
pub const SYS_EXIT: u64 = 5;
pub const SYS_LS: u64 = 6;
pub const SYS_CAT: u64 = 7;
pub const SYS_PS: u64 = 8;
pub const SYS_TOUCH: u64 = 9;
pub const SYS_MKDIR: u64 = 10;
pub const SYS_WRITE_F: u64 = 11;
pub const SYS_SHUTDOWN: u64 = 12;
pub const SYS_CLEAR: u64 = 13;
pub const SYS_POLL_KEY: u64 = 14;
pub const SYS_RM: u64 = 15;
pub const SYS_GETPID: u64 = 16;
pub const SYS_CHDIR: u64 = 17;
pub const SYS_GETCWD: u64 = 18;
pub const SYS_WAIT: u64 = 19;
pub const SYS_KILL: u64 = 20;
pub const SYS_EXECVE: u64 = 21;
pub const SYS_FORK: u64 = 22;

/// The result of a refused call.
pub const ERR: u64 = 0xFFFF_FFFF_FFFF_FFFF;
/// A path argument is checked over at most this many bytes.
pub const PATH_CHECK: u64 = 64;
/// At most this many path bytes are read.
pub const PATH_COPY: u64 = 63;
/// At most this many bytes of file data are written per call.
pub const DATA_MAX: u64 = 256;
/// The only signal `kill` knows: SIGKILL.
pub const SIGKILL: u64 = 9;
/// Exit status of a killed process (128 + SIGKILL).
pub const KILLED_STATUS: u8 = 137;

/// The user bytes a call reads: `(address, length)` of the path and of the data.
#[derive(Debug, PartialEq, Eq)]
pub struct InputPlan {
    pub path: Option<(u64, u64)>,
    pub data: Option<(u64, u64)>,
    /// The call takes one byte of keyboard or serial input, if one is waiting.
    pub read_key: bool,
    /// The call asks whether input is waiting.
    pub poll_key: bool,
}

/// What the entry glue hands the handler besides the frame.
pub struct SyscallInput {
    pub path: Vec<u8>,
    pub data: Vec<u8>,
    pub key: Option<u8>,
    pub key_ready: bool,
}

/// What the handler asks the entry glue to do.
#[derive(Debug, PartialEq, Eq)]
pub struct SyscallOutcome {
    /// The value for the caller's `rax`; `None` leaves it.
    pub rax: Option<u64>,
    /// Bytes to store at `out_addr` in the caller's memory.
    pub out_addr: u64,
    pub out: Vec<u8>,
    /// Bytes for the screen and the serial line.
    pub console: Vec<u8>,
    /// A waiting parent was woken: the address of its saved frame and the
    /// value for its `rax`.
    pub parent_rax: Option<(u64, u64)>,
    /// The initial frame of a spawned process.
    pub frame: Option<InitFrame>,
    /// The scheduling decision, for calls that give up the processor.
    pub sched: Option<Schedule>,
    pub clear_screen: bool,
    /// Stop the machine (after the checkpoint was taken).
    pub halt: bool,
}

pub open spec fn umin(a: u64, b: u64) -> u64 {
    if a < b {
        a
    } else {
        b
    }
}

/// A path argument passes the pointer check.
pub open spec fn path_arg_ok(ptr: u64, len: u64) -> bool {
    buf_ok(ptr, umin(len, PATH_CHECK))
}

/// The path a call works on: the bytes read when they are valid UTF-8,
/// else the fallback.
pub open spec fn path_or(p: Seq<u8>, fallback: Seq<u8>) -> Seq<u8> {
    if valid_utf8(p) {
        p
    } else {
        fallback
    }
}

pub open spec fn opt_current(c: usize) -> Option<usize> {
    if c != NO_CURRENT {
        Some(c)
    } else {
        None
    }
}

/// The outcome sets only `rax`, user memory and console output.
pub open spec fn plain(r: SyscallOutcome, rax: Option<u64>, out_addr: u64, out: Seq<u8>, console: Seq<u8>) -> bool {
    &&& r.rax == rax
    &&& r.out_addr == out_addr
    &&& r.out@ == out
    &&& r.console@ == console
    &&& r.parent_rax is None
    &&& r.frame is None
    &&& r.sched is None
    &&& !r.clear_screen
    &&& !r.halt
}

/// The outcome only sets `rax` to `v`.
pub open spec fn only_rax(r: SyscallOutcome, v: u64) -> bool {
    plain(r, Some(v), 0, Seq::empty(), Seq::empty())
}

/// The first `n` bytes of `s` (all of it when shorter).
pub open spec fn take(s: Seq<u8>, n: u64) -> Seq<u8> {
    if s.len() <= n {
        s
    } else {
        s.subrange(0, n as int)
    }
}

pub open spec fn crlf() -> Seq<u8> {
    seq![0x0Du8, 0x0Au8]
}

/// Each name followed by "\r\n".
pub open spec fn listing(names: Seq<Seq<u8>>) -> Seq<u8>
    decreases names.len(),
{
    if names.len() == 0 {
        Seq::empty()
    } else {
        listing(names.drop_last()) + names.last() + crlf()
    }
}

/// The names in the directory a path names; none when it names nothing.
pub open spec fn dir_names(nodes: Seq<crate::fs::FsNode>, path: Seq<u8>) -> Seq<Seq<u8>> {
    match resolve_spec(nodes, path) {
        Some(i) => child_names_from(nodes, i as int, 0),
        None => seq![],
    }
}

/// What `cat` shows of a path: the file's bytes when they are valid UTF-8.
pub open spec fn cat_bytes(nodes: Seq<crate::fs::FsNode>, path: Seq<u8>) -> Seq<u8> {
    match read_spec(nodes, path) {
        Some(d) => if valid_utf8(d) {
            d
        } else {
            Seq::empty()
        },
        None => Seq::empty(),
    }
}

/// The letter `ps` shows for a state.
pub open spec fn state_letter(s: NodeState) -> u8 {
    match s {
        NodeState::Ready => 0x52,
        NodeState::Running => 0x58,
        NodeState::Exited => 0x45,
        NodeState::Waiting => 0x57,
    }
}

pub open spec fn two_spaces() -> Seq<u8> {
    seq![0x20u8, 0x20u8]
}

/// One `ps` line: id, activation, tension and state letter.
pub open spec fn ps_line(p: Process) -> Seq<u8> {
    dec_spec(p.id as nat) + two_spaces() + dec_spec(p.node.activation as nat) + two_spaces() + dec_spec(
        p.node.tension as nat,
    ) + two_spaces() + seq![state_letter(p.state)] + crlf()
}

/// The `ps` lines of the first `n` processes.
pub open spec fn ps_lines(procs: Seq<Process>, n: int) -> Seq<u8>
    decreases n,
{
    if n <= 0 {
        Seq::empty()
    } else {
        ps_lines(procs, n - 1) + ps_line(procs[n - 1])
    }
}

/// The `ps` table: a header line, then one line per process.
pub open spec fn ps_text(procs: Seq<Process>) -> Seq<u8> {
    "pid  act  ten  state\r\n".spec_bytes() + ps_lines(procs, procs.len() as int)
}

/// The `ps` lines of the first `n` processes depend on those processes only.
proof fn lemma_ps_lines_take(procs: Seq<Process>, n: int, m: int)
    requires
        0 <= m <= n <= procs.len(),
    ensures
        ps_lines(procs.take(n), m) == ps_lines(procs, m),
    decreases m,
{
    if m > 0 {
        lemma_ps_lines_take(procs, n, m - 1);
    }
}

/// The `ps` lines of the first `m` processes begin those of the first `n`.
proof fn lemma_ps_lines_prefix(procs: Seq<Process>, m: int, n: int)
    requires
        0 <= m <= n,
    ensures
        ps_lines(procs, m).len() <= ps_lines(procs, n).len(),
        ps_lines(procs, n).subrange(0, ps_lines(procs, m).len() as int) == ps_lines(procs, m),
    decreases n,
{
    if n > m {
        lemma_ps_lines_prefix(procs, m, n - 1);
        let a = ps_lines(procs, n - 1);
        let b = ps_line(procs[n - 1]);
        assert((a + b).subrange(0, ps_lines(procs, m).len() as int) =~= a.subrange(0, ps_lines(procs, m).len() as int));
    } else {
        assert(ps_lines(procs, n).subrange(0, ps_lines(procs, n).len() as int) =~= ps_lines(procs, n));
    }
}

/// In the `ps` table, the line of each process ends in a letter for its
/// state, then CR LF: `R` for ready, `X` for running, `E` for exited and
/// `W` for waiting. The table up to and including the line of process `n`
/// is the table of the first `n + 1` processes, and it begins the whole
/// table.
pub proof fn law_ps_state_letters(procs: Seq<Process>, n: int)
    requires
        0 <= n < procs.len(),
    ensures
        ({
            let t = ps_text(procs.take(n + 1));
            let whole = ps_text(procs);
            &&& t.len() >= 3
            &&& t.len() <= whole.len()
            &&& whole.subrange(0, t.len() as int) == t
            &&& t[t.len() - 3] == match procs[n].state {
                NodeState::Ready => 0x52u8,
                NodeState::Running => 0x58u8,
                NodeState::Exited => 0x45u8,
                NodeState::Waiting => 0x57u8,
            }
            &&& t[t.len() - 2] == 0x0Du8
            &&& t[t.len() - 1] == 0x0Au8
        }),
{
    let h = "pid  act  ten  state\r\n".spec_bytes();
    lemma_ps_lines_take(procs, n + 1, n + 1);
    lemma_ps_lines_prefix(procs, n + 1, procs.len() as int);
    let t = ps_text(procs.take(n + 1));
    let whole = ps_text(procs);
    let pre = ps_lines(procs, n + 1);
    let all = ps_lines(procs, procs.len() as int);
    assert(procs.take(n + 1).len() == n + 1);
    assert(t == h + pre);
    assert(whole.subrange(0, t.len() as int) =~= h + all.subrange(0, pre.len() as int));
    let p = procs[n];
    let line = ps_line(p);
    assert(pre == ps_lines(procs, n) + line);
    let tail = seq![state_letter(p.state)] + crlf();
    assert(line == dec_spec(p.id as nat) + two_spaces() + dec_spec(p.node.activation as nat) + two_spaces() + dec_spec(
        p.node.tension as nat,
    ) + two_spaces() + tail);
    assert(t[t.len() - 3] == tail[0]);
    assert(t[t.len() - 2] == tail[1]);
    assert(t[t.len() - 1] == tail[2]);
}

/// The value a waiting parent gets when a child ends.
pub open spec fn child_code(pid: u32, status: u8) -> u64 {
    (pid as u64 * 256 + status as u64) as u64
}

/// The process table after process `idx` ended with `status`.
pub open spec fn ended(procs: Seq<Process>, idx: int, status: u8) -> Seq<Process> {
    procs.update(idx, Process { state: NodeState::Exited, exit_status: status, ..procs[idx] })
}

/// The parent of `idx` exists and waits for a child.
pub open spec fn wakes_parent(procs: Seq<Process>, idx: int) -> bool {
    let p = procs[idx].parent;
    p != PARENT_NONE && p < procs.len() && procs[p as int].state == NodeState::Waiting
}

/// The process table after the parent of `idx` was woken, if it waits.
pub open spec fn woken(procs: Seq<Process>, idx: int) -> Seq<Process> {
    if wakes_parent(procs, idx) {
        let p = procs[idx].parent as int;
        procs.update(p, Process { state: NodeState::Ready, ..procs[p] })
    } else {
        procs
    }
}

/// Where the woken parent's result goes, if it has a saved frame.
pub open spec fn parent_note(procs: Seq<Process>, idx: int, code: u64) -> Option<(u64, u64)> {
    if wakes_parent(procs, idx) && procs[procs[idx].parent as int].saved_rsp != 0 {
        Some((procs[procs[idx].parent as int].saved_rsp, code))
    } else {
        None
    }
}

/// The first process whose id is `pid`.
pub open spec fn first_with_id(procs: Seq<Process>, pid: u32) -> Option<int> {
    if exists|i: int| 0 <= i < procs.len() && (#[trigger] procs[i]).id == pid {
        Some(choose|i: int| 0 <= i < procs.len() && (#[trigger] procs[i]).id == pid && forall|j: int| 0 <= j < i ==> (#[trigger] procs[j]).id != pid)
    } else {
        None
    }
}

/// The first child of `cur` that has exited.
pub open spec fn first_exited_child(procs: Seq<Process>, cur: usize) -> Option<int> {
    if exists|i: int| 0 <= i < procs.len() && is_exited_child(#[trigger] procs[i], cur) {
        Some(choose|i: int| 0 <= i < procs.len() && is_exited_child(#[trigger] procs[i], cur) && forall|j: int| 0 <= j < i ==> !is_exited_child(#[trigger] procs[j], cur))
    } else {
        None
    }
}

pub open spec fn is_exited_child(p: Process, cur: usize) -> bool {
    p.parent == cur && p.state == NodeState::Exited
}

/// The working directory after `chdir(path)`: the first bytes of `cwd`
/// replaced by `path` (at most 63 bytes) and a terminating zero; the bytes
/// after that stay.
pub open spec fn cwd_after(cwd: Seq<u8>, path: Seq<u8>) -> Seq<u8> {
    let copy = if path.len() < CWD_MAX - 1 {
        path.len() as int
    } else {
        CWD_MAX - 1
    };
    Seq::new(CWD_MAX as nat, |i: int| if i < copy { path[i] } else if i == copy { 0u8 } else { cwd[i] })
}

/// What `getcwd` stores: the working directory up to its terminating zero,
/// cut to leave room for a zero in a buffer of `olen` bytes, then that zero
/// when it fits.
pub open spec fn getcwd_bytes(cwd: Seq<u8>, olen: u64) -> Seq<u8> {
    let len = nul_len_from(cwd, 0);
    let room = if olen == 0 {
        0
    } else {
        olen - 1
    };
    let copy = if len < room {
        len
    } else {
        room
    };
    cwd.subrange(0, copy) + if copy < olen {
        seq![0u8]
    } else {
        Seq::empty()
    }
}

/// The user bytes a call reads, for the saved registers `tf` with
/// `current` running.
pub open spec fn plan_spec(tf: TrapFrame, current: usize) -> InputPlan {
    let n = tf.rax;
    let path = Some((tf.rdi, umin(tf.rsi, PATH_COPY)));
    if n == SYS_WRITE {
        InputPlan { path: None, data: if buf_ok(tf.rsi, tf.rdx) { Some((tf.rsi, tf.rdx)) } else { None }, read_key: false, poll_key: false }
    } else if n == SYS_READ {
        InputPlan { path: None, data: None, read_key: tf.rdi == 0 && tf.rdx > 0 && buf_ok(tf.rsi, tf.rdx), poll_key: false }
    } else if n == SYS_POLL_KEY {
        InputPlan { path: None, data: None, read_key: false, poll_key: true }
    } else if (n == SYS_EXECVE || n == SYS_CHDIR) && current != NO_CURRENT && path_arg_ok(tf.rdi, tf.rsi) {
        InputPlan { path, data: None, read_key: false, poll_key: false }
    } else if (n == SYS_LS || n == SYS_CAT) && path_arg_ok(tf.rdi, tf.rsi) && buf_ok(tf.rdx, tf.rcx) {
        InputPlan { path, data: None, read_key: false, poll_key: false }
    } else if (n == SYS_TOUCH || n == SYS_MKDIR || n == SYS_RM) && path_arg_ok(tf.rdi, tf.rsi) {
        InputPlan { path, data: None, read_key: false, poll_key: false }
    } else if n == SYS_WRITE_F && path_arg_ok(tf.rdi, tf.rsi) && buf_ok(tf.rdx, umin(tf.rcx, DATA_MAX)) {
        InputPlan { path, data: Some((tf.rdx, umin(tf.rcx, DATA_MAX))), read_key: false, poll_key: false }
    } else {
        InputPlan { path: None, data: None, read_key: false, poll_key: false }
    }
}

fn min_u64(a: u64, b: u64) -> (r: u64)
    ensures
        r == umin(a, b),
{
    if a < b {
        a
    } else {
        b
    }
}

fn path_arg_valid(ptr: u64, len: u64) -> (r: bool)
    ensures
        r == path_arg_ok(ptr, len),
{
    validate_buf(ptr, min_u64(len, PATH_CHECK))
}

fn quiet(rax: Option<u64>) -> (r: SyscallOutcome)
    ensures
        plain(r, rax, 0, Seq::empty(), Seq::empty()),
{
    SyscallOutcome {
        rax,
        out_addr: 0,
        out: Vec::new(),
        console: Vec::new(),
        parent_rax: None,
        frame: None,
        sched: None,
        clear_screen: false,
        halt: false,
    }
}

fn with_out(rax: u64, out_addr: u64, out: Vec<u8>) -> (r: SyscallOutcome)
    ensures
        plain(r, Some(rax), out_addr, out@, Seq::empty()),
{
    SyscallOutcome {
        rax: Some(rax),
        out_addr,
        out,
        console: Vec::new(),
        parent_rax: None,
        frame: None,
        sched: None,
        clear_screen: false,
        halt: false,
    }
}

/// The first `n` bytes of `v`.
fn take_vec(v: Vec<u8>, n: u64) -> (r: Vec<u8>)
    ensures
        r@ == take(v@, n),
{
    if v.len() as u64 <= n {
        v
    } else {
        crate::text::copy_range(v.as_slice(), 0, n as usize)
    }
}

/// The path bytes, or `fallback` when they are not valid UTF-8.
fn path_or_exec(p: &Vec<u8>, fallback: &[u8]) -> (r: Vec<u8>)
    ensures
        r@ == path_or(p@, fallback@),
{
    if is_utf8(p.as_slice()) {
        crate::text::copy_range(p.as_slice(), 0, p.len())
    } else {
        crate::text::copy_range(fallback, 0, fallback.len())
    }
}

impl Kernel {
    /// Which user bytes the call in `tf` reads (see `plan_spec`).
    pub fn input_plan(&self, tf: &TrapFrame) -> (r: InputPlan)
        ensures
            r == plan_spec(*tf, self.current),
    {
        let n = tf.rax;
        let path = Some((tf.rdi, min_u64(tf.rsi, PATH_COPY)));
        let none = InputPlan { path: None, data: None, read_key: false, poll_key: false };
        if n == SYS_WRITE {
            InputPlan {
                path: None,
                data: if validate_buf(tf.rsi, tf.rdx) {
                    Some((tf.rsi, tf.rdx))
                } else {
                    None
                },
                read_key: false,
                poll_key: false,
            }
        } else if n == SYS_READ {
            InputPlan {
                path: None,
                data: None,
                read_key: tf.rdi == 0 && tf.rdx > 0 && validate_buf(tf.rsi, tf.rdx),
                poll_key: false,
            }
        } else if n == SYS_POLL_KEY {
            InputPlan { path: None, data: None, read_key: false, poll_key: true }
        } else if (n == SYS_EXECVE || n == SYS_CHDIR) && self.current != NO_CURRENT && path_arg_valid(tf.rdi, tf.rsi) {
            InputPlan { path, data: None, read_key: false, poll_key: false }
        } else if (n == SYS_LS || n == SYS_CAT) && path_arg_valid(tf.rdi, tf.rsi) && validate_buf(tf.rdx, tf.rcx) {
            InputPlan { path, data: None, read_key: false, poll_key: false }
        } else if (n == SYS_TOUCH || n == SYS_MKDIR || n == SYS_RM) && path_arg_valid(tf.rdi, tf.rsi) {
            InputPlan { path, data: None, read_key: false, poll_key: false }
        } else if n == SYS_WRITE_F && path_arg_valid(tf.rdi, tf.rsi) && validate_buf(tf.rdx, min_u64(tf.rcx, DATA_MAX)) {
            InputPlan { path, data: Some((tf.rdx, min_u64(tf.rcx, DATA_MAX))), read_key: false, poll_key: false }
        } else {
            none
        }
    }
}


/// `n` zero bytes.
pub fn zeros(n: usize) -> (r: Vec<u8>)
    ensures
        r@ == Seq::new(n as nat, |i: int| 0u8),
{
    let mut v: Vec<u8> = Vec::new();
    let mut i: usize = 0;
    while i < n
        invariant
            i <= n,
            v@ == Seq::new(i as nat, |j: int| 0u8),
        decreases n - i,
    {
        v.push(0);
        i = i + 1;
        assert(v@ =~= Seq::new(i as nat, |j: int| 0u8));
    }
    v
}

/// The graph summary a checkpoint stores: the process count in the first
/// of 64 bytes.
pub open spec fn graph_summary(count: nat) -> Seq<u8> {
    Seq::new(GRAPH_BUF_SIZE as nat, |i: int| if i == 0 { count as u8 } else { 0u8 })
}

/// The filesystem part of a checkpoint: its image when that fits the
/// 16 KiB buffer, else nothing.
pub open spec fn fs_part(nodes: Seq<crate::fs::FsNode>, count: nat) -> Seq<u8> {
    if image_len(count as int) <= FS_BUF_SIZE {
        Seq::new(image_len(count as int) as nat, |i: int| image_byte(nodes, count as int, i))
    } else {
        Seq::empty()
    }
}

/// The region `r1` is `r0` after a checkpoint of `g` and `f`.
pub open spec fn checkpointed(r0: Seq<u8>, r1: Seq<u8>, g: Seq<u8>, f: Seq<u8>) -> bool {
    let t = CHECKPOINT_HEADER + g.len() + f.len();
    &&& r1.len() == r0.len()
    &&& if t <= r0.len() {
        &&& r1.subrange(0, t) == checkpoint_image(g, f)
        &&& r1.subrange(t, r0.len() as int) == r0.subrange(t, r0.len() as int)
    } else {
        r1 == r0
    }
}

/// The state after a checkpoint: only the region changed.
pub open spec fn after_checkpoint(k0: Kernel, k1: Kernel) -> bool {
    &&& k1.graph == k0.graph
    &&& k1.current == k0.current
    &&& k1.fs == k0.fs
    &&& k1.mem == k0.mem
    &&& k1.frames == k0.frames
    &&& k1.tick_count == k0.tick_count
    &&& k1.kernel_cr3 == k0.kernel_cr3
    &&& k1.active_cr3 == k0.active_cr3
    &&& k1.kernel_rsp == k0.kernel_rsp
    &&& k1.hhdm_offset == k0.hhdm_offset
    &&& k1.node_entry == k0.node_entry
    &&& checkpointed(
        k0.region@,
        k1.region@,
        graph_summary(k0.graph.procs@.len()),
        fs_part(k0.fs.nodes(), k0.fs.count()),
    )
}

impl Kernel {
    /// Writes a checkpoint of the process count and the filesystem image to
    /// the persistence region; false when it does not fit.
    pub fn do_checkpoint(&mut self) -> (r: bool)
        requires
            old(self).wf(),
        ensures
            final(self).wf(),
            after_checkpoint(*old(self), *final(self)),
            r == (CHECKPOINT_HEADER + GRAPH_BUF_SIZE + fs_part(old(self).fs.nodes(), old(self).fs.count()).len()
                <= old(self).region@.len()),
    {
        let mut graph_buf = zeros(GRAPH_BUF_SIZE);
        graph_buf.set(0, self.graph.count() as u8);
        let mut fs_buf = zeros(FS_BUF_SIZE);
        let n = self.fs.serialize_to(fs_buf.as_mut_slice());
        let fs_bytes = crate::text::copy_range(fs_buf.as_slice(), 0, n);
        proof {
            assert(graph_buf@ =~= graph_summary(self.graph.procs@.len()));
            assert(fs_bytes@ =~= fs_part(self.fs.nodes(), self.fs.count()));
        }
        crate::persist::do_checkpoint(self.region.as_mut_slice(), graph_buf.as_slice(), fs_bytes.as_slice())
    }
}


/// The process table after the caller saved its frame pointer.
pub open spec fn with_saved(procs: Seq<Process>, cur: usize, frame_addr: u64) -> Seq<Process> {
    if cur != NO_CURRENT {
        procs.update(cur as int, Process { saved_rsp: frame_addr, ..procs[cur as int] })
    } else {
        procs
    }
}

/// The outcome carries only the scheduling decision `s`, and `k1` came
/// from a round on `p0` (`cur0` current, caller `cur`), with `k0` the rest.
pub open spec fn resched(r: SyscallOutcome, p0: Seq<Process>, cur0: usize, k0: Kernel, k1: Kernel, cur: Option<usize>) -> bool {
    &&& r.rax is None
    &&& r.out_addr == 0
    &&& r.out@ == Seq::<u8>::empty()
    &&& r.console@ == Seq::<u8>::empty()
    &&& r.frame is None
    &&& !r.clear_screen
    &&& !r.halt
    &&& r.sched matches Some(s) && scheduled_from(p0, cur0, k0, k1, cur, s)
}

/// `write(fd, buf, len)`: the bytes go to the console; the result is `len`.
pub open spec fn write_post(k0: Kernel, k1: Kernel, tf: TrapFrame, inp: SyscallInput, r: SyscallOutcome) -> bool {
    &&& k1 == k0
    &&& if buf_ok(tf.rsi, tf.rdx) {
        plain(r, Some(tf.rdx), 0, Seq::empty(), inp.data@)
    } else {
        only_rax(r, ERR)
    }
}

/// `read(fd, buf, len)`: one byte of input for fd 0, when one is waiting.
pub open spec fn read_post(k0: Kernel, k1: Kernel, tf: TrapFrame, inp: SyscallInput, r: SyscallOutcome) -> bool {
    &&& k1 == k0
    &&& if tf.rdi == 0 && tf.rdx > 0 && buf_ok(tf.rsi, tf.rdx) && inp.key is Some {
        plain(r, Some(1), tf.rsi, seq![inp.key->0], Seq::empty())
    } else {
        only_rax(r, 0)
    }
}

/// `yield()`: the caller saves its frame and a scheduling round runs.
pub open spec fn yield_post(k0: Kernel, k1: Kernel, frame_addr: u64, r: SyscallOutcome) -> bool {
    &&& r.parent_rax is None
    &&& resched(r, with_saved(k0.graph.procs@, k0.current, frame_addr), k0.current, k0, k1, opt_current(k0.current))
}

/// `spawn()`: a ready process is added under the caller; its index is the result.
pub open spec fn spawn_post(k0: Kernel, k1: Kernel, r: SyscallOutcome) -> bool {
    &&& k1.same_rest(&k0)
    &&& k1.active_cr3 == k0.active_cr3
    &&& if k0.graph.procs@.len() < MAX_NODES {
        let idx = k0.graph.procs@.len() as int;
        &&& r.rax == Some(idx as u64)
        &&& r.out@ == Seq::<u8>::empty()
        &&& r.console@ == Seq::<u8>::empty()
        &&& r.parent_rax is None
        &&& r.sched is None
        &&& !r.clear_screen
        &&& !r.halt
        &&& k1.graph.procs@.len() == idx + 1
        &&& k1.graph.procs@.subrange(0, idx) == k0.graph.procs@
        &&& spawned(k1.graph.procs@[idx], idx, parent_of_new(k0.current), k0.hhdm_offset, k0.kernel_cr3)
        &&& table_made(k0, k1, k1.graph.procs@[idx].aspace.cr3)
        &&& r.frame matches Some(f) && frame_for(f, k1.graph.procs@[idx], k0.node_entry)
    } else {
        &&& k1.graph.procs@ == k0.graph.procs@
        &&& only_rax(r, ERR)
    }
}

/// `exit(status)`: the caller ends, a waiting parent is woken with the
/// child's id and status, and a scheduling round runs with no process current.
pub open spec fn exit_post(k0: Kernel, k1: Kernel, tf: TrapFrame, frame_addr: u64, r: SyscallOutcome) -> bool {
    let cur = k0.current;
    let status = tf.rdi as u8;
    if cur != NO_CURRENT {
        let p = k0.graph.procs@;
        let p1 = p.update(cur as int, Process { state: NodeState::Exited, exit_status: status, saved_rsp: frame_addr, ..p[cur as int] });
        &&& r.parent_rax == parent_note(p1, cur as int, child_code(p[cur as int].id, status))
        &&& resched(r, woken(p1, cur as int), NO_CURRENT, k0, k1, Some(cur))
    } else {
        &&& r.parent_rax is None
        &&& resched(r, k0.graph.procs@, NO_CURRENT, k0, k1, None)
    }
}

/// `kill(pid, sig)`: SIGKILL ends the first process with that id (status
/// 137) and wakes its waiting parent; the result is 0. Any other signal, or
/// an unknown id, is refused.
pub open spec fn kill_post(k0: Kernel, k1: Kernel, tf: TrapFrame, r: SyscallOutcome) -> bool {
    let pid = tf.rdi as u32;
    let sig = tf.rsi as u32;
    match first_with_id(k0.graph.procs@, pid) {
        Some(i) if sig == SIGKILL => {
            let p1 = ended(k0.graph.procs@, i, KILLED_STATUS);
            &&& k1 == Kernel { graph: crate::scheduler::ProcessGraph { procs: k1.graph.procs }, ..k0 }
            &&& k1.graph.procs@ == woken(p1, i)
            &&& r.rax == Some(0u64)
            &&& r.parent_rax == parent_note(p1, i, child_code(pid, KILLED_STATUS))
            &&& r.out@ == Seq::<u8>::empty()
            &&& r.console@ == Seq::<u8>::empty()
            &&& r.frame is None
            &&& r.sched is None
            &&& !r.clear_screen
            &&& !r.halt
        },
        _ => k1 == k0 && only_rax(r, ERR),
    }
}

/// `wait()`: collects the first exited child (its parent link is cleared;
/// the result is its id and status), or marks the caller waiting and runs a
/// scheduling round. Refused with no process current.
pub open spec fn wait_post(k0: Kernel, k1: Kernel, frame_addr: u64, r: SyscallOutcome) -> bool {
    let cur = k0.current;
    let p = k0.graph.procs@;
    if cur == NO_CURRENT {
        k1 == k0 && only_rax(r, ERR)
    } else {
        match first_exited_child(p, cur) {
            Some(i) => {
                &&& k1 == Kernel { graph: crate::scheduler::ProcessGraph { procs: k1.graph.procs }, ..k0 }
                &&& k1.graph.procs@ == p.update(i, Process { parent: PARENT_NONE, ..p[i] })
                &&& only_rax(r, child_code(p[i].id, p[i].exit_status))
            },
            None => {
                let p1 = p.update(cur as int, Process { state: NodeState::Waiting, saved_rsp: frame_addr, ..p[cur as int] });
                &&& r.parent_rax is None
                &&& resched(r, p1, cur, k0, k1, Some(cur))
            },
        }
    }
}

/// `getpid()`: the caller's id.
pub open spec fn getpid_post(k0: Kernel, k1: Kernel, r: SyscallOutcome) -> bool {
    &&& k1 == k0
    &&& only_rax(r, if k0.current != NO_CURRENT { k0.graph.procs@[k0.current as int].id as u64 } else { ERR })
}

/// `ls(path, plen, out, olen)`: the names in the directory, each followed by
/// "\r\n", cut to `olen` bytes; the result is the number of bytes stored.
/// An unreadable path counts as "/".
pub open spec fn ls_post(k0: Kernel, k1: Kernel, tf: TrapFrame, inp: SyscallInput, r: SyscallOutcome) -> bool {
    &&& k1 == k0
    &&& if path_arg_ok(tf.rdi, tf.rsi) && buf_ok(tf.rdx, tf.rcx) {
        let text = take(listing(dir_names(k0.fs.nodes(), path_or(inp.path@, seq![0x2Fu8]))), tf.rcx);
        plain(r, Some(text.len() as u64), tf.rdx, text, Seq::empty())
    } else {
        only_rax(r, ERR)
    }
}

/// `cat(path, plen, out, olen)`: the file's bytes when they are valid
/// UTF-8, cut to `olen`; the result is the number of bytes stored.
pub open spec fn cat_post(k0: Kernel, k1: Kernel, tf: TrapFrame, inp: SyscallInput, r: SyscallOutcome) -> bool {
    &&& k1 == k0
    &&& if path_arg_ok(tf.rdi, tf.rsi) && buf_ok(tf.rdx, tf.rcx) {
        let text = take(cat_bytes(k0.fs.nodes(), path_or(inp.path@, Seq::empty())), tf.rcx);
        plain(r, Some(text.len() as u64), tf.rdx, text, Seq::empty())
    } else {
        only_rax(r, ERR)
    }
}

/// `ps(out, olen)`: the process table, cut to `olen`.
pub open spec fn ps_post(k0: Kernel, k1: Kernel, tf: TrapFrame, r: SyscallOutcome) -> bool {
    &&& k1 == k0
    &&& if buf_ok(tf.rdi, tf.rsi) {
        let text = take(ps_text(k0.graph.procs@), tf.rsi);
        plain(r, Some(text.len() as u64), tf.rdi, text, Seq::empty())
    } else {
        only_rax(r, ERR)
    }
}

/// Only the filesystem may differ.
pub open spec fn only_fs(k0: Kernel, k1: Kernel) -> bool {
    k1 == Kernel { fs: k1.fs, ..k0 }
}

/// The result of a filesystem call that succeeded or failed.
pub open spec fn bool_rax(r: SyscallOutcome, ok: bool) -> bool {
    only_rax(r, if ok { 1 } else { 0 })
}

/// `touch(path, len)`, `mkdir(path, len)`, `rm(path, len)`: the filesystem
/// changes as the operation of the same name says (with an unreadable path
/// taken as empty); the result is 1 on success, 0 otherwise.
pub open spec fn fs_op_post(k0: Kernel, k1: Kernel, tf: TrapFrame, inp: SyscallInput, r: SyscallOutcome) -> bool {
    if path_arg_ok(tf.rdi, tf.rsi) {
        let parts = path_parts(path_or(inp.path@, Seq::empty()));
        let ok = r.rax == Some(1u64);
        &&& only_fs(k0, k1)
        &&& bool_rax(r, ok)
        &&& if tf.rax == SYS_TOUCH {
            touch_effect(k0.fs.nodes(), k0.fs.count(), parts, k1.fs.nodes(), k1.fs.count(), ok)
        } else if tf.rax == SYS_MKDIR {
            mkdir_effect(k0.fs.nodes(), k0.fs.count(), parts, k1.fs.nodes(), k1.fs.count(), ok)
        } else {
            rm_effect(k0.fs.nodes(), k0.fs.count(), parts, k1.fs.nodes(), k1.fs.count(), ok)
        }
    } else {
        k1 == k0 && only_rax(r, ERR)
    }
}

/// `write_file(path, plen, data, dlen)`: the file's contents become the
/// first 256 bytes of the data; 1 on success, 0 when the path names no file.
pub open spec fn write_f_post(k0: Kernel, k1: Kernel, tf: TrapFrame, inp: SyscallInput, r: SyscallOutcome) -> bool {
    if path_arg_ok(tf.rdi, tf.rsi) && buf_ok(tf.rdx, umin(tf.rcx, DATA_MAX)) {
        let ok = r.rax == Some(1u64);
        &&& only_fs(k0, k1)
        &&& bool_rax(r, ok)
        &&& write_effect(k0.fs.nodes(), k0.fs.count(), path_or(inp.path@, Seq::empty()), inp.data@, k1.fs.nodes(), k1.fs.count(), ok)
    } else {
        k1 == k0 && only_rax(r, ERR)
    }
}

/// `execve(path, len)`: loads the ELF image in the file the path names into
/// the caller's address space and makes its entry point the caller's resume
/// address; the result is 0. Refused with no process current, with no
/// such file or an empty one, with an image whose sizes overflow, with a
/// bad header or segment, or when frames ran out while loading. Success is
/// owed when the free frames cover four per page to load (a data frame and
/// up to three tables); an image with nothing to load leaves memory and
/// frames as they were. On success, when the tables that the image's pages
/// reach in the caller's address space are sound (see `load_hyp`), every
/// page of the image that no later page of it replaces is mapped and holds
/// its bytes (see `image_loaded`).
pub open spec fn execve_post(k0: Kernel, k1: Kernel, tf: TrapFrame, inp: SyscallInput, r: SyscallOutcome) -> bool {
    let cur = k0.current;
    if cur == NO_CURRENT || !path_arg_ok(tf.rdi, tf.rsi) {
        k1 == k0 && only_rax(r, ERR)
    } else {
        let bytes = match read_spec(k0.fs.nodes(), path_or(inp.path@, Seq::empty())) {
            Some(d) => d,
            None => Seq::empty(),
        };
        if bytes.len() == 0 || !elf_arith_ok(bytes) {
            k1 == k0 && only_rax(r, ERR)
        } else {
            let p = k0.graph.procs@;
            &&& k1 == Kernel { graph: k1.graph, mem: k1.mem, frames: k1.frames, ..k0 }
            &&& k1.graph.procs@.len() == p.len()
            &&& match header_check(bytes) {
                Err(_) => only_rax(r, ERR) && k1.graph.procs@ == p,
                Ok(entry) => if first_bad_seg(bytes, le16(bytes, 56)) is Some {
                    only_rax(r, ERR) && k1.graph.procs@ == p
                } else {
                    &&& {
                        ||| only_rax(r, 0) && k1.graph.procs@ == p.update(cur as int, Process { saved_rip: entry, ..p[cur as int] })
                        ||| only_rax(r, ERR) && k1.graph.procs@ == p && forall|k: int|
                            0 <= k < k1.frames.spec_frames() ==> #[trigger] k1.frames.used()[k]
                    }
                    &&& r.rax == Some(0u64) && load_hyp(bytes, &k0.mem, &k0.frames, p[cur as int].aspace.cr3)
                        ==> image_loaded(&k1.mem, p[cur as int].aspace.cr3, bytes)
                    &&& 4 * load_pages(bytes, le16(bytes, 56)) <= free_count(k0.frames.used()) ==> only_rax(r, 0)
                    &&& load_pages(bytes, le16(bytes, 56)) == 0 ==> k1.mem.spec_words() == k0.mem.spec_words()
                        && k1.frames.used() == k0.frames.used()
                },
            }
        }
    }
}

/// `shutdown()`: a checkpoint is taken, a notice is printed and the machine halts.
pub open spec fn shutdown_post(k0: Kernel, k1: Kernel, r: SyscallOutcome) -> bool {
    &&& after_checkpoint(k0, k1)
    &&& r.rax is None
    &&& r.out@ == Seq::<u8>::empty()
    &&& r.console@ == "Checkpoint saved. Halting.\r\n".spec_bytes()
    &&& r.parent_rax is None
    &&& r.frame is None
    &&& r.sched is None
    &&& !r.clear_screen
    &&& r.halt
}

/// `chdir(path, len)`: when the path is "/" or names a directory, it
/// becomes the caller's working directory and the result is 1; else 0.
/// Refused with no process current. An unreadable path counts as "/".
pub open spec fn chdir_post(k0: Kernel, k1: Kernel, tf: TrapFrame, inp: SyscallInput, r: SyscallOutcome) -> bool {
    let cur = k0.current;
    if cur == NO_CURRENT || !path_arg_ok(tf.rdi, tf.rsi) {
        k1 == k0 && only_rax(r, ERR)
    } else {
        let path = path_or(inp.path@, seq![0x2Fu8]);
        let nodes = k0.fs.nodes();
        if path == seq![0x2Fu8] || (resolve_spec(nodes, path) matches Some(i) && nodes[i as int].kind == FsNodeKind::Dir) {
            &&& k1 == Kernel { graph: crate::scheduler::ProcessGraph { procs: k1.graph.procs }, ..k0 }
            &&& k1.graph.procs@.len() == k0.graph.procs@.len()
            &&& forall|j: int| 0 <= j < k0.graph.procs@.len() && j != cur ==> #[trigger] k1.graph.procs@[j] == k0.graph.procs@[j]
            &&& k1.graph.procs@[cur as int].cwd@ == cwd_after(k0.graph.procs@[cur as int].cwd@, path)
            &&& k1.graph.procs@[cur as int] == Process { cwd: k1.graph.procs@[cur as int].cwd, ..k0.graph.procs@[cur as int] }
            &&& only_rax(r, 1)
        } else {
            k1 == k0 && only_rax(r, 0)
        }
    }
}

/// `getcwd(out, olen)`: the working directory (see `getcwd_bytes`); the
/// result is its length without the terminating zero.
pub open spec fn getcwd_post(k0: Kernel, k1: Kernel, tf: TrapFrame, r: SyscallOutcome) -> bool {
    let cur = k0.current;
    &&& k1 == k0
    &&& if cur == NO_CURRENT || !buf_ok(tf.rdi, tf.rsi) {
        only_rax(r, ERR)
    } else {
        let out = getcwd_bytes(k0.graph.procs@[cur as int].cwd@, tf.rsi);
        plain(r, Some(getcwd_len(k0.graph.procs@[cur as int].cwd@, tf.rsi)), tf.rdi, out, Seq::empty())
    }
}

/// The result of `getcwd`: the number of directory bytes stored.
pub open spec fn getcwd_len(cwd: Seq<u8>, olen: u64) -> u64 {
    let len = nul_len_from(cwd, 0);
    let room = if olen == 0 {
        0
    } else {
        olen - 1
    };
    (if len < room {
        len
    } else {
        room
    }) as u64
}

impl Kernel {
    fn sys_write(&self, tf: &TrapFrame, input: &SyscallInput) -> (r: SyscallOutcome)
        ensures
            write_post(*self, *self, *tf, *input, r),
    {
        if !validate_buf(tf.rsi, tf.rdx) {
            return quiet(Some(ERR));
        }
        let console = crate::text::copy_range(input.data.as_slice(), 0, input.data.len());
        assert(console@ =~= input.data@);
        SyscallOutcome {
            rax: Some(tf.rdx),
            out_addr: 0,
            out: Vec::new(),
            console,
            parent_rax: None,
            frame: None,
            sched: None,
            clear_screen: false,
            halt: false,
        }
    }

    fn sys_read(&self, tf: &TrapFrame, input: &SyscallInput) -> (r: SyscallOutcome)
        ensures
            read_post(*self, *self, *tf, *input, r),
    {
        if tf.rdi == 0 && tf.rdx > 0 && validate_buf(tf.rsi, tf.rdx) {
            if let Some(c) = input.key {
                let mut out: Vec<u8> = Vec::new();
                out.push(c);
                assert(out@ =~= seq![c]);
                return with_out(1, tf.rsi, out);
            }
        }
        quiet(Some(0))
    }

    fn sys_yield(&mut self, frame_addr: u64) -> (r: SyscallOutcome)
        requires
            old(self).wf(),
        ensures
            final(self).wf(),
            yield_post(*old(self), *final(self), frame_addr, r),
    {
        let cur = self.current;
        if cur != NO_CURRENT {
            self.graph.procs[cur].saved_rsp = frame_addr;
        }
        proof {
            assert(self.graph.procs@ =~= with_saved(old(self).graph.procs@, old(self).current, frame_addr));
            assert forall|i: int| 0 <= i < self.graph.procs@.len() implies crate::kernel::stack_of(#[trigger] self.graph.procs@[i], i) by {
                assert(crate::kernel::stack_of(old(self).graph.procs@[i], i));
            }
        }
        let c = if cur != NO_CURRENT {
            Some(cur)
        } else {
            None
        };
        let s = self.do_schedule(c);
        let mut o = quiet(None);
        o.sched = Some(s);
        o
    }

    fn sys_spawn(&mut self) -> (r: SyscallOutcome)
        requires
            old(self).wf(),
        ensures
            final(self).wf(),
            spawn_post(*old(self), *final(self), r),
    {
        match self.spawn_child() {
            Some((idx, f)) => {
                let mut o = quiet(Some(idx as u64));
                o.frame = Some(f);
                o
            },
            None => quiet(Some(ERR)),
        }
    }

    fn sys_exit(&mut self, tf: &TrapFrame, frame_addr: u64) -> (r: SyscallOutcome)
        requires
            old(self).wf(),
        ensures
            final(self).wf(),
            exit_post(*old(self), *final(self), *tf, frame_addr, r),
    {
        let status = tf.rdi as u8;
        let cur = self.current;
        let mut note: Option<(u64, u64)> = None;
        if cur != NO_CURRENT {
            let ghost p = self.graph.procs@;
            self.graph.procs[cur].state = NodeState::Exited;
            self.graph.procs[cur].exit_status = status;
            self.graph.procs[cur].saved_rsp = frame_addr;
            let ghost p1 = self.graph.procs@;
            assert(p1 =~= p.update(cur as int, Process { state: NodeState::Exited, exit_status: status, saved_rsp: frame_addr, ..p[cur as int] }));
            let id = self.graph.procs[cur].id;
            note = self.wake_parent(cur, child_code_exec(id, status));
            self.current = NO_CURRENT;
        }
        let c = if cur != NO_CURRENT {
            Some(cur)
        } else {
            None
        };
        let s = self.do_schedule(c);
        let mut o = quiet(None);
        o.sched = Some(s);
        o.parent_rax = note;
        o
    }

    fn sys_kill(&mut self, tf: &TrapFrame) -> (r: SyscallOutcome)
        requires
            old(self).wf(),
        ensures
            final(self).wf(),
            kill_post(*old(self), *final(self), *tf, r),
    {
        let pid = tf.rdi as u32;
        let sig = tf.rsi as u32;
        let found = find_pid(&self.graph.procs, pid);
        if sig as u64 != SIGKILL {
            return quiet(Some(ERR));
        }
        match found {
            Some(i) => {
                let ghost p = self.graph.procs@;
                self.graph.procs[i].state = NodeState::Exited;
                self.graph.procs[i].exit_status = KILLED_STATUS;
                proof {
                    assert(self.graph.procs@ =~= ended(p, i as int, KILLED_STATUS));
                    assert forall|j: int| 0 <= j < self.graph.procs@.len() implies crate::kernel::stack_of(#[trigger] self.graph.procs@[j], j) by {
                        assert(crate::kernel::stack_of(p[j], j));
                    }
                }
                let note = self.wake_parent(i, child_code_exec(pid, KILLED_STATUS));
                let mut o = quiet(Some(0));
                o.parent_rax = note;
                o
            },
            None => quiet(Some(ERR)),
        }
    }

    /// Wakes the parent of `idx` if it waits; says where its result goes.
    fn wake_parent(&mut self, idx: usize, code: u64) -> (r: Option<(u64, u64)>)
        requires
            old(self).wf(),
            idx < old(self).graph.procs@.len(),
        ensures
            final(self).wf(),
            *final(self) == (Kernel { graph: crate::scheduler::ProcessGraph { procs: final(self).graph.procs }, ..*old(self) }),
            final(self).graph.procs@ == woken(old(self).graph.procs@, idx as int),
            r == parent_note(old(self).graph.procs@, idx as int, code),
    {
        let parent = self.graph.procs[idx].parent;
        if parent != PARENT_NONE && parent < self.graph.count() && self.graph.procs[parent].state == NodeState::Waiting {
            let ghost p = self.graph.procs@;
            let prsp = self.graph.procs[parent].saved_rsp;
            self.graph.procs[parent].state = NodeState::Ready;
            proof {
                assert(self.graph.procs@ =~= woken(p, idx as int));
                assert forall|i: int| 0 <= i < self.graph.procs@.len() implies crate::kernel::stack_of(#[trigger] self.graph.procs@[i], i) by {
                    assert(crate::kernel::stack_of(p[i], i));
                }
            }
            if prsp != 0 {
                return Some((prsp, code));
            }
        }
        None
    }

    /// Adds a ready process under the caller (see `spawn_post`).
    fn spawn_child(&mut self) -> (r: Option<(usize, InitFrame)>)
        requires
            old(self).wf(),
        ensures
            final(self).wf(),
            final(self).same_rest(old(self)),
            final(self).active_cr3 == old(self).active_cr3,
            r is Some == (old(self).graph.procs@.len() < MAX_NODES),
            r is None ==> final(self).graph.procs@ == old(self).graph.procs@,
            r matches Some((idx, f)) ==> {
                &&& idx == old(self).graph.procs@.len()
                &&& final(self).graph.procs@.len() == idx + 1
                &&& final(self).graph.procs@.subrange(0, idx as int) == old(self).graph.procs@
                &&& spawned(final(self).graph.procs@[idx as int], idx as int, parent_of_new(old(self).current), old(self).hhdm_offset, old(self).kernel_cr3)
                &&& table_made(*old(self), *final(self), final(self).graph.procs@[idx as int].aspace.cr3)
                &&& frame_for(f, final(self).graph.procs@[idx as int], old(self).node_entry)
            },
    {
        self.spawn_node_pub()
    }
}

fn child_code_exec(pid: u32, status: u8) -> (r: u64)
    ensures
        r == child_code(pid, status),
{
    pid as u64 * 256 + status as u64
}

impl Kernel {
    fn sys_wait(&mut self, frame_addr: u64) -> (r: SyscallOutcome)
        requires
            old(self).wf(),
        ensures
            final(self).wf(),
            wait_post(*old(self), *final(self), frame_addr, r),
    {
        let cur = self.current;
        if cur == NO_CURRENT {
            return quiet(Some(ERR));
        }
        let ghost p = self.graph.procs@;
        match find_exited_child(&self.graph.procs, cur) {
            Some(i) => {
                let code = child_code_exec(self.graph.procs[i].id, self.graph.procs[i].exit_status);
                self.graph.procs[i].parent = PARENT_NONE;
                proof {
                    assert(self.graph.procs@ =~= p.update(i as int, Process { parent: PARENT_NONE, ..p[i as int] }));
                    assert forall|j: int| 0 <= j < self.graph.procs@.len() implies crate::kernel::stack_of(#[trigger] self.graph.procs@[j], j) by {
                        assert(crate::kernel::stack_of(p[j], j));
                    }
                }
                quiet(Some(code))
            },
            None => {
                self.graph.procs[cur].state = NodeState::Waiting;
                self.graph.procs[cur].saved_rsp = frame_addr;
                proof {
                    assert(self.graph.procs@ =~= p.update(cur as int, Process { state: NodeState::Waiting, saved_rsp: frame_addr, ..p[cur as int] }));
                    assert forall|j: int| 0 <= j < self.graph.procs@.len() implies crate::kernel::stack_of(#[trigger] self.graph.procs@[j], j) by {
                        assert(crate::kernel::stack_of(p[j], j));
                    }
                }
                let s = self.do_schedule(Some(cur));
                let mut o = quiet(None);
                o.sched = Some(s);
                o
            },
        }
    }

    fn sys_getpid(&self) -> (r: SyscallOutcome)
        requires
            self.wf(),
        ensures
            getpid_post(*self, *self, r),
    {
        if self.current != NO_CURRENT {
            quiet(Some(self.graph.procs[self.current].id as u64))
        } else {
            quiet(Some(ERR))
        }
    }

    fn sys_ls(&self, tf: &TrapFrame, input: &SyscallInput) -> (r: SyscallOutcome)
        requires
            self.wf(),
        ensures
            ls_post(*self, *self, *tf, *input, r),
    {
        if !path_arg_valid(tf.rdi, tf.rsi) || !validate_buf(tf.rdx, tf.rcx) {
            return quiet(Some(ERR));
        }
        let slash = [0x2Fu8];
        let path = path_or_exec(&input.path, slash.as_slice());
        assert(slash@ =~= seq![0x2Fu8]);
        let names = self.fs.list_dir(path.as_slice());
        let text = listing_exec(&names);
        proof {
            assert(names@.map_values(|v: Vec<u8>| v@) =~= dir_names(self.fs.nodes(), path@));
        }
        let out = take_vec(text, tf.rcx);
        let n = out.len() as u64;
        with_out(n, tf.rdx, out)
    }

    fn sys_cat(&self, tf: &TrapFrame, input: &SyscallInput) -> (r: SyscallOutcome)
        requires
            self.wf(),
        ensures
            cat_post(*self, *self, *tf, *input, r),
    {
        if !path_arg_valid(tf.rdi, tf.rsi) || !validate_buf(tf.rdx, tf.rcx) {
            return quiet(Some(ERR));
        }
        let empty: [u8; 0] = [];
        let path = path_or_exec(&input.path, empty.as_slice());
        assert(empty@ =~= Seq::<u8>::empty());
        let content = match self.fs.cat(path.as_slice()) {
            Some(v) => v,
            None => Vec::new(),
        };
        let out = take_vec(content, tf.rcx);
        let n = out.len() as u64;
        with_out(n, tf.rdx, out)
    }

    fn sys_ps(&self, tf: &TrapFrame) -> (r: SyscallOutcome)
        requires
            self.wf(),
        ensures
            ps_post(*self, *self, *tf, r),
    {
        if !validate_buf(tf.rdi, tf.rsi) {
            return quiet(Some(ERR));
        }
        let text = ps_text_exec(&self.graph.procs);
        let out = take_vec(text, tf.rsi);
        let n = out.len() as u64;
        with_out(n, tf.rdi, out)
    }

    fn sys_fs_op(&mut self, tf: &TrapFrame, input: &SyscallInput) -> (r: SyscallOutcome)
        requires
            old(self).wf(),
            tf.rax == SYS_TOUCH || tf.rax == SYS_MKDIR || tf.rax == SYS_RM,
        ensures
            final(self).wf(),
            fs_op_post(*old(self), *final(self), *tf, *input, r),
    {
        if !path_arg_valid(tf.rdi, tf.rsi) {
            return quiet(Some(ERR));
        }
        let empty: [u8; 0] = [];
        let path = path_or_exec(&input.path, empty.as_slice());
        assert(empty@ =~= Seq::<u8>::empty());
        let ok = if tf.rax == SYS_TOUCH {
            self.fs.touch(path.as_slice())
        } else if tf.rax == SYS_MKDIR {
            self.fs.mkdir(path.as_slice())
        } else {
            self.fs.rm(path.as_slice())
        };
        quiet(Some(if ok { 1 } else { 0 }))
    }

    fn sys_write_f(&mut self, tf: &TrapFrame, input: &SyscallInput) -> (r: SyscallOutcome)
        requires
            old(self).wf(),
        ensures
            final(self).wf(),
            write_f_post(*old(self), *final(self), *tf, *input, r),
    {
        if !path_arg_valid(tf.rdi, tf.rsi) || !validate_buf(tf.rdx, min_u64(tf.rcx, DATA_MAX)) {
            return quiet(Some(ERR));
        }
        let empty: [u8; 0] = [];
        let path = path_or_exec(&input.path, empty.as_slice());
        assert(empty@ =~= Seq::<u8>::empty());
        let ok = self.fs.write_file(path.as_slice(), input.data.as_slice());
        quiet(Some(if ok { 1 } else { 0 }))
    }

    fn sys_execve(&mut self, tf: &TrapFrame, input: &SyscallInput) -> (r: SyscallOutcome)
        requires
            old(self).wf(),
        ensures
            final(self).wf(),
            execve_post(*old(self), *final(self), *tf, *input, r),
    {
        let cur = self.current;
        if cur == NO_CURRENT || !path_arg_valid(tf.rdi, tf.rsi) {
            return quiet(Some(ERR));
        }
        let empty: [u8; 0] = [];
        let path = path_or_exec(&input.path, empty.as_slice());
        assert(empty@ =~= Seq::<u8>::empty());
        let bytes = match self.fs.read_file(path.as_slice()) {
            Some(v) => v,
            None => Vec::new(),
        };
        if bytes.len() == 0 || !elf_arith_fits(bytes.as_slice()) {
            return quiet(Some(ERR));
        }
        let cr3 = self.graph.procs[cur].aspace.cr3;
        let ghost p = self.graph.procs@;
        match load_elf(bytes.as_slice(), &mut self.mem, &mut self.frames, cr3) {
            Ok(info) => {
                self.graph.procs[cur].saved_rip = info.entry;
                proof {
                    assert(self.graph.procs@ =~= p.update(cur as int, Process { saved_rip: info.entry, ..p[cur as int] }));
                    assert forall|j: int| 0 <= j < self.graph.procs@.len() implies crate::kernel::stack_of(#[trigger] self.graph.procs@[j], j) by {
                        assert(crate::kernel::stack_of(p[j], j));
                    }
                }
                quiet(Some(0))
            },
            Err(_) => quiet(Some(ERR)),
        }
    }

    fn sys_shutdown(&mut self) -> (r: SyscallOutcome)
        requires
            old(self).wf(),
        ensures
            final(self).wf(),
            shutdown_post(*old(self), *final(self), r),
    {
        self.do_checkpoint();
        let mut o = quiet(None);
        o.console = crate::text::copy_range("Checkpoint saved. Halting.\r\n".as_bytes(), 0, "Checkpoint saved. Halting.\r\n".as_bytes().len());
        assert(o.console@ =~= "Checkpoint saved. Halting.\r\n".spec_bytes());
        o.halt = true;
        o
    }

    fn sys_chdir(&mut self, tf: &TrapFrame, input: &SyscallInput) -> (r: SyscallOutcome)
        requires
            old(self).wf(),
        ensures
            final(self).wf(),
            chdir_post(*old(self), *final(self), *tf, *input, r),
    {
        let cur = self.current;
        if cur == NO_CURRENT || !path_arg_valid(tf.rdi, tf.rsi) {
            return quiet(Some(ERR));
        }
        let slash = [0x2Fu8];
        let path = path_or_exec(&input.path, slash.as_slice());
        assert(slash@ =~= seq![0x2Fu8]);
        let is_root = crate::text::bytes_eq(path.as_slice(), slash.as_slice());
        if is_root || self.fs.path_is_dir(path.as_slice()) {
            let ghost p = self.graph.procs@;
            let mut cwd = self.graph.procs[cur].cwd;
            let ghost c0 = cwd@;
            let copy = if path.len() < CWD_MAX - 1 {
                path.len()
            } else {
                CWD_MAX - 1
            };
            let mut i: usize = 0;
            while i < copy
                invariant
                    i <= copy,
                    copy < CWD_MAX,
                    copy <= path@.len(),
                    cwd@.len() == CWD_MAX,
                    forall|j: int| 0 <= j < CWD_MAX ==> #[trigger] cwd@[j] == if j < i { path@[j] } else { c0[j] },
                decreases copy - i,
            {
                cwd[i] = path[i];
                i = i + 1;
            }
            cwd[copy] = 0;
            self.graph.procs[cur].cwd = cwd;
            proof {
                assert(cwd@ =~= cwd_after(c0, path@));
                assert forall|j: int| 0 <= j < self.graph.procs@.len() implies crate::kernel::stack_of(#[trigger] self.graph.procs@[j], j) by {
                    assert(crate::kernel::stack_of(p[j], j));
                }
            }
            quiet(Some(1))
        } else {
            quiet(Some(0))
        }
    }

    fn sys_getcwd(&self, tf: &TrapFrame) -> (r: SyscallOutcome)
        requires
            self.wf(),
        ensures
            getcwd_post(*self, *self, *tf, r),
    {
        let cur = self.current;
        if cur == NO_CURRENT || !validate_buf(tf.rdi, tf.rsi) {
            return quiet(Some(ERR));
        }
        let cwd = self.graph.procs[cur].cwd;
        let mut len: usize = 0;
        proof {
            crate::fs::lemma_nul_len_bounds_pub(cwd@, 0);
        }
        while len < CWD_MAX && cwd[len] != 0
            invariant
                len <= CWD_MAX,
                cwd@.len() == CWD_MAX,
                nul_len_from(cwd@, 0) == nul_len_from(cwd@, len as int),
            decreases CWD_MAX - len,
        {
            len = len + 1;
        }
        let olen = tf.rsi;
        let room: u64 = if olen == 0 {
            0
        } else {
            olen - 1
        };
        let copy: usize = if (len as u64) < room {
            len
        } else {
            room as usize
        };
        let mut out = crate::text::copy_range(cwd.as_slice(), 0, copy);
        if (copy as u64) < olen {
            out.push(0);
        }
        proof {
            assert(out@ =~= getcwd_bytes(cwd@, olen));
        }
        with_out(copy as u64, tf.rdi, out)
    }
}

/// The first child of `cur` that has exited.
fn find_exited_child(procs: &Vec<Process>, cur: usize) -> (r: Option<usize>)
    ensures
        opt_int(r) == first_exited_child(procs@, cur),
{
    let n = procs.len();
    let mut i: usize = 0;
    while i < n
        invariant
            i <= n,
            n == procs@.len(),
            forall|j: int| 0 <= j < i ==> !is_exited_child(#[trigger] procs@[j], cur),
        decreases n - i,
    {
        if procs[i].parent == cur && procs[i].state == NodeState::Exited {
            proof {
                let w = choose|w: int| 0 <= w < procs@.len() && is_exited_child(#[trigger] procs@[w], cur) && forall|j: int| 0 <= j < w ==> !is_exited_child(#[trigger] procs@[j], cur);
                assert(is_exited_child(procs@[i as int], cur));
                if w < i {
                    assert(!is_exited_child(procs@[w], cur));
                }
                if i < w {
                    assert(!is_exited_child(procs@[i as int], cur));
                }
            }
            return Some(i);
        }
        i = i + 1;
    }
    None
}

/// Each name followed by "\r\n" (see `listing`).
fn listing_exec(names: &Vec<Vec<u8>>) -> (r: Vec<u8>)
    ensures
        r@ == listing(names@.map_values(|v: Vec<u8>| v@)),
{
    let ghost ns = names@.map_values(|v: Vec<u8>| v@);
    let mut out: Vec<u8> = Vec::new();
    let mut i: usize = 0;
    let crlf_arr = [0x0Du8, 0x0Au8];
    while i < names.len()
        invariant
            i <= names@.len(),
            ns == names@.map_values(|v: Vec<u8>| v@),
            crlf_arr@ == crlf(),
            out@ == listing(ns.subrange(0, i as int)),
        decreases names@.len() - i,
    {
        append(&mut out, names[i].as_slice());
        append(&mut out, crlf_arr.as_slice());
        proof {
            let s = ns.subrange(0, i + 1);
            assert(s.drop_last() =~= ns.subrange(0, i as int));
            assert(s.last() == names@[i as int]@);
        }
        i = i + 1;
    }
    assert(ns.subrange(0, names@.len() as int) =~= ns);
    out
}

/// The `ps` table (see `ps_text`).
fn ps_text_exec(procs: &Vec<Process>) -> (r: Vec<u8>)
    ensures
        r@ == ps_text(procs@),
{
    let header = "pid  act  ten  state\r\n".as_bytes();
    let mut out: Vec<u8> = Vec::new();
    append(&mut out, header);
    let sp = [0x20u8, 0x20u8];
    let crlf_arr = [0x0Du8, 0x0Au8];
    let mut i: usize = 0;
    while i < procs.len()
        invariant
            i <= procs@.len(),
            sp@ == two_spaces(),
            crlf_arr@ == crlf(),
            out@ == "pid  act  ten  state\r\n".spec_bytes() + ps_lines(procs@, i as int),
        decreases procs@.len() - i,
    {
        let ghost before = out@;
        let p = &procs[i];
        append(&mut out, fmt_dec(p.id as u64).as_slice());
        append(&mut out, sp.as_slice());
        append(&mut out, fmt_dec(p.node.activation as u64).as_slice());
        append(&mut out, sp.as_slice());
        append(&mut out, fmt_dec(p.node.tension as u64).as_slice());
        append(&mut out, sp.as_slice());
        let letter: u8 = match p.state {
            NodeState::Ready => 0x52,
            NodeState::Running => 0x58,
            NodeState::Exited => 0x45,
            NodeState::Waiting => 0x57,
        };
        out.push(letter);
        append(&mut out, crlf_arr.as_slice());
        proof {
            assert(out@ =~= before + ps_line(procs@[i as int]));
        }
        i = i + 1;
    }
    out
}

/// What a system call does, by its number (see the `*_post` predicates).
/// `clear()` asks for the screen to be cleared; `poll_key()` answers 1 when
/// input is waiting, else 0; `fork()` and unknown numbers are refused.
/// A refused unknown number answers `ERR` in rax like every other refusal,
/// changes nothing and switches to no other stack; it is not handed back as
/// the stack pointer to switch to, which would resume at an address made of
/// all ones.
pub open spec fn syscall_post(k0: Kernel, k1: Kernel, tf: TrapFrame, frame_addr: u64, inp: SyscallInput, r: SyscallOutcome) -> bool {
    let n = tf.rax;
    if n == SYS_WRITE {
        write_post(k0, k1, tf, inp, r)
    } else if n == SYS_READ {
        read_post(k0, k1, tf, inp, r)
    } else if n == SYS_YIELD {
        yield_post(k0, k1, frame_addr, r)
    } else if n == SYS_SPAWN {
        spawn_post(k0, k1, r)
    } else if n == SYS_EXECVE {
        execve_post(k0, k1, tf, inp, r)
    } else if n == SYS_EXIT {
        exit_post(k0, k1, tf, frame_addr, r)
    } else if n == SYS_LS {
        ls_post(k0, k1, tf, inp, r)
    } else if n == SYS_CAT {
        cat_post(k0, k1, tf, inp, r)
    } else if n == SYS_PS {
        ps_post(k0, k1, tf, r)
    } else if n == SYS_TOUCH || n == SYS_MKDIR || n == SYS_RM {
        fs_op_post(k0, k1, tf, inp, r)
    } else if n == SYS_WRITE_F {
        write_f_post(k0, k1, tf, inp, r)
    } else if n == SYS_SHUTDOWN {
        shutdown_post(k0, k1, r)
    } else if n == SYS_CLEAR {
        &&& k1 == k0
        &&& plain(SyscallOutcome { clear_screen: false, ..r }, None, 0, Seq::empty(), Seq::empty())
        &&& r.clear_screen
    } else if n == SYS_POLL_KEY {
        k1 == k0 && only_rax(r, if inp.key_ready { 1 } else { 0 })
    } else if n == SYS_GETPID {
        getpid_post(k0, k1, r)
    } else if n == SYS_CHDIR {
        chdir_post(k0, k1, tf, inp, r)
    } else if n == SYS_GETCWD {
        getcwd_post(k0, k1, tf, r)
    } else if n == SYS_WAIT {
        wait_post(k0, k1, frame_addr, r)
    } else if n == SYS_KILL {
        kill_post(k0, k1, tf, r)
    } else {
        k1 == k0 && only_rax(r, ERR)
    }
}

/// Every user range a call reads passed the pointer check: the path and
/// data ranges of the plan are not null and do not wrap around.
pub proof fn law_input_plan_checked(tf: TrapFrame, current: usize)
    ensures
        plan_spec(tf, current).path matches Some((a, l)) ==> buf_ok(a, l),
        plan_spec(tf, current).data matches Some((a, l)) ==> buf_ok(a, l),
{
}

/// User memory is written only inside a buffer that the caller passed and
/// the pointer check accepted: whenever a call hands back bytes for the
/// caller, they fit in a range that is not null and does not wrap around.
pub proof fn law_output_checked(
    k0: Kernel,
    k1: Kernel,
    tf: TrapFrame,
    frame_addr: u64,
    inp: SyscallInput,
    r: SyscallOutcome,
)
    requires
        syscall_post(k0, k1, tf, frame_addr, inp, r),
    ensures
        r.out@.len() > 0 ==> buf_ok(r.out_addr, r.out@.len() as u64),
{
    let n = tf.rax;
    if r.out@.len() > 0 {
        if n == SYS_GETCWD {
            let cur = k0.current;
            if cur != NO_CURRENT && buf_ok(tf.rdi, tf.rsi) {
                let cwd = k0.graph.procs@[cur as int].cwd@;
                crate::fs::lemma_nul_len_bounds_pub(cwd, 0);
                assert(getcwd_bytes(cwd, tf.rsi).len() <= tf.rsi);
            }
        }
    }
}

/// A call the kernel refuses (its result is `ERR`) leaves every process,
/// the filesystem, the running process and the persistence region as they
/// were, and hands back nothing but the result.
pub proof fn law_refused_call_changes_nothing(
    k0: Kernel,
    k1: Kernel,
    tf: TrapFrame,
    frame_addr: u64,
    inp: SyscallInput,
    r: SyscallOutcome,
)
    requires
        syscall_post(k0, k1, tf, frame_addr, inp, r),
        r.rax == Some(ERR),
    ensures
        k1.graph.procs@ == k0.graph.procs@,
        k1.fs == k0.fs,
        k1.current == k0.current,
        k1.region@ == k0.region@,
        r.out@.len() == 0,
        r.console@.len() == 0,
        r.parent_rax is None,
        r.frame is None,
        r.sched is None,
{
    if tf.rax == SYS_GETCWD && k0.current != NO_CURRENT && buf_ok(tf.rdi, tf.rsi) {
        let cwd = k0.graph.procs@[k0.current as int].cwd@;
        crate::fs::lemma_nul_len_bounds_pub(cwd, 0);
    }
}

/// The stack pointer the entry stub switches to after the call; 0 to
/// return to the caller.
pub open spec fn switch_rsp(r: SyscallOutcome) -> u64 {
    match r.sched {
        Some(s) => s.rsp,
        None => 0,
    }
}

impl Kernel {
    /// Carries out the system call whose registers were saved in `tf` (at
    /// `frame_addr`), with the user bytes and input the plan asked for.
    pub fn syscall_handler(&mut self, tf: &TrapFrame, frame_addr: u64, input: &SyscallInput) -> (r: SyscallOutcome)
        requires
            old(self).wf(),
        ensures
            final(self).wf(),
            syscall_post(*old(self), *final(self), *tf, frame_addr, *input, r),
    {
        let n = tf.syscall_number();
        if n == SYS_WRITE {
            self.sys_write(tf, input)
        } else if n == SYS_READ {
            self.sys_read(tf, input)
        } else if n == SYS_YIELD {
            self.sys_yield(frame_addr)
        } else if n == SYS_SPAWN {
            self.sys_spawn()
        } else if n == SYS_EXECVE {
            self.sys_execve(tf, input)
        } else if n == SYS_EXIT {
            self.sys_exit(tf, frame_addr)
        } else if n == SYS_LS {
            self.sys_ls(tf, input)
        } else if n == SYS_CAT {
            self.sys_cat(tf, input)
        } else if n == SYS_PS {
            self.sys_ps(tf)
        } else if n == SYS_TOUCH || n == SYS_MKDIR || n == SYS_RM {
            self.sys_fs_op(tf, input)
        } else if n == SYS_WRITE_F {
            self.sys_write_f(tf, input)
        } else if n == SYS_SHUTDOWN {
            self.sys_shutdown()
        } else if n == SYS_CLEAR {
            let mut o = quiet(None);
            o.clear_screen = true;
            o
        } else if n == SYS_POLL_KEY {
            quiet(Some(if input.key_ready { 1 } else { 0 }))
        } else if n == SYS_GETPID {
            self.sys_getpid()
        } else if n == SYS_CHDIR {
            self.sys_chdir(tf, input)
        } else if n == SYS_GETCWD {
            self.sys_getcwd(tf)
        } else if n == SYS_WAIT {
            self.sys_wait(frame_addr)
        } else if n == SYS_KILL {
            self.sys_kill(tf)
        } else {
            quiet(Some(ERR))
        }
    }
}

/// The index of the first process whose id is `pid`.
fn find_pid(procs: &Vec<Process>, pid: u32) -> (r: Option<usize>)
    ensures
        opt_int(r) == first_with_id(procs@, pid),
{
    let n = procs.len();
    let mut i: usize = 0;
    while i < n
        invariant
            i <= n,
            n == procs@.len(),
            forall|j: int| 0 <= j < i ==> (#[trigger] procs@[j]).id != pid,
        decreases n - i,
    {
        if procs[i].id == pid {
            proof {
                let w = choose|w: int| 0 <= w < procs@.len() && (#[trigger] procs@[w]).id == pid && forall|j: int| 0 <= j < w ==> (#[trigger] procs@[j]).id != pid;
                assert(0 <= i < procs@.len() && procs@[i as int].id == pid);
                if w < i {
                    assert(procs@[w].id != pid);
                }
                if i < w {
                    assert(procs@[i as int].id != pid);
                }
            }
            return Some(i);
        }
        i = i + 1;
    }
    None
}

} // verus!
