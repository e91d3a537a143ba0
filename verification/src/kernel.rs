//! Kernel state and the decisions the interrupt and system-call paths make:
//! which process runs next, what a system call does to the process graph
//! and the filesystem, and what the caller gets back.
//!
//! The kernel runs on explicit state. The interrupt glue reads the saved
//! registers and the user buffers, hands them over as plain values, and
//! carries out what comes back: a return value for `rax`, bytes for user
//! memory or the console, a stack to resume on, a page table to load.
use vstd::prelude::*;
use vstd::string::StringSliceAdditionalSpecFns;

use crate::frame_allocator::BitmapFrameAllocator;
use crate::fs::FileSystem;
use crate::layout::{kernel_stack_slot_base, kernel_stack_top, KERNEL_STACK_GUARD_SIZE, KERNEL_STACK_REGION_BASE, KERNEL_STACK_SIZE, KERNEL_STACK_SLOT_SIZE};
use crate::paging::{alloc_fits, create_process_page_table, frame_free, fresh_process_table, PhysMemory};
use crate::process::{root_cwd, Process};
use crate::scheduler::{
    decay_spec, spread_prefix, strongest, with_activation, NodeState, ProcessGraph, MAX_NEIGHBORS, MAX_NODES,
    NEIGHBOR_NONE, PARENT_NONE,
};

verus! {

/// `current` holds this when no process is selected.
pub const NO_CURRENT: usize = 0xFF;
/// Bytes of the initial frame built at the top of a fresh kernel stack:
/// sixteen zeroed register slots and a five-word interrupt return frame.
pub const INIT_FRAME_SIZE: u64 = 168;
pub const INIT_FRAME_WORDS: usize = 21;
/// Bytes of the interrupt return frame at the end of the initial frame.
pub const IRET_FRAME_SIZE: u64 = 40;
/// A new node emerges once some live process carries more tension than this.
pub const EMERGE_TENSION: u32 = 30;
/// Activation of a node that emerges or is spawned.
pub const EMERGED_ACTIVATION: u32 = 50;
pub const KERNEL_CODE_SEL: u64 = 0x08;
pub const KERNEL_DATA_SEL: u64 = 0x10;
pub const USER_CODE_SEL: u64 = 0x1b;
pub const USER_DATA_SEL: u64 = 0x23;
/// Interrupts enabled, reserved bit set.
pub const INIT_RFLAGS: u64 = 0x202;

/// The words to store at `rsp` so that a first switch to a process enters
/// `entry` with the right selectors.
#[derive(Debug, PartialEq, Eq)]
pub struct InitFrame {
    pub rsp: u64,
    pub words: [u64; INIT_FRAME_WORDS],
}

/// Node 0 (the shell) runs in kernel mode; every other node in user mode.
pub open spec fn code_sel(id: u32) -> u64 {
    if id == 0 {
        KERNEL_CODE_SEL
    } else {
        USER_CODE_SEL
    }
}

pub open spec fn data_sel(id: u32) -> u64 {
    if id == 0 {
        KERNEL_DATA_SEL
    } else {
        USER_DATA_SEL
    }
}

/// The initial frame: zeroed registers, then `entry`, the code selector,
/// the flags, the frame's own address as stack pointer, the data selector.
pub open spec fn init_frame_words(entry: u64, code: u64, data: u64, rsp: u64) -> Seq<u64> {
    Seq::new(
        INIT_FRAME_WORDS as nat,
        |i: int|
            if i < 16 {
                0u64
            } else if i == 16 {
                entry
            } else if i == 17 {
                code
            } else if i == 18 {
                INIT_RFLAGS
            } else if i == 19 {
                rsp
            } else {
                data
            },
    )
}

pub open spec fn slot_base(idx: int) -> int {
    KERNEL_STACK_REGION_BASE + idx * KERNEL_STACK_SLOT_SIZE
}

pub open spec fn slot_top(idx: int) -> int {
    slot_base(idx) + KERNEL_STACK_GUARD_SIZE + KERNEL_STACK_SIZE
}

/// The process owns the kernel stack of slot `idx`.
pub open spec fn stack_of(p: Process, idx: int) -> bool {
    p.kernel_stack_base == slot_base(idx) && p.kernel_stack_top == slot_top(idx)
}

/// `f` is the initial frame for process `p` entering at `entry`.
pub open spec fn frame_for(f: InitFrame, p: Process, entry: u64) -> bool {
    &&& f.rsp == p.kernel_stack_top - INIT_FRAME_SIZE
    &&& f.words@ == init_frame_words(entry, code_sel(p.id), data_sel(p.id), f.rsp)
}

/// The page table a process gets: the kernel's own without a higher-half
/// direct map, else a fresh copy of the active one, or the kernel's own when
/// no frame was left.
pub open spec fn table_choice(cr3: u64, hhdm: u64, kernel_cr3: u64) -> bool {
    hhdm == 0 ==> cr3 == kernel_cr3
}

/// How the page table `cr3` of a process set up from `k0` came about (the
/// state after is `k1`): without a higher-half direct map it is the
/// kernel's own and memory is untouched; otherwise it is a fresh copy of
/// the active table (see `fresh_process_table`), or the kernel's own, with
/// memory untouched, when the active table is zero or no frame was left.
pub open spec fn table_made(k0: Kernel, k1: Kernel, cr3: u64) -> bool {
    let unchanged = k1.mem.spec_words() == k0.mem.spec_words() && k1.frames.used() == k0.frames.used();
    if k0.hhdm_offset == 0 {
        cr3 == k0.kernel_cr3 && unchanged
    } else {
        ||| fresh_process_table(&k0.mem, &k0.frames, &k1.mem, &k1.frames, k0.active_cr3, cr3)
        ||| {
            &&& cr3 == k0.kernel_cr3
            &&& unchanged
            &&& (k0.active_cr3 == 0 || forall|k: int|
                0 <= k < k0.frames.spec_frames() ==> #[trigger] k0.frames.used()[k])
        }
    }
}

/// The same process with its kernel stack slot and page table set.
pub open spec fn with_stack(p: Process, idx: int, cr3: u64) -> Process {
    Process {
        kernel_stack_base: slot_base(idx) as u64,
        kernel_stack_top: slot_top(idx) as u64,
        aspace: crate::address_space::AddressSpace { cr3, ..p.aspace },
        ..p
    }
}

/// Greatest tension among the first `n` processes that have not exited.
pub open spec fn live_max_tension(procs: Seq<Process>, n: int) -> u32
    decreases n,
{
    if n <= 0 {
        0
    } else {
        let m = live_max_tension(procs, n - 1);
        let p = procs[n - 1];
        if p.state != NodeState::Exited && p.node.tension > m {
            p.node.tension
        } else {
            m
        }
    }
}

/// A new node emerges: some live process is tense and there is room.
pub open spec fn should_emerge(procs: Seq<Process>) -> bool {
    live_max_tension(procs, procs.len() as int) > EMERGE_TENSION && procs.len() < MAX_NODES
}

/// The greatest tension among the first `n` processes that have not
/// exited bounds each of their tensions and is one of them (or zero).
proof fn lemma_live_max_tension(procs: Seq<Process>, n: int)
    requires
        0 <= n <= procs.len(),
    ensures
        forall|j: int| 0 <= j < n && procs[j].state != NodeState::Exited ==> #[trigger] procs[j].node.tension
            <= live_max_tension(procs, n),
        live_max_tension(procs, n) == 0 || exists|j: int|
            0 <= j < n && procs[j].state != NodeState::Exited && #[trigger] procs[j].node.tension == live_max_tension(
                procs,
                n,
            ),
    decreases n,
{
    if n > 0 {
        lemma_live_max_tension(procs, n - 1);
        let m = live_max_tension(procs, n - 1);
        if live_max_tension(procs, n) != 0 && live_max_tension(procs, n) == m {
            let j = choose|j: int|
                0 <= j < n - 1 && procs[j].state != NodeState::Exited && #[trigger] procs[j].node.tension == m;
            assert(procs[j].node.tension == live_max_tension(procs, n));
        }
    }
}

/// A new node emerges exactly when some process that has not exited carries
/// a tension above 30 and fewer than 32 processes exist.
pub proof fn law_emerge_when_tense(procs: Seq<Process>)
    ensures
        should_emerge(procs) <==> procs.len() < 32 && exists|j: int|
            0 <= j < procs.len() && procs[j].state != NodeState::Exited && #[trigger] procs[j].node.tension > 30,
{
    lemma_live_max_tension(procs, procs.len() as int);
    if procs.len() < 32 && exists|j: int|
        0 <= j < procs.len() && procs[j].state != NodeState::Exited && #[trigger] procs[j].node.tension > 30 {
        let j = choose|j: int|
            0 <= j < procs.len() && procs[j].state != NodeState::Exited && #[trigger] procs[j].node.tension > 30;
        assert(procs[j].node.tension <= live_max_tension(procs, procs.len() as int));
    }
}

/// The parent recorded for a process created now.
pub open spec fn parent_of_new(current: usize) -> usize {
    if current != NO_CURRENT {
        current
    } else {
        PARENT_NONE
    }
}

/// `p` is the process made for slot `idx` by spawning or emerging: id
/// `idx`, activation 50, no tension or neighbours, ready, with its stack slot.
pub open spec fn spawned(p: Process, idx: int, parent: usize, hhdm: u64, kernel_cr3: u64) -> bool {
    &&& p.id == idx
    &&& p.node.activation == EMERGED_ACTIVATION
    &&& p.node.tension == 0
    &&& forall|j: int| 0 <= j < MAX_NEIGHBORS ==> #[trigger] p.node.neighbors@[j] == NEIGHBOR_NONE
    &&& p.state == NodeState::Ready
    &&& p.parent == parent
    &&& p.exit_status == 0
    &&& p.cwd@ == root_cwd()
    &&& p.saved_rsp == 0
    &&& p.saved_rip == 0
    &&& p.aspace.vmas@.len() == 0
    &&& stack_of(p, idx)
    &&& table_choice(p.aspace.cr3, hhdm, kernel_cr3)
}

/// A process made by spawning or emerging starts ready, with its slot
/// index as id, activation 50, no tension and no neighbours, and no exit
/// status.
pub proof fn law_spawned_starts_fresh(p: Process, idx: int, parent: usize, hhdm: u64, kernel_cr3: u64)
    requires
        spawned(p, idx, parent, hhdm, kernel_cr3),
    ensures
        p.id == idx,
        p.node.activation == 50,
        p.node.tension == 0,
        p.state == NodeState::Ready,
        p.exit_status == 0,
        forall|j: int| 0 <= j < 4 ==> #[trigger] p.node.neighbors@[j] == 0xFF,
{
}

/// `p1` is `p0` after the emergence check: one spawned process more when
/// `should_emerge(p0)`, else the same.
pub open spec fn emerge_step(p0: Seq<Process>, p1: Seq<Process>, parent: usize, hhdm: u64, kernel_cr3: u64) -> bool {
    if should_emerge(p0) {
        &&& p1.len() == p0.len() + 1
        &&& p1.subrange(0, p0.len() as int) == p0
        &&& spawned(p1[p0.len() as int], p0.len() as int, parent, hhdm, kernel_cr3)
    } else {
        p1 == p0
    }
}

/// The same process in another state.
pub open spec fn with_state(p: Process, s: NodeState) -> Process {
    Process { state: s, ..p }
}

/// One scheduling round after the emergence check: the strongest process
/// keeps its activation while every other decays, activation spreads from
/// it to its neighbours, and the strongest process after that is marked
/// running.
pub open spec fn after_round(p1: Seq<Process>) -> (Seq<Process>, Option<int>) {
    let p2 = match strongest(p1) {
        Some(c) => spread_prefix(decay_spec(p1, c), c, p1[c].node.neighbors@, MAX_NEIGHBORS as int),
        None => p1,
    };
    let ns = strongest(p2);
    let p3 = match ns {
        Some(n) => p2.update(n, with_state(p2[n], NodeState::Running)),
        None => p2,
    };
    (p3, ns)
}

/// `p3` and `ns` come from `p0` by a scheduling round.
pub open spec fn round_from(p0: Seq<Process>, p3: Seq<Process>, ns: Option<int>, parent: usize, hhdm: u64, kernel_cr3: u64) -> bool {
    exists|p1: Seq<Process>| emerge_step(p0, p1, parent, hhdm, kernel_cr3) && after_round(p1) == (p3, ns)
}

/// Everything but the node values and the state is the same.
pub open spec fn same_identity(a: Process, b: Process) -> bool {
    &&& a.id == b.id
    &&& a.aspace == b.aspace
    &&& a.context == b.context
    &&& a.kernel_stack_base == b.kernel_stack_base
    &&& a.kernel_stack_top == b.kernel_stack_top
    &&& a.parent == b.parent
    &&& a.exit_status == b.exit_status
    &&& a.cwd == b.cwd
    &&& a.saved_rsp == b.saved_rsp
    &&& a.saved_rip == b.saved_rip
}

proof fn lemma_spread_identity(procs: Seq<Process>, from: int, nb: Seq<u8>, k: int)
    ensures
        spread_prefix(procs, from, nb, k).len() == procs.len(),
        forall|i: int| 0 <= i < procs.len() ==> same_identity(#[trigger] spread_prefix(procs, from, nb, k)[i], procs[i]),
    decreases k,
{
    if k > 0 {
        lemma_spread_identity(procs, from, nb, k - 1);
    }
}

/// A scheduling round keeps the number of processes and everything about
/// them but their node values and states.
pub proof fn lemma_round_identity(p1: Seq<Process>)
    ensures
        after_round(p1).0.len() == p1.len(),
        forall|i: int| 0 <= i < p1.len() ==> same_identity(#[trigger] after_round(p1).0[i], p1[i]),
        after_round(p1).1 matches Some(n) ==> 0 <= n < p1.len(),
{
    let p2 = match strongest(p1) {
        Some(c) => spread_prefix(decay_spec(p1, c), c, p1[c].node.neighbors@, MAX_NEIGHBORS as int),
        None => p1,
    };
    match strongest(p1) {
        Some(c) => {
            lemma_spread_identity(decay_spec(p1, c), c, p1[c].node.neighbors@, MAX_NEIGHBORS as int);
        },
        None => {},
    }
    if let Some(n) = strongest(p2) {
        assert(crate::scheduler::is_strongest(p2, choose|i: int| crate::scheduler::is_strongest(p2, i)));
    }
}

/// The stack a process resumes on: its saved frame, or the initial frame
/// at the top of its kernel stack when it has never run.
pub open spec fn resume_rsp(p: Process) -> u64 {
    if p.saved_rsp != 0 {
        p.saved_rsp
    } else {
        (p.kernel_stack_top - INIT_FRAME_SIZE) as u64
    }
}

/// What a scheduling decision asks of the interrupt glue.
#[derive(Debug, PartialEq, Eq)]
pub struct Schedule {
    /// The process selected in this round, if any.
    pub next: Option<usize>,
    /// The stack to resume on; 0 to return to the interrupted code.
    pub rsp: u64,
    /// The page table to load, if it changes.
    pub cr3: Option<u64>,
    /// The initial frame of a node that emerged in this round.
    pub frame: Option<InitFrame>,
}

pub open spec fn opt_int(o: Option<usize>) -> Option<int> {
    match o {
        Some(i) => Some(i as int),
        None => None,
    }
}

/// `k1` and the decision `s` come from a scheduling round on the process
/// table `p0` with `cur0` current, the rest of the state as in `k0`, for a
/// caller that was running `cur` (see `Kernel::do_schedule`).
pub open spec fn scheduled_from(p0: Seq<Process>, cur0: usize, k0: Kernel, k1: Kernel, cur: Option<usize>, s: Schedule) -> bool {
    &&& k1.fs == k0.fs
    &&& k1.tick_count == k0.tick_count
    &&& k1.kernel_cr3 == k0.kernel_cr3
    &&& k1.kernel_rsp == k0.kernel_rsp
    &&& k1.hhdm_offset == k0.hhdm_offset
    &&& k1.node_entry == k0.node_entry
    &&& k1.region@ == k0.region@
    &&& round_from(p0, k1.graph.procs@, opt_int(s.next), parent_of_new(cur0), k0.hhdm_offset, k0.kernel_cr3)
    &&& s.frame is Some == should_emerge(p0)
    &&& (s.frame matches Some(f) ==> frame_for(f, k1.graph.procs@[p0.len() as int], k0.node_entry))
    &&& match s.next {
        Some(n) => if cur == Some(n) {
            &&& k1.current == cur0
            &&& k1.active_cr3 == k0.active_cr3
            &&& s.rsp == 0
            &&& s.cr3 is None
        } else {
            &&& k1.current == n
            &&& k1.active_cr3 == k1.graph.procs@[n as int].aspace.cr3
            &&& s.rsp == resume_rsp(k1.graph.procs@[n as int])
            &&& s.cr3 == Some(k1.graph.procs@[n as int].aspace.cr3)
        },
        None => {
            &&& k1.current == cur0
            &&& k1.active_cr3 == k0.kernel_cr3
            &&& s.rsp == 0
            &&& s.cr3 == Some(k0.kernel_cr3)
        },
    }
}

/// A pointer and length name a buffer that does not wrap around the address space.
pub open spec fn buf_ok(ptr: u64, len: u64) -> bool {
    ptr != 0 && ptr + len <= u64::MAX
}

/// Whether a user buffer is acceptable: not null and not wrapping around.
pub fn validate_buf(ptr: u64, len: u64) -> (r: bool)
    ensures
        r == buf_ok(ptr, len),
{
    if ptr == 0 {
        return false;
    }
    ptr <= u64::MAX - len
}

pub struct Kernel {
    pub graph: ProcessGraph,
    /// Index of the running process, or `NO_CURRENT`.
    pub current: usize,
    pub fs: FileSystem,
    pub mem: PhysMemory,
    pub frames: BitmapFrameAllocator,
    pub tick_count: u32,
    pub kernel_cr3: u64,
    /// The page table last loaded.
    pub active_cr3: u64,
    /// Frame pointer saved when the timer fires with no process selected.
    pub kernel_rsp: u64,
    pub hhdm_offset: u64,
    /// Where nodes other than the shell start running.
    pub node_entry: u64,
    /// The persistence region that checkpoints are written to.
    pub region: Vec<u8>,
}

impl Kernel {
    /// The parts of the state the other invariants rest on.
    pub open spec fn wf_core(&self) -> bool {
        &&& self.graph.procs@.len() <= MAX_NODES
        &&& (self.current == NO_CURRENT || self.current < self.graph.procs@.len())
        &&& self.fs.wf()
        &&& self.mem.wf()
        &&& self.frames.wf()
        &&& alloc_fits(&self.mem, &self.frames)
    }

    /// The state invariant: the core parts hold and every process owns the
    /// kernel stack of its slot.
    pub open spec fn wf(&self) -> bool {
        &&& self.wf_core()
        &&& forall|i: int| 0 <= i < self.graph.procs@.len() ==> stack_of(#[trigger] self.graph.procs@[i], i)
    }

    /// Everything but the process graph, the memory model, the allocator and
    /// the active page table is as in `old`.
    pub open spec fn same_rest(&self, old: &Kernel) -> bool {
        &&& self.current == old.current
        &&& self.fs == old.fs
        &&& self.tick_count == old.tick_count
        &&& self.kernel_cr3 == old.kernel_cr3
        &&& self.kernel_rsp == old.kernel_rsp
        &&& self.hhdm_offset == old.hhdm_offset
        &&& self.node_entry == old.node_entry
        &&& self.region@ == old.region@
    }

    /// Gives process `idx` the kernel stack of its slot and a page table, and
    /// returns the initial frame that makes it start at `entry`.
    pub fn init_node_stacks_for_with_entry(&mut self, idx: usize, entry: u64) -> (r: InitFrame)
        requires
            old(self).wf_core(),
            idx < old(self).graph.procs@.len(),
        ensures
            final(self).wf_core(),
            final(self).same_rest(old(self)),
            final(self).active_cr3 == old(self).active_cr3,
            final(self).graph.procs@ == old(self).graph.procs@.update(
                idx as int,
                with_stack(old(self).graph.procs@[idx as int], idx as int, final(self).graph.procs@[idx as int].aspace.cr3),
            ),
            table_choice(final(self).graph.procs@[idx as int].aspace.cr3, old(self).hhdm_offset, old(self).kernel_cr3),
            table_made(*old(self), *final(self), final(self).graph.procs@[idx as int].aspace.cr3),
            frame_for(r, final(self).graph.procs@[idx as int], entry),
    {
        let id = self.graph.procs[idx].id;
        let (code, data) = if id == 0 {
            (KERNEL_CODE_SEL, KERNEL_DATA_SEL)
        } else {
            (USER_CODE_SEL, USER_DATA_SEL)
        };
        let cr3 = if self.hhdm_offset != 0 {
            match create_process_page_table(&mut self.mem, &mut self.frames, self.active_cr3) {
                Some(t) => t,
                None => self.kernel_cr3,
            }
        } else {
            self.kernel_cr3
        };
        assert(crate::layout::slot_fits(idx as int));
        let base = kernel_stack_slot_base(idx);
        let top = kernel_stack_top(idx);
        self.graph.procs[idx].kernel_stack_base = base;
        self.graph.procs[idx].kernel_stack_top = top;
        self.graph.procs[idx].aspace.cr3 = cr3;
        let rsp = top - INIT_FRAME_SIZE;
        let mut words = [0u64; INIT_FRAME_WORDS];
        words[16] = entry;
        words[17] = code;
        words[18] = INIT_RFLAGS;
        words[19] = rsp;
        words[20] = data;
        let r = InitFrame { rsp, words };
        proof {
            assert(r.words@ =~= init_frame_words(entry, code_sel(id), data_sel(id), rsp));
            assert(self.graph.procs@ =~= old(self).graph.procs@.update(
                idx as int,
                with_stack(old(self).graph.procs@[idx as int], idx as int, cr3),
            ));
        }
        r
    }

    /// Gives process `idx` its stack and page table, entering at `node_entry`.
    pub fn init_node_stacks_for(&mut self, idx: usize) -> (r: InitFrame)
        requires
            old(self).wf_core(),
            idx < old(self).graph.procs@.len(),
        ensures
            final(self).wf_core(),
            final(self).same_rest(old(self)),
            final(self).active_cr3 == old(self).active_cr3,
            final(self).graph.procs@ == old(self).graph.procs@.update(
                idx as int,
                with_stack(old(self).graph.procs@[idx as int], idx as int, final(self).graph.procs@[idx as int].aspace.cr3),
            ),
            table_choice(final(self).graph.procs@[idx as int].aspace.cr3, old(self).hhdm_offset, old(self).kernel_cr3),
            table_made(*old(self), *final(self), final(self).graph.procs@[idx as int].aspace.cr3),
            frame_for(r, final(self).graph.procs@[idx as int], old(self).node_entry),
    {
        let entry = self.node_entry;
        self.init_node_stacks_for_with_entry(idx, entry)
    }

    /// Adds a process for `next_id` with activation 50 under the current
    /// process, gives it its stack and marks it ready; `None` when the graph
    /// is full.
    fn spawn_node(&mut self) -> (r: Option<(usize, InitFrame)>)
        requires
            old(self).wf(),
        ensures
            final(self).wf(),
            final(self).same_rest(old(self)),
            final(self).active_cr3 == old(self).active_cr3,
            r is Some == (old(self).graph.procs@.len() < MAX_NODES),
            r is None ==> final(self).graph.procs@ == old(self).graph.procs@,
            r matches Some((idx, f)) ==> {
                &&& idx == old(self).graph.procs@.len()
                &&& final(self).graph.procs@.len() == idx + 1
                &&& final(self).graph.procs@.subrange(0, idx as int) == old(self).graph.procs@
                &&& spawned(final(self).graph.procs@[idx as int], idx as int, parent_of_new(old(self).current), old(self).hhdm_offset, old(self).kernel_cr3)
                &&& table_made(*old(self), *final(self), final(self).graph.procs@[idx as int].aspace.cr3)
                &&& frame_for(f, final(self).graph.procs@[idx as int], old(self).node_entry)
            },
    {
        let next_id = self.graph.count() as u32;
        let parent = if self.current != NO_CURRENT {
            self.current
        } else {
            PARENT_NONE
        };
        let empty: [u8; 0] = [];
        match self.graph.try_add_node(next_id, EMERGED_ACTIVATION, 0, empty.as_slice(), parent) {
            Some(idx) => {
                let ghost added = self.graph.procs@;
                let f = self.init_node_stacks_for(idx);
                self.graph.procs[idx].state = NodeState::Ready;
                proof {
                    assert(self.graph.procs@.subrange(0, idx as int) =~= added.subrange(0, idx as int));
                    assert forall|i: int| 0 <= i < self.graph.procs@.len() implies stack_of(#[trigger] self.graph.procs@[i], i) by {
                        if i < idx {
                            assert(self.graph.procs@[i] == old(self).graph.procs@[i]);
                        }
                    }
                }
                Some((idx, f))
            },
            None => None,
        }
    }

    /// Adds a ready process under the current one (see `spawn_node`).
    pub(crate) fn spawn_node_pub(&mut self) -> (r: Option<(usize, InitFrame)>)
        requires
            old(self).wf(),
        ensures
            final(self).wf(),
            final(self).same_rest(old(self)),
            final(self).active_cr3 == old(self).active_cr3,
            r is Some == (old(self).graph.procs@.len() < MAX_NODES),
            r is None ==> final(self).graph.procs@ == old(self).graph.procs@,
            r matches Some((idx, f)) ==> {
                &&& idx == old(self).graph.procs@.len()
                &&& final(self).graph.procs@.len() == idx + 1
                &&& final(self).graph.procs@.subrange(0, idx as int) == old(self).graph.procs@
                &&& spawned(final(self).graph.procs@[idx as int], idx as int, parent_of_new(old(self).current), old(self).hhdm_offset, old(self).kernel_cr3)
                &&& table_made(*old(self), *final(self), final(self).graph.procs@[idx as int].aspace.cr3)
                &&& frame_for(f, final(self).graph.procs@[idx as int], old(self).node_entry)
            },
    {
        self.spawn_node()
    }

    /// Spawns a node when some live process is tense enough and there is room.
    pub fn maybe_emerge_node(&mut self) -> (r: Option<InitFrame>)
        requires
            old(self).wf(),
        ensures
            final(self).wf(),
            final(self).same_rest(old(self)),
            final(self).active_cr3 == old(self).active_cr3,
            r is Some == should_emerge(old(self).graph.procs@),
            emerge_step(old(self).graph.procs@, final(self).graph.procs@, parent_of_new(old(self).current), old(self).hhdm_offset, old(self).kernel_cr3),
            r matches Some(f) ==> frame_for(f, final(self).graph.procs@[old(self).graph.procs@.len() as int], old(self).node_entry),
    {
        let mut max_tension: u32 = 0;
        let n = self.graph.count();
        let mut i: usize = 0;
        while i < n
            invariant
                i <= n,
                n == self.graph.procs@.len(),
                max_tension == live_max_tension(self.graph.procs@, i as int),
            decreases n - i,
        {
            if self.graph.procs[i].state != NodeState::Exited && self.graph.procs[i].node.tension > max_tension {
                max_tension = self.graph.procs[i].node.tension;
            }
            i = i + 1;
        }
        if max_tension > EMERGE_TENSION && n < MAX_NODES {
            match self.spawn_node() {
                Some((_idx, f)) => Some(f),
                None => None,
            }
        } else {
            None
        }
    }

    /// One scheduling round (see `after_round`), after the emergence check.
    pub(crate) fn schedule_round(&mut self) -> (r: (Option<usize>, Option<InitFrame>))
        requires
            old(self).wf(),
        ensures
            final(self).wf(),
            final(self).same_rest(old(self)),
            final(self).active_cr3 == old(self).active_cr3,
            round_from(
                old(self).graph.procs@,
                final(self).graph.procs@,
                opt_int(r.0),
                parent_of_new(old(self).current),
                old(self).hhdm_offset,
                old(self).kernel_cr3,
            ),
            r.0 matches Some(n) ==> n < final(self).graph.procs@.len(),
            r.1 is Some == should_emerge(old(self).graph.procs@),
            r.1 matches Some(f) ==> frame_for(f, final(self).graph.procs@[old(self).graph.procs@.len() as int], old(self).node_entry),
    {
        let ghost p0 = self.graph.procs@;
        let f = self.maybe_emerge_node();
        let ghost p1 = self.graph.procs@;
        let c = self.graph.select_strongest();
        if let Some(c) = c {
            self.graph.decay_all(c);
            self.graph.spread_from(c);
        }
        let ns = self.graph.select_strongest();
        if let Some(n) = ns {
            self.graph.procs[n].state = NodeState::Running;
        }
        proof {
            lemma_round_identity(p1);
            assert(self.graph.procs@ =~= after_round(p1).0);
            assert(after_round(p1) == (self.graph.procs@, opt_int(ns)));
            assert(emerge_step(p0, p1, parent_of_new(old(self).current), old(self).hhdm_offset, old(self).kernel_cr3));
            assert forall|i: int| 0 <= i < self.graph.procs@.len() implies stack_of(#[trigger] self.graph.procs@[i], i) by {
                assert(same_identity(after_round(p1).0[i], p1[i]));
            }
            if should_emerge(p0) {
                assert(same_identity(after_round(p1).0[p0.len() as int], p1[p0.len() as int]));
            }
        }
        (ns, f)
    }

    /// Runs a scheduling round for a caller that was running `cur` and says
    /// where to go next: the selected process's stack and page table when a
    /// process other than `cur` was selected (it becomes current), nothing
    /// when `cur` was selected again, and the kernel's page table when no
    /// process can run.
    pub fn do_schedule(&mut self, cur: Option<usize>) -> (r: Schedule)
        requires
            old(self).wf(),
        ensures
            final(self).wf(),
            scheduled_from(old(self).graph.procs@, old(self).current, *old(self), *final(self), cur, r),
    {
        let (ns, frame) = self.schedule_round();
        match ns {
            Some(n) => {
                let same = match cur {
                    Some(c) => c == n,
                    None => false,
                };
                if !same {
                    self.current = n;
                    let cr3 = self.graph.procs[n].aspace.cr3;
                    self.active_cr3 = cr3;
                    let rsp = if self.graph.procs[n].saved_rsp != 0 {
                        self.graph.procs[n].saved_rsp
                    } else {
                        assert(stack_of(self.graph.procs@[n as int], n as int));
                        self.graph.procs[n].kernel_stack_top - INIT_FRAME_SIZE
                    };
                    Schedule { next: ns, rsp, cr3: Some(cr3), frame }
                } else {
                    Schedule { next: ns, rsp: 0, cr3: None, frame }
                }
            },
            None => {
                let k = self.kernel_cr3;
                self.active_cr3 = k;
                Schedule { next: ns, rsp: 0, cr3: Some(k), frame }
            },
        }
    }

    /// The running process, if any.
    pub fn current_idx(&self) -> (r: Option<usize>)
        ensures
            r == (if self.current != NO_CURRENT { Some(self.current) } else { None::<usize> }),
    {
        if self.current == NO_CURRENT {
            None
        } else {
            Some(self.current)
        }
    }

    /// Makes `idx` the running process, or none.
    pub fn set_current_idx(&mut self, idx: Option<usize>)
        requires
            old(self).wf(),
            idx matches Some(i) ==> i < old(self).graph.procs@.len(),
        ensures
            final(self).wf(),
            *final(self) == (Kernel {
                current: match idx {
                    Some(i) => i,
                    None => NO_CURRENT,
                },
                ..*old(self)
            }),
    {
        self.current = match idx {
            Some(i) => i,
            None => NO_CURRENT,
        };
    }

    /// The process table, for changes that keep every process's stack.
    pub fn graph_mut(&mut self) -> (r: &mut ProcessGraph)
        ensures
            *r == old(self).graph,
            *final(self) == (Kernel { graph: *final(r), ..*old(self) }),
    {
        &mut self.graph
    }

    /// The running process, for modification.
    pub fn current_process_mut(&mut self) -> (r: Option<&mut Process>)
        requires
            old(self).wf(),
        ensures
            match r {
                Some(p) => {
                    &&& old(self).current != NO_CURRENT
                    &&& *p == old(self).graph.procs@[old(self).current as int]
                    &&& *final(self) == (Kernel {
                        graph: ProcessGraph { procs: final(self).graph.procs },
                        ..*old(self)
                    })
                    &&& final(self).graph.procs@ == old(self).graph.procs@.update(old(self).current as int, *final(p))
                },
                None => old(self).current == NO_CURRENT && *final(self) == *old(self),
            },
    {
        if self.current == NO_CURRENT {
            return None;
        }
        let i = self.current;
        Some(&mut self.graph.procs[i])
    }

    /// Ends process `idx` with `exit_status`: no activation, the greatest
    /// tension, exited; it stops being the running process.
    pub fn prune_process(&mut self, idx: usize, exit_status: u8)
        requires
            old(self).wf(),
        ensures
            final(self).wf(),
            *final(self) == (Kernel {
                graph: ProcessGraph { procs: final(self).graph.procs },
                current: final(self).current,
                ..*old(self)
            }),
            final(self).graph.procs@ == if idx < old(self).graph.procs@.len() {
                let p = old(self).graph.procs@[idx as int];
                old(self).graph.procs@.update(
                    idx as int,
                    Process {
                        node: crate::scheduler::Node { activation: 0, tension: u32::MAX, ..p.node },
                        state: NodeState::Exited,
                        exit_status,
                        ..p
                    },
                )
            } else {
                old(self).graph.procs@
            },
            final(self).current == if old(self).current == idx { NO_CURRENT } else { old(self).current },
    {
        let ghost p0 = self.graph.procs@;
        if idx < self.graph.procs.len() {
            self.graph.procs[idx].node.activation = 0;
            self.graph.procs[idx].node.tension = u32::MAX;
            self.graph.procs[idx].state = NodeState::Exited;
            self.graph.procs[idx].exit_status = exit_status;
            proof {
                assert forall|i: int| 0 <= i < self.graph.procs@.len() implies stack_of(#[trigger] self.graph.procs@[i], i) by {
                    assert(stack_of(p0[i], i));
                }
            }
        }
        if self.current == idx {
            self.current = NO_CURRENT;
        }
        assert(self.graph.procs@ =~= (if idx < p0.len() {
            let p = p0[idx as int];
            p0.update(
                idx as int,
                Process {
                    node: crate::scheduler::Node { activation: 0, tension: u32::MAX, ..p.node },
                    state: NodeState::Exited,
                    exit_status,
                    ..p
                },
            )
        } else {
            p0
        }));
    }
}

/// What a node other than the shell prints on each turn: node 0 its
/// activation, node 1 that it is alive, node 4 that it works, any other
/// node its id.
pub open spec fn node_message_spec(id: u32, activation: u32) -> Seq<u8> {
    if id == 0 {
        "Node 0 stats: act=".spec_bytes() + crate::text::dec_spec(activation as nat) + seq![0x0Du8, 0x0Au8]
    } else if id == 1 {
        "Node 1 alive\r\n".spec_bytes()
    } else if id == 4 {
        "Node 4 working\r\n".spec_bytes()
    } else {
        "Node ".spec_bytes() + crate::text::dec_spec(id as nat) + " tick\r\n".spec_bytes()
    }
}

fn lit_bytes(s: &str) -> (r: Vec<u8>)
    ensures
        r@ == s.spec_bytes(),
{
    let b = s.as_bytes();
    crate::text::copy_range(b, 0, b.len())
}

/// The line a node prints on its turn (see `node_message_spec`).
pub fn node_message(id: u32, activation: u32) -> (r: Vec<u8>)
    ensures
        r@ == node_message_spec(id, activation),
{
    if id == 0 {
        let mut v = lit_bytes("Node 0 stats: act=");
        crate::text::append(&mut v, crate::text::fmt_dec(activation as u64).as_slice());
        v.push(0x0D);
        v.push(0x0A);
        assert(v@ =~= node_message_spec(id, activation));
        v
    } else if id == 1 {
        lit_bytes("Node 1 alive\r\n")
    } else if id == 4 {
        lit_bytes("Node 4 working\r\n")
    } else {
        let mut v = lit_bytes("Node ");
        crate::text::append(&mut v, crate::text::fmt_dec(id as u64).as_slice());
        crate::text::append(&mut v, " tick\r\n".as_bytes());
        v
    }
}

} // verus!
