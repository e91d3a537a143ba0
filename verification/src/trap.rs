//! The timer tick and the page-fault decision.
use vstd::prelude::*;
use vstd::string::StringSliceAdditionalSpecFns;

use crate::address_space::first_covering;
use crate::kernel::{
    frame_for, opt_int, parent_of_new, round_from, scheduled_from, should_emerge, stack_of, InitFrame,
    Kernel, Schedule, IRET_FRAME_SIZE, NO_CURRENT,
};
use crate::paging::{frame_free, frame_taken, leaf, leaf_flags, map_page, missing_tables, on_path, path_ok};
use crate::frame_allocator::free_count;
use crate::process::Process;
use crate::scheduler::{Node, NodeState};
use crate::syscall::{checkpointed, fs_part, graph_summary, opt_current};
use crate::text::{append, fmt_hex, hex_spec};

verus! {

/// A checkpoint is taken every this many ticks.
pub const CHECKPOINT_INTERVAL: u32 = 3000;
/// The status bar is refreshed every this many ticks.
pub const STATUS_INTERVAL: u32 = 10;
/// Exit status of a process pruned for a bad access (128 + SIGSEGV).
pub const SEGV_STATUS: u8 = 139;
/// Lowest address a user page fault may be served for.
pub const USER_FAULT_LOW: u64 = 0x1000;
/// One past the highest canonical lower-half address.
pub const LOWER_HALF_END: u64 = 0x8000_0000_0000;

/// What a timer tick asks of the interrupt glue.
#[derive(Debug, PartialEq, Eq)]
pub struct TickOutcome {
    /// A checkpoint was written to the persistence region.
    pub checkpoint: bool,
    /// New status-bar values: process count, and the activation and tension
    /// of the selected process.
    pub status: Option<(u64, u32, u32)>,
    /// The process selected in this round.
    pub next: Option<usize>,
    /// Resume the selected process on this stack (its interrupt stack slot
    /// is `next`); `None` returns to the interrupted code.
    pub switch: Option<u64>,
    /// The page table to load, if it changes.
    pub cr3: Option<u64>,
    /// The initial frame of a node that emerged in this round.
    pub frame: Option<InitFrame>,
}

/// What a page fault asks of the interrupt glue.
#[derive(Debug, PartialEq, Eq)]
pub struct FaultOutcome {
    /// The page was mapped (`Some(true)`), or mapping it failed
    /// (`Some(false)`); `None` when the access was refused.
    pub mapped: Option<bool>,
    /// Message for the screen and the serial line.
    pub console: Vec<u8>,
    /// Message for the serial line only.
    pub serial: Vec<u8>,
    /// The scheduling round run after the faulting process was pruned.
    pub sched: Option<Schedule>,
}

pub open spec fn next_tick(t: u32) -> u32 {
    if t == u32::MAX {
        0
    } else {
        (t + 1) as u32
    }
}

pub open spec fn sat_inc(t: u32) -> u32 {
    if t == u32::MAX {
        t
    } else {
        (t + 1) as u32
    }
}

/// The process table after the tick saved the running process's frame and
/// added one to its tension.
pub open spec fn tick_saved(procs: Seq<Process>, cur: usize, frame_addr: u64) -> Seq<Process> {
    if cur != NO_CURRENT {
        let p = procs[cur as int];
        procs.update(
            cur as int,
            Process { saved_rsp: frame_addr, node: Node { tension: sat_inc(p.node.tension), ..p.node }, ..p },
        )
    } else {
        procs
    }
}

/// The stack the timer resumes a process on: its saved frame, or the
/// interrupt return frame at the top of its initial frame.
pub open spec fn timer_rsp(p: Process) -> u64 {
    if p.saved_rsp != 0 {
        p.saved_rsp
    } else {
        (p.kernel_stack_top - IRET_FRAME_SIZE) as u64
    }
}

/// What a timer tick does: count the tick, checkpoint every 3000 ticks,
/// save the interrupted frame (adding tension to the running process),
/// run a scheduling round, refresh the status bar every 10 ticks, and
/// switch to the selected process if it is not the one interrupted.
pub open spec fn tick_post(k0: Kernel, k1: Kernel, frame_addr: u64, r: TickOutcome) -> bool {
    let t = next_tick(k0.tick_count);
    let p0 = tick_saved(k0.graph.procs@, k0.current, frame_addr);
    let p1 = k1.graph.procs@;
    &&& k1.tick_count == t
    &&& r.checkpoint == (t % CHECKPOINT_INTERVAL == 0 && t > 0)
    &&& if r.checkpoint {
        checkpointed(
            k0.region@,
            k1.region@,
            graph_summary(k0.graph.procs@.len()),
            fs_part(k0.fs.nodes(), k0.fs.count()),
        )
    } else {
        k1.region@ == k0.region@
    }
    &&& k1.fs == k0.fs
    &&& k1.kernel_cr3 == k0.kernel_cr3
    &&& k1.hhdm_offset == k0.hhdm_offset
    &&& k1.node_entry == k0.node_entry
    &&& k1.kernel_rsp == if k0.current == NO_CURRENT { frame_addr } else { k0.kernel_rsp }
    &&& round_from(p0, p1, opt_int(r.next), parent_of_new(k0.current), k0.hhdm_offset, k0.kernel_cr3)
    &&& r.frame is Some == should_emerge(p0)
    &&& (r.frame matches Some(f) ==> frame_for(f, p1[p0.len() as int], k0.node_entry))
    &&& r.status == if t % STATUS_INTERVAL == 0 {
        Some(
            match r.next {
                Some(n) => (p1.len() as u64, p1[n as int].node.activation, p1[n as int].node.tension),
                None => (p1.len() as u64, 0u32, 0u32),
            },
        )
    } else {
        None
    }
    &&& match r.next {
        Some(n) => if opt_current(k0.current) == Some(n) {
            &&& k1.current == k0.current
            &&& k1.active_cr3 == k0.active_cr3
            &&& r.switch is None
            &&& r.cr3 is None
        } else {
            &&& k1.current == n
            &&& k1.active_cr3 == p1[n as int].aspace.cr3
            &&& r.cr3 == Some(p1[n as int].aspace.cr3)
            &&& r.switch == Some(timer_rsp(p1[n as int]))
        },
        None => {
            &&& k1.current == k0.current
            &&& k1.active_cr3 == k0.kernel_cr3
            &&& r.switch is None
            &&& r.cr3 == Some(k0.kernel_cr3)
        },
    }
}

/// A fault at `addr` may be served: a canonical lower-half address above
/// the null guard page.
pub open spec fn fault_addr_ok(addr: u64) -> bool {
    USER_FAULT_LOW <= addr < LOWER_HALF_END
}

/// The process table after the running process was pruned for a bad access.
pub open spec fn pruned(procs: Seq<Process>, cur: usize) -> Seq<Process> {
    if cur != NO_CURRENT {
        let p = procs[cur as int];
        procs.update(
            cur as int,
            Process { node: Node { activation: 0, ..p.node }, state: NodeState::Exited, exit_status: SEGV_STATUS, ..p },
        )
    } else {
        procs
    }
}

/// The serial report of a refused access.
pub open spec fn segv_serial(addr: u64) -> Seq<u8> {
    "SEGV @ 0x".spec_bytes() + hex_spec(addr as nat) + seq![0x0Du8, 0x0Au8]
}

/// What a page fault at `addr` does. A fault in the lower half above the
/// null page, while a process runs, inside one of its VMAs, with a backing
/// frame at hand, maps that frame at the page (user, writable as the VMA
/// says); the mapping succeeds exactly when the free frames cover the page
/// tables the walk lacks, and otherwise leaves no frame free. Any other fault prunes the running process (activation 0,
/// exited with status 139), reports it, and runs a scheduling round with no
/// process current.
pub open spec fn fault_post(k0: Kernel, k1: Kernel, addr: u64, backing: Option<u64>, r: FaultOutcome) -> bool {
    let cur = k0.current;
    let served = fault_addr_ok(addr) && cur != NO_CURRENT && first_covering(
        k0.graph.procs@[cur as int].aspace.vmas@,
        addr,
    ) is Some && backing is Some;
    if served {
        let p = k0.graph.procs@[cur as int];
        let vma = p.aspace.vmas@[first_covering(p.aspace.vmas@, addr)->0];
        let page = addr & !0xFFFu64;
        let cr3 = p.aspace.cr3;
        &&& k1 == Kernel { mem: k1.mem, frames: k1.frames, ..k0 }
        &&& r.mapped == Some(missing_tables(&k0.mem, cr3, page) <= free_count(k0.frames.used()))
        &&& free_count(k1.frames.used()) == if r.mapped == Some(true) {
            free_count(k0.frames.used()) - missing_tables(&k0.mem, cr3, page)
        } else {
            0
        }
        &&& r.mapped == Some(false) ==> forall|k: int|
            0 <= k < k1.frames.spec_frames() ==> #[trigger] k1.frames.used()[k]
        &&& r.console@ == Seq::<u8>::empty()
        &&& r.serial@ == Seq::<u8>::empty()
        &&& r.sched is None
        &&& (path_ok(&k0.mem, &k0.frames, cr3, page) && r.mapped == Some(true) ==> {
            &&& leaf(&k1.mem, cr3, page) == Some((backing->0 & !0xFFFu64) | leaf_flags(vma.write, true, true))
            &&& forall|x: int, j: int|
                k0.mem.frame_in(x) && 0 <= j < 512 && !frame_free(&k0.frames, x) && !on_path(&k1.mem, cr3, page, x, j)
                    ==> #[trigger] k1.mem.entry(x, j) == k0.mem.entry(x, j)
            &&& forall|x: int, j: int|
                frame_taken(&k0.frames, &k1.frames, x) && 0 <= j < 512 && !on_path(&k1.mem, cr3, page, x, j)
                    ==> #[trigger] k1.mem.entry(x, j) == 0
        })
    } else {
        &&& r.mapped is None
        &&& r.console@ == "Segmentation fault \u{2014} node pruned due to invalid VA access\r\n".spec_bytes()
        &&& r.serial@ == segv_serial(addr)
        &&& r.sched matches Some(s) && scheduled_from(
            pruned(k0.graph.procs@, cur),
            NO_CURRENT,
            k0,
            k1,
            None,
            s,
        )
    }
}

fn bytes_of(s: &str) -> (r: Vec<u8>)
    ensures
        r@ == s.spec_bytes(),
{
    let b = s.as_bytes();
    crate::text::copy_range(b, 0, b.len())
}

impl Kernel {
    /// Handles a timer interrupt whose frame was saved at `frame_addr` (see `tick_post`).
    pub fn timer_tick(&mut self, frame_addr: u64) -> (r: TickOutcome)
        requires
            old(self).wf(),
        ensures
            final(self).wf(),
            tick_post(*old(self), *final(self), frame_addr, r),
    {
        self.tick_count = self.tick_count.wrapping_add(1);
        let t = self.tick_count;
        let checkpoint = t % CHECKPOINT_INTERVAL == 0 && t > 0;
        if checkpoint {
            self.do_checkpoint();
        }
        let ghost mid = *self;
        let cur = self.current;
        if cur != NO_CURRENT {
            self.graph.procs[cur].saved_rsp = frame_addr;
            let ten = self.graph.procs[cur].node.tension;
            self.graph.procs[cur].node.tension = ten.saturating_add(1);
        } else {
            self.kernel_rsp = frame_addr;
        }
        proof {
            assert(self.graph.procs@ =~= tick_saved(old(self).graph.procs@, old(self).current, frame_addr));
            assert forall|i: int| 0 <= i < self.graph.procs@.len() implies stack_of(#[trigger] self.graph.procs@[i], i) by {
                assert(stack_of(mid.graph.procs@[i], i));
            }
        }
        let (ns, frame) = self.schedule_round();
        let status = if t % STATUS_INTERVAL == 0 {
            match ns {
                Some(n) => Some((self.graph.count() as u64, self.graph.procs[n].node.activation, self.graph.procs[n].node.tension)),
                None => Some((self.graph.count() as u64, 0u32, 0u32)),
            }
        } else {
            None
        };
        match ns {
            Some(n) => {
                let same = cur != NO_CURRENT && cur == n;
                if !same {
                    self.current = n;
                    let cr3 = self.graph.procs[n].aspace.cr3;
                    self.active_cr3 = cr3;
                    let rsp = if self.graph.procs[n].saved_rsp != 0 {
                        self.graph.procs[n].saved_rsp
                    } else {
                        assert(stack_of(self.graph.procs@[n as int], n as int));
                        self.graph.procs[n].kernel_stack_top - IRET_FRAME_SIZE
                    };
                    TickOutcome { checkpoint, status, next: ns, switch: Some(rsp), cr3: Some(cr3), frame }
                } else {
                    TickOutcome { checkpoint, status, next: ns, switch: None, cr3: None, frame }
                }
            },
            None => {
                let k = self.kernel_cr3;
                self.active_cr3 = k;
                TickOutcome { checkpoint, status, next: ns, switch: None, cr3: Some(k), frame }
            },
        }
    }

    /// Handles a page fault at `addr`; `backing` is the physical address of
    /// a zeroed page set aside for it, if one could be had (see `fault_post`).
    pub fn page_fault(&mut self, addr: u64, backing: Option<u64>) -> (r: FaultOutcome)
        requires
            old(self).wf(),
        ensures
            final(self).wf(),
            fault_post(*old(self), *final(self), addr, backing, r),
    {
        let canonical = (addr >> 48u64) == 0 && (addr >> 47u64) & 1 == 0;
        let in_user = addr >= 0x1000 && addr <= 0x0000_7FFF_FFFF_FFFFu64;
        assert((((addr >> 48u64) == 0 && (addr >> 47u64) & 1 == 0) && (addr >= 0x1000 && addr <= 0x0000_7FFF_FFFF_FFFFu64))
            <==> (0x1000 <= addr && addr < 0x8000_0000_0000u64)) by (bit_vector);
        let cur = self.current;
        if canonical && in_user && cur != NO_CURRENT {
            let found = match self.graph.procs[cur].aspace.covers(addr) {
                Some(v) => Some(v.write),
                None => None,
            };
            if let (Some(writable), Some(phys)) = (found, backing) {
                let page = addr & !0xFFFu64;
                let cr3 = self.graph.procs[cur].aspace.cr3;
                let ok = map_page(&mut self.mem, &mut self.frames, cr3, page, phys, writable, true);
                return FaultOutcome { mapped: Some(ok), console: Vec::new(), serial: Vec::new(), sched: None };
            }
        }
        self.prune_current_on_segv(addr)
    }

    /// Reports a refused access, prunes the running process and reschedules.
    fn prune_current_on_segv(&mut self, addr: u64) -> (r: FaultOutcome)
        requires
            old(self).wf(),
        ensures
            final(self).wf(),
            r.mapped is None,
            r.console@ == "Segmentation fault \u{2014} node pruned due to invalid VA access\r\n".spec_bytes(),
            r.serial@ == segv_serial(addr),
            r.sched matches Some(s) && scheduled_from(pruned(old(self).graph.procs@, old(self).current), NO_CURRENT, *old(self), *final(self), None, s),
    {
        let console = bytes_of("Segmentation fault \u{2014} node pruned due to invalid VA access\r\n");
        let mut serial = bytes_of("SEGV @ 0x");
        append(&mut serial, fmt_hex(addr).as_slice());
        let crlf = [0x0Du8, 0x0Au8];
        append(&mut serial, crlf.as_slice());
        assert(serial@ =~= segv_serial(addr));
        let cur = self.current;
        let ghost p = self.graph.procs@;
        if cur != NO_CURRENT {
            self.graph.procs[cur].node.activation = 0;
            self.graph.procs[cur].state = NodeState::Exited;
            self.graph.procs[cur].exit_status = SEGV_STATUS;
            self.current = NO_CURRENT;
        }
        proof {
            assert(self.graph.procs@ =~= pruned(p, cur));
            assert forall|i: int| 0 <= i < self.graph.procs@.len() implies stack_of(#[trigger] self.graph.procs@[i], i) by {
                assert(stack_of(p[i], i));
            }
        }
        let s = self.do_schedule(None);
        FaultOutcome { mapped: None, console, serial, sched: Some(s) }
    }
}

} // verus!
