//! The process model: a scheduling node plus the resources a process owns
//! (its address space, saved registers and working directory).
use vstd::prelude::*;

use crate::address_space::AddressSpace;
use crate::scheduler::{Node, NodeState, CWD_MAX, PARENT_NONE};

verus! {

/// Saved register state for a process.
///
/// The field order matches the register save area that the system-call entry
/// stub builds: it pushes `rax` first and `r15` last, so the save area starts
/// with `r15` and ends with `rax`. The trailing `rip/cs/rflags/rsp/ss` slots
/// hold the interrupt return frame.
#[derive(Clone, Copy, Debug)]
pub struct ProcessContext {
    pub r15: u64,
    pub r14: u64,
    pub r13: u64,
    pub r12: u64,
    pub r11: u64,
    pub r10: u64,
    pub r9: u64,
    pub r8: u64,
    pub rbp: u64,
    pub rdi: u64,
    pub rsi: u64,
    pub rdx: u64,
    pub rcx: u64,
    pub rbx: u64,
    pub rax: u64,
    pub rip: u64,
    pub cs: u64,
    pub rflags: u64,
    pub rsp: u64,
    pub ss: u64,
}

/// The register save area handed to the system-call handler (it starts at `r15`).
#[derive(Clone, Copy, Debug)]
pub struct TrapFrame {
    pub r15: u64,
    pub r14: u64,
    pub r13: u64,
    pub r12: u64,
    pub r11: u64,
    pub r10: u64,
    pub r9: u64,
    pub r8: u64,
    pub rbp: u64,
    pub rdi: u64,
    pub rsi: u64,
    pub rdx: u64,
    pub rcx: u64,
    pub rbx: u64,
    pub rax: u64,
}

/// The general registers of a context and of a trap frame agree.
pub open spec fn same_registers(c: ProcessContext, tf: TrapFrame) -> bool {
    &&& c.r15 == tf.r15
    &&& c.r14 == tf.r14
    &&& c.r13 == tf.r13
    &&& c.r12 == tf.r12
    &&& c.r11 == tf.r11
    &&& c.r10 == tf.r10
    &&& c.r9 == tf.r9
    &&& c.r8 == tf.r8
    &&& c.rbp == tf.rbp
    &&& c.rdi == tf.rdi
    &&& c.rsi == tf.rsi
    &&& c.rdx == tf.rdx
    &&& c.rcx == tf.rcx
    &&& c.rbx == tf.rbx
    &&& c.rax == tf.rax
}

/// Saving a trap frame into a context and writing that context back gives
/// the same frame: every saved register comes back unchanged.
pub proof fn law_context_roundtrip(before: TrapFrame, c: ProcessContext, after: TrapFrame)
    requires
        same_registers(c, before),
        same_registers(c, after),
    ensures
        after == before,
{
}

/// The interrupt return slots of a context are all zero.
pub open spec fn iret_slots_zero(c: ProcessContext) -> bool {
    c.rip == 0 && c.cs == 0 && c.rflags == 0 && c.rsp == 0 && c.ss == 0
}

impl ProcessContext {
    pub fn zero() -> (r: Self)
        ensures
            same_registers(r, TrapFrame::spec_zero()),
            iret_slots_zero(r),
    {
        Self {
            r15: 0,
            r14: 0,
            r13: 0,
            r12: 0,
            r11: 0,
            r10: 0,
            r9: 0,
            r8: 0,
            rbp: 0,
            rdi: 0,
            rsi: 0,
            rdx: 0,
            rcx: 0,
            rbx: 0,
            rax: 0,
            rip: 0,
            cs: 0,
            rflags: 0,
            rsp: 0,
            ss: 0,
        }
    }

    /// Captures the general registers of a trap frame; the return frame slots are zero.
    pub fn from_trap_frame(tf: &TrapFrame) -> (r: Self)
        ensures
            same_registers(r, *tf),
            iret_slots_zero(r),
    {
        Self {
            r15: tf.r15,
            r14: tf.r14,
            r13: tf.r13,
            r12: tf.r12,
            r11: tf.r11,
            r10: tf.r10,
            r9: tf.r9,
            r8: tf.r8,
            rbp: tf.rbp,
            rdi: tf.rdi,
            rsi: tf.rsi,
            rdx: tf.rdx,
            rcx: tf.rcx,
            rbx: tf.rbx,
            rax: tf.rax,
            rip: 0,
            cs: 0,
            rflags: 0,
            rsp: 0,
            ss: 0,
        }
    }

    /// Stores the general registers of this context into a trap frame.
    pub fn write_to_trap_frame(&self, tf: &mut TrapFrame)
        ensures
            same_registers(*self, *final(tf)),
    {
        tf.r15 = self.r15;
        tf.r14 = self.r14;
        tf.r13 = self.r13;
        tf.r12 = self.r12;
        tf.r11 = self.r11;
        tf.r10 = self.r10;
        tf.r9 = self.r9;
        tf.r8 = self.r8;
        tf.rbp = self.rbp;
        tf.rdi = self.rdi;
        tf.rsi = self.rsi;
        tf.rdx = self.rdx;
        tf.rcx = self.rcx;
        tf.rbx = self.rbx;
        tf.rax = self.rax;
    }
}

impl TrapFrame {
    pub open spec fn spec_zero() -> TrapFrame {
        TrapFrame {
            r15: 0,
            r14: 0,
            r13: 0,
            r12: 0,
            r11: 0,
            r10: 0,
            r9: 0,
            r8: 0,
            rbp: 0,
            rdi: 0,
            rsi: 0,
            rdx: 0,
            rcx: 0,
            rbx: 0,
            rax: 0,
        }
    }

    /// The system-call number travels in `rax`.
    pub fn syscall_number(&self) -> (r: u64)
        ensures
            r == self.rax,
    {
        self.rax
    }
}

pub struct Process {
    pub id: u32,
    pub node: Node,
    pub state: NodeState,
    pub aspace: AddressSpace,
    pub context: ProcessContext,
    pub kernel_stack_base: u64,
    pub kernel_stack_top: u64,
    pub parent: usize,
    pub exit_status: u8,
    pub cwd: [u8; CWD_MAX],
    /// Pointer to the saved trap / system-call frame of the process.
    pub saved_rsp: u64,
    pub saved_rip: u64,
}

/// The working directory of a fresh process: "/" followed by zero bytes.
pub open spec fn root_cwd() -> Seq<u8> {
    Seq::new(CWD_MAX as nat, |i: int| if i == 0 { 0x2Fu8 } else { 0u8 })
}

impl Process {
    /// A fresh process: ready, fresh node, no VMAs, no parent, cwd "/".
    pub open spec fn is_fresh(self, id: u32, cr3: u64) -> bool {
        &&& self.id == id
        &&& self.node == Node::fresh()
        &&& self.state == NodeState::Ready
        &&& self.aspace.cr3 == cr3
        &&& self.aspace.vmas@.len() == 0
        &&& same_registers(self.context, TrapFrame::spec_zero())
        &&& iret_slots_zero(self.context)
        &&& self.kernel_stack_base == 0
        &&& self.kernel_stack_top == 0
        &&& self.parent == PARENT_NONE
        &&& self.exit_status == 0
        &&& self.cwd@ == root_cwd()
        &&& self.saved_rsp == 0
        &&& self.saved_rip == 0
    }

    pub fn new(id: u32, cr3: u64) -> (r: Self)
        ensures
            r.is_fresh(id, cr3),
    {
        let mut cwd = [0u8; CWD_MAX];
        cwd[0] = 0x2Fu8;
        let r = Self {
            id,
            node: Node::new(),
            state: NodeState::Ready,
            aspace: AddressSpace::new(cr3),
            context: ProcessContext::zero(),
            kernel_stack_base: 0,
            kernel_stack_top: 0,
            parent: PARENT_NONE,
            exit_status: 0,
            cwd,
            saved_rsp: 0,
            saved_rip: 0,
        };
        assert(r.cwd@ =~= root_cwd());
        r
    }

    pub fn empty() -> (r: Self)
        ensures
            r.is_fresh(0, 0),
    {
        Self::new(0, 0)
    }
}

} // verus!
