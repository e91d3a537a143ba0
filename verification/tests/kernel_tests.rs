use tsos_kernel::boot::{boot, framebuffer_usable, BootInfo, SHELL_ACTIVATION};
use tsos_kernel::frame_allocator::MemoryRegion;
use tsos_kernel::kernel::{node_message, validate_buf, Kernel, INIT_FRAME_SIZE, NO_CURRENT};
use tsos_kernel::layout::kernel_stack_top;
use tsos_kernel::paging::PhysMemory;
use tsos_kernel::process::TrapFrame;
use tsos_kernel::scheduler::{NodeState, PARENT_NONE};
use tsos_kernel::syscall::{
    SyscallInput, ERR, SYS_CAT, SYS_CHDIR, SYS_CLEAR, SYS_EXIT, SYS_FORK, SYS_GETCWD, SYS_GETPID, SYS_KILL,
    SYS_LS, SYS_MKDIR, SYS_POLL_KEY, SYS_PS, SYS_READ, SYS_RM, SYS_SHUTDOWN, SYS_SPAWN, SYS_TOUCH, SYS_WAIT,
    SYS_WRITE, SYS_WRITE_F, SYS_YIELD,
};

const BASE: u64 = 0x10_0000;
const FRAMES: usize = 64;
const SHELL_ENTRY: u64 = 0xFFFF_8000_0010_0000;
const NODE_ENTRY: u64 = 0xFFFF_8000_0020_0000;

fn boot_kernel() -> Kernel {
    let regions = [MemoryRegion { base: BASE, length: (FRAMES as u64) * 4096, usable: true }];
    let mem = PhysMemory::new(BASE, FRAMES);
    let info = BootInfo { hhdm_offset: 0, kernel_cr3: 0x5000, shell_entry: SHELL_ENTRY, node_entry: NODE_ENTRY };
    let (k, _frame) = boot(&regions, vec![0u64; 1], mem, vec![0u8; 65536], false, info).expect("boot");
    k
}

fn frame(num: u64, rdi: u64, rsi: u64, rdx: u64, rcx: u64) -> TrapFrame {
    TrapFrame {
        r15: 0,
        r14: 0,
        r13: 0,
        r12: 0,
        r11: 0,
        r10: 0,
        r9: 0,
        r8: 0,
        rbp: 0,
        rdi,
        rsi,
        rdx,
        rcx,
        rbx: 0,
        rax: num,
    }
}

fn input(path: &[u8], data: &[u8]) -> SyscallInput {
    SyscallInput { path: path.to_vec(), data: data.to_vec(), key: None, key_ready: false }
}

/// Runs one call that needs no scheduling; returns (rax, out bytes, console bytes).
fn call(k: &mut Kernel, tf: TrapFrame, inp: SyscallInput) -> (Option<u64>, Vec<u8>, Vec<u8>) {
    let o = k.syscall_handler(&tf, 0x9000, &inp);
    (o.rax, o.out, o.console)
}

#[test]
fn boot_makes_shell_node_zero() {
    let regions = [MemoryRegion { base: BASE, length: (FRAMES as u64) * 4096, usable: true }];
    let mem = PhysMemory::new(BASE, FRAMES);
    let info = BootInfo { hhdm_offset: 0, kernel_cr3: 0x5000, shell_entry: SHELL_ENTRY, node_entry: NODE_ENTRY };
    let (k, f) = boot(&regions, vec![0u64; 1], mem, vec![0u8; 4096], false, info).expect("boot");
    assert_eq!(k.graph.procs.len(), 1);
    let p = &k.graph.procs[0];
    assert_eq!(p.id, 0);
    assert_eq!(p.node.activation, SHELL_ACTIVATION);
    assert_eq!(p.state, NodeState::Ready);
    assert_eq!(p.parent, PARENT_NONE);
    assert_eq!(p.aspace.cr3, 0x5000);
    assert_eq!(k.current, NO_CURRENT);
    assert_eq!(p.kernel_stack_top, kernel_stack_top(0));
    assert_eq!(f.rsp, kernel_stack_top(0) - INIT_FRAME_SIZE);
    assert_eq!(f.words[16], SHELL_ENTRY);
    assert_eq!(f.words[17], 0x08);
    assert_eq!(f.words[18], 0x202);
    assert_eq!(f.words[19], f.rsp);
    assert_eq!(f.words[20], 0x10);
    assert!(f.words[..16].iter().all(|&w| w == 0));
    assert_eq!(k.fs.count_nodes(), 1);
}

#[test]
fn boot_fails_without_usable_memory() {
    let regions = [MemoryRegion { base: BASE, length: 4095, usable: true }];
    let mem = PhysMemory::new(BASE, FRAMES);
    let info = BootInfo { hhdm_offset: 0, kernel_cr3: 0x5000, shell_entry: 1, node_entry: 2 };
    assert!(boot(&regions, vec![0u64; 1], mem, vec![0u8; 64], false, info).is_none());
}

#[test]
fn framebuffer_needs_size_and_depth() {
    assert!(framebuffer_usable(true, 640, 400, 24));
    assert!(!framebuffer_usable(false, 1024, 768, 32));
    assert!(!framebuffer_usable(true, 639, 400, 32));
    assert!(!framebuffer_usable(true, 800, 600, 16));
}

#[test]
fn validate_buf_rejects_null_and_wrap() {
    assert!(validate_buf(0x1000, 16));
    assert!(!validate_buf(0, 16));
    assert!(!validate_buf(u64::MAX, 1));
    assert!(validate_buf(u64::MAX, 0));
}

#[test]
fn write_goes_to_console() {
    let mut k = boot_kernel();
    let (rax, _, console) = call(&mut k, frame(SYS_WRITE, 1, 0x2000, 5, 0), input(b"", b"hello"));
    assert_eq!(rax, Some(5));
    assert_eq!(console, b"hello".to_vec());
    let (rax, _, console) = call(&mut k, frame(SYS_WRITE, 1, 0, 5, 0), input(b"", b"hello"));
    assert_eq!(rax, Some(ERR));
    assert!(console.is_empty());
}

#[test]
fn read_takes_one_key() {
    let mut k = boot_kernel();
    let mut inp = input(b"", b"");
    inp.key = Some(b'x');
    let o = k.syscall_handler(&frame(SYS_READ, 0, 0x3000, 10, 0), 0x9000, &inp);
    assert_eq!(o.rax, Some(1));
    assert_eq!(o.out_addr, 0x3000);
    assert_eq!(o.out, vec![b'x']);
    let o = k.syscall_handler(&frame(SYS_READ, 1, 0x3000, 10, 0), 0x9000, &inp);
    assert_eq!(o.rax, Some(0));
    let o = k.syscall_handler(&frame(SYS_READ, 0, 0x3000, 10, 0), 0x9000, &input(b"", b""));
    assert_eq!(o.rax, Some(0));
}

#[test]
fn file_syscalls_write_then_cat() {
    let mut k = boot_kernel();
    assert_eq!(call(&mut k, frame(SYS_TOUCH, 0x1000, 6, 0, 0), input(b"/notes", b"")).0, Some(1));
    assert_eq!(call(&mut k, frame(SYS_WRITE_F, 0x1000, 6, 0x2000, 2), input(b"/notes", b"hi")).0, Some(1));
    let (rax, out, _) = call(&mut k, frame(SYS_CAT, 0x1000, 6, 0x4000, 512), input(b"/notes", b""));
    assert_eq!(rax, Some(2));
    assert_eq!(out, b"hi".to_vec());
    let (rax, out, _) = call(&mut k, frame(SYS_CAT, 0x1000, 6, 0x4000, 1), input(b"/notes", b""));
    assert_eq!(rax, Some(1));
    assert_eq!(out, b"h".to_vec());
}

#[test]
fn ls_lists_with_crlf_and_cuts() {
    let mut k = boot_kernel();
    assert_eq!(call(&mut k, frame(SYS_MKDIR, 0x1000, 4, 0, 0), input(b"/bin", b"")).0, Some(1));
    assert_eq!(call(&mut k, frame(SYS_TOUCH, 0x1000, 4, 0, 0), input(b"/etc", b"")).0, Some(1));
    let (rax, out, _) = call(&mut k, frame(SYS_LS, 0x1000, 1, 0x4000, 512), input(b"/", b""));
    assert_eq!(out, b"bin\r\netc\r\n".to_vec());
    assert_eq!(rax, Some(10));
    let (rax, out, _) = call(&mut k, frame(SYS_LS, 0x1000, 1, 0x4000, 4), input(b"/", b""));
    assert_eq!(out, b"bin\r".to_vec());
    assert_eq!(rax, Some(4));
    let (rax, out, _) = call(&mut k, frame(SYS_LS, 0x1000, 2, 0x4000, 64), input(&[0xFF, 0xFE], b""));
    assert_eq!(out, b"bin\r\netc\r\n".to_vec());
    assert_eq!(rax, Some(10));
    assert_eq!(call(&mut k, frame(SYS_LS, 0, 1, 0x4000, 64), input(b"/", b"")).0, Some(ERR));
}

#[test]
fn rm_and_mkdir_results() {
    let mut k = boot_kernel();
    assert_eq!(call(&mut k, frame(SYS_RM, 0x1000, 2, 0, 0), input(b"/x", b"")).0, Some(0));
    assert_eq!(call(&mut k, frame(SYS_MKDIR, 0x1000, 2, 0, 0), input(b"/x", b"")).0, Some(1));
    assert_eq!(call(&mut k, frame(SYS_RM, 0x1000, 2, 0, 0), input(b"/x", b"")).0, Some(1));
    assert_eq!(call(&mut k, frame(SYS_MKDIR, 0, 2, 0, 0), input(b"/x", b"")).0, Some(ERR));
}

#[test]
fn ps_shows_table() {
    let mut k = boot_kernel();
    let (rax, out, _) = call(&mut k, frame(SYS_PS, 0x4000, 512, 0, 0), input(b"", b""));
    let expected = b"pid  act  ten  state\r\n0  100  0  R\r\n".to_vec();
    assert_eq!(out, expected);
    assert_eq!(rax, Some(expected.len() as u64));
}

#[test]
fn spawn_adds_ready_process() {
    let mut k = boot_kernel();
    let o = k.syscall_handler(&frame(SYS_SPAWN, 0, 0, 0, 0), 0x9000, &input(b"", b""));
    assert_eq!(o.rax, Some(1));
    assert_eq!(k.graph.procs.len(), 2);
    let p = &k.graph.procs[1];
    assert_eq!(p.id, 1);
    assert_eq!(p.node.activation, 50);
    assert_eq!(p.state, NodeState::Ready);
    assert_eq!(p.parent, PARENT_NONE);
    let f = o.frame.expect("frame");
    assert_eq!(f.words[16], NODE_ENTRY);
    assert_eq!(f.words[17], 0x1b);
    assert_eq!(f.words[20], 0x23);
    assert_eq!(f.rsp, kernel_stack_top(1) - INIT_FRAME_SIZE);
}

#[test]
fn yield_selects_strongest_and_switches() {
    let mut k = boot_kernel();
    let o = k.syscall_handler(&frame(SYS_YIELD, 0, 0, 0, 0), 0x9000, &input(b"", b""));
    let s = o.sched.expect("schedule");
    assert_eq!(s.next, Some(0));
    assert_eq!(k.current, 0);
    assert_eq!(s.rsp, kernel_stack_top(0) - INIT_FRAME_SIZE);
    assert_eq!(s.cr3, Some(0x5000));
    assert_eq!(k.graph.procs[0].state, NodeState::Running);
    let o = k.syscall_handler(&frame(SYS_YIELD, 0, 0, 0, 0), 0x7777, &input(b"", b""));
    let s = o.sched.expect("schedule");
    assert_eq!(s.next, Some(0));
    assert_eq!(s.rsp, 0);
    assert_eq!(s.cr3, None);
    assert_eq!(k.graph.procs[0].saved_rsp, 0x7777);
}

#[test]
fn getpid_and_cwd_calls() {
    let mut k = boot_kernel();
    assert_eq!(call(&mut k, frame(SYS_GETPID, 0, 0, 0, 0), input(b"", b"")).0, Some(ERR));
    k.syscall_handler(&frame(SYS_YIELD, 0, 0, 0, 0), 0x9000, &input(b"", b""));
    assert_eq!(call(&mut k, frame(SYS_GETPID, 0, 0, 0, 0), input(b"", b"")).0, Some(0));
    let (rax, out, _) = call(&mut k, frame(SYS_GETCWD, 0x5000, 64, 0, 0), input(b"", b""));
    assert_eq!(rax, Some(1));
    assert_eq!(out, vec![b'/', 0]);
    assert_eq!(call(&mut k, frame(SYS_MKDIR, 0x1000, 4, 0, 0), input(b"/tmp", b"")).0, Some(1));
    assert_eq!(call(&mut k, frame(SYS_CHDIR, 0x1000, 4, 0, 0), input(b"/tmp", b"")).0, Some(1));
    let (rax, out, _) = call(&mut k, frame(SYS_GETCWD, 0x5000, 64, 0, 0), input(b"", b""));
    assert_eq!(rax, Some(4));
    assert_eq!(out, b"/tmp\0".to_vec());
    let (rax, out, _) = call(&mut k, frame(SYS_GETCWD, 0x5000, 3, 0, 0), input(b"", b""));
    assert_eq!(rax, Some(2));
    assert_eq!(out, b"/t\0".to_vec());
    assert_eq!(call(&mut k, frame(SYS_CHDIR, 0x1000, 4, 0, 0), input(b"/nope", b"")).0, Some(0));
    assert_eq!(call(&mut k, frame(SYS_CHDIR, 0x1000, 4, 0, 0), input(&[0xFF], b"")).0, Some(1));
    let (_, out, _) = call(&mut k, frame(SYS_GETCWD, 0x5000, 64, 0, 0), input(b"", b""));
    assert_eq!(out, vec![b'/', 0]);
}

#[test]
fn exit_wakes_waiting_parent() {
    let mut k = boot_kernel();
    k.syscall_handler(&frame(SYS_YIELD, 0, 0, 0, 0), 0x9000, &input(b"", b""));
    assert_eq!(k.current, 0);
    let o = k.syscall_handler(&frame(SYS_SPAWN, 0, 0, 0, 0), 0x9000, &input(b"", b""));
    assert_eq!(o.rax, Some(1));
    assert_eq!(k.graph.procs[1].parent, 0);
    let o = k.syscall_handler(&frame(SYS_WAIT, 0, 0, 0, 0), 0xA000, &input(b"", b""));
    assert!(o.sched.is_some());
    assert_eq!(k.graph.procs[0].state, NodeState::Waiting);
    assert_eq!(k.graph.procs[0].saved_rsp, 0xA000);
    assert_eq!(k.current, 1);
    let o = k.syscall_handler(&frame(SYS_EXIT, 7, 0, 0, 0), 0xB000, &input(b"", b""));
    assert_eq!(o.parent_rax, Some((0xA000, (1 << 8) | 7)));
    assert_eq!(k.graph.procs[1].state, NodeState::Exited);
    assert_eq!(k.graph.procs[1].exit_status, 7);
    assert_eq!(k.graph.procs[0].state, NodeState::Running);
    assert_eq!(k.current, 0);
    let o = k.syscall_handler(&frame(SYS_WAIT, 0, 0, 0, 0), 0xA000, &input(b"", b""));
    assert_eq!(o.rax, Some((1 << 8) | 7));
    assert_eq!(k.graph.procs[1].parent, PARENT_NONE);
}

#[test]
fn kill_ends_process_with_137() {
    let mut k = boot_kernel();
    k.syscall_handler(&frame(SYS_SPAWN, 0, 0, 0, 0), 0x9000, &input(b"", b""));
    assert_eq!(call(&mut k, frame(SYS_KILL, 1, 15, 0, 0), input(b"", b"")).0, Some(ERR));
    assert_eq!(call(&mut k, frame(SYS_KILL, 9, 9, 0, 0), input(b"", b"")).0, Some(ERR));
    assert_eq!(call(&mut k, frame(SYS_KILL, 1, 9, 0, 0), input(b"", b"")).0, Some(0));
    assert_eq!(k.graph.procs[1].state, NodeState::Exited);
    assert_eq!(k.graph.procs[1].exit_status, 137);
}

#[test]
fn small_calls() {
    let mut k = boot_kernel();
    let o = k.syscall_handler(&frame(SYS_CLEAR, 0, 0, 0, 0), 0x9000, &input(b"", b""));
    assert!(o.clear_screen);
    assert_eq!(o.rax, None);
    let mut inp = input(b"", b"");
    inp.key_ready = true;
    assert_eq!(k.syscall_handler(&frame(SYS_POLL_KEY, 0, 0, 0, 0), 0x9000, &inp).rax, Some(1));
    assert_eq!(k.syscall_handler(&frame(SYS_POLL_KEY, 0, 0, 0, 0), 0x9000, &input(b"", b"")).rax, Some(0));
    assert_eq!(call(&mut k, frame(SYS_FORK, 0, 0, 0, 0), input(b"", b"")).0, Some(ERR));
    assert_eq!(call(&mut k, frame(99, 0, 0, 0, 0), input(b"", b"")).0, Some(ERR));
}

#[test]
fn shutdown_checkpoints_and_halts() {
    let mut k = boot_kernel();
    let o = k.syscall_handler(&frame(SYS_SHUTDOWN, 0, 0, 0, 0), 0x9000, &input(b"", b""));
    assert!(o.halt);
    assert_eq!(o.console, b"Checkpoint saved. Halting.\r\n".to_vec());
    assert!(tsos_kernel::persist::validate_current_checkpoint(&k.region));
    assert_eq!(tsos_kernel::persist::restore_graph(&k.region, 64)[0], 1);
}

#[test]
fn input_plan_names_user_bytes() {
    let k = boot_kernel();
    let p = k.input_plan(&frame(SYS_WRITE_F, 0x1000, 100, 0x2000, 300));
    assert_eq!(p.path, Some((0x1000, 63)));
    assert_eq!(p.data, Some((0x2000, 256)));
    let p = k.input_plan(&frame(SYS_WRITE, 1, 0x2000, 5, 0));
    assert_eq!(p.data, Some((0x2000, 5)));
    let p = k.input_plan(&frame(SYS_CHDIR, 0x1000, 4, 0, 0));
    assert_eq!(p.path, None);
    assert!(k.input_plan(&frame(SYS_POLL_KEY, 0, 0, 0, 0)).poll_key);
    assert!(k.input_plan(&frame(SYS_READ, 0, 0x2000, 1, 0)).read_key);
}

#[test]
fn timer_adds_tension_and_emerges_node() {
    let mut k = boot_kernel();
    k.syscall_handler(&frame(SYS_YIELD, 0, 0, 0, 0), 0x9000, &input(b"", b""));
    for _ in 0..30 {
        let o = k.timer_tick(0xC000);
        assert!(o.frame.is_none());
    }
    assert_eq!(k.graph.procs[0].node.tension, 30);
    assert_eq!(k.graph.procs[0].saved_rsp, 0xC000);
    let o = k.timer_tick(0xC000);
    assert!(o.frame.is_some());
    assert_eq!(k.graph.procs.len(), 2);
    assert_eq!(k.graph.procs[1].parent, 0);
    assert_eq!(k.graph.procs[1].node.activation, 48);
    assert_eq!(k.graph.procs[0].node.tension, 31);
    assert_eq!(o.next, Some(0));
    assert_eq!(k.tick_count, 31);
}

#[test]
fn timer_reports_status_every_ten_ticks() {
    let mut k = boot_kernel();
    for i in 1..=10u32 {
        let o = k.timer_tick(0xC000);
        if i < 10 {
            assert_eq!(o.status, None);
        } else {
            assert_eq!(o.status, Some((1, 100, 9)));
        }
        if i == 1 {
            assert_eq!(o.next, Some(0));
            assert_eq!(o.switch, Some(kernel_stack_top(0) - 40));
            assert_eq!(k.kernel_rsp, 0xC000);
        }
    }
}

#[test]
fn page_fault_outside_vma_prunes_process() {
    let mut k = boot_kernel();
    k.syscall_handler(&frame(SYS_YIELD, 0, 0, 0, 0), 0x9000, &input(b"", b""));
    let o = k.page_fault(0x40_0000, Some(BASE));
    assert_eq!(o.mapped, None);
    assert_eq!(o.serial, b"SEGV @ 0x400000\r\n".to_vec());
    assert_eq!(
        o.console,
        "Segmentation fault \u{2014} node pruned due to invalid VA access\r\n".as_bytes().to_vec()
    );
    assert_eq!(k.graph.procs[0].state, NodeState::Exited);
    assert_eq!(k.graph.procs[0].exit_status, 139);
    assert_eq!(k.graph.procs[0].node.activation, 0);
    assert_eq!(k.current, NO_CURRENT);
    let o = k.page_fault(0xFFFF_8000_0000_0000, None);
    assert_eq!(o.serial, b"SEGV @ 0xFFFF800000000000\r\n".to_vec());
}

#[test]
fn prune_and_current_helpers() {
    let mut k = boot_kernel();
    assert_eq!(k.current_idx(), None);
    k.set_current_idx(Some(0));
    assert_eq!(k.current_idx(), Some(0));
    assert!(k.current_process_mut().is_some());
    k.prune_process(0, 3);
    assert_eq!(k.current_idx(), None);
    assert_eq!(k.graph.procs[0].node.tension, u32::MAX);
    assert_eq!(k.graph.procs[0].exit_status, 3);
}

#[test]
fn node_messages() {
    assert_eq!(node_message(0, 42), b"Node 0 stats: act=42\r\n".to_vec());
    assert_eq!(node_message(1, 0), b"Node 1 alive\r\n".to_vec());
    assert_eq!(node_message(4, 0), b"Node 4 working\r\n".to_vec());
    assert_eq!(node_message(7, 0), b"Node 7 tick\r\n".to_vec());
}

#[test]
fn restore_on_boot_brings_files_back() {
    let mut k = boot_kernel();
    assert_eq!(call(&mut k, frame(SYS_TOUCH, 0x1000, 2, 0, 0), input(b"/k", b"")).0, Some(1));
    assert_eq!(call(&mut k, frame(SYS_WRITE_F, 0x1000, 2, 0x2000, 3), input(b"/k", b"abc")).0, Some(1));
    assert!(k.do_checkpoint());
    let region = k.region.clone();
    let regions = [MemoryRegion { base: BASE, length: (FRAMES as u64) * 4096, usable: true }];
    let info = BootInfo { hhdm_offset: 0, kernel_cr3: 0x5000, shell_entry: 1, node_entry: 2 };
    let (k2, _) = boot(&regions, vec![0u64; 1], PhysMemory::new(BASE, FRAMES), region, true, info).expect("boot");
    assert_eq!(k2.fs.read_file(b"/k"), Some(b"abc".to_vec()));
}

#[test]
fn refused_calls_change_nothing() {
    let mut k = boot_kernel();
    assert_eq!(call(&mut k, frame(SYS_TOUCH, 0x1000, 2, 0, 0), input(b"/a", b"")).0, Some(1));
    let ps_before = call(&mut k, frame(SYS_PS, 0x2000, 256, 0, 0), input(b"", b"")).1;
    let ls_before = call(&mut k, frame(SYS_LS, 0x1000, 1, 0x2000, 256), input(b"/", b"")).1;
    let refused = [
        frame(SYS_WRITE, 1, 0, 5, 0),
        frame(SYS_TOUCH, 0, 2, 0, 0),
        frame(SYS_WRITE_F, 0x1000, 2, u64::MAX, 5),
        frame(SYS_KILL, 42, 9, 0, 0),
        frame(SYS_KILL, 0, 15, 0, 0),
        frame(SYS_WAIT, 0, 0, 0, 0),
        frame(SYS_GETPID, 0, 0, 0, 0),
        frame(SYS_FORK, 0, 0, 0, 0),
    ];
    for tf in refused.iter() {
        let o = k.syscall_handler(tf, 0x9000, &input(b"/a", b"data"));
        assert_eq!(o.rax, Some(ERR));
        assert!(o.out.is_empty() && o.console.is_empty() && o.sched.is_none() && o.frame.is_none());
    }
    assert_eq!(call(&mut k, frame(SYS_PS, 0x2000, 256, 0, 0), input(b"", b"")).1, ps_before);
    assert_eq!(call(&mut k, frame(SYS_LS, 0x1000, 1, 0x2000, 256), input(b"/", b"")).1, ls_before);
    assert_eq!(k.fs.read_file(b"/a"), Some(vec![]));
}
