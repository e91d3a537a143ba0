//! Verified core of a small x86_64 kernel: physical frame allocation,
//! four-level paging over a model of physical memory, the activation /
//! tension process graph that drives scheduling, an in-RAM filesystem with
//! checkpoints, ELF loading, and the decisions of the system calls, the
//! interrupt handlers, the boot sequence and the shell.
use vstd::prelude::*;

pub mod address_space;
pub mod boot;
pub mod command;
pub mod drivers;
pub mod elf;
pub mod fd_table;
pub mod frame_allocator;
pub mod fs;
pub mod kernel;
pub mod keyboard;
pub mod layout;
pub mod load_map;
pub mod paging;
pub mod parse;
pub mod persist;
pub mod process;
pub mod scheduler;
pub mod session;
pub mod shell;
pub mod syscall;
pub mod text;
pub mod trap;
pub mod vfs;
pub mod vga;
