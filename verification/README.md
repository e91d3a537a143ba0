# tsos_kernel

The verified core of TS-OS, a small x86_64 kernel whose scheduler is an
activation / tension graph: on every round the eligible process with the
greatest activation minus tension runs (the "Strongest Node"), activation
spreads to its neighbours and decays elsewhere, and new nodes emerge when
tension builds up.

## Layout

- `src/` is the library, verified with Verus. Each module states its
  behaviour in `requires` / `ensures` contracts over spec functions, and the
  properties that relate several operations are public proof functions
  whose names start with `law_`.
  - `frame_allocator`, `paging`, `layout`, `address_space`: physical
    frames, page tables (over a model of physical memory), address-space
    areas.
  - `scheduler`, `process`, `kernel`, `trap`, `syscall`, `boot`: the process
    graph, the kernel state, and what the timer, page faults, system calls
    and the boot sequence do to it.
  - `fs`, `vfs`, `fd_table`, `persist`: the in-RAM filesystem, its image,
    mounting, descriptors, and checkpoints in a persistence region and on
    disk.
  - `elf`, `load_map`, `keyboard`, `vga`, `text`, `parse`, `shell`,
    `command`, `session`: ELF loading and the page tables it builds,
    input, the text console, and the shell's line editing and command
    decisions.
- `tests/` runs the library on concrete inputs.
- `app/` is the machine glue: Limine requests, descriptor tables, port I/O,
  the IDE disk, the interrupt entry stubs, and the loops of the shell and
  the other nodes, which make the system calls the library plans.
