//! The decisions of the boot sequence once the hardware is set up: the
//! frame allocator over the memory map, the filesystem (restored from a
//! valid checkpoint when one was read), the process graph with the shell as
//! node 0, the default memory areas of user nodes, and the initial frames.
use vstd::prelude::*;

use crate::address_space::Vma;
use crate::frame_allocator::{largest_usable, regions_in_range, BitmapFrameAllocator, MemoryRegion};
use crate::fs::{
    image_count, image_len, image_valid, law_image_roundtrip, record_encodes, FileSystem, IMAGE_HEADER,
    RECORD_SIZE,
};
use crate::kernel::{frame_for, stack_of, table_choice, InitFrame, Kernel, NO_CURRENT};
use crate::layout::{USER_STACK_TOP, USER_TEXT_BASE};
use crate::paging::{alloc_fits, alloc_fits_exec, PhysMemory};
use crate::persist::{
    checkpoint_valid, law_checkpoint_roundtrip, restore_fs, restored_fs, validate_current_checkpoint, CHECKPOINT_HEADER,
    FS_BUF_SIZE, GRAPH_BUF_SIZE,
};
use crate::syscall::{after_checkpoint, fs_part, graph_summary};
use crate::process::{root_cwd, Process};
use crate::scheduler::{NodeState, ProcessGraph, MAX_NEIGHBORS, NEIGHBOR_NONE, PARENT_NONE};

verus! {

/// Activation the shell starts with.
pub const SHELL_ACTIVATION: u32 = 100;
/// Size of the default code and data area of a user node.
pub const USER_CODE_SIZE: u64 = 0x40_0000;
/// Size of the default stack area of a user node.
pub const USER_STACK_SIZE: u64 = 0x80_0000;

/// What the boot glue found out before handing over.
pub struct BootInfo {
    pub hhdm_offset: u64,
    pub kernel_cr3: u64,
    /// Where the shell (node 0) starts running.
    pub shell_entry: u64,
    /// Where every other node starts running.
    pub node_entry: u64,
}

/// A framebuffer is used when it is mapped and at least 640x400 at 24 bits per pixel.
pub fn framebuffer_usable(mapped: bool, width: u64, height: u64, bpp: u16) -> (r: bool)
    ensures
        r == (mapped && width >= 640 && height >= 400 && bpp >= 24),
{
    mapped && width >= 640 && height >= 400 && bpp >= 24
}

/// The filesystem after boot: the image of a valid checkpoint that was read
/// back, when it holds a non-empty image the filesystem accepts; else the
/// fresh filesystem with only the root.
pub open spec fn boot_fs(fs: FileSystem, region: Seq<u8>, restored: bool) -> bool {
    let img = restored_fs(region, FS_BUF_SIZE as int);
    if restored && checkpoint_valid(region) && img.len() > 0 && image_valid(img) {
        &&& fs.count() == image_count(img)
        &&& forall|i: int|
            0 <= i < image_count(img) ==> record_encodes(img, IMAGE_HEADER + i * RECORD_SIZE, #[trigger] fs.nodes()[i])
    } else {
        fs.is_fresh()
    }
}

/// The default areas of a user node: code and data at 4 MiB (4 MiB long,
/// writable and executable), and an 8 MiB stack below the top of the user
/// half (writable, not executable).
pub open spec fn default_vmas(v: Seq<Vma>) -> bool {
    &&& v.len() == 2
    &&& v[0].start == USER_TEXT_BASE && v[0].size == USER_CODE_SIZE && v[0].write && v[0].executable
    &&& v[1].start == USER_STACK_TOP - USER_STACK_SIZE && v[1].size == USER_STACK_SIZE && v[1].write
        && !v[1].executable
}

/// The shell as node 0 right after boot.
pub open spec fn shell_node(p: Process, info: BootInfo) -> bool {
    &&& p.id == 0
    &&& p.node.activation == SHELL_ACTIVATION
    &&& p.node.tension == 0
    &&& forall|j: int| 0 <= j < MAX_NEIGHBORS ==> #[trigger] p.node.neighbors@[j] == NEIGHBOR_NONE
    &&& p.state == NodeState::Ready
    &&& p.parent == PARENT_NONE
    &&& p.exit_status == 0
    &&& p.cwd@ == root_cwd()
    &&& p.saved_rsp == 0
    &&& p.aspace.vmas@.len() == 0
    &&& stack_of(p, 0)
    &&& table_choice(p.aspace.cr3, info.hhdm_offset, info.kernel_cr3)
}

impl Kernel {
    /// Gives every node but the shell the default areas.
    pub fn install_default_vmas(&mut self)
        requires
            old(self).wf(),
        ensures
            final(self).wf(),
            *final(self) == (Kernel { graph: final(self).graph, ..*old(self) }),
            final(self).graph.procs@.len() == old(self).graph.procs@.len(),
            forall|i: int|
                0 <= i < old(self).graph.procs@.len() ==> if old(self).graph.procs@[i].id == 0 {
                    #[trigger] final(self).graph.procs@[i] == old(self).graph.procs@[i]
                } else {
                    &&& default_vmas(final(self).graph.procs@[i].aspace.vmas@)
                    &&& final(self).graph.procs@[i] == (Process {
                        aspace: crate::address_space::AddressSpace {
                            vmas: final(self).graph.procs@[i].aspace.vmas,
                            ..old(self).graph.procs@[i].aspace
                        },
                        ..old(self).graph.procs@[i]
                    })
                },
    {
        let n = self.graph.count();
        let mut i: usize = 0;
        while i < n
            invariant
                i <= n,
                n == self.graph.procs@.len(),
                n == old(self).graph.procs@.len(),
                self.wf(),
                *self == (Kernel { graph: self.graph, ..*old(self) }),
                forall|j: int|
                    i <= j < n ==> #[trigger] self.graph.procs@[j] == old(self).graph.procs@[j],
                forall|j: int|
                    0 <= j < i ==> if old(self).graph.procs@[j].id == 0 {
                        #[trigger] self.graph.procs@[j] == old(self).graph.procs@[j]
                    } else {
                        &&& default_vmas(self.graph.procs@[j].aspace.vmas@)
                        &&& self.graph.procs@[j] == (Process {
                            aspace: crate::address_space::AddressSpace {
                                vmas: self.graph.procs@[j].aspace.vmas,
                                ..old(self).graph.procs@[j].aspace
                            },
                            ..old(self).graph.procs@[j]
                        })
                    },
            decreases n - i,
        {
            if self.graph.procs[i].id != 0 {
                let ghost before = self.graph.procs@;
                let mut v: Vec<Vma> = Vec::new();
                v.push(Vma::new(USER_TEXT_BASE, USER_CODE_SIZE, true, true));
                v.push(Vma::new(USER_STACK_TOP - USER_STACK_SIZE, USER_STACK_SIZE, true, false));
                self.graph.procs[i].aspace.vmas = v;
                proof {
                    assert forall|j: int| 0 <= j < self.graph.procs@.len() implies stack_of(#[trigger] self.graph.procs@[j], j) by {
                        assert(stack_of(before[j], j));
                    }
                }
            }
            i = i + 1;
        }
    }

    /// Gives every node its stack and page table; the shell enters at
    /// `shell_entry`, every other node at `node_entry`. Returns the initial
    /// frames in node order.
    pub fn init_node_stacks(&mut self, shell_entry: u64) -> (r: Vec<InitFrame>)
        requires
            old(self).wf_core(),
        ensures
            final(self).wf(),
            final(self).same_rest(old(self)),
            final(self).active_cr3 == old(self).active_cr3,
            final(self).graph.procs@.len() == old(self).graph.procs@.len(),
            r@.len() == old(self).graph.procs@.len(),
            forall|i: int|
                0 <= i < old(self).graph.procs@.len() ==> {
                    let p = #[trigger] final(self).graph.procs@[i];
                    &&& p == crate::kernel::with_stack(old(self).graph.procs@[i], i, p.aspace.cr3)
                    &&& table_choice(p.aspace.cr3, old(self).hhdm_offset, old(self).kernel_cr3)
                    &&& frame_for(r@[i], p, if p.id == 0 { shell_entry } else { old(self).node_entry })
                },
    {
        let n = self.graph.count();
        let mut frames: Vec<InitFrame> = Vec::new();
        let mut i: usize = 0;
        while i < n
            invariant
                i <= n,
                n == self.graph.procs@.len(),
                n == old(self).graph.procs@.len(),
                self.wf_core(),
                self.same_rest(old(self)),
                self.active_cr3 == old(self).active_cr3,
                frames@.len() == i,
                forall|j: int| i <= j < n ==> #[trigger] self.graph.procs@[j] == old(self).graph.procs@[j],
                forall|j: int|
                    0 <= j < i ==> {
                        let p = #[trigger] self.graph.procs@[j];
                        &&& p == crate::kernel::with_stack(old(self).graph.procs@[j], j, p.aspace.cr3)
                        &&& table_choice(p.aspace.cr3, old(self).hhdm_offset, old(self).kernel_cr3)
                        &&& frame_for(frames@[j], p, if p.id == 0 { shell_entry } else { old(self).node_entry })
                    },
            decreases n - i,
        {
            let entry = if self.graph.procs[i].id == 0 {
                shell_entry
            } else {
                self.node_entry
            };
            let f = self.init_node_stacks_for_with_entry(i, entry);
            frames.push(f);
            i = i + 1;
        }
        proof {
            assert forall|j: int| 0 <= j < self.graph.procs@.len() implies stack_of(#[trigger] self.graph.procs@[j], j) by {
                let p = self.graph.procs@[j];
                assert(p == crate::kernel::with_stack(old(self).graph.procs@[j], j, p.aspace.cr3));
            }
        }
        frames
    }
}

/// Sets up the kernel state. `None` when the memory map yields no frame
/// allocator (no usable region of a frame or more, or too little bitmap
/// storage) or the memory model does not hold the allocator's span.
/// Otherwise: the filesystem is fresh or restored (see `boot_fs`), the
/// shell is the only process (see `shell_node`), nothing is current, and
/// the shell's initial frame is returned.
pub fn boot(
    entries: &[MemoryRegion],
    bitmap_storage: Vec<u64>,
    mem: PhysMemory,
    region: Vec<u8>,
    restored: bool,
    info: BootInfo,
) -> (r: Option<(Kernel, InitFrame)>)
    requires
        regions_in_range(entries@),
        mem.wf(),
    ensures
        ({
            let best = largest_usable(entries@, entries@.len() as int);
            let frames = best.1 / 4096;
            r is None <==> (best.1 < 4096 || bitmap_storage@.len() < (frames + 63) / 64 || !(best.0 % 4096 == 0
                && mem.spec_base() <= best.0 && best.0 + frames * 4096 <= mem.end()))
        }),
        match r {
            None => true,
            Some((k, f)) => {
                &&& k.wf()
                &&& k.current == NO_CURRENT
                &&& k.tick_count == 0
                &&& k.kernel_cr3 == info.kernel_cr3
                &&& k.hhdm_offset == info.hhdm_offset
                &&& k.node_entry == info.node_entry
                &&& k.kernel_rsp == 0
                &&& k.region@ == region@
                &&& boot_fs(k.fs, region@, restored)
                &&& k.graph.procs@.len() == 1
                &&& shell_node(k.graph.procs@[0], info)
                &&& frame_for(f, k.graph.procs@[0], info.shell_entry)
            },
        },
{
    let frames = match BitmapFrameAllocator::init(entries, bitmap_storage) {
        Some(a) => a,
        None => {
            return None;
        },
    };
    if !alloc_fits_exec(&mem, &frames) {
        return None;
    }
    let mut fs = FileSystem::new();
    let valid = restored && validate_current_checkpoint(region.as_slice());
    if valid {
        let bytes = restore_fs(region.as_slice(), FS_BUF_SIZE);
        if bytes.len() > 0 {
            fs.deserialize_from(bytes.as_slice());
        }
    }
    let mut graph = ProcessGraph::new();
    let empty: [u8; 0] = [];
    graph.add_node(0, SHELL_ACTIVATION, 0, empty.as_slice(), PARENT_NONE);
    let mut k = Kernel {
        graph,
        current: NO_CURRENT,
        fs,
        mem,
        frames,
        tick_count: 0,
        kernel_cr3: info.kernel_cr3,
        active_cr3: info.kernel_cr3,
        kernel_rsp: 0,
        hhdm_offset: info.hhdm_offset,
        node_entry: info.node_entry,
        region,
    };
    let ghost k0 = k;
    let mut frames_out = k.init_node_stacks(info.shell_entry);
    let ghost k1 = k;
    k.install_default_vmas();
    assert(k.graph.procs@[0] == k1.graph.procs@[0]);
    let f = frames_out.remove(0);
    Some((k, f))
}

/// A filesystem the kernel checkpointed comes back at the next boot: when
/// its image fits the checkpoint buffer and the whole checkpoint fits the
/// region, booting on that region with the checkpoint read back gives a
/// filesystem with the same number of nodes, each node as it was.
pub proof fn law_checkpoint_restores_fs(k0: Kernel, k1: Kernel, fs: FileSystem)
    requires
        k0.wf(),
        after_checkpoint(k0, k1),
        image_len(k0.fs.count() as int) <= FS_BUF_SIZE,
        CHECKPOINT_HEADER + GRAPH_BUF_SIZE + image_len(k0.fs.count() as int) <= k0.region@.len(),
        boot_fs(fs, k1.region@, true),
    ensures
        fs.count() == k0.fs.count(),
        forall|i: int| 0 <= i < fs.count() ==> #[trigger] fs.nodes()[i] == k0.fs.nodes()[i],
{
    let count = k0.fs.count() as int;
    let img = fs_part(k0.fs.nodes(), k0.fs.count());
    let g = graph_summary(k0.graph.procs@.len());
    assert(img.len() == image_len(count));
    law_checkpoint_roundtrip(k1.region@, g, img, FS_BUF_SIZE as int);
    assert(restored_fs(k1.region@, FS_BUF_SIZE as int) =~= img);
    law_image_roundtrip(k0.fs, img);
    assert forall|i: int| 0 <= i < fs.count() implies #[trigger] fs.nodes()[i] == k0.fs.nodes()[i] by {
        assert(record_encodes(img, IMAGE_HEADER + i * RECORD_SIZE, fs.nodes()[i]));
    }
}

} // verus!
