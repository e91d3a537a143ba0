use std::cell::RefCell;

use tsos_kernel::drivers::net::{init, send_udp};
use tsos_kernel::drivers::BlockDevice;
use tsos_kernel::elf::{check_header, elf_arith_fits, load_elf, ElfError, ELF_STACK_TOP};
use tsos_kernel::fd_table::{FdTable, OpenFlags};
use tsos_kernel::frame_allocator::{BitmapFrameAllocator, MemoryRegion};
use tsos_kernel::fs::FileSystem;
use tsos_kernel::keyboard::{decode_scancode, scancode_to_ascii, KeyBuffer};
use tsos_kernel::paging::{alloc_frame_phys, is_page_present, map_page, unmap_page, PhysMemory};
use tsos_kernel::persist::{
    checkpoint_chunk, checkpoint_total, do_checkpoint, next_sector_buf, region_has_magic, restore_chunk,
    restore_fs, restore_graph, save_to_disk, sector_count, try_restore, validate_current_checkpoint,
    PERSIST_MAGIC, SECTOR_SIZE,
};
use tsos_kernel::process::{ProcessContext, TrapFrame};
use tsos_kernel::scheduler::{Node, NodeState, ProcessGraph, ACTIVATION_CAP, NEIGHBOR_NONE};
use tsos_kernel::text::{fmt_dec, fmt_hex, split_path};
use tsos_kernel::vfs::{DiskFs, MountedFs, RamFs, Vfs, VfsError, VfsLayer};
use tsos_kernel::vga::{Screen, BLANK, CELLS, WIDTH};

/// A disk kept in memory; sectors listed in `bad` fail to read and write.
struct MemDisk {
    sectors: RefCell<Vec<[u8; 512]>>,
    bad: Vec<u32>,
}

impl MemDisk {
    fn new(n: usize) -> MemDisk {
        MemDisk { sectors: RefCell::new(vec![[0u8; 512]; n]), bad: vec![] }
    }
}

impl BlockDevice for MemDisk {
    fn read_sector(&self, lba: u32, buf: &mut [u8]) -> bool {
        if self.bad.contains(&lba) || lba as usize >= self.sectors.borrow().len() {
            return false;
        }
        buf[..512].copy_from_slice(&self.sectors.borrow()[lba as usize]);
        true
    }

    fn write_sector(&self, lba: u32, buf: &[u8]) -> bool {
        if self.bad.contains(&lba) || lba as usize >= self.sectors.borrow().len() {
            return false;
        }
        self.sectors.borrow_mut()[lba as usize].copy_from_slice(&buf[..512]);
        true
    }
}

fn cell(b: u8) -> u16 {
    0x0700 | b as u16
}

#[test]
fn vga_writes_wraps_and_scrolls() {
    let mut s = Screen::new();
    assert!(s.cells().iter().all(|&c| c == BLANK));
    s.write_str(b"hi\r\nX");
    assert_eq!(s.cells()[0], cell(b'h'));
    assert_eq!(s.cells()[1], cell(b'i'));
    assert_eq!(s.cells()[WIDTH], cell(b'X'));
    let mut t = Screen::new();
    for _ in 0..WIDTH {
        t.write_byte(b'a');
    }
    t.write_byte(b'b');
    assert_eq!(t.cells()[WIDTH], cell(b'b'));
    let mut u = Screen::new();
    u.write_byte(b'z');
    for _ in 0..25 {
        u.write_byte(b'\n');
    }
    assert!(u.cells().iter().all(|&c| c == BLANK));
    u.write_byte(b'q');
    assert_eq!(u.cells()[CELLS - WIDTH], cell(b'q'));
    u.clear();
    assert!(u.cells().iter().all(|&c| c == BLANK));
}

#[test]
fn vga_write_in_parts_equals_whole() {
    let mut a = Screen::new();
    a.write_str(b"abc\ndef");
    a.write_str(b"\rgh");
    let mut b = Screen::new();
    b.write_str(b"abc\ndef\rgh");
    assert_eq!(a.cells(), b.cells());
}

#[test]
fn keyboard_scancodes() {
    assert_eq!(scancode_to_ascii(0x1E), Some(b'a'));
    assert_eq!(scancode_to_ascii(0x02), Some(b'1'));
    assert_eq!(scancode_to_ascii(0x1C), Some(b'\n'));
    assert_eq!(scancode_to_ascii(0x39), Some(b' '));
    assert_eq!(scancode_to_ascii(0x01), None);
    assert_eq!(scancode_to_ascii(0x90), None);
    assert_eq!(decode_scancode(0x9E), None);
    assert_eq!(decode_scancode(0x10), Some(b'q'));
}

#[test]
fn key_buffer_takes_polled_key() {
    let mut k = KeyBuffer::new();
    assert!(k.needs_poll());
    assert_eq!(k.read_byte(None), None);
    assert_eq!(k.read_byte(Some(b'x')), Some(b'x'));
    assert!(k.needs_poll());
}

#[test]
fn text_formatting() {
    assert_eq!(fmt_dec(0), b"0".to_vec());
    assert_eq!(fmt_dec(1234567), b"1234567".to_vec());
    assert_eq!(fmt_dec(u64::MAX), b"18446744073709551615".to_vec());
    assert_eq!(fmt_hex(0), b"0".to_vec());
    assert_eq!(fmt_hex(0xBEEF), b"BEEF".to_vec());
    assert_eq!(fmt_hex(0x10), b"10".to_vec());
    assert_eq!(split_path(b"/a//b/"), vec![b"a".to_vec(), b"b".to_vec()]);
    assert_eq!(split_path(b"/"), Vec::<Vec<u8>>::new());
}

fn elf_image(e_type: u16, machine: u16) -> Vec<u8> {
    let mut d = vec![0u8; 64 + 56 + 16];
    d[0..4].copy_from_slice(b"\x7fELF");
    d[4] = 2;
    d[5] = 1;
    d[16..18].copy_from_slice(&e_type.to_le_bytes());
    d[18..20].copy_from_slice(&machine.to_le_bytes());
    d[24..32].copy_from_slice(&0x40_0010u64.to_le_bytes());
    d[32..40].copy_from_slice(&64u64.to_le_bytes());
    d[54..56].copy_from_slice(&56u16.to_le_bytes());
    d[56..58].copy_from_slice(&1u16.to_le_bytes());
    let p = 64;
    d[p..p + 4].copy_from_slice(&1u32.to_le_bytes());
    d[p + 8..p + 16].copy_from_slice(&120u64.to_le_bytes());
    d[p + 16..p + 24].copy_from_slice(&0x40_0000u64.to_le_bytes());
    d[p + 32..p + 40].copy_from_slice(&16u64.to_le_bytes());
    d[p + 40..p + 48].copy_from_slice(&0x1000u64.to_le_bytes());
    for i in 0..16 {
        d[120 + i] = 0xA0 + i as u8;
    }
    d
}

#[test]
fn elf_header_errors() {
    assert_eq!(check_header(&[0u8; 10]), Err(ElfError::InvalidMagic));
    let good = elf_image(2, 62);
    assert_eq!(check_header(&good), Ok(0x40_0010));
    let mut bad = good.clone();
    bad[1] = b'X';
    assert_eq!(check_header(&bad), Err(ElfError::InvalidMagic));
    let mut bad = good.clone();
    bad[4] = 1;
    assert_eq!(check_header(&bad), Err(ElfError::Not64Bit));
    let mut bad = good.clone();
    bad[5] = 2;
    assert_eq!(check_header(&bad), Err(ElfError::NotLittleEndian));
    assert_eq!(check_header(&elf_image(1, 62)), Err(ElfError::NotExecutable));
    assert_eq!(check_header(&elf_image(3, 62)), Ok(0x40_0010));
    assert_eq!(check_header(&elf_image(2, 3)), Err(ElfError::WrongArch));
    let mut bad = good.clone();
    bad[54] = 32;
    assert_eq!(check_header(&bad), Err(ElfError::InvalidPhdr));
}

#[test]
fn elf_loads_segment() {
    let regions = [MemoryRegion { base: 0x10_0000, length: 32 * 4096, usable: true }];
    let mut a = BitmapFrameAllocator::init(&regions, vec![0u64; 1]).unwrap();
    let mut m = PhysMemory::new(0x10_0000, 32);
    let cr3 = alloc_frame_phys(&mut a).unwrap();
    let img = elf_image(2, 62);
    assert!(elf_arith_fits(&img));
    let info = load_elf(&img, &mut m, &mut a, cr3).unwrap();
    assert_eq!(info.entry, 0x40_0010);
    assert_eq!(info.stack_top, ELF_STACK_TOP);
    assert!(is_page_present(&m, cr3, 0x40_0000));
    let mut cut = img.clone();
    cut.truncate(124);
    assert!(elf_arith_fits(&cut));
    assert!(matches!(load_elf(&cut, &mut m, &mut a, cr3), Err(ElfError::LoadFailed)));
    assert!(matches!(load_elf(&[0u8; 3], &mut m, &mut a, cr3), Err(ElfError::InvalidMagic)));
}

#[test]
fn elf_copies_file_bytes_and_zero_fills() {
    let regions = [MemoryRegion { base: 0x10_0000, length: 32 * 4096, usable: true }];
    let mut a = BitmapFrameAllocator::init(&regions, vec![0u64; 1]).unwrap();
    let mut m = PhysMemory::new(0x10_0000, 32);
    let cr3 = alloc_frame_phys(&mut a).unwrap();
    let img = elf_image(2, 62);
    assert!(load_elf(&img, &mut m, &mut a, cr3).is_ok());
    // The data frame is the first one taken after the top-level table.
    let page = 0x10_1000u64;
    for i in 0..16u64 {
        assert_eq!(m.read_byte(page + i), 0xA0 + i as u8);
    }
    assert_eq!(m.read_byte(page + 16), 0);
    assert_eq!(m.read_byte(page + 4095), 0);
}

#[test]
fn elf_without_load_header_loads_nothing() {
    let mut d = vec![0u8; 64];
    d[0..4].copy_from_slice(b"\x7fELF");
    d[4] = 2;
    d[5] = 1;
    d[16] = 2;
    d[18] = 62;
    d[24..32].copy_from_slice(&0x40_1000u64.to_le_bytes());
    d[54] = 56;
    let regions = [MemoryRegion { base: 0x10_0000, length: 8 * 4096, usable: true }];
    let mut a = BitmapFrameAllocator::init(&regions, vec![0u64; 1]).unwrap();
    let mut m = PhysMemory::new(0x10_0000, 8);
    let cr3 = alloc_frame_phys(&mut a).unwrap();
    let words = m.words().clone();
    let info = load_elf(&d, &mut m, &mut a, cr3).unwrap();
    assert_eq!(info.entry, 0x40_1000);
    assert_eq!(info.stack_top, 0x7FFF_FFFF_F000);
    assert!(!is_page_present(&m, cr3, 0x40_1000));
    assert_eq!(m.words(), &words);
    assert_eq!(alloc_frame_phys(&mut a), Some(0x10_1000));
}

/// An image with two load headers for the page at 0x40_0000, the first
/// filled with 0xA0.., the second with 0xB0...
fn elf_image_same_page_twice() -> Vec<u8> {
    let mut d = vec![0u8; 64 + 2 * 56 + 32];
    d[0..4].copy_from_slice(b"\x7fELF");
    d[4] = 2;
    d[5] = 1;
    d[16..18].copy_from_slice(&2u16.to_le_bytes());
    d[18..20].copy_from_slice(&62u16.to_le_bytes());
    d[24..32].copy_from_slice(&0x40_0000u64.to_le_bytes());
    d[32..40].copy_from_slice(&64u64.to_le_bytes());
    d[54..56].copy_from_slice(&56u16.to_le_bytes());
    d[56..58].copy_from_slice(&2u16.to_le_bytes());
    for h in 0..2usize {
        let p = 64 + h * 56;
        let off = (176 + h * 16) as u64;
        d[p..p + 4].copy_from_slice(&1u32.to_le_bytes());
        d[p + 8..p + 16].copy_from_slice(&off.to_le_bytes());
        d[p + 16..p + 24].copy_from_slice(&0x40_0000u64.to_le_bytes());
        d[p + 32..p + 40].copy_from_slice(&16u64.to_le_bytes());
        d[p + 40..p + 48].copy_from_slice(&0x1000u64.to_le_bytes());
        for i in 0..16usize {
            d[off as usize + i] = if h == 0 { 0xA0 } else { 0xB0 } + i as u8;
        }
    }
    d
}

#[test]
fn elf_load_reuses_tables_of_existing_mapping() {
    let regions = [MemoryRegion { base: 0x10_0000, length: 32 * 4096, usable: true }];
    let mut a = BitmapFrameAllocator::init(&regions, vec![0u64; 1]).unwrap();
    let mut m = PhysMemory::new(0x10_0000, 32);
    let cr3 = alloc_frame_phys(&mut a).unwrap();
    let x = alloc_frame_phys(&mut a).unwrap();
    assert_eq!(x, 0x10_1000);
    m.write_byte(x, 0x5A);
    // A user page beside the image's page, in the same tables.
    assert!(map_page(&mut m, &mut a, cr3, 0x40_1000, x, true, true));
    let img = elf_image(2, 62);
    assert!(load_elf(&img, &mut m, &mut a, cr3).is_ok());
    // The three tables were reused: the only frame taken is the data frame.
    let page = 0x10_5000u64;
    assert_eq!(alloc_frame_phys(&mut a), Some(0x10_6000));
    for i in 0..16u64 {
        assert_eq!(m.read_byte(page + i), 0xA0 + i as u8);
    }
    assert_eq!(m.read_byte(x), 0x5A);
    assert_eq!(unmap_page(&mut m, cr3, 0x40_0000), Some(page));
    assert_eq!(unmap_page(&mut m, cr3, 0x40_1000), Some(x));
}

#[test]
fn elf_later_header_replaces_shared_page() {
    let regions = [MemoryRegion { base: 0x10_0000, length: 32 * 4096, usable: true }];
    let mut a = BitmapFrameAllocator::init(&regions, vec![0u64; 1]).unwrap();
    let mut m = PhysMemory::new(0x10_0000, 32);
    let cr3 = alloc_frame_phys(&mut a).unwrap();
    let img = elf_image_same_page_twice();
    assert!(elf_arith_fits(&img));
    assert!(load_elf(&img, &mut m, &mut a, cr3).is_ok());
    // First header: data frame 0x10_1000, then three tables; the second
    // header's data frame 0x10_5000 replaces the first in the leaf.
    for i in 0..16u64 {
        assert_eq!(m.read_byte(0x10_1000 + i), 0xA0 + i as u8);
        assert_eq!(m.read_byte(0x10_5000 + i), 0xB0 + i as u8);
    }
    assert_eq!(unmap_page(&mut m, cr3, 0x40_0000), Some(0x10_5000));
}

#[test]
fn elf_fails_when_frames_run_out() {
    let regions = [MemoryRegion { base: 0x10_0000, length: 3 * 4096, usable: true }];
    let mut a = BitmapFrameAllocator::init(&regions, vec![0u64; 1]).unwrap();
    let mut m = PhysMemory::new(0x10_0000, 3);
    let cr3 = alloc_frame_phys(&mut a).unwrap();
    let img = elf_image(2, 62);
    assert!(matches!(load_elf(&img, &mut m, &mut a, cr3), Err(ElfError::LoadFailed)));
    assert_eq!(alloc_frame_phys(&mut a), None);
}

#[test]
fn fd_table_reuses_lowest_slot() {
    let mut t = FdTable::new();
    let w = OpenFlags { write: true };
    assert_eq!(t.open(b"/a", w), Some(0));
    assert_eq!(t.open(b"/b", w), Some(1));
    assert!(t.close(0));
    assert_eq!(t.open(b"/c", w), Some(0));
    assert!(!t.close(32));
    for _ in 2..32 {
        assert!(t.open(b"/x", w).is_some());
    }
    assert_eq!(t.open(b"/y", w), None);
}

#[test]
fn vfs_routes_by_longest_prefix() {
    let mut fs = FileSystem::new();
    assert!(fs.touch(b"/f"));
    let mut v = VfsLayer::new(MountedFs::Ram, RamFs { fs });
    assert_eq!(v.write_file(b"/f", b"hello"), Ok(()));
    assert_eq!(v.read_file(b"/f"), Ok(b"hello".to_vec()));
    assert_eq!(v.read_file(b"/nope"), Err(VfsError::NotFound));
    assert_eq!(v.write_file(b"/nope", b"x"), Err(VfsError::NoSpace));
    assert_eq!(v.read_dir(b"/"), Ok(vec![b"f".to_vec()]));
    v.mount(b"/disk", MountedFs::Disk);
    assert_eq!(v.read_file(b"/disk/f"), Err(VfsError::Unsupported));
    assert_eq!(v.write_file(b"/disk/f", b"x"), Err(VfsError::Unsupported));
    v.mount(b"/disk/ram", MountedFs::Ram);
    assert_eq!(v.read_dir(b"/disk/ram"), Ok(vec![]));
    assert_eq!(v.read_file(b"/f"), Ok(b"hello".to_vec()));
    let d = DiskFs;
    assert_eq!(d.read_dir(b"/"), Err(VfsError::Unsupported));
}

#[test]
fn scheduler_graph_operations() {
    let mut g = ProcessGraph::new();
    assert_eq!(g.count(), 0);
    assert_eq!(g.select_strongest(), None);
    assert!(g.add_node(0, 100, 0, &[1], 0xFF));
    assert_eq!(g.try_add_node(1, 195, 0, &[0, 0xFF, 0], 0), Some(1));
    assert_eq!(g.procs[1].node.neighbors, [0, NEIGHBOR_NONE, 0, NEIGHBOR_NONE]);
    assert_eq!(g.select_strongest(), Some(1));
    g.spread_from(0);
    assert_eq!(g.procs[1].node.activation, ACTIVATION_CAP);
    g.decay_all(1);
    assert_eq!(g.procs[0].node.activation, 98);
    assert_eq!(g.procs[1].node.activation, ACTIVATION_CAP);
    g.procs[1].state = NodeState::Exited;
    assert_eq!(g.select_strongest(), Some(0));
    g.procs[0].node.tension = 200;
    assert_eq!(g.select_strongest(), Some(0));
    g.procs[0].state = NodeState::Waiting;
    assert_eq!(g.select_strongest(), None);
    g.prune_dead_nodes();
    g.try_merge_low_tension_pairs();
    assert_eq!(g.count(), 2);
    for i in 2..32 {
        assert!(g.add_node(i, 0, 0, &[], 0));
    }
    assert!(!g.add_node(99, 0, 0, &[], 0));
    assert_eq!(g.try_add_node(99, 0, 0, &[], 0), None);
    let n = Node::new();
    assert_eq!((n.activation, n.tension, n.neighbors), (0, 0, [NEIGHBOR_NONE; 4]));
}

#[test]
fn selection_prefers_first_on_ties() {
    let mut g = ProcessGraph::new();
    g.add_node(0, 50, 10, &[], 0xFF);
    g.add_node(1, 45, 5, &[], 0);
    g.add_node(2, 60, 20, &[], 0);
    assert_eq!(g.select_strongest(), Some(0));
}

#[test]
fn context_roundtrip() {
    let tf = TrapFrame {
        r15: 15, r14: 14, r13: 13, r12: 12, r11: 11, r10: 10, r9: 9, r8: 8,
        rbp: 7, rdi: 6, rsi: 5, rdx: 4, rcx: 3, rbx: 2, rax: 1,
    };
    let c = ProcessContext::from_trap_frame(&tf);
    assert_eq!((c.rip, c.cs, c.rflags, c.rsp, c.ss), (0, 0, 0, 0, 0));
    let mut out = TrapFrame {
        r15: 0, r14: 0, r13: 0, r12: 0, r11: 0, r10: 0, r9: 0, r8: 0,
        rbp: 0, rdi: 0, rsi: 0, rdx: 0, rcx: 0, rbx: 0, rax: 0,
    };
    c.write_to_trap_frame(&mut out);
    assert_eq!((out.r15, out.rbp, out.rdi, out.rax), (15, 7, 6, 1));
    assert_eq!(tf.syscall_number(), 1);
    let z = ProcessContext::zero();
    assert_eq!((z.rax, z.r15, z.ss), (0, 0, 0));
}

#[test]
fn network_is_not_driven() {
    init();
    assert!(!send_udp([10, 0, 0, 1], 9, b"x"));
}

#[test]
fn checkpoint_region_roundtrip() {
    let mut region = vec![0u8; 64];
    assert!(do_checkpoint(&mut region, b"gg", b"filesys"));
    assert_eq!(&region[0..8], &PERSIST_MAGIC.to_le_bytes());
    assert_eq!(&region[8..12], &2u32.to_le_bytes());
    assert_eq!(&region[12..16], &7u32.to_le_bytes());
    assert!(validate_current_checkpoint(&region));
    assert!(region_has_magic(&region));
    assert_eq!(restore_graph(&region, 64), b"gg".to_vec());
    assert_eq!(restore_graph(&region, 1), b"g".to_vec());
    assert_eq!(restore_fs(&region, 64), b"filesys".to_vec());
    assert_eq!(restore_fs(&region, 4), b"file".to_vec());
    let mut small = vec![0u8; 20];
    assert!(!do_checkpoint(&mut small, b"gg", b"filesys"));
    assert_eq!(small, vec![0u8; 20]);
    assert!(!validate_current_checkpoint(&small));
    assert_eq!(restore_graph(&small, 8), Vec::<u8>::new());
    let mut no_fs = vec![0u8; 32];
    assert!(do_checkpoint(&mut no_fs, b"g", b""));
    assert_eq!(restore_fs(&no_fs, 8), Vec::<u8>::new());
}

#[test]
fn sector_helpers() {
    assert_eq!(sector_count(0), 0);
    assert_eq!(sector_count(512), 1);
    assert_eq!(sector_count(513), 2);
    let region: Vec<u8> = (0..600u32).map(|i| i as u8).collect();
    assert_eq!(checkpoint_chunk(&region, 600, 1), region[512..600].to_vec());
    let prev = [7u8; SECTOR_SIZE];
    let kept = next_sector_buf(&prev, false, &[1, 2]);
    assert_eq!(&kept[..3], &[1, 2, 7]);
    let cleared = next_sector_buf(&prev, true, &[1, 2]);
    assert_eq!(&cleared[..3], &[1, 2, 0]);
    let mut s0 = [0u8; SECTOR_SIZE];
    s0[..8].copy_from_slice(&PERSIST_MAGIC.to_le_bytes());
    s0[8..12].copy_from_slice(&100u32.to_le_bytes());
    s0[12..16].copy_from_slice(&900u32.to_le_bytes());
    assert_eq!(checkpoint_total(&s0), Some(1016));
    assert_eq!(checkpoint_total(&[0u8; SECTOR_SIZE]), None);
    let mut dst = vec![0u8; 20];
    assert_eq!(restore_chunk(&mut dst, 4, 10, &s0), 10);
    assert_eq!(&dst[4..10], &s0[..6]);
    assert_eq!(dst[10], 0);
}

#[test]
fn disk_checkpoint_roundtrip() {
    let disk = MemDisk::new(8);
    let mut region = vec![0u8; 2048];
    let graph = vec![3u8; 64];
    let fs: Vec<u8> = (0..700u32).map(|i| (i % 251) as u8).collect();
    assert!(do_checkpoint(&mut region, &graph, &fs));
    let total = 16 + 64 + 700;
    save_to_disk(&disk, &region, total);
    let mut back = vec![0u8; 2048];
    assert!(try_restore(&disk, &mut back));
    assert_eq!(back[..total], region[..total]);
    assert_eq!(restore_fs(&back, 4096), fs);
    assert_eq!(restore_graph(&back, 4096), graph);
}

#[test]
fn restore_without_disk_checkpoint_keeps_region() {
    let disk = MemDisk::new(4);
    let mut region = vec![5u8; 64];
    assert!(!try_restore(&disk, &mut region));
    assert_eq!(region, vec![5u8; 64]);
    assert!(do_checkpoint(&mut region, b"g", b"f"));
    let copy = region.clone();
    let broken = MemDisk { sectors: RefCell::new(vec![[0u8; 512]; 4]), bad: vec![0] };
    assert!(try_restore(&broken, &mut region));
    assert_eq!(region, copy);
    let mut tiny = vec![1u8; 4];
    assert!(!try_restore(&disk, &mut tiny));
}

#[test]
fn restore_skips_unreadable_sector() {
    let disk = MemDisk::new(4);
    let mut region = vec![0u8; 1500];
    let fs = vec![9u8; 1000];
    assert!(do_checkpoint(&mut region, b"", &fs));
    save_to_disk(&disk, &region, 1016);
    let flaky = MemDisk { sectors: RefCell::new(disk.sectors.borrow().clone()), bad: vec![1] };
    let mut back = vec![0u8; 1500];
    assert!(try_restore(&flaky, &mut back));
    assert_eq!(back[..512], region[..512]);
    assert!(back[512..].iter().all(|&b| b == 0));
}
