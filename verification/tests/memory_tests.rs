use tsos_kernel::address_space::{AddressSpace, Vma};
use tsos_kernel::frame_allocator::{BitmapFrameAllocator, Frame, MemoryRegion};
use tsos_kernel::layout::{
    in_kernel_heap_range, in_user_usable_range, is_canonical_user, kernel_stack_slot_base, kernel_stack_top,
    KERNEL_STACK_REGION_BASE,
};
use tsos_kernel::paging::{
    alloc_frame_phys, create_process_page_table, dealloc_frame_phys, is_page_present, map_page, map_page_ex,
    set_page_writable, unmap_page, PhysMemory,
};

const BASE: u64 = 0x10_0000;

fn allocator(frames: u64) -> BitmapFrameAllocator {
    let regions = [MemoryRegion { base: BASE, length: frames * 4096, usable: true }];
    BitmapFrameAllocator::init(&regions, vec![0u64; 1]).expect("allocator")
}

#[test]
fn allocator_hands_out_lowest_free_frame() {
    let mut a = allocator(4);
    assert_eq!(a.base(), BASE);
    assert_eq!(a.span_end(), BASE + 4 * 4096);
    let f0 = a.alloc_frame().unwrap();
    let f1 = a.alloc_frame().unwrap();
    assert_eq!(f0.phys, BASE);
    assert_eq!(f1.phys, BASE + 4096);
    a.dealloc_frame(Frame { phys: BASE });
    assert_eq!(a.alloc_frame().unwrap().phys, BASE);
    assert_eq!(a.alloc_frame().unwrap().phys, BASE + 2 * 4096);
    assert_eq!(a.alloc_frame().unwrap().phys, BASE + 3 * 4096);
    assert!(a.alloc_frame().is_none());
}

#[test]
fn allocator_no_double_allocation() {
    let mut a = allocator(8);
    let mut seen = Vec::new();
    while let Some(f) = a.alloc_frame() {
        assert!(!seen.contains(&f.phys));
        seen.push(f.phys);
    }
    assert_eq!(seen.len(), 8);
}

#[test]
fn allocator_ignores_foreign_frames() {
    let mut a = allocator(2);
    a.dealloc_frame(Frame { phys: 0x1000 });
    a.dealloc_frame(Frame { phys: BASE + 100 * 4096 });
    assert_eq!(a.alloc_frame().unwrap().phys, BASE);
}

#[test]
fn allocator_init_picks_largest_region_and_checks_storage() {
    let regions = [
        MemoryRegion { base: 0x1000, length: 0x2000, usable: true },
        MemoryRegion { base: 0x40_0000, length: 0x1_0000, usable: false },
        MemoryRegion { base: BASE, length: 0x8000, usable: true },
    ];
    let mut a = BitmapFrameAllocator::init(&regions, vec![0u64; 1]).unwrap();
    assert_eq!(a.base(), BASE);
    assert_eq!(a.span_end(), BASE + 0x8000);
    assert_eq!(a.alloc_frame().unwrap().phys, BASE);
    assert!(BitmapFrameAllocator::init(&regions, vec![]).is_none());
    let tiny = [MemoryRegion { base: BASE, length: 0x800, usable: true }];
    assert!(BitmapFrameAllocator::init(&tiny, vec![0u64; 1]).is_none());
    let none_usable = [MemoryRegion { base: BASE, length: 0x8000, usable: false }];
    assert!(BitmapFrameAllocator::init(&none_usable, vec![0u64; 1]).is_none());
}

#[test]
fn phys_frame_helpers() {
    let mut a = allocator(2);
    assert_eq!(alloc_frame_phys(&mut a), Some(BASE));
    assert_eq!(alloc_frame_phys(&mut a), Some(BASE + 4096));
    assert_eq!(alloc_frame_phys(&mut a), None);
    dealloc_frame_phys(&mut a, BASE + 4096);
    assert_eq!(alloc_frame_phys(&mut a), Some(BASE + 4096));
}

#[test]
fn map_present_writable_unmap() {
    let mut a = allocator(16);
    let mut m = PhysMemory::new(BASE, 16);
    let cr3 = alloc_frame_phys(&mut a).unwrap();
    let virt = 0x40_0000;
    assert!(!is_page_present(&m, cr3, virt));
    assert!(map_page(&mut m, &mut a, cr3, virt, 0x20_0123, true, true));
    assert!(is_page_present(&m, cr3, virt));
    assert!(!is_page_present(&m, cr3, virt + 0x1000));
    assert!(set_page_writable(&mut m, cr3, virt, false));
    assert!(!set_page_writable(&mut m, cr3, virt + 0x1000, true));
    assert_eq!(unmap_page(&mut m, cr3, virt), Some(0x20_0000));
    assert!(!is_page_present(&m, cr3, virt));
    assert_eq!(unmap_page(&mut m, cr3, virt), None);
}

#[test]
fn unmap_of_non_executable_page_gives_address_only() {
    let mut a = allocator(16);
    let mut m = PhysMemory::new(BASE, 16);
    let cr3 = alloc_frame_phys(&mut a).unwrap();
    assert!(map_page_ex(&mut m, &mut a, cr3, 0x40_0000, 0x30_0000, true, true, false));
    assert_eq!(unmap_page(&mut m, cr3, 0x40_0000), Some(0x30_0000));
}

#[test]
fn map_fails_when_frames_run_out() {
    let mut a = allocator(2);
    let mut m = PhysMemory::new(BASE, 2);
    let cr3 = alloc_frame_phys(&mut a).unwrap();
    assert!(!map_page(&mut m, &mut a, cr3, 0x40_0000, 0x20_0000, true, true));
    assert!(!is_page_present(&m, cr3, 0x40_0000));
}

#[test]
fn map_succeeds_with_exactly_the_missing_tables() {
    let mut a = allocator(4);
    let mut m = PhysMemory::new(BASE, 4);
    let cr3 = alloc_frame_phys(&mut a).unwrap();
    assert!(map_page_ex(&mut m, &mut a, cr3, 0x40_0000, 0x30_0000, true, true, true));
    assert!(is_page_present(&m, cr3, 0x40_0000));
    assert_eq!(alloc_frame_phys(&mut a), None);
    // A neighbouring page needs no new table.
    assert!(map_page(&mut m, &mut a, cr3, 0x40_1000, 0x30_1000, false, true));
    assert!(is_page_present(&m, cr3, 0x40_1000));
}

#[test]
fn process_table_shares_present_entries() {
    let mut a = allocator(16);
    let mut m = PhysMemory::new(BASE, 16);
    let cr3 = alloc_frame_phys(&mut a).unwrap();
    assert!(map_page(&mut m, &mut a, cr3, 0x40_0000, 0x20_0000, true, false));
    let child = create_process_page_table(&mut m, &mut a, cr3).unwrap();
    assert_ne!(child, cr3);
    assert!(is_page_present(&m, child, 0x40_0000));
    assert_eq!(create_process_page_table(&mut m, &mut a, 0), None);
}

#[test]
fn memory_bytes_read_back() {
    let mut m = PhysMemory::new(BASE, 1);
    assert_eq!(m.base_addr(), BASE);
    assert_eq!(m.end_addr(), BASE + 4096);
    m.write_byte(BASE + 5, 0xAB);
    m.write_byte(BASE + 6, 0xCD);
    assert_eq!(m.read_byte(BASE + 5), 0xAB);
    assert_eq!(m.read_byte(BASE + 6), 0xCD);
    assert_eq!(m.read_byte(BASE + 4), 0);
}

#[test]
fn vma_bounds() {
    let v = Vma::new(0x40_0000, 0x2000, true, false);
    assert_eq!(v.end(), 0x40_2000);
    assert!(v.contains(0x40_0000));
    assert!(v.contains(0x40_1FFF));
    assert!(!v.contains(0x40_2000));
    assert!(!v.contains(0x3F_FFFF));
    assert!(v.is_user_sane());
    assert!(!Vma::new(0, 0x1000, true, false).is_user_sane());
    assert!(!Vma::new(0x40_0000, 0, true, false).is_user_sane());
    assert!(!Vma::new(0x7FFF_FFFF_F000, 0x2000, true, false).is_user_sane());
    assert!(!Vma::new(u64::MAX - 1, 0x10, true, false).contains(5));
}

#[test]
fn address_space_finds_first_covering_area() {
    let mut s = AddressSpace::new(0x5000);
    assert!(s.covers(0x40_0000).is_none());
    s.vmas.push(Vma::new(0x40_0000, 0x1000, false, true));
    s.vmas.push(Vma::new(0x40_0000, 0x4000, true, false));
    assert!(s.covers(0x40_0800).unwrap().executable);
    assert!(s.covers(0x40_2000).unwrap().write);
    assert!(s.covers(0x50_0000).is_none());
    s.covers_mut(0x40_3000).unwrap().executable = true;
    assert!(s.vmas[1].executable);
}

#[test]
fn layout_ranges() {
    assert_eq!(kernel_stack_slot_base(0), KERNEL_STACK_REGION_BASE);
    assert_eq!(kernel_stack_slot_base(2), KERNEL_STACK_REGION_BASE + 2 * 0x9000);
    assert_eq!(kernel_stack_top(1), KERNEL_STACK_REGION_BASE + 0x9000 + 0x1000 + 0x8000);
    assert!(is_canonical_user(0x0000_7FFF_FFFF_FFFF));
    assert!(!is_canonical_user(0xFFFF_FFFF_FFFF));
    assert!(!is_canonical_user(0x0000_8000_0000_0000));
    assert!(!is_canonical_user(0xFFFF_8000_0000_0000));
    assert_eq!(kernel_stack_slot_base(1), 0xFFFF_FF80_0000_9000);
    assert!(!is_canonical_user(0x1_0000_0000_0000));
    assert!(in_user_usable_range(0x1000));
    assert!(!in_user_usable_range(0xFFF));
    assert!(!in_user_usable_range(0x0000_8000_0000_0000));
    assert!(in_kernel_heap_range(0xFFFF_FFFF_8000_0000));
    assert!(!in_kernel_heap_range(0xFFFF_FFFF_A000_0000));
}

#[test]
fn map_page_matches_executable_map_page_ex() {
    let mut a1 = allocator(16);
    let mut m1 = PhysMemory::new(BASE, 16);
    let cr3 = alloc_frame_phys(&mut a1).unwrap();
    let mut a2 = allocator(16);
    let mut m2 = PhysMemory::new(BASE, 16);
    assert_eq!(alloc_frame_phys(&mut a2), Some(cr3));
    assert!(map_page(&mut m1, &mut a1, cr3, 0x40_0000, 0x20_0000, false, true));
    assert!(map_page_ex(&mut m2, &mut a2, cr3, 0x40_0000, 0x20_0000, false, true, true));
    assert_eq!(m1.words(), m2.words());
    // The three new tables took the lowest free frames in both.
    assert_eq!(alloc_frame_phys(&mut a1), Some(BASE + 4 * 4096));
    assert_eq!(alloc_frame_phys(&mut a2), Some(BASE + 4 * 4096));
}

#[test]
fn failed_map_page_matches_failed_map_page_ex() {
    let mut a1 = allocator(3);
    let mut m1 = PhysMemory::new(BASE, 3);
    let cr3 = alloc_frame_phys(&mut a1).unwrap();
    let mut a2 = allocator(3);
    let mut m2 = PhysMemory::new(BASE, 3);
    assert_eq!(alloc_frame_phys(&mut a2), Some(cr3));
    // Two tables fit, the third does not.
    assert!(!map_page(&mut m1, &mut a1, cr3, 0x40_0000, 0x20_0000, true, true));
    assert!(!map_page_ex(&mut m2, &mut a2, cr3, 0x40_0000, 0x20_0000, true, true, true));
    assert_eq!(m1.words(), m2.words());
    assert_eq!(alloc_frame_phys(&mut a1), None);
    assert_eq!(alloc_frame_phys(&mut a2), None);
}
