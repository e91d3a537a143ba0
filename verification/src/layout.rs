//! Canonical virtual address layout: the user lower-half range, the null
//! guard page, the kernel heap region and the per-process kernel stack slots.
use vstd::prelude::*;

verus! {

pub const USER_NULL_GUARD_END: u64 = 0x1000;
pub const USER_LOWER_START: u64 = 0x1000;
pub const USER_LOWER_END: u64 = 0x0000_7FFF_FFFF_FFFF;

pub const USER_TEXT_BASE: u64 = 0x0000_0000_0040_0000;
pub const USER_STACK_TOP: u64 = 0x0000_7FFF_FFFF_F000;

pub const KERNEL_HEAP_BASE: u64 = 0xFFFF_FFFF_8000_0000;
pub const KERNEL_HEAP_INITIAL_SIZE: u64 = 0x100_0000;
pub const KERNEL_HEAP_MAX_SIZE: u64 = 0x2000_0000;

/// Each process gets one slot in this region:
/// `[guard page (unmapped)][stack pages (mapped, NX, kernel-only)]`.
pub const KERNEL_STACK_REGION_BASE: u64 = 0xFFFF_FF80_0000_0000;
/// A slot is a 32 KiB stack plus a 4 KiB guard page.
pub const KERNEL_STACK_SLOT_SIZE: u64 = 0x9000;
pub const KERNEL_STACK_SIZE: u64 = 0x8000;
pub const KERNEL_STACK_GUARD_SIZE: u64 = 0x1000;

/// Largest slot index whose slot still lies below the top of the address space.
pub open spec fn slot_fits(slot: int) -> bool {
    KERNEL_STACK_REGION_BASE + slot * KERNEL_STACK_SLOT_SIZE + KERNEL_STACK_GUARD_SIZE
        + KERNEL_STACK_SIZE <= u64::MAX
}

/// Base address of the kernel stack slot `slot` (its guard page).
pub fn kernel_stack_slot_base(slot: usize) -> (r: u64)
    requires
        slot_fits(slot as int),
    ensures
        r == KERNEL_STACK_REGION_BASE + slot * KERNEL_STACK_SLOT_SIZE,
{
    assert(slot * KERNEL_STACK_SLOT_SIZE <= u64::MAX) by (nonlinear_arith)
        requires
            KERNEL_STACK_REGION_BASE + slot * KERNEL_STACK_SLOT_SIZE <= u64::MAX,
            slot >= 0,
    ;
    KERNEL_STACK_REGION_BASE + (slot as u64) * KERNEL_STACK_SLOT_SIZE
}

/// Top of the mapped stack pages of slot `slot` (the guard page lies below them).
pub fn kernel_stack_top(slot: usize) -> (r: u64)
    requires
        slot_fits(slot as int),
    ensures
        r == KERNEL_STACK_REGION_BASE + slot * KERNEL_STACK_SLOT_SIZE + KERNEL_STACK_GUARD_SIZE
            + KERNEL_STACK_SIZE,
{
    kernel_stack_slot_base(slot) + KERNEL_STACK_GUARD_SIZE + KERNEL_STACK_SIZE
}

/// An address is a canonical lower-half (user) address when its top 16 bits
/// are clear and so is bit 47, which they sign-extend.
pub fn is_canonical_user(addr: u64) -> (r: bool)
    ensures
        r == (addr < 0x8000_0000_0000),
{
    assert(((addr >> 48u64) == 0 && (addr >> 47u64) & 1 == 0) <==> addr < 0x8000_0000_0000u64) by (bit_vector);
    (addr >> 48) == 0 && (addr >> 47) & 1 == 0
}

pub fn in_user_usable_range(addr: u64) -> (r: bool)
    ensures
        r == (USER_LOWER_START <= addr <= USER_LOWER_END),
{
    addr >= USER_LOWER_START && addr <= USER_LOWER_END
}

pub fn in_kernel_heap_range(addr: u64) -> (r: bool)
    ensures
        r == (KERNEL_HEAP_BASE <= addr < KERNEL_HEAP_BASE + KERNEL_HEAP_MAX_SIZE),
{
    addr >= KERNEL_HEAP_BASE && addr < KERNEL_HEAP_BASE + KERNEL_HEAP_MAX_SIZE
}

} // verus!
