//! Memory layout parameters of the Sv39 platform.

use vstd::prelude::*;

verus! {

/// Bytes of kernel stack given to each task.
pub const KERNEL_STACK_SIZE: u64 = 0x2000;

/// Bytes of user stack given to each task.
pub const USER_STACK_SIZE: u64 = 0x2000;

/// Bytes managed by the kernel heap allocator.
pub const KERNEL_HEAP_SIZE: u64 = 0x20_0000;

/// Bytes per page.
pub const PAGE_SIZE: u64 = 4096;

/// Bits of offset within a page.
pub const PAGE_BITS: u64 = 12;

/// Bits of flags at the bottom of a page-table entry.
pub const PTE_FLAGS_BITS: u64 = 10;

/// Entries in one page-table page.
pub const PTE_NUM_PER_PAGE: u64 = 512;

/// Bits of virtual address consumed by one page-table level.
pub const PTE_NUM_PER_PAGE_BITS: u64 = 9;

/// Width of a physical address.
pub const PA_WIDTH_SV39: u64 = 56;

/// Width of a virtual address.
pub const VA_WIDTH_SV39: u64 = 39;

/// Largest physical address, `2^56 - 1`.
pub const MAX_PHYS_ADDR: u64 = 0xff_ffff_ffff_ffff;

/// Largest virtual address, `2^39 - 1`.
pub const MAX_VIRT_ADDR: u64 = 0x7f_ffff_ffff;

/// Half of the physical address space, `2^55`.
pub const MAX_PHYS_SIZE: u64 = 0x80_0000_0000_0000;

/// Half of the virtual address space, `2^38`.
pub const MAX_VIRT_SIZE: u64 = 0x40_0000_0000;

/// Width of a physical page number.
pub const PPN_WIDTH_SV39: u64 = 44;

/// Width of a virtual page number.
pub const VPN_WIDTH_SV39: u64 = 27;

/// Largest physical page number, `2^44 - 1`.
pub const MAX_PPN: u64 = 0xfff_ffff_ffff;

/// Largest virtual page number, `2^27 - 1`.
pub const MAX_VPN: u64 = 0x7ff_ffff;

/// Physical address at which the kernel image starts.
pub const KERNEL_BASE: u64 = 0x8020_0000;

/// End of usable physical memory.
pub const PHYS_TOP: u64 = 0x8800_0000;

/// Virtual address of the trampoline page, `2^38 - PAGE_SIZE`.
pub const TRAMPOLINE: u64 = 0x3f_ffff_f000;

/// Virtual address of the trap frame page, one page below the trampoline.
pub const TRAP_FRAME: u64 = 0x3f_ffff_e000;

/// Size of the kernel staging buffer for user data.
pub const MAX_BUF_SIZE: u64 = 1024;

} // verus!
