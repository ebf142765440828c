//! Machine and kernel constants. Machine words (addresses, page numbers,
//! page-table entries, registers) are `u64`: the target is RV64.
use vstd::prelude::*;

verus! {

/// Number of bits of the offset inside a page.
pub const PAGE_OFFSET_BIT: u64 = 12;

/// Size of a page in bytes.
pub const PAGE_SIZE: u64 = 4096;

/// Number of virtual page number bits resolved by one Sv39 level.
pub const SV39_VPN_BIT: u64 = 9;

/// Number of levels of an Sv39 page table.
pub const PAGE_TABLE_LEVEL: usize = 3;

/// Number of entries of one page-table page.
pub const PTE_PER_PAGE: usize = 512;

/// Size in bytes of one page-table entry.
pub const PTE_SIZE: u64 = 8;

/// Bit position of the physical page number inside an entry.
pub const PTE_PPN_OFFSET: u64 = 10;

/// Number of flag bits at the bottom of an entry.
pub const PTE_FLAG_SIZE: u64 = 8;

/// Size of a user stack in bytes.
pub const USER_STACK_SIZE: u64 = 8192;

/// Size of a kernel stack in bytes.
pub const KERNEL_STACK_SIZE: u64 = 8192;

/// Number of applications linked into the kernel image.
pub const APP_NUM: usize = 1;

/// Values of the bit patterns that the kernel spells out: the flag sets it
/// builds, the shifts it uses, and the invalid all-zero entry.
pub proof fn lemma_bit_constants()
    by (bit_vector)
    ensures
        0u64 & 1u64 == 0,
        1u64 & 1u64 == 1,
        1u64 & 2u64 == 0,
        1u64 & 8u64 == 0,
        2u64 | 4u64 == 6,
        6u64 | 1u64 == 7,
        2u64 | 1u64 == 3,
        7u64 & 1u64 == 1,
        2u64 | 4u64 | 1u64 == 7,
        2u64 | 8u64 | 1u64 == 11,
        16u64 | 2u64 | 4u64 | 1u64 == 23,
        1u64 | 2u64 | 4u64 | 8u64 == 15,
        1u64 << 8u64 == 256,
        1u64 << 9u64 == 512,
        1u64 << 10u64 == 1024,
        1u64 << 26u64 == 0x400_0000,
        1u64 << 27u64 == 0x800_0000,
{
}

} // verus!
