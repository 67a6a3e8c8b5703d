//! Kernel boot and memory initialization.
//!
//! Builds the boot information from linker-provided virtual addresses,
//! feeds the platform RAM range and the kernel image range to an allocator,
//! and offers the pure helpers that boot diagnostics need.  The caller owns
//! the allocator instance: during boot it lives behind one process-wide
//! mutual-exclusion lock, acquired around each call of these functions.

use vstd::prelude::*;

use crate::address;
use crate::allocator::first_fit;
use crate::allocator::Memblock;
use crate::allocator::MemblockError;
use crate::region::covers;

verus! {

/// Kernel boot information.
pub struct BootInfo {
    /// Physical address of kernel image start.
    pub kernel_phys_start: u64,
    /// Physical address of kernel image end.
    pub kernel_phys_end: u64,
    /// Size of kernel image in bytes.
    pub kernel_size: u64,
}

impl BootInfo {
    /// Create boot info from kernel virtual addresses.
    pub fn from_virtual(kernel_virt_start: u64, kernel_virt_end: u64) -> (b: Self)
        requires
            address::VIRTUAL_BASE <= kernel_virt_start <= kernel_virt_end,
        ensures
            b.kernel_phys_start == kernel_virt_start - address::VIRTUAL_BASE,
            b.kernel_phys_end == kernel_virt_end - address::VIRTUAL_BASE,
            b.kernel_size == b.kernel_phys_end - b.kernel_phys_start,
    {
        let kernel_phys_start = address::virt_to_phys(kernel_virt_start);
        let kernel_phys_end = address::virt_to_phys(kernel_virt_end);
        let kernel_size = kernel_phys_end - kernel_phys_start;

        BootInfo { kernel_phys_start, kernel_phys_end, kernel_size }
    }
}

/// Initialize the memory management subsystem: hand the platform RAM range
/// to the allocator as available memory, then reserve the kernel image's
/// own range.  On a fresh allocator this always succeeds.
pub fn init_memory(mb: &mut Memblock, boot_info: &BootInfo) -> (r: Result<(), MemblockError>)
    requires
        old(mb).wf(),
        boot_info.kernel_phys_start + boot_info.kernel_size <= u64::MAX,
    ensures
        final(mb).wf(),
        old(mb).mem().len() == 0 && old(mb).rsv().len() == 0 ==> r is Ok,
        r is Ok ==> forall|a: int|
            #[trigger] covers(final(mb).mem(), a) <==> covers(old(mb).mem(), a) || (
            address::RAM_BASE <= a < address::RAM_BASE + address::RAM_SIZE),
        r is Ok && boot_info.kernel_size > 0 ==> forall|a: int|
            #[trigger] covers(final(mb).rsv(), a) <==> covers(old(mb).rsv(), a) || (
            boot_info.kernel_phys_start <= a < boot_info.kernel_phys_start
                + boot_info.kernel_size),
        r is Ok && boot_info.kernel_size == 0 ==> final(mb).rsv() == old(mb).rsv(),
{
    let (ram_base, ram_size) = address::ram();

    match mb.add(ram_base, ram_size) {
        Ok(u) => u,
        Err(e) => {
            return Err(e);
        },
    }

    mb.reserve(boot_info.kernel_phys_start, boot_info.kernel_size)
}

/// Test memory allocation functionality: request one page with page
/// alignment from the allocator.
pub fn test_memory_allocation(mb: &mut Memblock) -> (r: Result<u64, MemblockError>)
    requires
        old(mb).wf(),
    ensures
        final(mb).wf(),
        final(mb).mem() == old(mb).mem(),
        r is Err ==> *final(mb) == *old(mb),
        r matches Ok(addr) ==> first_fit(
            old(mb).mem(),
            old(mb).rsv(),
            addr as int,
            address::PAGE_SIZE as int,
            address::PAGE_SIZE as int,
        ) && (forall|x: int|
            #[trigger] covers(final(mb).rsv(), x) <==> covers(old(mb).rsv(), x) || (addr <= x
                < addr + address::PAGE_SIZE)),
{
    mb.allocate(address::PAGE_SIZE, address::PAGE_SIZE)
}

/// The hexadecimal digit (as an ASCII byte, uppercase) for a value below
/// sixteen.
pub open spec fn hex_digit_of(n: u64) -> u8 {
    if n < 10 {
        (0x30 + n) as u8
    } else {
        (0x37 + n) as u8
    }
}

/// The `k`-th nibble of a 64-bit value, counted from the most significant.
pub open spec fn nibble_of(value: u64, k: int) -> u64 {
    (value >> (((15 - k) * 4) as u64)) & 0xF
}

/// The sixteen hexadecimal digits of a 64-bit value, most significant
/// first, as ASCII bytes: what boot diagnostics print for an address.
pub fn hex_digits(value: u64) -> (digits: Vec<u8>)
    ensures
        digits@.len() == 16,
        forall|k: int| 0 <= k < 16 ==> digits@[k] == hex_digit_of(#[trigger] nibble_of(value, k)),
{
    let mut digits: Vec<u8> = Vec::new();
    let mut k: usize = 0;
    while k < 16
        invariant
            k <= 16,
            digits@.len() == k,
            forall|j: int|
                0 <= j < k ==> digits@[j] == hex_digit_of(#[trigger] nibble_of(value, j)),
        decreases 16 - k,
    {
        let shift: u64 = (15 - k as u64) * 4;
        let nibble: u64 = (value >> shift) & 0xF;
        proof {
            assert((value >> shift) & 0xF < 16) by (bit_vector);
        }
        let digit: u8 = if nibble < 10 {
            (0x30 + nibble) as u8
        } else {
            (0x37 + nibble) as u8
        };
        digits.push(digit);
        k += 1;
    }
    digits
}

} // verus!
