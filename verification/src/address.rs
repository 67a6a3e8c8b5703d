//! Memory address definitions for the AArch64 QEMU Virt platform.
//!
//! Centralized platform-layout constants and the pure address-translation
//! helpers built on them.

use vstd::prelude::*;

verus! {

/// Base physical address of RAM (DRAM) on the QEMU Virt platform.
pub const RAM_BASE: u64 = 0x4000_0000;

/// Default RAM size for the QEMU Virt platform (1GB).
pub const RAM_SIZE: u64 = 0x4000_0000;

/// End address of RAM (exclusive).
pub const RAM_END: u64 = RAM_BASE + RAM_SIZE;

/// PL011 UART (serial) base address.
pub const UART_BASE: u64 = 0x0900_0000;

/// GIC (Generic Interrupt Controller) base address.
pub const GIC_BASE: u64 = 0x0800_0000;

/// PCI Express ECAM (Enhanced Configuration Access Mechanism) base.
pub const PCIE_ECAM_BASE: u64 = 0x4010_0000;

/// PCI Express MMIO base.
pub const PCIE_MMIO_BASE: u64 = 0x4020_0000;

/// PCI Express PIO (Programmed I/O) base.
pub const PCIE_PIO_BASE: u64 = 0x3eff_0000;

/// Flash memory base address.
pub const FLASH_BASE: u64 = 0x0000_0000;

/// Flash memory size.
pub const FLASH_SIZE: u64 = 0x0400_0000;

/// Device memory region base.
pub const DEVICE_BASE: u64 = 0x0800_0000;

/// Device memory region size.
pub const DEVICE_SIZE: u64 = 0x7800_0000;

/// Kernel virtual base address (high-half layout for a 39-bit VA space).
pub const VIRTUAL_BASE: u64 = 0xffffff8000000000;

/// Kernel load offset within the virtual address space.
pub const LOAD_OFFSET: u64 = 0x80000;

/// Kernel virtual start address.
pub const VIRTUAL_START: u64 = VIRTUAL_BASE + LOAD_OFFSET;

/// Page size (4KB).
pub const PAGE_SIZE: u64 = 0x1000;

/// Text section alignment requirement for AArch64.
pub const TEXT_SECTION_ALIGN: u64 = 0x10000;

/// Default kernel stack size (64KB).
pub const STACK_SIZE: u64 = 0x10000;

/// Normal memory attribute for MAIR_EL1: Inner/Outer Write-Back Cacheable.
pub const MT_NORMAL: u64 = 0xFF;

/// Normal memory attribute for MAIR_EL1: Non-Cacheable.
pub const MT_NORMAL_NC: u64 = 0x44;

/// Device memory attribute for MAIR_EL1: nGnRnE.
pub const MT_DEVICE_NGNRNE: u64 = 0x00;

/// Device memory attribute for MAIR_EL1: nGnRE.
pub const MT_DEVICE_NGNRE: u64 = 0x04;

/// Convert a physical address to the kernel virtual address that maps it.
pub fn phys_to_virt(phys: u64) -> (virt: u64)
    requires
        phys + VIRTUAL_BASE <= u64::MAX,
    ensures
        virt == phys + VIRTUAL_BASE,
{
    phys + VIRTUAL_BASE
}

/// Convert a kernel virtual address back to the physical address it maps.
pub fn virt_to_phys(virt: u64) -> (phys: u64)
    requires
        virt >= VIRTUAL_BASE,
    ensures
        phys == virt - VIRTUAL_BASE,
{
    virt - VIRTUAL_BASE
}

/// Virtual address of the UART for MMIO access from the kernel.
pub fn uart_virt() -> (virt: u64)
    ensures
        virt == UART_BASE + VIRTUAL_BASE,
{
    phys_to_virt(UART_BASE)
}

/// Virtual address of the GIC for MMIO access from the kernel.
pub fn gic_virt() -> (virt: u64)
    ensures
        virt == GIC_BASE + VIRTUAL_BASE,
{
    phys_to_virt(GIC_BASE)
}

/// The default RAM region of the QEMU Virt platform, as `(base, size)`.
pub fn ram() -> (r: (u64, u64))
    ensures
        r.0 == RAM_BASE,
        r.1 == RAM_SIZE,
{
    (RAM_BASE, RAM_SIZE)
}

/// The device memory region of the QEMU Virt platform, as `(base, size)`.
pub fn device() -> (r: (u64, u64))
    ensures
        r.0 == DEVICE_BASE,
        r.1 == DEVICE_SIZE,
{
    (DEVICE_BASE, DEVICE_SIZE)
}

/// The flash memory region of the QEMU Virt platform, as `(base, size)`.
pub fn flash() -> (r: (u64, u64))
    ensures
        r.0 == FLASH_BASE,
        r.1 == FLASH_SIZE,
{
    (FLASH_BASE, FLASH_SIZE)
}

} // verus!
