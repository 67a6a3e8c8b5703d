use memblock::address::gic_virt;
use memblock::address::phys_to_virt;
use memblock::address::ram;
use memblock::address::uart_virt;
use memblock::address::virt_to_phys;
use memblock::address::PAGE_SIZE;
use memblock::address::RAM_BASE;
use memblock::address::RAM_SIZE;
use memblock::address::VIRTUAL_BASE;
use memblock::boot::hex_digits;
use memblock::boot::BootInfo;

#[test]
fn test_target_guard() {
    assert!(true);
}

#[test]
fn test_address_translation() {
    assert_eq!(phys_to_virt(0x4000_0000), 0xffffff80_4000_0000);
    assert_eq!(virt_to_phys(0xffffff80_4000_0000), 0x4000_0000);
    assert_eq!(virt_to_phys(phys_to_virt(0x1234_5000)), 0x1234_5000);
    assert_eq!(uart_virt(), 0xffffff80_0900_0000);
    assert_eq!(gic_virt(), 0xffffff80_0800_0000);
}

#[test]
fn test_platform_regions() {
    let (base, size) = ram();
    assert_eq!(base, RAM_BASE);
    assert_eq!(size, RAM_SIZE);
    assert_eq!(base, 0x4000_0000);
    assert_eq!(size, 0x4000_0000);
    assert_eq!(PAGE_SIZE, 0x1000);
}

#[test]
fn test_boot_info_from_virtual() {
    let info = BootInfo::from_virtual(VIRTUAL_BASE + 0x4008_0000, VIRTUAL_BASE + 0x4010_0000);
    assert_eq!(info.kernel_phys_start, 0x4008_0000);
    assert_eq!(info.kernel_phys_end, 0x4010_0000);
    assert_eq!(info.kernel_size, 0x8_0000);
}

#[test]
fn test_hex_digits() {
    let digits = hex_digits(0x4000_0000);
    assert_eq!(digits, b"0000000040000000".to_vec());
    let digits2 = hex_digits(0x0123_4567_89AB_CDEF);
    assert_eq!(digits2, b"0123456789ABCDEF".to_vec());
    let digits3 = hex_digits(u64::MAX);
    assert_eq!(digits3, b"FFFFFFFFFFFFFFFF".to_vec());
}
