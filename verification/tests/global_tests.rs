use memblock::allocator::Memblock;
use memblock::boot::init_memory;
use memblock::boot::test_memory_allocation;
use memblock::boot::BootInfo;

#[test]
fn test_locked_instance_setup() {
    // One lock-protected allocator, as the boot sequence holds it: each
    // operation runs under its own lock acquisition.
    let shared = spin::Mutex::new(Memblock::new());
    let info = BootInfo::from_virtual(0xffffff80_4008_0000, 0xffffff80_4010_0000);
    {
        let mut mb = shared.lock();
        init_memory(&mut mb, &info).unwrap();
    }
    let addr = {
        let mut mb = shared.lock();
        test_memory_allocation(&mut mb).unwrap()
    };
    assert_eq!(addr % 0x1000, 0);
    assert!(addr >= 0x4000_0000 && addr + 0x1000 <= 0x8000_0000);
    // The kernel image range is reserved, so the page avoids it.
    assert!(addr + 0x1000 <= 0x4008_0000 || addr >= 0x4010_0000);
}

#[test]
fn test_sequential_allocations_disjoint() {
    let shared = spin::Mutex::new(Memblock::new());
    {
        let mut mb = shared.lock();
        mb.add(0x4000_0000, 0x4000_0000).unwrap();
        mb.reserve(0x4008_0000, 0x10_0000).unwrap();
    }
    let addr = {
        let mut mb = shared.lock();
        mb.allocate(0x1000, 0x1000).unwrap()
    };
    let addr2 = {
        let mut mb = shared.lock();
        mb.allocate(0x1000, 0x1000).unwrap()
    };
    assert_eq!(addr % 0x1000, 0);
    assert!(addr + 0x1000 <= 0x4008_0000 || addr >= 0x4018_0000);
    // A second allocation never overlaps the first.
    assert!(addr2 + 0x1000 <= addr || addr2 >= addr + 0x1000);
}

#[test]
fn test_init_memory_fresh_always_succeeds() {
    let mut mb = Memblock::new();
    let info = BootInfo::from_virtual(0xffffff80_4008_0000, 0xffffff80_4008_0000);
    // A zero-size kernel image reserves nothing and still succeeds.
    init_memory(&mut mb, &info).unwrap();
    assert_eq!(mb.memory_count(), 1);
    assert_eq!(mb.reserved_count(), 0);
    assert_eq!(mb.total_memory(), 0x4000_0000);
}
