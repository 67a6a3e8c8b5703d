use memblock::allocator::Memblock;
use memblock::allocator::MemblockError;
use memblock::allocator::MAX_REGIONS;

#[test]
fn test_memblock_add() {
    let mut mb = Memblock::new();
    assert!(mb.add(0x1000, 0x1000).is_ok());
    assert_eq!(mb.memory_count(), 1);
    assert_eq!(mb.total_memory(), 0x1000);

    // Adding overlapping region should fail
    assert!(mb.add(0x1800, 0x1000).is_err());

    // Adding adjacent region should merge
    assert!(mb.add(0x2000, 0x1000).is_ok());
    assert_eq!(mb.memory_count(), 1); // merged
    assert_eq!(mb.total_memory(), 0x2000);
}

#[test]
fn test_memblock_reserve() {
    let mut mb = Memblock::new();
    mb.add(0x1000, 0x1000).unwrap();
    mb.reserve(0x1200, 0x200).unwrap();
    assert_eq!(mb.reserved_count(), 1);
    assert_eq!(mb.total_reserved(), 0x200);
}

#[test]
fn test_memblock_alloc() {
    let mut mb = Memblock::new();
    mb.add(0x1000, 0x1000).unwrap();
    mb.reserve(0x1200, 0x200).unwrap();

    // Allocate within available space
    let addr = mb.allocate(0x100, 0x10).unwrap();
    assert!(addr >= 0x1000 && addr + 0x100 <= 0x2000);
    // Should be reserved now
    assert_eq!(mb.reserved_count(), 2);

    // Add a non-adjacent memory region
    mb.add(0x3000, 0x1000).unwrap();
    // Allocate 0x1000 bytes, should go into the new region
    let addr2 = mb.allocate(0x1000, 0x1).unwrap();
    assert!(addr2 >= 0x3000 && addr2 + 0x1000 <= 0x4000);
}

#[test]
fn test_memblock_remove() {
    let mut mb = Memblock::new();
    mb.add(0x1000, 0x1000).unwrap();
    mb.remove(0x1800, 0x400).unwrap();
    assert_eq!(mb.memory_count(), 2); // split into two regions
    assert_eq!(mb.total_memory(), 0xc00); // 0x1000 - 0x400
}

#[test]
fn test_memblock_merge() {
    let mut mb = Memblock::new();
    mb.add(0x1000, 0x1000).unwrap();
    mb.add(0x3000, 0x1000).unwrap();
    // Not adjacent, so two regions
    assert_eq!(mb.memory_count(), 2);

    let mut mb2 = Memblock::new();
    mb2.add(0x1000, 0x1000).unwrap();
    mb2.add(0x3000, 0x1000).unwrap();
    // Now add adjacent region that bridges the gap
    mb2.add(0x2000, 0x1000).unwrap();
    // Should merge into one region (all three are adjacent)
    assert_eq!(mb2.memory_count(), 1);
    assert_eq!(mb2.total_memory(), 0x3000);
}

#[test]
fn test_coalesce_adjacent() {
    // Adding [0x1000,0x2000) then [0x2000,0x3000) yields one region
    // [0x1000,0x3000), not two.
    let mut mb = Memblock::new();
    mb.add(0x1000, 0x1000).unwrap();
    mb.add(0x2000, 0x1000).unwrap();
    assert_eq!(mb.memory_count(), 1);
    let r = mb.memory_region(0);
    assert_eq!(r.base, 0x1000);
    assert_eq!(r.size, 0x2000);
}

#[test]
fn test_bridging_merge() {
    // Adding [0x1000,0x2000), [0x3000,0x4000), then [0x2000,0x3000) yields
    // exactly one region [0x1000,0x4000).
    let mut mb = Memblock::new();
    mb.add(0x1000, 0x1000).unwrap();
    mb.add(0x3000, 0x1000).unwrap();
    mb.add(0x2000, 0x1000).unwrap();
    assert_eq!(mb.memory_count(), 1);
    let r = mb.memory_region(0);
    assert_eq!(r.base, 0x1000);
    assert_eq!(r.size, 0x3000);
}

#[test]
fn test_overlap_rejection() {
    // Adding [0x1000,0x2000) then [0x1800,0x2800) fails with the overlap
    // error and the first region remains unchanged.
    let mut mb = Memblock::new();
    mb.add(0x1000, 0x1000).unwrap();
    assert_eq!(mb.add(0x1800, 0x1000), Err(MemblockError::OverlapError));
    assert_eq!(mb.memory_count(), 1);
    let r = mb.memory_region(0);
    assert_eq!(r.base, 0x1000);
    assert_eq!(r.size, 0x1000);
}

#[test]
fn test_split_on_removal() {
    // Removing [0x1800,0x1c00) from available [0x1000,0x2000) yields
    // [0x1000,0x1800) and [0x1c00,0x2000), with the combined size reduced
    // by exactly the removed size.
    let mut mb = Memblock::new();
    mb.add(0x1000, 0x1000).unwrap();
    let before = mb.total_memory();
    mb.remove(0x1800, 0x400).unwrap();
    assert_eq!(mb.memory_count(), 2);
    let left = mb.memory_region(0);
    let right = mb.memory_region(1);
    assert_eq!(left.base, 0x1000);
    assert_eq!(left.size, 0x800);
    assert_eq!(right.base, 0x1c00);
    assert_eq!(right.size, 0x400);
    assert_eq!(mb.total_memory(), before - 0x400);
}

#[test]
fn test_allocation_exclusivity() {
    // With available [0x1000,0x2000) and [0x1200,0x1400) reserved,
    // allocate(0x100, 0x10) returns an aligned address inside the
    // available region that avoids the reserved range, and the allocated
    // range shows up as reserved afterwards.
    let mut mb = Memblock::new();
    mb.add(0x1000, 0x1000).unwrap();
    mb.reserve(0x1200, 0x200).unwrap();
    let addr = mb.allocate(0x100, 0x10).unwrap();
    assert_eq!(addr % 0x10, 0);
    assert!(addr >= 0x1000 && addr + 0x100 <= 0x2000);
    assert!(addr + 0x100 <= 0x1200 || addr >= 0x1400);
    let mut found = false;
    for i in 0..mb.reserved_count() {
        let r = mb.reserved_region(i);
        if r.base <= addr && addr + 0x100 <= r.base + r.size {
            found = true;
        }
    }
    assert!(found);
}

#[test]
fn test_first_fit_lowest_address() {
    let mut mb = Memblock::new();
    mb.add(0x1000, 0x1000).unwrap();
    mb.add(0x3000, 0x1000).unwrap();
    // The lowest fitting aligned address wins.
    let addr = mb.allocate(0x100, 0x100).unwrap();
    assert_eq!(addr, 0x1000);
}

#[test]
fn test_exhaustion() {
    // Allocating more total bytes than are available-and-unreserved fails
    // with the out-of-memory error and leaves both sets unchanged.
    let mut mb = Memblock::new();
    mb.add(0x1000, 0x1000).unwrap();
    mb.reserve(0x1200, 0x200).unwrap();
    assert_eq!(mb.allocate(0x2000, 1), Err(MemblockError::OutOfMemoryError));
    assert_eq!(mb.memory_count(), 1);
    assert_eq!(mb.reserved_count(), 1);
    assert_eq!(mb.total_memory(), 0x1000);
    assert_eq!(mb.total_reserved(), 0x200);
}

#[test]
fn test_zero_size_noops() {
    // add, reserve and remove with size zero never alter either region set
    // and always report success.
    let mut mb = Memblock::new();
    mb.add(0x1000, 0x1000).unwrap();
    mb.reserve(0x1200, 0x200).unwrap();
    assert!(mb.add(0x5000, 0).is_ok());
    assert!(mb.reserve(0x5000, 0).is_ok());
    assert!(mb.remove(0x1800, 0).is_ok());
    assert_eq!(mb.memory_count(), 1);
    assert_eq!(mb.reserved_count(), 1);
    assert_eq!(mb.total_memory(), 0x1000);
    assert_eq!(mb.total_reserved(), 0x200);
}

#[test]
fn test_invalid_size_error() {
    let mut mb = Memblock::new();
    mb.add(0x1000, 0x1000).unwrap();
    assert_eq!(mb.allocate(0, 0x10), Err(MemblockError::InvalidSizeError));
    assert_eq!(mb.memory_count(), 1);
    assert_eq!(mb.reserved_count(), 0);
}

#[test]
fn test_capacity_error() {
    // Fill the table with the maximum number of separated regions, then a
    // region that cannot coalesce is refused.
    let mut mb = Memblock::new();
    for i in 0..MAX_REGIONS as u64 {
        mb.add(0x10000 + i * 0x2000, 0x1000).unwrap();
    }
    assert_eq!(mb.memory_count(), MAX_REGIONS);
    assert_eq!(
        mb.add(0x10000 + MAX_REGIONS as u64 * 0x2000, 0x1000),
        Err(MemblockError::CapacityError)
    );
    assert_eq!(mb.memory_count(), MAX_REGIONS);
    // An insertion absorbed by coalescing still succeeds at capacity: this
    // one bridges the first two regions into one.
    assert!(mb.add(0x11000, 0x1000).is_ok());
    assert_eq!(mb.memory_count(), MAX_REGIONS - 1);
}

#[test]
fn test_align_zero_means_unaligned() {
    let mut mb = Memblock::new();
    mb.add(0x1001, 0xfff).unwrap();
    let addr = mb.allocate(0x10, 0).unwrap();
    assert_eq!(addr, 0x1001);
}

#[test]
fn test_remove_edges() {
    let mut mb = Memblock::new();
    mb.add(0x1000, 0x1000).unwrap();
    // Truncate at the start.
    mb.remove(0x0800, 0x1000).unwrap();
    assert_eq!(mb.memory_count(), 1);
    let r = mb.memory_region(0);
    assert_eq!(r.base, 0x1800);
    assert_eq!(r.size, 0x800);
    // Truncate at the end.
    mb.remove(0x1c00, 0x1000).unwrap();
    let r2 = mb.memory_region(0);
    assert_eq!(r2.base, 0x1800);
    assert_eq!(r2.size, 0x400);
    // Remove the whole region.
    mb.remove(0x1000, 0x1000).unwrap();
    assert_eq!(mb.memory_count(), 0);
    assert_eq!(mb.total_memory(), 0);
}

#[test]
fn test_reserve_independent_of_available() {
    // Reserving memory never requires it to be available.
    let mut mb = Memblock::new();
    mb.reserve(0x9000_0000, 0x1000).unwrap();
    assert_eq!(mb.reserved_count(), 1);
    assert_eq!(mb.memory_count(), 0);
    assert_eq!(mb.total_reserved(), 0x1000);
}
