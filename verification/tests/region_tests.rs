use memblock::region::Region;

#[test]
fn test_region_contains() {
    let region = Region::new(0x1000, 0x1000);
    assert!(region.contains(0x1000));
    assert!(region.contains(0x1fff));
    assert!(!region.contains(0x2000));
    assert!(!region.contains(0xfff));
}

#[test]
fn test_region_overlaps() {
    let r1 = Region::new(0x1000, 0x1000);
    let r2 = Region::new(0x1800, 0x1000);
    let r3 = Region::new(0x2000, 0x1000);
    assert!(r1.overlaps(&r2));
    assert!(r2.overlaps(&r1));
    assert!(!r1.overlaps(&r3));
    assert!(!r3.overlaps(&r1));
}

#[test]
fn test_region_adjacent() {
    let r1 = Region::new(0x1000, 0x1000);
    let r2 = Region::new(0x3000, 0x1000);
    let r3 = Region::new(0x1800, 0x1000);
    assert!(!r1.adjacent(&r2)); // not touching
    assert!(!r1.adjacent(&r3)); // overlapping
    let r4 = Region::new(0x2000, 0x1000);
    assert!(r1.adjacent(&r4)); // r1 ends at 0x2000, r4 starts at 0x2000
}

#[test]
fn test_region_new_clears_flags() {
    let region = Region::new(0x4000, 0x200);
    assert_eq!(region.base, 0x4000);
    assert_eq!(region.size, 0x200);
    assert_eq!(region.flags, 0);
    assert_eq!(region.end(), 0x4200);
}
