use ferret::memory::region::{assert_no_overlap, MemoryRegion};

type FlashRegion = MemoryRegion<0x8000_0000, 0x8008_0000>;
type RamRegion = MemoryRegion<0x8008_0000, 0x800C_0000>;

#[test]
fn region_accessors() {
    assert_eq!(FlashRegion::base(), 0x8000_0000);
    assert_eq!(FlashRegion::end(), 0x8008_0000);
    assert_eq!(FlashRegion::size(), 0x0008_0000);

    assert_eq!(RamRegion::base(), 0x8008_0000);
    assert_eq!(RamRegion::size(), 0x0004_0000);
}

#[test]
fn contains_works() {
    assert!(FlashRegion::contains(0x8000_0000));
    assert!(FlashRegion::contains(0x8007_FFFF));
    assert!(!FlashRegion::contains(0x8008_0000));
    assert!(!FlashRegion::contains(0x7FFF_FFFF));
}

#[test]
fn no_overlap_adjacent() {
    assert_no_overlap::<0x8000_0000, 0x8008_0000, 0x8008_0000, 0x800C_0000>();
}

#[test]
fn demo_task_regions_do_not_overlap() {
    assert_no_overlap::<0x8008_1000, 0x8008_2000, 0x8008_2000, 0x8008_3000>();
    assert_no_overlap::<0x8008_2000, 0x8008_3000, 0x8008_3000, 0x8008_4000>();
    assert!(!MemoryRegion::<0x8008_1000, 0x8008_2000>::contains(0x8008_2000));
    assert!(MemoryRegion::<0x8008_2000, 0x8008_3000>::contains(0x8008_2000));
}
