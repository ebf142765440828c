use rcore_mm::mm::address::PhysPageNum;
use rcore_mm::mm::pte_sv39::{PTEFlag, PTE};

#[test]
fn flag_values() {
    assert_eq!(PTEFlag::empty().bits(), 0);
    assert_eq!(PTEFlag::v().bits(), 1);
    assert_eq!(PTEFlag::r().bits(), 2);
    assert_eq!(PTEFlag::w().bits(), 4);
    assert_eq!(PTEFlag::x().bits(), 8);
    assert_eq!(PTEFlag::u().bits(), 16);
    assert_eq!(PTEFlag::g().bits(), 32);
    assert_eq!(PTEFlag::a().bits(), 64);
    assert_eq!(PTEFlag::d().bits(), 128);
}

#[test]
fn flag_set_operations() {
    let rw = PTEFlag::r().union(PTEFlag::w());
    assert_eq!(rw.bits(), 6);
    assert!(rw.contains(PTEFlag::r()));
    assert!(!rw.contains(PTEFlag::x()));
    assert_eq!(rw.intersection(PTEFlag::w()).bits(), 4);
    assert_eq!(PTEFlag::from_bits(0xFF).map(|f| f.bits()), Some(0xFF));
    assert!(PTEFlag::from_bits(0x100).is_none());
}

#[test]
fn new_entry_round_trip() {
    let flags = PTEFlag::v().union(PTEFlag::r()).union(PTEFlag::x());
    let pte = PTE::new(PhysPageNum(0x80321), flags);
    assert_eq!(pte.bits(), (0x80321 << 10) | 11);
    assert_eq!(pte.ppn().0, 0x80321);
    assert_eq!(pte.flags().bits(), 11);
    assert!(pte.is_valid());
    assert!(pte.is_leaf());
    assert!(pte.is_readable());
    assert!(pte.test_flags(PTEFlag::x()));
    assert!(!pte.test_flags(PTEFlag::w()));
}

#[test]
fn directory_entry_is_not_a_leaf() {
    let pte = PTE::new(PhysPageNum(5), PTEFlag::v());
    assert!(pte.is_valid());
    assert!(!pte.is_leaf());
    assert!(!pte.is_readable());
    assert!(!PTE::from_bits(0).is_valid());
}

#[test]
fn set_ppn_keeps_flags_and_set_flags_keeps_ppn() {
    let mut pte = PTE::new(PhysPageNum(3), PTEFlag::v().union(PTEFlag::w()));
    pte.set_ppn(PhysPageNum(9));
    assert_eq!(pte.ppn().0, 9);
    assert_eq!(pte.flags().bits(), 5);
    pte.set_flags(PTEFlag::r());
    assert_eq!(pte.ppn().0, 9);
    assert_eq!(pte.flags().bits(), 2);
    assert!(!pte.is_valid());
}
