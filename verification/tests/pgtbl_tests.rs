use rcore_mm::mm::address::{PhysPageNum, VirtualAddr};
use rcore_mm::mm::kalloc::Kallocator;
use rcore_mm::mm::pgtbl::Pgtbl;
use rcore_mm::mm::phys_mem::PhysMem;
use rcore_mm::mm::pte_sv39::{PTEFlag, PTE};

fn setup(npages: u64) -> (PhysMem, Kallocator) {
    let mut mem = PhysMem::new(0x80000, npages as usize);
    let mut alloc = Kallocator::default();
    alloc.init(&mut mem, PhysPageNum(0x80000)..PhysPageNum(0x80000 + npages));
    (mem, alloc)
}

#[test]
fn new_table_takes_the_first_free_frame() {
    let (mut mem, mut alloc) = setup(8);
    let pt = Pgtbl::new(&mut mem, &mut alloc);
    assert_eq!(pt.root.0, 0x80000);
    assert_eq!(Pgtbl::default().root.0, 0);
    let mut other = Pgtbl::default();
    other.init(PhysPageNum(0x80005));
    assert_eq!(other.root.0, 0x80005);
}

#[test]
fn walk_with_allocation_builds_two_tables() {
    let (mut mem, mut alloc) = setup(8);
    let pt = Pgtbl::new(&mut mem, &mut alloc);
    let va = VirtualAddr(0x1000);
    let pa = pt.walk(&mut mem, &mut alloc, va, true);
    // root 0x80000, level-1 table 0x80001, leaf table 0x80002; page number 1
    assert_eq!(pa.0, 0x80002 * 4096 + 8);
    let root_entry = PTE::from_bits(mem.read_page_word(PhysPageNum(0x80000), 0));
    assert!(root_entry.is_valid());
    assert!(!root_entry.is_leaf());
    assert_eq!(root_entry.ppn().0, 0x80001);
    let next = alloc.kalloc(&mut mem);
    assert_eq!(next.0, 0x80003);
}

#[test]
fn map_writes_the_leaf_entry() {
    let (mut mem, mut alloc) = setup(8);
    let pt = Pgtbl::new(&mut mem, &mut alloc);
    let va = VirtualAddr(0x40_0000);
    let flags = PTEFlag::v().union(PTEFlag::r()).union(PTEFlag::w());
    pt.map(&mut mem, &mut alloc, va, PhysPageNum(0x12345), flags);
    let pa = pt.walk(&mut mem, &mut alloc, va, false);
    let leaf = PTE::from_bits(mem.read_word(pa));
    assert_eq!(leaf.ppn().0, 0x12345);
    assert_eq!(leaf.flags().bits(), 7);
}

#[test]
fn mappages_maps_consecutive_frames() {
    let (mut mem, mut alloc) = setup(8);
    let pt = Pgtbl::new(&mut mem, &mut alloc);
    let flags = PTEFlag::v().union(PTEFlag::r());
    pt.mappages(&mut mem, &mut alloc, VirtualAddr(0x3000)..VirtualAddr(0x6000), PhysPageNum(0x500), flags);
    for (k, page) in [3u64, 4, 5].iter().enumerate() {
        let pa = pt.walk(&mut mem, &mut alloc, VirtualAddr(page * 4096), false);
        let leaf = PTE::from_bits(mem.read_word(pa));
        assert_eq!(leaf.ppn().0, 0x500 + k as u64);
        assert_eq!(leaf.flags().bits(), 3);
    }
    let pa = pt.walk(&mut mem, &mut alloc, VirtualAddr(0x6000), false);
    assert!(!PTE::from_bits(mem.read_word(pa)).is_valid());
}

#[test]
fn walk_writes_directory_entries_with_flags_exactly_valid() {
    let (mut mem, mut alloc) = setup(8);
    let pt = Pgtbl::new(&mut mem, &mut alloc);
    let va = VirtualAddr((3 << 30) | (5 << 21));
    pt.walk(&mut mem, &mut alloc, va, true);
    assert_eq!(mem.read_page_word(PhysPageNum(0x80000), 3), (0x80001 << 10) | 1);
    assert_eq!(mem.read_page_word(PhysPageNum(0x80001), 5), (0x80002 << 10) | 1);
    for j in 0..512u64 {
        if j != 5 {
            assert_eq!(mem.read_page_word(PhysPageNum(0x80001), j), 0);
        }
        assert_eq!(mem.read_page_word(PhysPageNum(0x80002), j), 0);
    }
}
