use rcore_mm::mm::address::{PhysAddr, PhysPageNum, VirtualAddr, VirtualPageNum};
use rcore_mm::mm::kalloc::Kallocator;
use rcore_mm::mm::page_table::{PageTable, PhysFrameTracker};
use rcore_mm::mm::phys_mem::PhysMem;
use rcore_mm::mm::pte_sv39::{PTEFlag, PTE};

fn setup(npages: u64) -> (PhysMem, Kallocator) {
    let mut mem = PhysMem::new(0x80000, npages as usize);
    let mut alloc = Kallocator::default();
    alloc.init(&mut mem, PhysPageNum(0x80000)..PhysPageNum(0x80000 + npages));
    (mem, alloc)
}

fn leaf(table: &PageTable, mem: &mut PhysMem, alloc: &mut Kallocator, vpn: u64) -> PTE {
    let pa = table.find_pte(mem, alloc, VirtualPageNum(vpn), None).expect("path");
    PTE::from_bits(mem.read_word(pa))
}

#[test]
fn lookup_makes_tables_and_maps_each_into_the_table() {
    let (mut mem, mut alloc) = setup(16);
    let table = PageTable::new(&mut mem, &mut alloc, false, None).expect("a frame");
    assert_eq!(table.root_ppn.0, 0x80000);
    let pa = table.find_pte(&mut mem, &mut alloc, VirtualPageNum(1), None).expect("frames");
    // the level-1 table of page 1 is 0x80001; mapping it at page 0x80001
    // takes 0x80002 (level 1) and 0x80003 (leaf table); the leaf table of
    // page 1 is 0x80004
    assert_eq!(pa.0, 0x80004 * 4096 + 8);
    assert_eq!(mem.read_page_word(PhysPageNum(0x80000), 0), (0x80001 << 10) | 1);
    assert_eq!(mem.read_page_word(PhysPageNum(0x80000), 2), (0x80002 << 10) | 1);
    assert_eq!(mem.read_page_word(PhysPageNum(0x80002), 0), (0x80003 << 10) | 1);
    assert_eq!(mem.read_page_word(PhysPageNum(0x80001), 0), (0x80004 << 10) | 1);
    for k in 1..5u64 {
        assert_eq!(mem.read_page_word(PhysPageNum(0x80003), k), ((0x80000 + k) << 10) | 7);
    }
    assert_eq!(mem.read_page_word(PhysPageNum(0x80003), 0), 0);
    assert_eq!(alloc.kalloc(&mut mem).0, 0x80005);
}

#[test]
fn lookup_of_a_present_path_takes_nothing() {
    let (mut mem, mut alloc) = setup(16);
    let table = PageTable::new(&mut mem, &mut alloc, false, None).expect("a frame");
    let first = table.find_pte(&mut mem, &mut alloc, VirtualPageNum(1), None).expect("frames");
    let again = table.find_pte(&mut mem, &mut alloc, VirtualPageNum(1), None).expect("frames");
    assert_eq!(first.0, again.0);
    assert_eq!(alloc.kalloc(&mut mem).0, 0x80005);
}

#[test]
fn lookup_without_frames_gives_none() {
    let (mut mem, mut alloc) = setup(1);
    let table = PageTable::new(&mut mem, &mut alloc, false, None).expect("a frame");
    assert!(table.find_pte(&mut mem, &mut alloc, VirtualPageNum(1), None).is_none());
}

#[test]
fn new_table_can_be_read_through_itself_and_its_parent() {
    let (mut mem, mut alloc) = setup(32);
    let parent = PageTable::new(&mut mem, &mut alloc, false, None).expect("a frame");
    let child = PageTable::new(&mut mem, &mut alloc, true, Some(&parent)).expect("frames");
    let root = child.root_ppn.0;
    assert_eq!(root, 0x80001);
    let own = leaf(&child, &mut mem, &mut alloc, root);
    assert_eq!(own.bits(), (root << 10) | 3);
    let in_parent = leaf(&parent, &mut mem, &mut alloc, root);
    assert_eq!(in_parent.bits(), (root << 10) | 7);
}

#[test]
fn map_frame_maps_only_a_free_slot() {
    let (mut mem, mut alloc) = setup(32);
    let table = PageTable::new(&mut mem, &mut alloc, false, None).expect("a frame");
    let first = table.map_frame(&mut mem, &mut alloc, VirtualPageNum(0x10), PTEFlag::r(), PhysPageNum(0x80100));
    assert_eq!(first.expect("frames").0 .0, 0x80100);
    let second = table.map_frame(&mut mem, &mut alloc, VirtualPageNum(0x10), PTEFlag::w(), PhysPageNum(0x80200));
    assert_eq!(second.expect("frames").0 .0, 0x80100);
    let e = leaf(&table, &mut mem, &mut alloc, 0x10);
    assert_eq!(e.bits(), (0x80100 << 10) | 3);
}

#[test]
fn map_gives_a_fresh_frame_that_the_kernel_maps_too() {
    let (mut mem, mut alloc) = setup(64);
    let kernel = PageTable::new(&mut mem, &mut alloc, false, None).expect("a frame");
    let user = PageTable::new(&mut mem, &mut alloc, false, None).expect("a frame");
    let flags = PTEFlag::r().union(PTEFlag::u());
    let frame = user.map(&mut mem, &mut alloc, VirtualPageNum(7), flags, &kernel).expect("frames").0;
    let e = leaf(&user, &mut mem, &mut alloc, 7);
    assert_eq!(e.bits(), (frame.0 << 10) | 2 | 16 | 1);
    let k = leaf(&kernel, &mut mem, &mut alloc, frame.0);
    assert_eq!(k.bits(), (frame.0 << 10) | 7);
    // a second map adds the flags to the same frame
    let again = user.map(&mut mem, &mut alloc, VirtualPageNum(7), PTEFlag::w(), &kernel).expect("frames").0;
    assert_eq!(again.0, frame.0);
    let e = leaf(&user, &mut mem, &mut alloc, 7);
    assert_eq!(e.bits(), (frame.0 << 10) | 2 | 4 | 16 | 1);
}

#[test]
fn unmap_clears_the_flags() {
    let (mut mem, mut alloc) = setup(32);
    let table = PageTable::new(&mut mem, &mut alloc, false, None).expect("a frame");
    table.map_frame(&mut mem, &mut alloc, VirtualPageNum(0x10), PTEFlag::r(), PhysPageNum(0x80100));
    table.unmap(&mut mem, &mut alloc, VirtualPageNum(0x10), None);
    let e = leaf(&table, &mut mem, &mut alloc, 0x10);
    assert!(!e.is_valid());
    assert_eq!(e.bits(), 0x80100 << 10);
}

#[test]
fn area_is_mapped_to_the_same_frames() {
    let (mut mem, mut alloc) = setup(32);
    let table = PageTable::new(&mut mem, &mut alloc, false, None).expect("a frame");
    table.map_on_the_area(&mut mem, &mut alloc, VirtualAddr(0x1000), VirtualAddr(0x3fff), PTEFlag::r());
    for n in 1..4u64 {
        let e = leaf(&table, &mut mem, &mut alloc, n);
        assert_eq!(e.bits(), (n << 10) | 3);
    }
    assert!(!leaf(&table, &mut mem, &mut alloc, 4).is_valid());
}

#[test]
fn frame_tracker_takes_a_frame_and_writes_into_it() {
    let (mut mem, mut alloc) = setup(8);
    let no_table = PageTable { root_ppn: PhysPageNum(0) };
    let mut t = PhysFrameTracker::new(&mut mem, &mut alloc, false, &no_table).expect("a frame");
    assert_eq!(t.0 .0, 0x80000);
    t.write(&mut mem, 10, &[1, 2, 3]);
    assert_eq!(mem.read_byte(PhysAddr(0x80000 * 4096 + 10)), 1);
    assert_eq!(mem.read_byte(PhysAddr(0x80000 * 4096 + 12)), 3);
    assert_eq!(mem.read_byte(PhysAddr(0x80000 * 4096 + 13)), 0);
    assert_eq!(PhysFrameTracker::default().0 .0, 0);
    assert_eq!(alloc.kalloc(&mut mem).0, 0x80001);
}

#[test]
fn frame_tracker_is_mapped_into_the_kernel() {
    let (mut mem, mut alloc) = setup(16);
    let kernel = PageTable::new(&mut mem, &mut alloc, false, None).expect("a frame");
    let t = PhysFrameTracker::new(&mut mem, &mut alloc, true, &kernel).expect("frames");
    assert_eq!(t.0 .0, 0x80001);
    let e = leaf(&kernel, &mut mem, &mut alloc, 0x80001);
    assert_eq!(e.bits(), (0x80001 << 10) | 7);
}

#[test]
fn default_table_has_no_frame() {
    assert_eq!(PageTable::default().root_ppn.0, 0);
}

#[test]
fn second_unmap_changes_nothing() {
    let (mut mem, mut alloc) = setup(32);
    let table = PageTable::new(&mut mem, &mut alloc, false, None).expect("a frame");
    table.map_frame(&mut mem, &mut alloc, VirtualPageNum(0x10), PTEFlag::r(), PhysPageNum(0x80100));
    table.unmap(&mut mem, &mut alloc, VirtualPageNum(0x10), None);
    let once = leaf(&table, &mut mem, &mut alloc, 0x10);
    table.unmap(&mut mem, &mut alloc, VirtualPageNum(0x10), None);
    let twice = leaf(&table, &mut mem, &mut alloc, 0x10);
    assert_eq!(once.bits(), twice.bits());
}

#[test]
fn lookup_with_a_kernel_table_maps_new_tables_there() {
    let (mut mem, mut alloc) = setup(32);
    let kernel = PageTable::new(&mut mem, &mut alloc, false, None).expect("a frame");
    let user = PageTable::new(&mut mem, &mut alloc, false, None).expect("a frame");
    assert_eq!(user.root_ppn.0, 0x80001);
    let pa = user.find_pte(&mut mem, &mut alloc, VirtualPageNum(1), Some(&kernel)).expect("frames");
    // the user's new tables: level 1 at 0x80002, leaf table at the frame after
    // the kernel's own tables for mapping 0x80002
    let l1 = PTE::from_bits(mem.read_page_word(PhysPageNum(0x80001), 0));
    assert!(l1.is_valid());
    assert_eq!(l1.ppn().0, 0x80002);
    let leaf_table = PTE::from_bits(mem.read_page_word(PhysPageNum(0x80002), 0)).ppn().0;
    assert_eq!(pa.0, leaf_table * 4096 + 8);
    // both are mapped into the kernel's table, not into the user's
    assert_eq!(leaf(&kernel, &mut mem, &mut alloc, 0x80002).bits(), (0x80002 << 10) | 7);
    assert_eq!(leaf(&kernel, &mut mem, &mut alloc, leaf_table).bits(), (leaf_table << 10) | 7);
    // the user's table maps nothing of its own: its root entry for those pages is empty
    assert_eq!(mem.read_page_word(PhysPageNum(0x80001), 2), 0);
}

#[test]
fn unmap_with_a_kernel_table_clears_the_flags() {
    let (mut mem, mut alloc) = setup(64);
    let kernel = PageTable::new(&mut mem, &mut alloc, false, None).expect("a frame");
    let user = PageTable::new(&mut mem, &mut alloc, false, None).expect("a frame");
    let frame = user.map(&mut mem, &mut alloc, VirtualPageNum(7), PTEFlag::r(), &kernel).expect("frames").0;
    user.unmap(&mut mem, &mut alloc, VirtualPageNum(7), Some(&kernel));
    assert_eq!(leaf(&user, &mut mem, &mut alloc, 7).bits(), frame.0 << 10);
}
