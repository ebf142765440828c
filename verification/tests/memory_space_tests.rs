use rcore_mm::mm::address::{PhysAddr, PhysPageNum, VirtualAddr};
use rcore_mm::mm::kalloc::Kallocator;
use rcore_mm::mm::memory_space::MemorySpace;
use rcore_mm::mm::pgtbl::Pgtbl;
use rcore_mm::mm::phys_mem::PhysMem;
use rcore_mm::mm::pte_sv39::{PTEFlag, PTE};
use rcore_mm::trap::context::TrapContext;

fn setup(npages: u64) -> (PhysMem, Kallocator, MemorySpace) {
    let mut mem = PhysMem::new(0x80000, npages as usize);
    let mut alloc = Kallocator::default();
    alloc.init(&mut mem, PhysPageNum(0x80000)..PhysPageNum(0x80000 + npages));
    let mut space = MemorySpace::default();
    space.page_table = Pgtbl::new(&mut mem, &mut alloc);
    (mem, alloc, space)
}

fn leaf(space: &MemorySpace, mem: &mut PhysMem, alloc: &mut Kallocator, va: u64) -> PTE {
    let pa = space.page_table.walk(mem, alloc, VirtualAddr(va), false);
    PTE::from_bits(mem.read_word(pa))
}

#[test]
fn fixed_pages_of_every_space() {
    assert_eq!(MemorySpace::trampoline_page().0, 0x7FF_FFFF);
    assert_eq!(MemorySpace::context_page().0, 0x7FF_FFFE);
    assert_eq!(MemorySpace::context_addr().0, 0xFFFF_FFFF_FFFF_E000);
    let (alltraps, restore) = MemorySpace::trampoline_entry(0x8020_0000, 0x8020_0060);
    assert_eq!(alltraps, 0xFFFF_FFFF_FFFF_F000);
    assert_eq!(restore, 0xFFFF_FFFF_FFFF_F060);
    let space = MemorySpace::default();
    assert_eq!(space.get_root_ppn().0, 0);
    assert_eq!(space.entry(), 0);
    assert_eq!(space.get_stack(), 1024);
}

#[test]
fn data_written_through_the_map_reads_back() {
    let (mut mem, mut alloc, mut space) = setup(16);
    let data = [1u8, 2, 3, 4, 5, 6];
    let flags = PTEFlag::u().union(PTEFlag::r()).union(PTEFlag::x());
    space.map_area_data_each_byte(&mut mem, &mut alloc, VirtualAddr(0x1FFD)..VirtualAddr(0x2003), flags, &data);
    let first = leaf(&space, &mut mem, &mut alloc, 0x1000);
    let second = leaf(&space, &mut mem, &mut alloc, 0x2000);
    assert_eq!(first.flags().bits(), 16 | 2 | 8 | 1);
    assert_eq!(second.flags().bits(), 16 | 2 | 8 | 1);
    assert_ne!(first.ppn().0, second.ppn().0);
    let mut out = vec![0u8; 3];
    space.copy_virtual_address(&mut mem, &mut alloc, VirtualAddr(0x1FFD), 3, &mut out);
    assert_eq!(out, vec![1, 2, 3]);
    space.copy_virtual_address(&mut mem, &mut alloc, VirtualAddr(0x2000), 3, &mut out);
    assert_eq!(out, vec![4, 5, 6]);
    // the rest of a fresh page is zero
    space.copy_virtual_address(&mut mem, &mut alloc, VirtualAddr(0x2003), 2, &mut out);
    assert_eq!(out, vec![0, 0, 6]);
}

#[test]
fn zero_area_writes_at_the_page_numbers_of_its_ends() {
    let (mut mem, mut alloc, mut space) = setup(16);
    space.map_area_zero(&mut mem, &mut alloc, VirtualAddr(0x1000)..VirtualAddr(0x3000), PTEFlag::r());
    // bytes 1 and 2 of page 0 are written, so page 0 is mapped; page 1 is not
    let zero_page = leaf(&space, &mut mem, &mut alloc, 0);
    assert!(zero_page.is_valid());
    assert_eq!(zero_page.flags().bits(), 3);
    assert!(!leaf(&space, &mut mem, &mut alloc, 0x1000).is_valid());
}

#[test]
fn context_page_holds_the_context() {
    let (mut mem, mut alloc, mut space) = setup(16);
    let ctx = TrapContext::app_init_context(0x1000, 0x2000, 7, 8, 9, 10, 0x120);
    let frame = space.map_context(&mut mem, &mut alloc, &ctx);
    assert_eq!(mem.read_page_word(frame, 2), 0x2000);
    assert_eq!(mem.read_page_word(frame, 32), 0x20);
    assert_eq!(mem.read_page_word(frame, 33), 0x1000);
    assert_eq!(mem.read_page_word(frame, 34), 7);
    assert_eq!(mem.read_page_word(frame, 37), 10);
    let ctx_leaf = leaf(&space, &mut mem, &mut alloc, 0xFFFF_FFFF_FFFF_E000);
    assert_eq!(ctx_leaf.ppn().0, frame.0);
    assert_eq!(ctx_leaf.flags().bits(), 7);
}

#[test]
fn trapframe_page_maps_to_the_given_frame() {
    let (mut mem, mut alloc, mut space) = setup(16);
    space.map_trapframe(&mut mem, &mut alloc, PhysAddr(0x8000F000));
    let ctx_leaf = leaf(&space, &mut mem, &mut alloc, 0xFFFF_FFFF_FFFF_E000);
    assert_eq!(ctx_leaf.ppn().0, 0x8000F);
    assert_eq!(ctx_leaf.flags().bits(), 7);
}

#[test]
fn trampoline_page_holds_the_code() {
    let (mut mem, mut alloc, mut space) = setup(16);
    let code = [0x13u8, 0x00, 0x00, 0x00, 0x73];
    space.map_trampoline(&mut mem, &mut alloc, &code);
    let t = leaf(&space, &mut mem, &mut alloc, 0xFFFF_FFFF_FFFF_F000);
    assert_eq!(t.flags().bits(), 11);
    let base = t.ppn().0 * 4096;
    for (k, b) in code.iter().enumerate() {
        assert_eq!(mem.read_byte(PhysAddr(base + k as u64)), *b);
    }
    assert_eq!(mem.read_byte(PhysAddr(base + 5)), 0);
}

#[test]
fn mapped_pages_are_reported() {
    let (mut mem, mut alloc, mut space) = setup(16);
    let page = MemorySpace::trampoline_page().0;
    assert!(!space.is_mapped(&mem, &alloc, page));
    space.map_trampoline(&mut mem, &mut alloc, &[0x73, 0, 0, 0]);
    assert!(space.is_mapped(&mem, &alloc, page));
    assert!(!space.is_mapped(&mem, &alloc, page - 1));
    assert!(!space.is_mapped(&mem, &alloc, 0));
}
