use rcore_mm::mm::address::{PhysAddr, PhysPageNum};
use rcore_mm::mm::kalloc::Kallocator;
use rcore_mm::mm::phys_mem::PhysMem;

fn setup(npages: u64) -> (PhysMem, Kallocator) {
    let mut mem = PhysMem::new(0x80000, npages as usize);
    let mut alloc = Kallocator::default();
    alloc.init(&mut mem, PhysPageNum(0x80000)..PhysPageNum(0x80000 + npages));
    (mem, alloc)
}

#[test]
fn init_threads_the_free_list_through_the_frames() {
    let (mem, _alloc) = setup(4);
    assert_eq!(mem.read_page_word(PhysPageNum(0x80000), 0), 0x80001);
    assert_eq!(mem.read_page_word(PhysPageNum(0x80002), 0), 0x80003);
    assert_eq!(mem.read_page_word(PhysPageNum(0x80003), 0), 0);
}

#[test]
fn kalloc_hands_out_frames_lowest_first_and_zeroed() {
    let (mut mem, mut alloc) = setup(4);
    let a = alloc.kalloc(&mut mem);
    let b = alloc.kalloc(&mut mem);
    assert_eq!(a.0, 0x80000);
    assert_eq!(b.0, 0x80001);
    for i in 0..512 {
        assert_eq!(mem.read_page_word(a, i), 0);
    }
}

#[test]
fn freed_frame_comes_back_first() {
    let (mut mem, mut alloc) = setup(4);
    let a = alloc.kalloc(&mut mem);
    let _b = alloc.kalloc(&mut mem);
    mem.write_page_word(a, 7, 0xdead);
    alloc.kfree(&mut mem, a);
    assert_eq!(mem.read_page_word(a, 0), 0x80002);
    let c = alloc.kalloc(&mut mem);
    assert_eq!(c.0, a.0);
    assert_eq!(mem.read_page_word(c, 7), 0);
    let d = alloc.kalloc(&mut mem);
    assert_eq!(d.0, 0x80002);
}

#[test]
fn clear_zeroes_one_frame() {
    let mut mem = PhysMem::new(1, 2);
    mem.write_page_word(PhysPageNum(1), 3, 9);
    mem.write_page_word(PhysPageNum(2), 3, 9);
    PhysPageNum(1).clear(&mut mem);
    assert_eq!(mem.read_page_word(PhysPageNum(1), 3), 0);
    assert_eq!(mem.read_page_word(PhysPageNum(2), 3), 9);
}

#[test]
fn words_and_bytes_share_the_memory() {
    let mut mem = PhysMem::new(1, 1);
    mem.write_word(PhysAddr(0x1008), 0x1122_3344_5566_7788);
    assert_eq!(mem.read_byte(PhysAddr(0x1008)), 0x88);
    assert_eq!(mem.read_byte(PhysAddr(0x100F)), 0x11);
    mem.write_byte(PhysAddr(0x1009), 0xAB);
    assert_eq!(mem.read_word(PhysAddr(0x1008)), 0x1122_3344_5566_AB88);
    assert_eq!(mem.first_page().0, 1);
    assert_eq!(mem.page_count(), 1);
    assert!(mem.contains_page(PhysPageNum(1)));
    assert!(!mem.contains_page(PhysPageNum(2)));
}

#[test]
fn init_links_each_frame_to_the_next() {
    let mut mem = PhysMem::new(0x80000, 4);
    let mut alloc = Kallocator::default();
    alloc.init(&mut mem, PhysPageNum(0x80000)..PhysPageNum(0x80004));
    for p in 0x80000..0x80003u64 {
        assert_eq!(mem.read_page_word(PhysPageNum(p), 0), p + 1);
    }
    assert_eq!(mem.read_page_word(PhysPageNum(0x80003), 0), 0);
}

#[test]
fn kfree_writes_only_the_link_word() {
    let mut mem = PhysMem::new(0x80000, 4);
    let mut alloc = Kallocator::default();
    alloc.init(&mut mem, PhysPageNum(0x80000)..PhysPageNum(0x80004));
    let page = alloc.kalloc(&mut mem);
    mem.write_page_word(page, 1, 0x1234);
    alloc.kfree(&mut mem, page);
    assert_eq!(mem.read_page_word(page, 0), 0x80001);
    assert_eq!(mem.read_page_word(page, 1), 0x1234);
    assert_eq!(alloc.kalloc(&mut mem).0, page.0);
}
