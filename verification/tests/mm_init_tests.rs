use rcore_mm::mm::address::{PhysAddr, VirtualAddr};
use rcore_mm::mm::init;
use rcore_mm::mm::kalloc::Kallocator;
use rcore_mm::mm::phys_mem::PhysMem;
use rcore_mm::mm::pte_sv39::PTE;

#[test]
fn kernel_memory_maps_the_kernel_to_itself() {
    let mut mem = PhysMem::new(0x80200, 0x600);
    let mut alloc = Kallocator::default();
    let code = [0x73u8, 0x00, 0x20, 0x10];
    let (kernel, tried) = init(&mut mem, &mut alloc, 0x803F_F000, 0x8020_0000, 0x8080_0000, &code);
    assert_eq!(kernel.get_root_ppn().0, 0x80400);
    assert_eq!(kernel.entry(), 0);
    for page in [0x80200u64, 0x80345, 0x807FF] {
        let pa = kernel.page_table.walk(&mut mem, &mut alloc, VirtualAddr(page * 4096), false);
        let leaf = PTE::from_bits(mem.read_word(pa));
        assert_eq!(leaf.ppn().0, page);
        assert_eq!(leaf.flags().bits(), 15);
    }
    let pa = kernel.page_table.walk(&mut mem, &mut alloc, VirtualAddr(0xFFFF_FFFF_FFFF_F000), false);
    let trampoline = PTE::from_bits(mem.read_word(pa));
    assert_eq!(trampoline.flags().bits(), 11);
    let base = trampoline.ppn().0 * 4096;
    for (k, b) in code.iter().enumerate() {
        assert_eq!(mem.read_byte(PhysAddr(base + k as u64)), *b);
    }
    // root, one level-1 table, three leaf tables, the trampoline page and
    // its two tables come first
    assert_eq!(tried.0, 0x80408);
}
