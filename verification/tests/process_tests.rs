use rcore_mm::mm::address::{PhysAddr, PhysPageNum, VirtualAddr};
use rcore_mm::mm::kalloc::Kallocator;
use rcore_mm::mm::memory_space::MemorySpace;
use rcore_mm::mm::pgtbl::Pgtbl;
use rcore_mm::mm::phys_mem::PhysMem;
use rcore_mm::mm::pte_sv39::PTE;
use rcore_mm::process::cpu::{current_hart, current_hart_set_pid, init_hart, Cpu};
use rcore_mm::process::trapframe::{register_index, TrapFrame};
use rcore_mm::process::{Pcb, PcbState};

fn setup(npages: u64) -> (PhysMem, Kallocator, MemorySpace) {
    let mut mem = PhysMem::new(0x80000, npages as usize);
    let mut alloc = Kallocator::default();
    alloc.init(&mut mem, PhysPageNum(0x80000)..PhysPageNum(0x80000 + npages));
    let mut space = MemorySpace::default();
    space.page_table = Pgtbl::new(&mut mem, &mut alloc);
    space.entry = 0x1_0000;
    (mem, alloc, space)
}

#[test]
fn registers_by_name() {
    let mut tf = TrapFrame::default(0x8020_0000);
    assert_eq!(tf.trap_handler, 0x8020_0000);
    tf.index_mut("a0", 42);
    tf.index_mut("sepc", 0x1004);
    tf.index_mut("satp", 9);
    tf.index_mut("sstatus", 3);
    assert_eq!(tf.index("a0"), 42);
    assert_eq!(tf.general_reg[10], 42);
    assert_eq!(tf.index("sepc"), 0x1004);
    assert_eq!(tf.index("satp"), 9);
    assert_eq!(tf.index("sstatus"), 3);
    assert_eq!(tf.index("a1"), 0);
}

#[test]
fn fp_and_s0_name_the_same_register() {
    let mut tf = TrapFrame::default(0);
    tf.index_mut("fp", 77);
    assert_eq!(tf.index("s0"), 77);
    assert_eq!(tf.general_reg[8], 77);
    assert_eq!(register_index("fp"), Some(8));
    assert_eq!(register_index("s0"), Some(8));
    assert_eq!(register_index("t6"), Some(31));
    assert_eq!(register_index("pc"), None);
}

#[test]
fn write_then_read_gives_the_value_back() {
    let names = ["zero", "ra", "sp", "gp", "tp", "t0", "t1", "t2", "s1", "a7", "s11", "t3"];
    for (k, name) in names.iter().enumerate() {
        let mut tf = TrapFrame::default(0);
        tf.index_mut(name, 100 + k as u64);
        assert_eq!(tf.index(name), 100 + k as u64);
    }
}

#[test]
fn trap_frame_store_and_load_round_trip() {
    let mut mem = PhysMem::new(1, 1);
    let mut tf = TrapFrame::default(5);
    tf.general_reg[3] = 33;
    tf.kernel_sp = 0x9000;
    tf.store(&mut mem, PhysPageNum(1));
    assert_eq!(mem.read_page_word(PhysPageNum(1), 3), 33);
    assert_eq!(mem.read_page_word(PhysPageNum(1), 36), 0x9000);
    assert_eq!(mem.read_page_word(PhysPageNum(1), 37), 5);
    let back = TrapFrame::load(&mem, PhysPageNum(1));
    assert_eq!(back, tf);
}

#[test]
fn frame_prepared_for_a_user_program() {
    let (_mem, _alloc, space) = setup(8);
    let mut tf = TrapFrame::default(0);
    tf.from_memory_space(space, 0x122, 0x8020_1000);
    assert_eq!(tf.index("sp"), 1024);
    assert_eq!(tf.satp, 0x80000 | 0x8000_0000_0000_0000);
    assert_eq!(tf.sepc, 0x1_0000);
    assert_eq!(tf.sstatus, 0x22);
    assert_eq!(tf.trap_handler, 0x8020_1000);
}

#[test]
fn new_process_gets_a_trap_frame_and_a_stack() {
    let (mut mem, mut alloc, space) = setup(16);
    let pcb = Pcb::new(space, &mut mem, &mut alloc, 0x100, 0xABC, 0x8020_1000);
    assert_eq!(pcb.pid, None);
    assert_eq!(pcb.state(), PcbState::UnInit);
    // root 0x80000, trap frame 0x80001, kernel stack 0x80002
    assert_eq!(pcb.trapframe().0, 0x80001 * 4096);
    let tf = TrapFrame::load(&mem, PhysPageNum(0x80001));
    assert_eq!(tf.general_reg[2], 1024);
    assert_eq!(tf.sepc, 0x1_0000);
    assert_eq!(tf.satp, 0x80000 | 0x8000_0000_0000_0000);
    assert_eq!(tf.sstatus, 0);
    assert_eq!(tf.kernel_satp, 0xABC);
    assert_eq!(tf.kernel_sp, 0x80002 * 4096 + 4096);
    assert_eq!(tf.trap_handler, 0x8020_1000);
    let pa = space.page_table.walk(&mut mem, &mut alloc, VirtualAddr(0xFFFF_FFFF_FFFF_E000), false);
    let leaf = PTE::from_bits(mem.read_word(pa));
    assert_eq!(leaf.ppn().0, 0x80001);
    assert_eq!(leaf.flags().bits(), 7);
    assert_eq!(mem.read_word(PhysAddr(0x80002 * 4096)), 0);
}

#[test]
fn set_state_returns_the_state_before() {
    let (mut mem, mut alloc, space) = setup(16);
    let mut pcb = Pcb::new(space, &mut mem, &mut alloc, 0, 0, 0);
    assert_eq!(pcb.set_state(PcbState::Ready), PcbState::UnInit);
    assert_eq!(pcb.set_state(PcbState::Running), PcbState::Ready);
    pcb.exit();
    assert_eq!(pcb.state(), PcbState::Exit);
}

#[test]
fn harts_record_their_process() {
    let mut harts: Vec<Cpu> = Vec::new();
    init_hart(&mut harts, 0);
    init_hart(&mut harts, 3);
    assert_eq!(current_hart(&harts, 3), Cpu { hartid: 3, pid: None });
    current_hart_set_pid(&mut harts, 3, 5);
    assert_eq!(current_hart(&harts, 3).pid, Some(5));
    assert_eq!(current_hart(&harts, 0).pid, None);
}
