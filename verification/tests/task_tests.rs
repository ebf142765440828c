use rcore_mm::mm::address::PhysPageNum;
use rcore_mm::mm::kalloc::Kallocator;
use rcore_mm::mm::memory_space::MemorySpace;
use rcore_mm::mm::pgtbl::Pgtbl;
use rcore_mm::mm::phys_mem::PhysMem;
use rcore_mm::process::cpu::{current_hart, find_hart, init_hart, Cpu};
use rcore_mm::process::PcbState;
use rcore_mm::task::tasks::{TaskControlBlock, TaskStatus};
use rcore_mm::task::{schedule_pcb, TaskManagerInner};

fn setup(npages: u64) -> (PhysMem, Kallocator, MemorySpace) {
    let mut mem = PhysMem::new(0x80000, npages as usize);
    let mut alloc = Kallocator::default();
    alloc.init(&mut mem, PhysPageNum(0x80000)..PhysPageNum(0x80000 + npages));
    let mut space = MemorySpace::default();
    space.page_table = Pgtbl::new(&mut mem, &mut alloc);
    (mem, alloc, space)
}

#[test]
fn task_control_block_accessors() {
    let empty = TaskControlBlock::empty_block();
    assert_eq!(empty.get_status(), TaskStatus::UnInit);
    let mut space = MemorySpace::default();
    space.page_table.root = PhysPageNum(0x81234);
    let mut tcb = TaskControlBlock::new(TaskStatus::Ready, space);
    assert_eq!(tcb.get_status(), TaskStatus::Ready);
    assert_eq!(tcb.get_satp(), 0x8000_0000_0008_1234);
    assert_eq!(tcb.get_cx_ptr(), 0xFFFF_FFFF_FFFF_E000);
    tcb.set_status(TaskStatus::Running);
    assert_eq!(tcb.get_status(), TaskStatus::Running);
    tcb.set_satp(5);
    assert_eq!(tcb.get_satp(), 0x8000_0000_0008_1234);
    tcb.get_memory_space().entry = 0x400;
    assert_eq!(tcb.get_memory_space().entry(), 0x400);
}

#[test]
fn loaded_process_sits_in_the_first_free_slot() {
    let (mut mem, mut alloc, space) = setup(16);
    let mut tm = TaskManagerInner::new();
    tm.load_pcb(space, &mut mem, &mut alloc, 0, 0, 0);
    let pcb = tm.get_pcb(0);
    assert_eq!(pcb.pid, Some(0));
    assert_eq!(pcb.state(), PcbState::Ready);
    assert_eq!(pcb.trapframe().0, 0x80001 * 4096);
}

#[test]
fn a_full_table_keeps_its_processes() {
    let (mut mem, mut alloc, space) = setup(32);
    let mut tm = TaskManagerInner::new();
    tm.load_pcb(space, &mut mem, &mut alloc, 0, 0, 0);
    let mut second = MemorySpace::default();
    second.page_table = Pgtbl::new(&mut mem, &mut alloc);
    tm.load_pcb(second, &mut mem, &mut alloc, 0, 0, 0);
    // one slot only: the first process stays
    assert_eq!(tm.get_pcb(0).trapframe().0, 0x80001 * 4096);
}

#[test]
fn scheduling_runs_the_first_ready_process() {
    let (mut mem, mut alloc, space) = setup(16);
    let mut tm = TaskManagerInner::new();
    tm.load_pcb(space, &mut mem, &mut alloc, 0, 0, 0);
    let mut harts: Vec<Cpu> = Vec::new();
    init_hart(&mut harts, 0);
    let satp = schedule_pcb(&mut tm, &mut harts, 0, &mem);
    assert_eq!(satp, Some(0x80000 | 0x8000_0000_0000_0000));
    assert_eq!(tm.get_pcb(0).state(), PcbState::Running);
    assert_eq!(current_hart(&harts, 0).pid, Some(0));
    assert_eq!(tm.current_pcb(&harts, 0).pid, Some(0));
    // nothing is ready any more
    assert_eq!(schedule_pcb(&mut tm, &mut harts, 0, &mem), None);
}

#[test]
fn yield_and_exit_change_the_current_process() {
    let (mut mem, mut alloc, space) = setup(16);
    let mut tm = TaskManagerInner::new();
    tm.load_pcb(space, &mut mem, &mut alloc, 0, 0, 0);
    let mut harts: Vec<Cpu> = Vec::new();
    init_hart(&mut harts, 0);
    schedule_pcb(&mut tm, &mut harts, 0, &mem);
    tm.set_current_task_ready(&harts, 0);
    assert_eq!(tm.get_pcb(0).state(), PcbState::Ready);
    assert!(schedule_pcb(&mut tm, &mut harts, 0, &mem).is_some());
    tm.exit_current_task(&harts, 0);
    assert_eq!(tm.get_pcb(0).state(), PcbState::Exit);
    assert_eq!(schedule_pcb(&mut tm, &mut harts, 0, &mem), None);
}

#[test]
fn saved_context_is_read_through_the_context_page() {
    let (mut mem, mut alloc, mut space) = setup(16);
    let ctx = rcore_mm::trap::context::TrapContext::app_init_context(0x1000, 0x2000, 7, 8, 9, 10, 0);
    space.map_context(&mut mem, &mut alloc, &ctx);
    let tcb = TaskControlBlock::new(TaskStatus::Ready, space);
    assert_eq!(tcb.get_context(&mut mem, &mut alloc), ctx);
}

#[test]
fn the_running_process_of_a_hart_is_found() {
    let (mut mem, mut alloc, space) = setup(16);
    let mut tm = TaskManagerInner::new();
    let mut harts: Vec<Cpu> = Vec::new();
    assert!(find_hart(&harts, 0).is_none());
    init_hart(&mut harts, 0);
    assert_eq!(find_hart(&harts, 0), Some(Cpu { hartid: 0, pid: None }));
    assert!(!tm.has_current(&harts, 0));
    tm.load_pcb(space, &mut mem, &mut alloc, 0, 0, 0);
    assert!(tm.ready_frames_in(&mem));
    schedule_pcb(&mut tm, &mut harts, 0, &mem);
    assert!(tm.has_current(&harts, 0));
    assert!(!tm.has_current(&harts, 1));
}

#[test]
fn a_ready_frame_outside_memory_is_reported() {
    let (mut mem, mut alloc, space) = setup(16);
    let mut tm = TaskManagerInner::new();
    tm.load_pcb(space, &mut mem, &mut alloc, 0, 0, 0);
    // a memory that ends before the process's trap frame
    let small = PhysMem::new(0x80000, 1);
    assert!(!tm.ready_frames_in(&small));
}
