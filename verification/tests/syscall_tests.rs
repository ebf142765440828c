use rcore_mm::batch::{AppManager, AppManagerInner, KernelStack, UserStack, APP_BASE_ADDR};
use rcore_mm::mm::address::{PhysAddr, PhysPageNum, VirtualAddr};
use rcore_mm::trap::context::TrapContext;
use rcore_mm::mm::kalloc::Kallocator;
use rcore_mm::mm::memory_space::MemorySpace;
use rcore_mm::mm::pgtbl::Pgtbl;
use rcore_mm::mm::phys_mem::PhysMem;
use rcore_mm::mm::pte_sv39::PTEFlag;
use rcore_mm::process::cpu::{init_hart, Cpu};
use rcore_mm::process::PcbState;
use rcore_mm::sbi::SbiCall;
use rcore_mm::syscall::{sys_exit, sys_write, sys_yield, user_buffer_readable};
use rcore_mm::task::{schedule_pcb, TaskManagerInner};

fn setup(npages: u64) -> (PhysMem, Kallocator, MemorySpace) {
    let mut mem = PhysMem::new(0x80000, npages as usize);
    let mut alloc = Kallocator::default();
    alloc.init(&mut mem, PhysPageNum(0x80000)..PhysPageNum(0x80000 + npages));
    let mut space = MemorySpace::default();
    space.page_table = Pgtbl::new(&mut mem, &mut alloc);
    (mem, alloc, space)
}

fn printed(calls: &[SbiCall]) -> Vec<u64> {
    for c in calls {
        assert_eq!(c.which, 1);
        assert_eq!(c.args[1], 0);
        assert_eq!(c.args[2], 0);
    }
    calls.iter().map(|c| c.args[0]).collect()
}

#[test]
fn write_to_the_console_prints_each_character() {
    let (mut mem, mut alloc, mut space) = setup(16);
    let text = b"hello";
    space.map_area_data_each_byte(&mut mem, &mut alloc, VirtualAddr(0x3000)..VirtualAddr(0x3005), PTEFlag::r(), text);
    let out = sys_write(&mut space, &mut mem, &mut alloc, 1, 0x3000, 5).expect("console");
    assert_eq!(printed(&out), vec![0x68, 0x65, 0x6c, 0x6c, 0x6f]);
    let tail = sys_write(&mut space, &mut mem, &mut alloc, 1, 0x3003, 2).expect("console");
    assert_eq!(printed(&tail), vec![0x6c, 0x6f]);
}

#[test]
fn write_decodes_utf8_characters() {
    let (mut mem, mut alloc, mut space) = setup(16);
    let text = "h\u{e9}\u{20ac}!".as_bytes();
    assert_eq!(text.len(), 7);
    space.map_area_data_each_byte(&mut mem, &mut alloc, VirtualAddr(0x3000)..VirtualAddr(0x3007), PTEFlag::r(), text);
    let out = sys_write(&mut space, &mut mem, &mut alloc, 1, 0x3000, 7).expect("console");
    assert_eq!(printed(&out), vec![0x68, 0xe9, 0x20ac, 0x21]);
}

#[test]
fn write_of_bytes_that_are_not_utf8_is_refused() {
    let (mut mem, mut alloc, mut space) = setup(16);
    space.map_area_data_each_byte(&mut mem, &mut alloc, VirtualAddr(0x3000)..VirtualAddr(0x3002), PTEFlag::r(), &[0x68, 0xff]);
    assert!(sys_write(&mut space, &mut mem, &mut alloc, 1, 0x3000, 2).is_none());
}

#[test]
fn write_to_another_file_is_refused() {
    let (mut mem, mut alloc, mut space) = setup(16);
    space.map_area_data_each_byte(&mut mem, &mut alloc, VirtualAddr(0x3000)..VirtualAddr(0x3001), PTEFlag::r(), b"x");
    assert_eq!(sys_write(&mut space, &mut mem, &mut alloc, 2, 0x3000, 1), None);
}

#[test]
fn yield_then_exit() {
    let (mut mem, mut alloc, space) = setup(16);
    let mut tm = TaskManagerInner::new();
    tm.load_pcb(space, &mut mem, &mut alloc, 0, 0, 0);
    let mut harts: Vec<Cpu> = Vec::new();
    init_hart(&mut harts, 1);
    schedule_pcb(&mut tm, &mut harts, 1, &mem);
    assert_eq!(sys_yield(&mut tm, &harts, 1), 0);
    assert_eq!(tm.get_pcb(0).state(), PcbState::Ready);
    sys_exit(&mut tm, &harts, 1);
    assert_eq!(tm.get_pcb(0).state(), PcbState::Exit);
}

#[test]
fn stacks_start_at_their_top() {
    assert_eq!(KernelStack { base: 0x8030_0000 }.get_sp(), 0x8030_2000);
    assert_eq!(UserStack { base: 0x1000 }.get_sp(), 0x3000);
}

#[test]
fn application_addresses() {
    let inner = AppManagerInner { num_app: 1, current_app: 0, app_start: [(0x8040_0000, 0x8040_1234)] };
    assert_eq!(inner.app_start_addr(0), Some(0x8040_0000));
    assert_eq!(inner.app_start_addr(2), None);
    assert_eq!(inner.app_end_addr(0), Some(0x8040_1234));
    assert_eq!(inner.app_end_addr(1), Some(0x8040_1234));
    assert_eq!(inner.app_end_addr(2), None);
    let manager = AppManager { inner };
    assert_eq!(manager.inner.num_app, 1);
    assert_eq!(APP_BASE_ADDR, 0x80300000);
}

#[test]
fn context_pushed_below_the_stack_top() {
    let mut mem = PhysMem::new(0x80300, 4);
    let stack = KernelStack { base: 0x8030_0000 };
    let cx = TrapContext::app_init_context(0x1000, 0x8000, 1, 2, 3, 4, 0);
    let at = stack.push_context(&mut mem, cx);
    assert_eq!(at.0, 0x8030_2000 - 38 * 8);
    assert_eq!(mem.read_word(PhysAddr(at.0 + 2 * 8)), 0x8000);
    assert_eq!(mem.read_word(PhysAddr(at.0 + 33 * 8)), 0x1000);
    assert_eq!(mem.read_word(PhysAddr(at.0 + 37 * 8)), 4);
}

#[test]
fn application_image_is_copied_and_cleared() {
    let mut mem = PhysMem::new(0x80300, 0x200);
    for (k, b) in [9u8, 8, 7].iter().enumerate() {
        mem.write_byte(PhysAddr(0x8040_0000 + k as u64), *b);
    }
    let inner = AppManagerInner { num_app: 1, current_app: 0, app_start: [(0x8040_0000, 0x8040_0003)] };
    inner.load_app(&mut mem, 0);
    assert_eq!(mem.read_byte(PhysAddr(APP_BASE_ADDR)), 9);
    assert_eq!(mem.read_byte(PhysAddr(APP_BASE_ADDR + 2)), 7);
    assert_eq!(mem.read_byte(PhysAddr(APP_BASE_ADDR + 3)), 0);
    inner.clear_app(&mut mem, 0);
    assert_eq!(mem.read_byte(PhysAddr(0x8040_0000)), 0);
    assert_eq!(mem.read_byte(PhysAddr(0x8040_0002)), 0);
    assert_eq!(mem.read_byte(PhysAddr(APP_BASE_ADDR)), 9);
}

#[test]
fn readable_user_buffers() {
    let (mut mem, mut alloc, mut space) = setup(16);
    space.map_area_data_each_byte(&mut mem, &mut alloc, VirtualAddr(0x3000)..VirtualAddr(0x3005), PTEFlag::r(), b"hello");
    assert!(user_buffer_readable(&space, &mem, &alloc, 0x3000, 5));
    assert!(user_buffer_readable(&space, &mem, &alloc, 0x3FFF, 1));
    // the page table of 0x40_0000 does not exist
    assert!(!user_buffer_readable(&space, &mem, &alloc, 0x40_0000, 1));
    // runs past the end of physical memory
    assert!(!user_buffer_readable(&space, &mem, &alloc, 0x3000, 0x20_0000));
}
