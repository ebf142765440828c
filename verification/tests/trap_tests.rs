use rcore_mm::console::print;
use rcore_mm::process::trapframe::TrapFrame;
use rcore_mm::sbi::{put_char, shutdown, PUT_CHAR, SET_TIMER, SHUTDOWN};
use rcore_mm::syscall::{syscall, Syscall, SYS_EXIT, SYS_WRITE, SYS_YIELD};
use rcore_mm::trap::context::{set_spp_user, TrapContext};
use rcore_mm::trap::time::{set_next_trigger, set_timecmp};
use rcore_mm::trap::{syscall_return, trap_cause, trap_handler, TrapAction, TrapCause};

#[test]
fn syscall_numbers_select_calls() {
    assert_eq!(syscall(SYS_WRITE, [1, 0x1000, 5]), Some(Syscall::Write { fd: 1, buf: 0x1000, len: 5 }));
    assert_eq!(syscall(SYS_EXIT, [3, 0, 0]), Some(Syscall::Exit { code: 3 }));
    assert_eq!(syscall(SYS_YIELD, [0x9000, 0, 0]), Some(Syscall::Yield { frame: 0x9000 }));
    assert_eq!(syscall(63, [0, 0, 0]), None);
    assert_eq!(SYS_WRITE, 64);
    assert_eq!(SYS_EXIT, 93);
    assert_eq!(SYS_YIELD, 124);
}

#[test]
fn ecall_resumes_after_the_instruction() {
    let mut tf = TrapFrame::default(0);
    tf.sepc = 0x1000;
    tf.general_reg[17] = SYS_WRITE;
    tf.general_reg[10] = 1;
    tf.general_reg[11] = 0x2000;
    tf.general_reg[12] = 4;
    match trap_handler(TrapCause::UserEnvCall, &mut tf, 0xdead_0000) {
        TrapAction::Syscall { id, args } => {
            assert_eq!(id, SYS_WRITE);
            assert_eq!(args, [1, 0x2000, 4]);
        }
        other => panic!("unexpected {:?}", other),
    }
    assert_eq!(tf.sepc, 0x1004);
}

#[test]
fn yield_gets_the_trap_frame_address() {
    let mut tf = TrapFrame::default(0);
    tf.general_reg[17] = SYS_YIELD;
    tf.general_reg[10] = 7;
    match trap_handler(TrapCause::UserEnvCall, &mut tf, 0xdead_0000) {
        TrapAction::Syscall { id, args } => {
            assert_eq!(id, SYS_YIELD);
            assert_eq!(args[0], 0xdead_0000);
        }
        other => panic!("unexpected {:?}", other),
    }
}

#[test]
fn timer_and_faults() {
    let mut tf = TrapFrame::default(0);
    tf.sepc = 0x40;
    let before = tf;
    match trap_handler(TrapCause::SupervisorTimer, &mut tf, 0x5000) {
        TrapAction::Timer { frame } => assert_eq!(frame, 0x5000),
        other => panic!("unexpected {:?}", other),
    }
    assert_eq!(tf, before);
    for cause in [
        TrapCause::StoreFault,
        TrapCause::StorePageFault,
        TrapCause::IllegalInstruction,
        TrapCause::InstructionPageFault,
        TrapCause::Other,
    ] {
        assert!(matches!(trap_handler(cause, &mut tf, 0), TrapAction::Fault));
        assert_eq!(tf, before);
    }
}

#[test]
fn syscall_result_goes_to_a0() {
    let mut tf = TrapFrame::default(0);
    syscall_return(&mut tf, -1);
    assert_eq!(tf.general_reg[10], u64::MAX);
    syscall_return(&mut tf, 0);
    assert_eq!(tf.general_reg[10], 0);
}

#[test]
fn sbi_calls() {
    let s = shutdown();
    assert_eq!(s.which, SHUTDOWN);
    assert_eq!(s.args, [0, 0, 0]);
    let c = put_char('A');
    assert_eq!(c.which, PUT_CHAR);
    assert_eq!(c.args, [65, 0, 0]);
    let t = set_timecmp(1234);
    assert_eq!(t.which, SET_TIMER);
    assert_eq!(t.args, [1234, 0, 0]);
    let n = set_next_trigger(1000);
    assert_eq!(n.which, SET_TIMER);
    assert_eq!(n.args, [126_000, 0, 0]);
}

#[test]
fn printing_sends_one_call_per_character() {
    let calls = print("hé!");
    assert_eq!(calls.len(), 3);
    assert_eq!(calls[0].args[0], 'h' as u64);
    assert_eq!(calls[1].args[0], 'é' as u64);
    assert_eq!(calls[2].args[0], '!' as u64);
    assert!(calls.iter().all(|c| c.which == PUT_CHAR));
    assert!(print("").is_empty());
}

#[test]
fn application_context_starts_in_user_mode() {
    let cx = TrapContext::app_init_context(0x1000, 0x8000, 1, 2, 3, 4, 0x1FF);
    assert_eq!(cx.sepc, 0x1000);
    assert_eq!(cx.general_reg[2], 0x8000);
    assert_eq!(cx.general_reg[1], 0);
    assert_eq!(cx.sstatus, 0xFF);
    assert_eq!(cx.satp, 1);
    assert_eq!(cx.kernel_satp, 2);
    assert_eq!(cx.kernel_sp, 3);
    assert_eq!(cx.trap_handler, 4);
    assert_eq!(set_spp_user(0x100), 0);
    assert_eq!(set_spp_user(0x2), 0x2);
}

#[test]
fn scause_values_name_causes() {
    assert_eq!(trap_cause(8), TrapCause::UserEnvCall);
    assert_eq!(trap_cause(7), TrapCause::StoreFault);
    assert_eq!(trap_cause(15), TrapCause::StorePageFault);
    assert_eq!(trap_cause(2), TrapCause::IllegalInstruction);
    assert_eq!(trap_cause(12), TrapCause::InstructionPageFault);
    assert_eq!(trap_cause(0x8000_0000_0000_0005), TrapCause::SupervisorTimer);
    assert_eq!(trap_cause(5), TrapCause::Other);
    assert_eq!(trap_cause(0x8000_0000_0000_0009), TrapCause::Other);
}
