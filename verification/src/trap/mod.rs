//! Traps from user mode: what the kernel does for each cause.
pub mod context;
pub mod time;

use vstd::prelude::*;
use crate::process::trapframe::TrapFrame;
use crate::syscall::SYS_YIELD;

verus! {

/// The causes of a trap that the kernel tells apart.
#[derive(Clone, Copy, Debug, PartialEq, Eq, Structural)]
pub enum TrapCause {
    UserEnvCall,
    StoreFault,
    StorePageFault,
    IllegalInstruction,
    InstructionPageFault,
    SupervisorTimer,
    Other,
}

/// The cause that the scause value `scause` records: bit 63 marks an
/// interrupt, the rest is the interrupt or exception number.
pub open spec fn cause_of(scause: u64) -> TrapCause {
    if scause >= 0x8000_0000_0000_0000 {
        if scause - 0x8000_0000_0000_0000 == 5 {
            TrapCause::SupervisorTimer
        } else {
            TrapCause::Other
        }
    } else if scause == 8 {
        TrapCause::UserEnvCall
    } else if scause == 7 {
        TrapCause::StoreFault
    } else if scause == 15 {
        TrapCause::StorePageFault
    } else if scause == 2 {
        TrapCause::IllegalInstruction
    } else if scause == 12 {
        TrapCause::InstructionPageFault
    } else {
        TrapCause::Other
    }
}

/// The cause of a trap, from the value of the scause register.
pub fn trap_cause(scause: u64) -> (r: TrapCause)
    ensures
        r == cause_of(scause),
{
    if scause >= 0x8000_0000_0000_0000 {
        if scause - 0x8000_0000_0000_0000 == 5 {
            TrapCause::SupervisorTimer
        } else {
            TrapCause::Other
        }
    } else if scause == 8 {
        TrapCause::UserEnvCall
    } else if scause == 7 {
        TrapCause::StoreFault
    } else if scause == 15 {
        TrapCause::StorePageFault
    } else if scause == 2 {
        TrapCause::IllegalInstruction
    } else if scause == 12 {
        TrapCause::InstructionPageFault
    } else {
        TrapCause::Other
    }
}

/// What the kernel does next for a trap.
#[derive(Clone, Copy, Debug)]
pub enum TrapAction {
    /// Carry out the system call numbered `id` with the arguments `args`,
    /// then put its result in `a0`.
    Syscall { id: u64, args: [u64; 3] },
    /// Program the next timer interrupt and yield with the trap frame at
    /// `frame`.
    Timer { frame: u64 },
    /// The trap is fatal.
    Fault,
}

/// The trap frame after a system call: it resumes after the `ecall`
/// instruction.
pub open spec fn past_ecall(cx: TrapFrame) -> TrapFrame {
    TrapFrame { sepc: (cx.sepc + 4) as u64, ..cx }
}

/// Every system call, whichever its number, resumes at the instruction
/// after its `ecall`: the return address moves on by 4 and nothing else in
/// the trap frame changes.
pub proof fn law_ecall_resumes_after(cx: TrapFrame)
    requires
        cx.sepc + 4 <= u64::MAX,
    ensures
        past_ecall(cx).sepc == cx.sepc + 4,
        past_ecall(cx).general_reg == cx.general_reg,
        past_ecall(cx).sstatus == cx.sstatus,
        past_ecall(cx).satp == cx.satp,
        past_ecall(cx).kernel_satp == cx.kernel_satp,
        past_ecall(cx).kernel_sp == cx.kernel_sp,
        past_ecall(cx).trap_handler == cx.trap_handler,
{
}

/// The arguments of the system call that `cx` makes; `yield` gets the
/// address `cx_addr` of the trap frame as its first argument.
pub open spec fn syscall_args(cx: TrapFrame, cx_addr: u64) -> Seq<u64> {
    seq![
        if cx.general_reg@[17] == SYS_YIELD {
            cx_addr
        } else {
            cx.general_reg@[10]
        },
        cx.general_reg@[11],
        cx.general_reg@[12],
    ]
}

/// Handles a trap of cause `cause` taken with the trap frame `cx`, which
/// lies at the address `cx_addr`: a system call (number in `a7`) resumes
/// after the `ecall` instruction, a timer interrupt yields, any other trap
/// is fatal.
pub fn trap_handler(cause: TrapCause, cx: &mut TrapFrame, cx_addr: u64) -> (r: TrapAction)
    requires
        cause == TrapCause::UserEnvCall ==> old(cx).sepc + 4 <= u64::MAX,
    ensures
        cause == TrapCause::UserEnvCall ==> *final(cx) == past_ecall(*old(cx)),
        cause == TrapCause::UserEnvCall ==> final(cx).sepc == old(cx).sepc + 4 && final(cx).general_reg
            == old(cx).general_reg && final(cx).sstatus == old(cx).sstatus && final(cx).satp == old(cx).satp
            && final(cx).kernel_satp == old(cx).kernel_satp && final(cx).kernel_sp == old(cx).kernel_sp
            && final(cx).trap_handler == old(cx).trap_handler,
        cause == TrapCause::UserEnvCall ==> (r is Syscall),
        cause == TrapCause::UserEnvCall ==> r->id == old(cx).general_reg@[17],
        cause == TrapCause::UserEnvCall ==> r->args@ == syscall_args(*old(cx), cx_addr),
        cause == TrapCause::SupervisorTimer ==> *final(cx) == *old(cx),
        cause == TrapCause::SupervisorTimer ==> (r is Timer),
        cause == TrapCause::SupervisorTimer ==> r->frame == cx_addr,
        cause != TrapCause::UserEnvCall && cause != TrapCause::SupervisorTimer ==> *final(cx) == *old(cx),
        cause != TrapCause::UserEnvCall && cause != TrapCause::SupervisorTimer ==> (r is Fault),
{
    match cause {
        TrapCause::UserEnvCall => {
            cx.sepc = cx.sepc + 4;
            let mut p = cx.general_reg[10];
            if cx.general_reg[17] == SYS_YIELD {
                p = cx_addr;
            }
            let args = [p, cx.general_reg[11], cx.general_reg[12]];
            assert(args@ =~= seq![p, cx.general_reg@[11], cx.general_reg@[12]]);
            TrapAction::Syscall { id: cx.general_reg[17], args }
        },
        TrapCause::SupervisorTimer => TrapAction::Timer { frame: cx_addr },
        _ => TrapAction::Fault,
    }
}

/// Puts the result of a system call in `a0` of the caller's trap frame.
pub fn syscall_return(cx: &mut TrapFrame, ret: i64)
    ensures
        final(cx).general_reg@ == old(cx).general_reg@.update(10, ret as u64),
        final(cx).sstatus == old(cx).sstatus,
        final(cx).sepc == old(cx).sepc,
        final(cx).satp == old(cx).satp,
        final(cx).kernel_satp == old(cx).kernel_satp,
        final(cx).kernel_sp == old(cx).kernel_sp,
        final(cx).trap_handler == old(cx).trap_handler,
{
    cx.general_reg[10] = ret as u64;
}

} // verus!
