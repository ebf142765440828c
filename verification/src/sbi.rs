//! Calls into the supervisor binary interface: the call numbers, and the
//! calls that the kernel makes, as values that the caller then issues.
use vstd::prelude::*;

verus! {

pub const SET_TIMER: u64 = 0;
pub const PUT_CHAR: u64 = 1;
pub const GET_CHAR: u64 = 2;
pub const CLEAR_IPI: u64 = 3;
pub const SEND_IPI: u64 = 4;
pub const REMOTE_FENCE_I: u64 = 5;
pub const REMOTE_SFENCE_VMA: u64 = 6;
pub const REMOTE_SFENCE_ASID: u64 = 7;
pub const SHUTDOWN: u64 = 8;

/// One call: the call number (in `a7`) and its three arguments (in `a0` to
/// `a2`).
#[derive(Clone, Copy, Debug, PartialEq, Eq)]
pub struct SbiCall {
    pub which: u64,
    pub args: [u64; 3],
}

/// The call `which` with arguments `args`.
pub open spec fn is_call(c: SbiCall, which: u64, a0: u64, a1: u64, a2: u64) -> bool {
    &&& c.which == which
    &&& c.args@[0] == a0
    &&& c.args@[1] == a1
    &&& c.args@[2] == a2
}

/// The call that powers the machine off.
pub fn shutdown() -> (r: SbiCall)
    ensures
        is_call(r, SHUTDOWN, 0, 0, 0),
{
    let r = SbiCall { which: SHUTDOWN, args: [0, 0, 0] };
    r
}

/// The call that prints the character `c` on the console.
pub fn put_char(c: char) -> (r: SbiCall)
    ensures
        is_call(r, PUT_CHAR, c as u64, 0, 0),
{
    let r = SbiCall { which: PUT_CHAR, args: [c as u64, 0, 0] };
    r
}

} // verus!
