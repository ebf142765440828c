//! The timer: the next interrupt is programmed one tick ahead.
use vstd::prelude::*;
use crate::sbi::{SbiCall, SET_TIMER, is_call};

verus! {

pub const TICKS_PER_SEC: u64 = 100;
pub const CLOCK_FREQ: u64 = 12500000;

/// The time one tick after `now`: a tick is `CLOCK_FREQ / TICKS_PER_SEC`
/// cycles.
pub open spec fn next_deadline(now: u64) -> u64 {
    (now + CLOCK_FREQ / TICKS_PER_SEC) as u64
}

/// The call that sets the time of the next timer interrupt to `timecmp`.
pub fn set_timecmp(timecmp: u64) -> (r: SbiCall)
    ensures
        is_call(r, SET_TIMER, timecmp, 0, 0),
{
    let r = SbiCall { which: SET_TIMER, args: [timecmp, 0, 0] };
    r
}

/// The call that sets the next timer interrupt one tick after the time
/// `now`.
pub fn set_next_trigger(now: u64) -> (r: SbiCall)
    requires
        now + CLOCK_FREQ / TICKS_PER_SEC <= u64::MAX,
    ensures
        is_call(r, SET_TIMER, next_deadline(now), 0, 0),
{
    set_timecmp(now + CLOCK_FREQ / TICKS_PER_SEC)
}

} // verus!
