//! The day-remaining calculator: how much of the local day is left after
//! spending the trimmed duration.
//!
//! The current instant is passed in as seconds since local midnight rather
//! than read from a clock, so the function is deterministic and the caller
//! (or a test) pins "now".

use vstd::prelude::*;

verus! {

/// Seconds between "now" and the end of the day (23:59:59), minus the
/// trimmed duration, floored at zero.
pub open spec fn spec_remaining(trimmed: int, now_secs_of_day: int) -> int {
    let day_left = 86399 - now_secs_of_day;
    if day_left > trimmed {
        day_left - trimmed
    } else {
        0
    }
}

/// Computes the seconds left in the local day once the trimmed duration has
/// been spent, given "now" as seconds since local midnight.
pub fn calculate_remaining(trimmed_dur: u64, now_secs_of_day: u32) -> (r: u64)
    requires
        now_secs_of_day < 86400,
    ensures
        r == spec_remaining(trimmed_dur as int, now_secs_of_day as int),
{
    let day_left: u64 = 86399 - (now_secs_of_day as u64);
    if day_left > trimmed_dur {
        day_left - trimmed_dur
    } else {
        0
    }
}

} // verus!
