//! The clock interrupt.

use vstd::prelude::*;

verus! {

/// Clock ticks per second.
pub const TICKS_PER_SEC: u64 = 100;

/// The time at which the next clock interrupt is due: one tick after
/// `now`, on a clock that counts `clock_freq` times a second.
pub fn next_clock_interrupt(now: u64, clock_freq: u64) -> (r: u64)
    requires
        now + clock_freq / TICKS_PER_SEC <= u64::MAX,
    ensures
        r == now + clock_freq / TICKS_PER_SEC,
{
    now + clock_freq / TICKS_PER_SEC
}

} // verus!
