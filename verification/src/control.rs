//! The adaptive choice of the number of sub-steps per frame.
use crate::fixed::Fixed;
use crate::fixed::SCALE;
use vstd::prelude::*;

verus! {

/// The rate, in sub-steps per second, at which the simulation aims to run.
pub const TARGET_RATE: u32 = 60;

/// The number of sub-steps for a frame of duration `dt`, when the frame
/// before used `last` of them: the whole part of `last / (rate * dt)`, at
/// least one, and at most what a `usize` holds. A frame twice as long as
/// the step `1 / rate` thus doubles the count.
pub open spec fn planned_iterations(last: usize, dt: Fixed, rate: u32) -> usize
    recommends
        dt.raw > 0,
        rate > 0,
{
    let wanted = (last * SCALE) / (rate * dt.raw);
    if wanted < 1 {
        1
    } else if wanted > usize::MAX {
        usize::MAX
    } else {
        wanted as usize
    }
}

/// Chooses the number of sub-steps for a frame of duration `dt`.
pub fn plan_iterations(last: usize, dt: Fixed, rate: u32) -> (n: usize)
    requires
        dt.raw > 0,
        rate > 0,
    ensures
        n == planned_iterations(last, dt, rate),
        n >= 1,
{
    let num: u128 = (last as u128) * 0x1_0000_0000u128;
    let r: u128 = rate as u128;
    let d: u128 = dt.raw as u128;
    assert(0 < r * d <= 0x1_0000_0000 * 0x8000_0000_0000_0000) by (nonlinear_arith)
        requires
            0 < r <= 0x1_0000_0000,
            0 < d <= 0x8000_0000_0000_0000,
    ;
    let den: u128 = r * d;
    let wanted: u128 = num / den;
    if wanted < 1 {
        1
    } else if wanted > usize::MAX as u128 {
        usize::MAX
    } else {
        wanted as usize
    }
}

} // verus!
