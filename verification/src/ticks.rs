//! Time, counted in ticks of the time driver.

use vstd::prelude::*;

verus! {

/// Ticks per second of the time driver.
pub const TICK_HZ: u64 = 1_000_000;

/// Wraps `embassy_time::Instant::now`, handing on its tick count. Nothing is
/// claimed of the result: it depends on when the call is made.
#[verifier::external_body]
pub(crate) fn now_ticks() -> (t: u64) {
    embassy_time::Instant::now().as_ticks()
}

/// Wraps `embassy_time::Duration::from_millis`, handing on its tick count.
/// The claim is that the time driver runs at `TICK_HZ`, so that a
/// millisecond is exactly `TICK_HZ / 1000` ticks. The outside function
/// overflows where that product does not fit.
#[verifier::external_body]
pub(crate) fn ticks_from_millis(millis: u64) -> (t: u64)
    requires
        millis * (TICK_HZ / 1000) <= u64::MAX,
    ensures
        t == millis * (TICK_HZ / 1000),
{
    embassy_time::Duration::from_millis(millis).as_ticks()
}

/// Wraps `embassy_time::Duration::from_micros`, handing on its tick count.
/// The claim is that the time driver runs at `TICK_HZ`, so that a
/// microsecond is exactly one tick. The outside function rounds up by adding
/// before it divides, which overflows on the greatest count.
#[verifier::external_body]
pub(crate) fn ticks_from_micros(micros: u64) -> (t: u64)
    requires
        micros < u64::MAX,
    ensures
        t == micros * (TICK_HZ / 1_000_000),
{
    embassy_time::Duration::from_micros(micros).as_ticks()
}

/// The tick at which a wait of `timeout` ticks that begins at `start` ends.
/// An end past the last representable tick is that tick.
pub open spec fn deadline(start: u64, timeout: u64) -> u64 {
    if start + timeout <= u64::MAX {
        (start + timeout) as u64
    } else {
        u64::MAX
    }
}

/// Computes [`deadline`].
pub fn deadline_after(start: u64, timeout: u64) -> (r: u64)
    ensures
        r == deadline(start, timeout),
{
    start.saturating_add(timeout)
}

} // verus!
