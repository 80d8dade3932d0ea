//! Reading the monotonic clock.

use vstd::prelude::*;
use std::time::{Duration, Instant};

verus! {

/// A point in time of the monotonic clock (`std::time::Instant`).
#[verifier::external_type_specification]
#[verifier::external_body]
pub struct ExInstant(Instant);

/// Calls `Instant::now`. Nothing is claimed of the instant it returns: it
/// depends on when the call happens.
#[verifier::external_body]
pub(crate) fn clock_now() -> Instant {
    Instant::now()
}

/// Calls `Instant::elapsed` on `start`. Nothing is claimed of the duration it
/// returns: it depends on when the call happens.
#[verifier::external_body]
pub(crate) fn elapsed_since(start: &Instant) -> Duration {
    start.elapsed()
}

/// Calls `Duration::as_millis`: the whole milliseconds in `d`. Nothing is
/// claimed of the number, as a duration's length has no model here.
#[verifier::external_body]
pub(crate) fn whole_millis(d: &Duration) -> u128 {
    d.as_millis()
}

/// Whether `elapsed_ms` whole milliseconds reach a limit of `limit_ms`.
pub fn limit_reached(elapsed_ms: u128, limit_ms: u64) -> (up: bool)
    ensures
        up == (elapsed_ms >= limit_ms),
{
    elapsed_ms >= limit_ms as u128
}

/// Whether at least `limit_ms` milliseconds have passed since `start`: the
/// whole milliseconds the clock reports since `start`, compared with the limit
/// by [`limit_reached`]. How many milliseconds the clock reports is not known
/// here, so all that holds of every reading is that a limit of zero is always
/// reached.
pub fn time_is_up(start: &Instant, limit_ms: u64) -> (up: bool)
    ensures
        limit_ms == 0 ==> up,
{
    let elapsed = elapsed_since(start);
    limit_reached(whole_millis(&elapsed), limit_ms)
}

} // verus!
