//! How long an operation takes.

use vstd::prelude::*;

verus! {

/// A point in time, of which nothing is known but how long ago it was.
#[verifier::external_type_specification]
#[verifier::external_body]
pub struct ExInstant(std::time::Instant);

/// Calls `Instant::now`: the time of the call, of which nothing is promised.
#[verifier::external_body]
pub(crate) fn now() -> std::time::Instant {
    std::time::Instant::now()
}

/// Calls `Instant::elapsed`: the time since `start`, of which nothing is promised.
#[verifier::external_body]
fn elapsed(start: std::time::Instant) -> std::time::Duration {
    start.elapsed()
}

/// Calls `Duration::as_nanos`: so many nanoseconds are in `d`, of which nothing more is
/// known.
#[verifier::external_body]
fn nanos_in(d: std::time::Duration) -> u128 {
    d.as_nanos()
}

/// The time since `start` in nanoseconds, as far as a `u64` can say it.
pub(crate) fn nanos_since(start: std::time::Instant) -> (n: u64) {
    let nanos: u128 = nanos_in(elapsed(start));
    if nanos > u64::MAX as u128 {
        u64::MAX
    } else {
        nanos as u64
    }
}

} // verus!
