//! The monotonic clock, used only to report how long an operation took.

use vstd::prelude::*;
use std::time::{Duration, Instant};

verus! {

#[verifier::external_type_specification]
#[verifier::external_body]
pub struct ExInstant(Instant);

/// Reads the monotonic clock with std's `Instant::now`. The reading depends
/// on the time, so nothing is promised of it.
#[verifier::external_body]
pub(crate) fn clock_now() -> Instant {
    Instant::now()
}

/// The time elapsed since `start`, with std's `Instant::elapsed`. It depends
/// on the time, so nothing is promised of it.
#[verifier::external_body]
pub(crate) fn clock_elapsed(start: &Instant) -> Duration {
    start.elapsed()
}

/// A duration in whole nanoseconds, with std's `Duration::as_nanos`.
/// `Duration` is opaque here, so nothing is stated of the number.
#[verifier::external_body]
pub(crate) fn whole_nanos(d: &Duration) -> u128 {
    d.as_nanos()
}

} // verus!
