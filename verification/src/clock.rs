//! The clock that bounds how long a search may run.

use std::time::{Duration, Instant};
use vstd::prelude::*;

verus! {

/// `std::time::Instant`, declared so that it can be carried through verified code.
#[verifier::external_type_specification]
#[verifier::external_body]
pub struct ExInstant(Instant);

/// `Instant::now`: the current instant. Nothing is claimed of it.
#[verifier::external_body]
pub(crate) fn now() -> Instant {
    Instant::now()
}

/// `Instant::elapsed`: the time since `start`. Nothing is claimed of it.
#[verifier::external_body]
pub(crate) fn elapsed(start: &Instant) -> Duration {
    start.elapsed()
}

/// Whether duration `a` is longer than duration `b`.
pub uninterp spec fn exceeds(a: Duration, b: Duration) -> bool;

/// `Duration > Duration`: whether `a` is longer than `b`. Durations are opaque
/// here; the claim is only that the answer depends on the two durations alone,
/// and is named by `exceeds`.
#[verifier::external_body]
pub(crate) fn longer_than(a: &Duration, b: &Duration) -> (r: bool)
    ensures
        r == exceeds(*a, *b),
{
    *a > *b
}

/// The duration of `secs` whole seconds.
pub uninterp spec fn duration_of_secs(secs: u64) -> Duration;

/// `Duration::from_secs`: a duration of `secs` seconds. Durations are opaque
/// here; the claim is only that the result depends on `secs` alone, and is
/// named by `duration_of_secs`.
#[verifier::external_body]
pub(crate) fn seconds(secs: u64) -> (d: Duration)
    ensures
        d == duration_of_secs(secs),
{
    Duration::from_secs(secs)
}

} // verus!
