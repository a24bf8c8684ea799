//! The tokio clock, read as nanoseconds elapsed since an origin instant.

use tokio::time::Instant;
use vstd::prelude::*;

verus! {

#[verifier::external_type_specification]
#[verifier::external_body]
pub struct ExInstant(Instant);

/// Calls `tokio::time::Instant::now`. The instant depends on the time of the
/// call, so nothing is stated of it.
#[verifier::external_body]
pub(crate) fn clock_now() -> (now: Instant) {
    Instant::now()
}

/// Calls `tokio::time::Instant::elapsed` on `origin` and converts the duration
/// to whole nanoseconds with `Duration::as_nanos`. The result depends on the
/// time of the call, so nothing is stated of it.
#[verifier::external_body]
pub(crate) fn nanos_since(origin: &Instant) -> (nanos: u128) {
    origin.elapsed().as_nanos()
}

/// The whole nanoseconds of a duration, as `Duration::as_nanos` gives them.
pub uninterp spec fn duration_as_nanos(duration: std::time::Duration) -> u128;

/// Converts a duration to whole nanoseconds with `Duration::as_nanos`, whose
/// result depends on the duration alone; `duration_as_nanos` names it.
#[verifier::external_body]
pub(crate) fn duration_nanos(duration: &std::time::Duration) -> (nanos: u128)
    ensures
        nanos == duration_as_nanos(*duration),
{
    duration.as_nanos()
}

} // verus!
