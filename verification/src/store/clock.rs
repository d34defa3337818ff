use std::time::{Duration, Instant};
use vstd::prelude::*;

verus! {

#[verifier::external_type_specification]
#[verifier::external_body]
pub struct ExInstant(Instant);

/// The name of what `Duration::as_nanos` returns: the whole duration in
/// nanoseconds.
pub uninterp spec fn duration_nanos(d: Duration) -> u128;

/// `Duration::as_nanos`: the result is `duration_nanos` of the duration.
#[verifier::external_body]
pub(crate) fn duration_as_nanos(d: &Duration) -> (nanos: u128)
    ensures
        nanos == duration_nanos(*d),
{
    d.as_nanos()
}

/// `Instant::now`: the current instant of the monotonic clock. Nothing is
/// stated of it: it depends on when it is called.
#[verifier::external_body]
pub(crate) fn instant_now() -> Instant {
    Instant::now()
}

/// `Instant::elapsed`: the time since the instant. Nothing is stated of it:
/// it depends on when it is called.
#[verifier::external_body]
pub(crate) fn instant_elapsed(instant: &Instant) -> Duration {
    instant.elapsed()
}

/// `Duration::as_secs`: the whole seconds of the duration, that is its
/// nanoseconds divided by 10^9, rounded down.
#[verifier::external_body]
pub(crate) fn duration_as_secs(d: &Duration) -> (secs: u64)
    ensures
        secs as int == duration_nanos(*d) as int / 1_000_000_000,
{
    d.as_secs()
}

} // verus!
