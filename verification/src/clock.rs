//! The clocks that the library reads.
use std::time::Instant;
use vstd::prelude::*;

verus! {

/// `std::time::Instant`, carried as an opaque value.
#[verifier::external_type_specification]
#[verifier::external_body]
pub struct ExInstant(std::time::Instant);

/// Calls `std::time::Instant::now`. Nothing is claimed of the instant.
#[verifier::external_body]
pub(crate) fn instant_now() -> Instant {
    Instant::now()
}

/// The nanoseconds from one instant to another; zero where the other is not later.
pub uninterp spec fn nanos_since(now: Instant, earlier: Instant) -> u128;

/// Calls `std::time::Instant::saturating_duration_since` and gives the duration in
/// nanoseconds. It is a function of the two instants; no clock is read. That it is zero
/// where `now` is not later is not stated: instants are opaque.
#[verifier::external_body]
pub(crate) fn nanos_between(now: &Instant, earlier: &Instant) -> (nanos: u128)
    ensures
        nanos == nanos_since(*now, *earlier),
{
    now.saturating_duration_since(*earlier).as_nanos()
}

/// Calls `chrono::Utc::now` and gives the Unix timestamp in seconds. Nothing is
/// claimed of the number: it depends on when the call is made.
#[verifier::external_body]
pub(crate) fn utc_timestamp() -> i64 {
    chrono::Utc::now().timestamp()
}

} // verus!
