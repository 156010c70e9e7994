//! The wall clock that bounds a search. Nothing can be promised about
//! what a clock returns, so the search loop states what holds whatever
//! the readings are.

use vstd::prelude::*;

verus! {

#[verifier::external_type_specification]
#[verifier::external_body]
pub struct ExInstant(std::time::Instant);

/// Relies on std::time::Instant::now: a reading of the monotonic clock.
#[verifier::external_body]
pub(crate) fn clock_now() -> std::time::Instant {
    std::time::Instant::now()
}

/// Relies on Instant::elapsed and Duration::as_millis: whole
/// milliseconds since `start` was taken.
#[verifier::external_body]
pub(crate) fn elapsed_millis(start: &std::time::Instant) -> u128 {
    start.elapsed().as_millis()
}

} // verus!
