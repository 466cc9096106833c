//! The wall clock.

use std::time::Instant;
use vstd::prelude::*;

verus! {

/// A point in time, of which nothing is known here.
#[verifier::external_type_specification]
#[verifier::external_body]
pub struct ExInstant(Instant);

/// `std::time::Instant::now`: the current time. Nothing is claimed of the
/// reading, which depends on when the call is made.
#[verifier::external_body]
pub(crate) fn clock_now() -> (r: Instant) {
    Instant::now()
}

/// The comparison `>=` of `std::time::Instant`. Nothing is claimed of the
/// outcome, since nothing is known of the two points in time.
#[verifier::external_body]
pub(crate) fn not_before(a: Instant, b: Instant) -> (r: bool) {
    a >= b
}

} // verus!
