//! The clock that expiry times are measured with.
use vstd::prelude::*;

use std::time::Instant;

verus! {

#[verifier::external_type_specification]
#[verifier::external_body]
pub struct ExInstant(std::time::Instant);

/// Trusted: `Instant::now` of std reads the monotonic clock. Nothing is
/// stated of the instant it returns, which depends on the time of the call.
pub assume_specification[ std::time::Instant::now ]() -> std::time::Instant;

/// Calls `Instant::elapsed` of std on `origin` and converts the duration to
/// whole nanoseconds with `Duration::as_nanos`.
///
/// Trusted, with no claim on the result: it depends on the time of the call.
#[verifier::external_body]
pub(crate) fn nanos_since(origin: &Instant) -> u128 {
    origin.elapsed().as_nanos()
}

} // verus!
