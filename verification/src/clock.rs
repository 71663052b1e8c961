//! The monotonic clock that bounds wall-clock searches, behind trusted
//! declarations.

use vstd::prelude::*;

verus! {

/// The monotonic clock reading of std, declared so signatures can carry
/// it.  Its value is opaque here.
#[verifier::external_type_specification]
#[verifier::external_body]
pub struct ExInstant(std::time::Instant);

/// Relies on `std::time::Instant::now`: a reading of the monotonic clock.
/// Nothing is promised of the value.
#[verifier::external_body]
pub(crate) fn instant_now() -> std::time::Instant {
    std::time::Instant::now()
}

/// Relies on `std::time::Instant::elapsed`: the time since `start`, in
/// whole seconds.  Nothing is promised of the value.
#[verifier::external_body]
pub(crate) fn elapsed_secs(start: &std::time::Instant) -> u64 {
    start.elapsed().as_secs()
}

} // verus!
