//! Wall-clock time for deadline-bounded searches.

use vstd::prelude::*;

verus! {

/// `std::time::Instant`, a moment on the monotonic clock. Carried through as
/// it is.
#[verifier::external_type_specification]
#[verifier::external_body]
pub struct ExInstant(std::time::Instant);

/// Calls `std::time::Instant::now`. Nothing is stated of the moment returned.
#[verifier::external_body]
pub(crate) fn now() -> (r: std::time::Instant) {
    std::time::Instant::now()
}

/// Calls `std::time::Instant::elapsed`. Nothing is stated of the time that
/// has passed.
#[verifier::external_body]
pub(crate) fn elapsed(start: &std::time::Instant) -> (r: std::time::Duration) {
    start.elapsed()
}

/// Calls `std::time::Duration::as_millis`: the whole milliseconds in a
/// duration. Nothing is stated of the number.
#[verifier::external_body]
pub(crate) fn whole_millis(d: &std::time::Duration) -> (r: u128) {
    d.as_millis()
}

} // verus!
