//! Wall-clock time, read through `std::time::Instant`.
use std::time::Instant;
use vstd::prelude::*;

verus! {

/// `std::time::Instant`, carried through verified code as an opaque value.
#[verifier::external_type_specification]
#[verifier::external_body]
pub struct ExInstant(Instant);

/// Calls `std::time::Instant::now`. The result is the current time, so no
/// clause can say what it is.
#[verifier::external_body]
pub(crate) fn now() -> (t: Instant) {
    Instant::now()
}

/// Calls `std::time::Instant::elapsed` on `since` and converts the duration
/// to whole microseconds. The result depends on the current time, so no
/// clause can say what it is.
#[verifier::external_body]
pub(crate) fn micros_since(since: &Instant) -> (us: u128) {
    since.elapsed().as_micros()
}

} // verus!
