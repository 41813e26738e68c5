//! The broker's clock: nanoseconds since a moment that the broker has kept.

use std::time::Instant;

use vstd::prelude::*;

verus! {

/// A moment on the machine's monotonic clock; nothing inside it is read.
#[verifier::external_type_specification]
#[verifier::external_body]
pub struct ExInstant(Instant);

/// `std::time::Instant::now` gives the current moment. Nothing is claimed of
/// it: it depends on the machine's clock.
pub assume_specification[ Instant::now ]() -> (moment: Instant)
;

/// `std::time::Instant::elapsed`, counted in nanoseconds. Nothing is claimed of
/// the number: it depends on the machine's clock.
#[verifier::external_body]
pub(crate) fn nanoseconds_since(moment: &Instant) -> (elapsed: u128) {
    moment.elapsed().as_nanos()
}

} // verus!
