//! Elapsed time, for the statistics.
use vstd::prelude::*;

verus! {

#[verifier::external_type_specification]
#[verifier::external_body]
pub struct ExInstant(std::time::Instant);

/// `std::time::Instant::now`. Nothing is claimed of the time.
#[verifier::external_body]
pub(crate) fn start_timer() -> (r: std::time::Instant) {
    std::time::Instant::now()
}

/// `std::time::Instant::elapsed` in nanoseconds. Nothing is claimed of the time.
#[verifier::external_body]
pub(crate) fn elapsed_ns(t: &std::time::Instant) -> (r: u64) {
    t.elapsed().as_nanos() as u64
}

} // verus!
