//! Monotonic-clock access for deadline-bounded search.  The search only
//! asks whether the deadline has passed; nothing is assumed of the answer.
use vstd::prelude::*;

verus! {

#[verifier::external_type_specification]
#[verifier::external_body]
pub struct ExInstant(std::time::Instant);

/// Relies on std's `Instant::now`: a reading of the monotonic clock.
#[verifier::external_body]
pub fn instant_now() -> (r: std::time::Instant) {
    std::time::Instant::now()
}

/// Relies on std's `PartialOrd` for `Instant`: whether `a` reads earlier
/// than `b`.
#[verifier::external_body]
pub fn instant_is_before(a: &std::time::Instant, b: &std::time::Instant) -> (r: bool) {
    *a < *b
}

} // verus!
