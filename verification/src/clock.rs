//! The monotonic clock of the standard library, as far as build reports
//! need it.

use std::time::{Duration, Instant};
use vstd::prelude::*;

verus! {

/// `std::time::Instant`: a reading of the clock, carried as it is.
#[verifier::external_type_specification]
#[verifier::external_body]
pub struct ExInstant(std::time::Instant);

/// `Instant::now` reads the clock. Nothing is claimed of what it reads.
pub assume_specification[ Instant::now ]() -> (t: Instant)
;

/// `Instant::elapsed` is the time that has gone by since the instant was
/// taken. Nothing is claimed of how long that is.
pub assume_specification[ Instant::elapsed ](t: &Instant) -> (d: Duration)
;

/// `Duration::as_secs` is the number of whole seconds in a duration.
/// Nothing is claimed of the number.
pub assume_specification[ Duration::as_secs ](d: &Duration) -> (s: u64)
;

} // verus!
