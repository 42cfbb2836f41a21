//! The clock that limits a search.
//!
//! The time comes from `std::time`. Nothing is claimed of what the clock
//! shows: the search is verified for every reading.

use vstd::prelude::*;
use std::time::{Duration, Instant};

verus! {

/// A point in time, `std::time::Instant`. Nothing is known of its value.
#[verifier::external_type_specification]
#[verifier::external_body]
pub struct ExInstant(Instant);

/// `Instant::now` of std: the present moment.
pub assume_specification[ Instant::now ]() -> (now: Instant);

/// `Instant::elapsed` of std: the time that has passed since `start`.
pub assume_specification[ Instant::elapsed ](start: &Instant) -> (passed: Duration);

/// `Duration::as_millis` of std: the whole milliseconds of `span`.
pub assume_specification[ Duration::as_millis ](span: &Duration) -> (millis: u128);

} // verus!
