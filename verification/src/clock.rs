//! The clock behind the game's timer, from `std::time`. Nothing in this file
//! is proved, and nothing is claimed of what the clock returns.

use std::time::{Duration, Instant};
use vstd::prelude::*;

verus! {

/// `std::time::Instant`, a reading of the monotonic clock. Nothing is known
/// of what it holds.
#[verifier::external_type_specification]
#[verifier::external_body]
pub struct ExInstant(std::time::Instant);

/// `Instant::now`: the current reading of the clock.
pub assume_specification[ Instant::now ]() -> (now: Instant)
;

/// `Instant::elapsed`: the time that has passed since `start` was read.
pub assume_specification[ Instant::elapsed ](start: &Instant) -> (passed: Duration)
;

/// `Duration::as_secs`: the whole seconds in `d`.
pub assume_specification[ Duration::as_secs ](d: &Duration) -> (secs: u64)
;

} // verus!
