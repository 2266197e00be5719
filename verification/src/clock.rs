//! Wall-clock access for the cooperative time budget. The engine only ever
//! asks how many milliseconds have passed since a recorded starting point;
//! nothing is promised about the readings, so every contract that uses them
//! holds whatever the clock returns.

use vstd::prelude::*;

verus! {

#[verifier::external_type_specification]
#[verifier::external_body]
pub struct ExInstant(std::time::Instant);

/// Relies on std::time::Instant::now: a reading of a monotonic clock.
pub assume_specification[ std::time::Instant::now ]() -> std::time::Instant;

/// Relies on std::time::Instant::elapsed: the time since `this` was taken.
pub assume_specification[ std::time::Instant::elapsed ](
    this: &std::time::Instant,
) -> std::time::Duration;

/// Relies on std::time::Duration::as_millis: the duration in milliseconds.
pub assume_specification[ std::time::Duration::as_millis ](
    this: &std::time::Duration,
) -> u128;

} // verus!
