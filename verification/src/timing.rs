//! Wall-clock budget for a search: a start instant and a millisecond
//! allowance. Nothing is promised about what the clock returns; callers
//! treat a reported stop as a reason to discard the result.

use vstd::prelude::*;

verus! {

#[verifier::external_type_specification]
#[verifier::external_body]
pub struct ExInstant(std::time::Instant);

/// Relies on std::time::Instant::now for the current instant.
#[verifier::external_body]
fn now_instant() -> std::time::Instant {
    std::time::Instant::now()
}

/// Relies on std::time::Instant::elapsed for the time since `start`,
/// converted to whole milliseconds.
#[verifier::external_body]
fn elapsed_millis(start: &std::time::Instant) -> u64 {
    start.elapsed().as_millis() as u64
}

pub struct TimeManager {
    start: std::time::Instant,
    assigned: u64,
}

impl TimeManager {
    pub closed spec fn spec_assigned(self) -> u64 {
        self.assigned
    }

    pub fn new(limit_ms: u64) -> (r: TimeManager)
        ensures
            r.spec_assigned() == limit_ms,
    {
        TimeManager { start: now_instant(), assigned: limit_ms }
    }

    /// Whether the allowance has run out. The answer depends on the clock,
    /// so nothing is stated about it.
    pub fn should_stop(&self) -> bool {
        elapsed_millis(&self.start) >= self.assigned
    }

    pub fn get_assigned_time(&self) -> (r: u64)
        ensures
            r == self.spec_assigned(),
    {
        self.assigned
    }

    /// Milliseconds since this budget began, as the clock reports them.
    pub fn get_elapsed_ms(&self) -> u64 {
        elapsed_millis(&self.start)
    }
}

} // verus!
