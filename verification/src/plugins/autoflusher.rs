//! The autoflusher: from time to time it writes all stores to disk.

use vstd::prelude::*;

verus! {

/// What the autoflusher does, one thing after another.
#[derive(Clone, Copy, Debug, PartialEq, Eq, Structural)]
pub enum Step {
    /// Wait for so many seconds.
    Sleep { secs: u64 },
    /// Write all stores to disk.
    Flush,
}

/// The step that follows `done`: the worker sleeps, flushes, and sleeps
/// again, for ever. It starts by sleeping.
pub open spec fn step_following(interval_secs: u64, done: Option<Step>) -> Step {
    match done {
        Some(Step::Sleep { .. }) => Step::Flush,
        _ => Step::Sleep { secs: interval_secs },
    }
}

/// Steers the autoflusher. The caller takes the step that is returned and
/// calls again with that step, without end.
pub fn run(interval_secs: u64, done: Option<Step>) -> (next: Step)
    ensures
        next == step_following(interval_secs, done),
{
    match done {
        Some(Step::Sleep { .. }) => Step::Flush,
        _ => Step::Sleep { secs: interval_secs },
    }
}

} // verus!
