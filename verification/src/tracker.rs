//! Progress tracking: decides whether a freshly observed completed-match
//! count represents progress over the baseline from the previous cycle.

use vstd::prelude::*;

verus! {

/// Outcome of comparing the current completed-match count against the
/// baseline count remembered from the previous poll cycle.
#[derive(Clone, Copy, Debug, PartialEq, Eq, Structural)]
pub enum ProgressDecision {
    /// Nothing to announce: the count has not strictly increased, or no
    /// baseline has been established yet.
    NoProgress,
    /// The completed count strictly increased over an established baseline.
    Progress,
}

/// What the tracker decides: progress exactly when a baseline exists
/// (`previous != 0`) and the count strictly increased.
pub open spec fn spec_progress(current: nat, previous: nat) -> ProgressDecision {
    if previous != 0 && current > previous {
        ProgressDecision::Progress
    } else {
        ProgressDecision::NoProgress
    }
}

/// Decide whether `current` completed matches, against a baseline of
/// `previous`, counts as progress. A baseline of `0` means "no baseline
/// yet": the first cycle is always silent, however many matches are
/// already completed.
pub fn assess_progress(current: usize, previous: usize) -> (r: ProgressDecision)
    ensures
        r == spec_progress(current as nat, previous as nat),
        previous == 0 ==> r is NoProgress,
        previous > 0 && current > previous ==> r is Progress,
        current <= previous ==> r is NoProgress,
{
    if previous != 0 && current > previous {
        ProgressDecision::Progress
    } else {
        ProgressDecision::NoProgress
    }
}

/// Baseline state carried from one poll cycle to the next: the number of
/// completed matches observed on the previous cycle (`0` until a first
/// cycle has run).
#[derive(Clone, Copy, Debug, PartialEq, Eq, Structural)]
pub struct PollState {
    pub previous_completed_count: usize,
}

impl PollState {
    /// The state at process start: no baseline yet.
    pub fn new() -> (s: Self)
        ensures
            s.previous_completed_count == 0,
    {
        PollState { previous_completed_count: 0 }
    }
}

} // verus!
