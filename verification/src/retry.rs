//! When a query that failed is run again.

use vstd::prelude::*;

verus! {

/// How often a query is run before it is given up.
pub const MAX_ATTEMPTS: u32 = 3;

/// The seconds to wait after a run that failed.
pub const BACK_OFF_SECONDS: u64 = 5;

/// What to do after a run of a query.
#[derive(Clone, Copy, Debug, PartialEq, Eq, Structural)]
pub enum Step {
    /// The run succeeded: take its output.
    Done,
    /// The run failed: wait, then run the query again.
    Retry,
    /// The run failed, and so did those before it: wait, then give up.
    GiveUp,
}

/// The step after a run, where `failed` runs had failed before it: a run
/// that succeeds is the end; one that fails is followed by another, unless
/// it was the last that is allowed.
pub open spec fn step_after(failed: nat, succeeded: bool) -> Step {
    if succeeded {
        Step::Done
    } else if failed + 1 < MAX_ATTEMPTS {
        Step::Retry
    } else {
        Step::GiveUp
    }
}

/// Decides what to do after a run of a query, and counts the run if it
/// failed. `failed` is the number of runs that had failed before it.
pub fn after_run(failed: u32, succeeded: bool) -> (r: (u32, Step))
    requires
        failed < u32::MAX,
    ensures
        r.1 == step_after(failed as nat, succeeded),
        r.0 == if succeeded {
            failed
        } else {
            (failed + 1) as u32
        },
        r.1 == Step::Retry ==> r.0 < MAX_ATTEMPTS,
        r.1 == Step::GiveUp ==> r.0 >= MAX_ATTEMPTS,
{
    if succeeded {
        (failed, Step::Done)
    } else if failed + 1 < MAX_ATTEMPTS {
        (failed + 1, Step::Retry)
    } else {
        (failed + 1, Step::GiveUp)
    }
}

/// The step after the last of `runs` runs that all failed.
pub open spec fn after_failures(runs: nat) -> Step
    recommends
        runs > 0,
{
    step_after((runs - 1) as nat, false)
}

/// A query that keeps failing is run three times and no more: the first
/// two failures are followed by another run, the third by giving up.
pub proof fn lemma_three_attempts()
    ensures
        after_failures(1) == Step::Retry,
        after_failures(2) == Step::Retry,
        after_failures(3) == Step::GiveUp,
{
}

} // verus!
