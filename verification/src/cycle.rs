//! Bounded foreground resume cycles.
//!
//! A foreground resume callback runs one pass over the durable outbox, and a
//! second pass only when the first one lost a publication race; the second
//! pass catches up from the durable cursor and lets the ordinary outbox rules
//! decide. It never retries beyond that, so a transport that keeps moving
//! cannot hold the callback in a loop.
use vstd::prelude::*;

verus! {

/// The pass a bounded resume cycle runs next.
#[derive(Clone, Copy, Debug, PartialEq, Eq, Structural)]
pub enum ResumeCycleStep {
    /// The initial pass.
    Initial,
    /// The single follow-up pass after a publication conflict.
    FollowUp,
    /// No further pass: the cycle is over.
    Done,
}

/// What follows a pass, given whether that pass ended in a publication
/// conflict.
pub open spec fn next_step(step: ResumeCycleStep, conflicted: bool) -> ResumeCycleStep {
    match step {
        ResumeCycleStep::Initial => if conflicted {
            ResumeCycleStep::FollowUp
        } else {
            ResumeCycleStep::Done
        },
        _ => ResumeCycleStep::Done,
    }
}

/// The pass that follows `step`: after a conflicting initial pass the
/// follow-up, after anything else nothing.
pub fn next_resume_step(step: ResumeCycleStep, conflicted: bool) -> (r: ResumeCycleStep)
    ensures
        r == next_step(step, conflicted),
{
    match step {
        ResumeCycleStep::Initial => if conflicted {
            ResumeCycleStep::FollowUp
        } else {
            ResumeCycleStep::Done
        },
        _ => ResumeCycleStep::Done,
    }
}

/// A cycle is bounded: whatever the passes report, it is over after at most
/// two passes, and the second pass runs exactly when the first conflicted.
pub proof fn lemma_cycle_bounded(first_conflicted: bool, second_conflicted: bool)
    ensures
        (next_step(ResumeCycleStep::Initial, first_conflicted) == ResumeCycleStep::FollowUp) == first_conflicted,
        next_step(next_step(ResumeCycleStep::Initial, first_conflicted), second_conflicted) == ResumeCycleStep::Done,
{
}

} // verus!
