//! The stages that one submission goes through, from receipt to the log.
use vstd::prelude::*;
use vstd::string::StringExecFns;

verus! {

/// The step at which a submission failed.
#[derive(Clone, Copy, Debug, PartialEq, Eq, Structural)]
pub enum FailedStage {
    Validate,
    Replay,
    Encode,
    Post,
}

/// Where a submission stands.
#[derive(Clone, Copy, Debug, PartialEq, Eq, Structural)]
pub enum Stage {
    Received,
    Validated,
    RateChecked,
    Replayed,
    Encoded,
    Posted,
    /// Turned down by the rate limit, or done without posting: nothing is logged.
    Suppressed,
    /// Posted, and entered in the request log.
    Logged,
    Failed(FailedStage),
}

/// The stage after `stage`, once its step succeeded or not. `Validated` steps on
/// the rate decision, `Encoded` on the post, which only happens where posting is
/// enabled; `Posted` steps on the log entry being written.
pub open spec fn next_stage(stage: Stage, succeeded: bool, posting_enabled: bool) -> Stage {
    match stage {
        Stage::Received => if succeeded {
            Stage::Validated
        } else {
            Stage::Failed(FailedStage::Validate)
        },
        Stage::Validated => if succeeded {
            Stage::RateChecked
        } else {
            Stage::Suppressed
        },
        Stage::RateChecked => if succeeded {
            Stage::Replayed
        } else {
            Stage::Failed(FailedStage::Replay)
        },
        Stage::Replayed => if succeeded {
            Stage::Encoded
        } else {
            Stage::Failed(FailedStage::Encode)
        },
        Stage::Encoded => if !posting_enabled {
            Stage::Suppressed
        } else if succeeded {
            Stage::Posted
        } else {
            Stage::Failed(FailedStage::Post)
        },
        Stage::Posted => Stage::Logged,
        _ => stage,
    }
}

/// A stage that no step leaves.
pub open spec fn is_final(stage: Stage) -> bool {
    stage is Suppressed || stage is Logged || stage is Failed
}

/// Moves a submission on after the step of its current stage.
pub fn advance(stage: Stage, succeeded: bool, posting_enabled: bool) -> (r: Stage)
    ensures
        r == next_stage(stage, succeeded, posting_enabled),
{
    match stage {
        Stage::Received => if succeeded {
            Stage::Validated
        } else {
            Stage::Failed(FailedStage::Validate)
        },
        Stage::Validated => if succeeded {
            Stage::RateChecked
        } else {
            Stage::Suppressed
        },
        Stage::RateChecked => if succeeded {
            Stage::Replayed
        } else {
            Stage::Failed(FailedStage::Replay)
        },
        Stage::Replayed => if succeeded {
            Stage::Encoded
        } else {
            Stage::Failed(FailedStage::Encode)
        },
        Stage::Encoded => if !posting_enabled {
            Stage::Suppressed
        } else if succeeded {
            Stage::Posted
        } else {
            Stage::Failed(FailedStage::Post)
        },
        Stage::Posted => Stage::Logged,
        _ => stage,
    }
}

/// Whether no step leaves `stage`.
pub fn stage_is_final(stage: Stage) -> (r: bool)
    ensures
        r == is_final(stage),
{
    match stage {
        Stage::Suppressed | Stage::Logged | Stage::Failed(_) => true,
        _ => false,
    }
}

/// The text of the reply that carries the result for `username`.
pub fn reply_text(username: &str) -> (r: String)
    ensures
        r@ == "I ran @"@ + username@ + "'s program and here's the result!"@,
{
    let mut s = String::from_str("I ran @");
    s.append(username);
    s.append("'s program and here's the result!");
    s
}

/// Only a posted submission is logged, so only it counts against the
/// requester's quota; and a final stage is never left.
pub proof fn lemma_only_posted_submissions_are_logged(
    stage: Stage,
    succeeded: bool,
    posting_enabled: bool,
)
    ensures
        next_stage(stage, succeeded, posting_enabled) is Logged ==> stage is Posted || stage is Logged,
        is_final(stage) ==> next_stage(stage, succeeded, posting_enabled) == stage,
        !is_final(stage) ==> next_stage(stage, succeeded, posting_enabled) != stage,
{
}

} // verus!
