//! What happens in the course of a run.
use crate::execute::ExecutionResult;
use crate::judge::{Judgment, JudgmentFailure};
use crate::persist::RunMetadata;
use crate::provider::ModelId;
use vstd::prelude::*;

verus! {

/// One step of a run.
#[derive(Debug, PartialEq, Eq)]
pub enum ExperimentEvent {
    CandidateFinished { task_id: String, model: ModelId, duration_ms: u64 },
    PairResolved { task_id: String, model_a: ModelId, model_b: ModelId, judgment: Judgment },
    PairFailed { task_id: String, model_a: ModelId, model_b: ModelId, failure: JudgmentFailure },
    RunComplete { expected_pairs: usize, resolved_pairs: usize, failed_pairs: usize },
}

/// A candidate has answered.
pub fn candidate_finished(result: &ExecutionResult) -> (r: ExperimentEvent)
    ensures
        r == (ExperimentEvent::CandidateFinished {
            task_id: result.task_id,
            model: result.model,
            duration_ms: result.duration_ms,
        }),
{
    ExperimentEvent::CandidateFinished {
        task_id: result.task_id.clone(),
        model: result.model.clone(),
        duration_ms: result.duration_ms,
    }
}

/// A pair has been judged in both orientations.
pub fn pair_resolved(judgment: &Judgment) -> (r: ExperimentEvent)
    ensures
        r == (ExperimentEvent::PairResolved {
            task_id: judgment.task_id,
            model_a: judgment.model_a,
            model_b: judgment.model_b,
            judgment: *judgment,
        }),
{
    ExperimentEvent::PairResolved {
        task_id: judgment.task_id.clone(),
        model_a: judgment.model_a.clone(),
        model_b: judgment.model_b.clone(),
        judgment: judgment.clone(),
    }
}

/// A pair could not be judged in both orientations.
pub fn pair_failed(failure: &JudgmentFailure) -> (r: ExperimentEvent)
    ensures
        match r {
            ExperimentEvent::PairFailed { task_id, model_a, model_b, failure: copy } => {
                &&& task_id == failure.task_id
                &&& model_a == failure.model_a
                &&& model_b == failure.model_b
                &&& copy@ == failure@
            },
            _ => false,
        },
{
    ExperimentEvent::PairFailed {
        task_id: failure.task_id.clone(),
        model_a: failure.model_a.clone(),
        model_b: failure.model_b.clone(),
        failure: failure.clone(),
    }
}

/// The count, or zero where nothing was counted.
pub open spec fn counted(count: Option<usize>) -> usize {
    match count {
        Some(count) => count,
        None => 0,
    }
}

/// The run is over, with so many pairs expected and resolved as its record
/// says. A record without a judge expects and resolves none.
pub fn run_complete(run: &RunMetadata, failed_pairs: usize) -> (r: ExperimentEvent)
    ensures
        r == (ExperimentEvent::RunComplete {
            expected_pairs: counted(run.expected_pairs),
            resolved_pairs: counted(run.resolved_pairs),
            failed_pairs,
        }),
{
    let expected_pairs: usize = match run.expected_pairs {
        Some(count) => count,
        None => 0,
    };
    let resolved_pairs: usize = match run.resolved_pairs {
        Some(count) => count,
        None => 0,
    };
    ExperimentEvent::RunComplete { expected_pairs, resolved_pairs, failed_pairs }
}

/// What is told of a candidate's answer, a judgment and a failure is about the
/// task and the models that they are about.
pub proof fn events_are_about_their_subject(
    result: &ExecutionResult,
    judgment: &Judgment,
    failure: &JudgmentFailure,
    finished: ExperimentEvent,
    resolved: ExperimentEvent,
    failed: ExperimentEvent,
)
    requires
        call_ensures(candidate_finished, (result,), finished),
        call_ensures(pair_resolved, (judgment,), resolved),
        call_ensures(pair_failed, (failure,), failed),
    ensures
        finished matches ExperimentEvent::CandidateFinished { task_id, model, duration_ms }
            && task_id == result.task_id && model == result.model && duration_ms
            == result.duration_ms,
        resolved matches ExperimentEvent::PairResolved { task_id, model_a, model_b, judgment: told }
            && task_id == judgment.task_id && model_a == judgment.model_a && model_b
            == judgment.model_b && told == *judgment,
        failed matches ExperimentEvent::PairFailed { task_id, model_a, model_b, failure: told }
            && task_id == failure.task_id && model_a == failure.model_a && model_b
            == failure.model_b && told@ == failure@,
{
}

/// The end of a run tells the counts of its record, and none where nothing was
/// judged.
pub proof fn completion_tells_the_recorded_counts(
    run: &RunMetadata,
    failed_pairs: usize,
    r: ExperimentEvent,
)
    requires
        call_ensures(run_complete, (run, failed_pairs), r),
    ensures
        r matches ExperimentEvent::RunComplete { expected_pairs, resolved_pairs, failed_pairs: told }
            && told == failed_pairs && (run.expected_pairs is Some ==> run.expected_pairs == Some(
            expected_pairs,
        )) && (run.expected_pairs is None ==> expected_pairs == 0) && (run.resolved_pairs is Some
            ==> run.resolved_pairs == Some(resolved_pairs)) && (run.resolved_pairs is None
            ==> resolved_pairs == 0),
{
}

} // verus!
