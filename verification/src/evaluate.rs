//! Scoring responses against expected answers.
use crate::execute::ExecutionResult;
use crate::provider::{CompletionResponse, ModelId};
use crate::task::{Task, TaskEvaluation};
use crate::text::{
    is_blank, is_tight, is_white_space, padding_does_not_matter, text_same, trimmed,
    trimming_finds_the_core, trimming_takes_only_white_space,
};
use vstd::prelude::*;

verus! {

/// The score of a response: one for a match, zero otherwise.
#[derive(Debug, Clone, Copy, PartialEq, Eq, Structural)]
pub struct Evaluation {
    pub score: u32,
}

/// A model's response to a task, with its score if the task has an evaluation.
#[derive(Debug, PartialEq, Eq)]
pub struct EvaluatedResult {
    pub task_id: String,
    pub model: ModelId,
    pub response: CompletionResponse,
    pub evaluation: Option<Evaluation>,
    pub duration_ms: u64,
}

impl Clone for EvaluatedResult {
    fn clone(&self) -> (r: Self)
        ensures
            r == *self,
    {
        EvaluatedResult {
            task_id: self.task_id.clone(),
            model: self.model.clone(),
            response: self.response.clone(),
            evaluation: self.evaluation,
            duration_ms: self.duration_ms,
        }
    }
}

/// The score of a response to the task: one when the response, without the
/// white space around it, is the expected text.
pub open spec fn exact_evaluation(task: Task, response: Seq<char>) -> Option<Evaluation> {
    match task.evaluation {
        Some(TaskEvaluation::Exact { expected }) => if trimmed(response) == expected@ {
            Some(Evaluation { score: 1 })
        } else {
            Some(Evaluation { score: 0 })
        },
        None => None,
    }
}

/// Scores the response, if the task has an evaluation.
pub fn evaluate_exact(task: &Task, result: &ExecutionResult) -> (r: Option<Evaluation>)
    ensures
        r == exact_evaluation(*task, result.response.text@),
{
    match &task.evaluation {
        Some(TaskEvaluation::Exact { expected }) => {
            if text_same(result.response.text.as_str().trim(), expected.as_str()) {
                Some(Evaluation { score: 1 })
            } else {
                Some(Evaluation { score: 0 })
            }
        },
        None => None,
    }
}

/// The result together with its score.
pub open spec fn evaluated(task: Task, result: ExecutionResult) -> EvaluatedResult {
    EvaluatedResult {
        task_id: result.task_id,
        model: result.model,
        response: result.response,
        evaluation: exact_evaluation(task, result.response.text@),
        duration_ms: result.duration_ms,
    }
}

/// Adds the score to a result.
pub fn evaluate_result(task: &Task, result: ExecutionResult) -> (r: EvaluatedResult)
    ensures
        r == evaluated(*task, result),
{
    let evaluation: Option<Evaluation> = evaluate_exact(task, &result);
    EvaluatedResult {
        evaluation,
        task_id: result.task_id,
        model: result.model,
        response: result.response,
        duration_ms: result.duration_ms,
    }
}

/// Adds the scores to the results of one task.
pub fn evaluate_all(task: &Task, results: Vec<ExecutionResult>) -> (r: Vec<EvaluatedResult>)
    ensures
        r@ == results@.map_values(|result: ExecutionResult| evaluated(*task, result)),
{
    let ghost all = results@;
    let mut r: Vec<EvaluatedResult> = Vec::new();
    for result in it: results
        invariant
            it.seq() == all,
            r@ == all.take(it.index() as int).map_values(
                |result: ExecutionResult| evaluated(*task, result),
            ),
    {
        r.push(evaluate_result(task, result));
        proof {
            let f = |result: ExecutionResult| evaluated(*task, result);
            assert(r@ =~= all.take(it.index() + 1).map_values(f));
        }
    }
    proof {
        assert(all.take(all.len() as int) =~= all);
    }
    r
}

/// A response is scored exactly if the task has an expected text. The score is
/// one if the response is that text with nothing but white space around it,
/// and the text itself has none at its ends; any other response scores zero.
pub proof fn a_match_is_the_expected_text(task: Task, response: Seq<char>)
    ensures
        task.evaluation is None <==> exact_evaluation(task, response) is None,
        task.evaluation matches Some(TaskEvaluation::Exact { expected }) ==> {
            let score = exact_evaluation(task, response)->Some_0.score;
            &&& score == 0 || score == 1
            &&& score == 1 <==> is_tight(expected@) && exists|p: Seq<char>, q: Seq<char>|
                is_blank(p) && is_blank(q) && response == #[trigger] (p + expected@ + q)
        },
{
    if let Some(TaskEvaluation::Exact { expected }) = task.evaluation {
        let (p, q) = trimming_takes_only_white_space(response);
        if trimmed(response) == expected@ {
            assert(response == p + expected@ + q);
        }
        if is_tight(expected@) && exists|p: Seq<char>, q: Seq<char>|
            is_blank(p) && is_blank(q) && response == #[trigger] (p + expected@ + q) {
            let (x, y) = choose|x: Seq<char>, y: Seq<char>|
                is_blank(x) && is_blank(y) && response == #[trigger] (x + expected@ + y);
            trimming_finds_the_core(x, expected@, y);
        }
    }
}

/// Nothing but white space can be added to a response that matches: with any
/// other character before or after it, it no longer does.
pub proof fn more_text_is_no_match(task: Task, response: Seq<char>, c: char)
    requires
        task.evaluation is Some,
        exact_evaluation(task, response) == Some(Evaluation { score: 1 }),
    ensures
        is_white_space(c) <==> exact_evaluation(task, response.push(c)) == Some(
            Evaluation { score: 1 },
        ),
        is_white_space(c) <==> exact_evaluation(task, seq![c] + response) == Some(
            Evaluation { score: 1 },
        ),
{
    if is_white_space(c) {
        padding_does_not_matter(response, c);
    } else {
        let (p, q) = trimming_takes_only_white_space(response);
        let core = trimmed(response);
        let nothing = Seq::<char>::empty();
        let after = (core + q).push(c);
        let before = seq![c] + (p + core);
        if core.len() == 0 {
            let all = p + q;
            assert(response =~= all);
            assert forall|i: int| 0 <= i < all.len() implies is_white_space(
                #[trigger] all[i],
            ) by {
                if i < p.len() {
                    assert(all[i] == p[i]);
                } else {
                    assert(all[i] == q[i - p.len()]);
                }
            }
            trimming_finds_the_core(all, seq![c], nothing);
            assert(response.push(c) =~= all + seq![c] + nothing);
            trimming_finds_the_core(nothing, seq![c], all);
            assert(seq![c] + response =~= nothing + seq![c] + all);
        } else {
            assert(after[0] == core[0]);
            trimming_finds_the_core(p, after, nothing);
            assert(response.push(c) =~= p + after + nothing);
            assert(after.len() > core.len());
            assert(before[before.len() - 1] == core[core.len() - 1]);
            trimming_finds_the_core(nothing, before, q);
            assert(seq![c] + response =~= nothing + before + q);
            assert(before.len() > core.len());
        }
    }
}

/// Scoring adds the score to a result and changes nothing else of it.
pub proof fn scoring_keeps_the_result(task: Task, result: ExecutionResult)
    ensures
        evaluated(task, result).task_id == result.task_id,
        evaluated(task, result).model == result.model,
        evaluated(task, result).response == result.response,
        evaluated(task, result).duration_ms == result.duration_ms,
        evaluated(task, result).evaluation is Some <==> task.evaluation is Some,
        evaluated(task, result).evaluation == exact_evaluation(task, result.response.text@),
{
}

/// Whatever `evaluate_exact` returns: nothing for a task without an evaluation,
/// and otherwise one point exactly if the response is the expected text with
/// nothing but white space around it, and no point else.
pub proof fn exact_evaluation_asks_for_the_whole_text(
    task: &Task,
    result: &ExecutionResult,
    r: Option<Evaluation>,
)
    requires
        call_ensures(evaluate_exact, (task, result), r),
    ensures
        r is None <==> task.evaluation is None,
        task.evaluation matches Some(TaskEvaluation::Exact { expected }) ==> {
            &&& r->Some_0.score == 0 || r->Some_0.score == 1
            &&& r->Some_0.score == 1 <==> is_tight(expected@) && exists|
                p: Seq<char>,
                q: Seq<char>,
            |
                is_blank(p) && is_blank(q) && result.response.text@ == #[trigger] (p + expected@
                    + q)
        },
{
    a_match_is_the_expected_text(*task, result.response.text@);
}

/// Adding a score leaves the rest of a result as it was.
pub proof fn evaluating_only_adds_the_score(
    task: &Task,
    result: ExecutionResult,
    r: EvaluatedResult,
    score: Option<Evaluation>,
)
    requires
        call_ensures(evaluate_result, (task, result), r),
        call_ensures(evaluate_exact, (task, &result), score),
    ensures
        r == (EvaluatedResult {
            task_id: result.task_id,
            model: result.model,
            response: result.response,
            evaluation: score,
            duration_ms: result.duration_ms,
        }),
{
}

/// Results are scored one by one, in their order.
pub proof fn all_results_are_evaluated_in_order(
    task: &Task,
    results: Vec<ExecutionResult>,
    r: Vec<EvaluatedResult>,
    k: int,
    one: EvaluatedResult,
)
    requires
        call_ensures(evaluate_all, (task, results), r),
        0 <= k < results@.len(),
        call_ensures(evaluate_result, (task, results@[k]), one),
    ensures
        r@.len() == results@.len(),
        r@[k] == one,
{
}

} // verus!
