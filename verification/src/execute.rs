//! Running one task against candidate models.
use crate::provider::{CompletionRequest, CompletionResponse, ModelId, ProviderError};
use crate::provider::DEFAULT_MAX_TOKENS;
use crate::task::Task;
use vstd::prelude::*;

verus! {

/// What a model answered to a task.
#[derive(Debug, PartialEq, Eq)]
pub struct ExecutionResult {
    pub task_id: String,
    pub model: ModelId,
    pub response: CompletionResponse,
    pub duration_ms: u64,
}

impl Clone for ExecutionResult {
    fn clone(&self) -> (r: Self)
        ensures
            r == *self,
    {
        ExecutionResult {
            task_id: self.task_id.clone(),
            model: self.model.clone(),
            response: self.response.clone(),
            duration_ms: self.duration_ms,
        }
    }
}

/// A candidate request that failed for good.
#[derive(Debug, PartialEq, Eq)]
pub struct ExecutionError {
    pub task_id: String,
    pub model: ModelId,
    pub source: ProviderError,
}

impl ExecutionError {
    pub open spec fn message_spec(self) -> Seq<char> {
        "execution failed for task "@ + self.task_id@ + " with model "@ + self.model@ + ": "@
            + self.source.message_spec()
    }

    /// The error in words.
    pub fn message(&self) -> (r: String)
        ensures
            r@ == self.message_spec(),
    {
        let mut r: String = "execution failed for task ".to_owned();
        r.push_str(self.task_id.as_str());
        r.push_str(" with model ");
        r.push_str(self.model.as_str());
        r.push_str(": ");
        r.push_str(self.source.message().as_str());
        r
    }
}

/// The request that puts the task before a candidate. Its temperature is left
/// to the provider.
pub fn candidate_request(model: &ModelId, task: &Task) -> (r: CompletionRequest)
    ensures
        r == (CompletionRequest {
            model: *model,
            prompt: task.prompt,
            temperature: None,
            max_tokens: Some(DEFAULT_MAX_TOKENS),
        }),
{
    CompletionRequest {
        model: model.clone(),
        prompt: task.prompt.clone(),
        temperature: None,
        max_tokens: Some(DEFAULT_MAX_TOKENS),
    }
}

/// What the last attempt of a candidate request comes to; `duration_ms` is
/// measured over all attempts.
pub fn candidate_outcome(
    task: &Task,
    model: &ModelId,
    answer: Result<CompletionResponse, ProviderError>,
    duration_ms: u64,
) -> (r: Result<ExecutionResult, ExecutionError>)
    ensures
        r == (match answer {
            Ok(response) => Ok::<ExecutionResult, ExecutionError>(
                ExecutionResult { task_id: task.id, model: *model, response, duration_ms },
            ),
            Err(source) => Err(ExecutionError { task_id: task.id, model: *model, source }),
        }),
{
    match answer {
        Ok(response) => Ok(
            ExecutionResult {
                task_id: task.id.clone(),
                model: model.clone(),
                response,
                duration_ms,
            },
        ),
        Err(source) => Err(
            ExecutionError { task_id: task.id.clone(), model: model.clone(), source },
        ),
    }
}

/// A candidate is given the prompt of the task as it is, and an answer is
/// recorded under the task and the model that were asked.
pub proof fn candidates_answer_the_task(
    task: &Task,
    model: &ModelId,
    request: CompletionRequest,
    answer: Result<CompletionResponse, ProviderError>,
    duration_ms: u64,
    r: Result<ExecutionResult, ExecutionError>,
)
    requires
        call_ensures(candidate_request, (model, task), request),
        call_ensures(candidate_outcome, (task, model, answer, duration_ms), r),
    ensures
        request.prompt@ == task.prompt@,
        request.model == *model,
        request.temperature is None,
        request.max_tokens == Some(4096u32),
        r is Ok <==> answer is Ok,
        r matches Ok(result) ==> {
            &&& result.task_id == task.id
            &&& result.model == *model
            &&& Ok::<CompletionResponse, ProviderError>(result.response) == answer
            &&& result.duration_ms == duration_ms
        },
        r matches Err(error) ==> {
            &&& error.task_id == task.id
            &&& error.model == *model
            &&& Err::<CompletionResponse, ProviderError>(error.source) == answer
        },
{
}

} // verus!
