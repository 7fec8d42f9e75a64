//! The tasks that models are run against.
use crate::text::text_same;
use vstd::prelude::*;

verus! {

/// How a response is scored.
#[derive(Debug, PartialEq, Eq)]
pub enum TaskEvaluation {
    Exact { expected: String },
}

impl Clone for TaskEvaluation {
    fn clone(&self) -> (r: Self)
        ensures
            r == *self,
    {
        match self {
            TaskEvaluation::Exact { expected } => TaskEvaluation::Exact {
                expected: expected.clone(),
            },
        }
    }
}

/// A prompt under a name, with the evaluation of responses to it.
#[derive(Debug, PartialEq, Eq)]
pub struct Task {
    pub id: String,
    pub prompt: String,
    pub evaluation: Option<TaskEvaluation>,
}

impl Clone for Task {
    fn clone(&self) -> (r: Self)
        ensures
            r == *self,
    {
        let evaluation: Option<TaskEvaluation> = match &self.evaluation {
            Some(evaluation) => Some(evaluation.clone()),
            None => None,
        };
        Task { id: self.id.clone(), prompt: self.prompt.clone(), evaluation }
    }
}

/// Why tasks could not be loaded.
#[derive(Debug, PartialEq, Eq)]
pub enum TaskError {
    Io(String),
    Parse(String),
    DuplicateId(String),
}

impl TaskError {
    pub open spec fn message_spec(self) -> Seq<char> {
        match self {
            TaskError::Io(cause) => "failed to read tasks file: "@ + cause@,
            TaskError::Parse(cause) => "failed to parse tasks file: "@ + cause@,
            TaskError::DuplicateId(id) => "duplicate task id: "@ + id@,
        }
    }

    /// The error in words.
    pub fn message(&self) -> (r: String)
        ensures
            r@ == self.message_spec(),
    {
        match self {
            TaskError::Io(cause) => {
                let mut r: String = "failed to read tasks file: ".to_owned();
                r.push_str(cause.as_str());
                r
            },
            TaskError::Parse(cause) => {
                let mut r: String = "failed to parse tasks file: ".to_owned();
                r.push_str(cause.as_str());
                r
            },
            TaskError::DuplicateId(id) => {
                let mut r: String = "duplicate task id: ".to_owned();
                r.push_str(id.as_str());
                r
            },
        }
    }
}

/// Two tasks up to the one at `k` have the same id, the later one being at `k`.
pub open spec fn repeats_at(tasks: Seq<Task>, k: int) -> bool {
    exists|j: int| 0 <= j < k && (#[trigger] tasks[j]).id@ == tasks[k].id@
}

/// Hands the tasks back if no two of them have the same id; otherwise reports
/// the first id that repeats an earlier one.
pub fn unique_tasks(tasks: Vec<Task>) -> (r: Result<Vec<Task>, TaskError>)
    ensures
        match r {
            Ok(kept) => kept == tasks && forall|k: int|
                0 <= k < tasks@.len() ==> !#[trigger] repeats_at(tasks@, k),
            Err(error) => exists|k: int|
                {
                    &&& 0 <= k < tasks@.len()
                    &&& #[trigger] repeats_at(tasks@, k)
                    &&& forall|t: int| 0 <= t < k ==> !#[trigger] repeats_at(tasks@, t)
                    &&& error == TaskError::DuplicateId(tasks@[k].id)
                },
        },
{
    let mut k: usize = 0;
    while k < tasks.len()
        invariant
            k <= tasks@.len(),
            forall|t: int| 0 <= t < k ==> !#[trigger] repeats_at(tasks@, t),
        decreases tasks@.len() - k,
    {
        let mut j: usize = 0;
        while j < k
            invariant
                j <= k < tasks@.len(),
                forall|t: int| 0 <= t < k ==> !#[trigger] repeats_at(tasks@, t),
                forall|i: int| 0 <= i < j ==> (#[trigger] tasks@[i]).id@ != tasks@[k as int].id@,
            decreases k - j,
        {
            if text_same(tasks[j].id.as_str(), tasks[k].id.as_str()) {
                let id: String = tasks[k].id.clone();
                assert(repeats_at(tasks@, k as int));
                return Err(TaskError::DuplicateId(id));
            }
            j += 1;
        }
        k += 1;
    }
    Ok(tasks)
}

/// No task repeats an earlier one exactly if no two tasks have the same id.
pub proof fn tasks_repeat_only_with_the_same_id(tasks: Seq<Task>)
    ensures
        (forall|k: int| 0 <= k < tasks.len() ==> !#[trigger] repeats_at(tasks, k)) <==> forall|
            i: int,
            j: int,
        |
            0 <= i < j < tasks.len() ==> (#[trigger] tasks[i]).id@ != (#[trigger] tasks[j]).id@,
{
    if forall|k: int| 0 <= k < tasks.len() ==> !#[trigger] repeats_at(tasks, k) {
        assert forall|i: int, j: int| 0 <= i < j < tasks.len() implies (#[trigger] tasks[i]).id@
            != (#[trigger] tasks[j]).id@ by {
            assert(!repeats_at(tasks, j));
        }
    }
}

/// Whatever `unique_tasks` returns: all tasks as they were if no two have the
/// same id, and otherwise an error with the id that comes up a second time first.
pub proof fn tasks_are_kept_or_refused(tasks: Vec<Task>, r: Result<Vec<Task>, TaskError>)
    requires
        call_ensures(unique_tasks, (tasks,), r),
    ensures
        r is Ok <==> forall|i: int, j: int|
            0 <= i < j < tasks@.len() ==> (#[trigger] tasks@[i]).id@ != (#[trigger] tasks@[j]).id@,
        r matches Ok(kept) ==> kept == tasks,
        r matches Err(error) ==> (error matches TaskError::DuplicateId(id) && exists|
            i: int,
            j: int,
        |
            0 <= i < j < tasks@.len() && (#[trigger] tasks@[i]).id@ == id@ && (
            #[trigger] tasks@[j]).id@ == id@ && forall|s: int, t: int|
                0 <= s < t < j ==> (#[trigger] tasks@[s]).id@ != (#[trigger] tasks@[t]).id@),
{
    tasks_repeat_only_with_the_same_id(tasks@);
    if let Err(error) = r {
        let k = choose|k: int|
            {
                &&& 0 <= k < tasks@.len()
                &&& #[trigger] repeats_at(tasks@, k)
                &&& forall|t: int| 0 <= t < k ==> !#[trigger] repeats_at(tasks@, t)
                &&& error == TaskError::DuplicateId(tasks@[k].id)
            };
        let j = choose|j: int| 0 <= j < k && (#[trigger] tasks@[j]).id@ == tasks@[k].id@;
        assert(tasks@[j].id@ == tasks@[k].id@);
        assert forall|s: int, t: int| 0 <= s < t < k implies (#[trigger] tasks@[s]).id@ != (
        #[trigger] tasks@[t]).id@ by {
            assert(!repeats_at(tasks@, t));
        }
    }
}

} // verus!
