use arena::evaluate::{evaluate_all, evaluate_exact, evaluate_result};
use arena::execute::ExecutionResult;
use arena::provider::{CompletionResponse, ModelId};
use arena::task::{unique_tasks, Task, TaskError, TaskEvaluation};

fn result(text: &str) -> ExecutionResult {
    ExecutionResult {
        task_id: "t1".into(),
        model: ModelId::new("model"),
        response: CompletionResponse { text: text.into() },
        duration_ms: 0,
    }
}

fn exact_task(expected: &str) -> Task {
    Task {
        id: "t1".into(),
        prompt: "prompt".into(),
        evaluation: Some(TaskEvaluation::Exact { expected: expected.into() }),
    }
}

fn plain_task(id: &str) -> Task {
    Task { id: id.into(), prompt: "p".into(), evaluation: None }
}

#[test]
fn scores_matching_response() {
    let evaluation = evaluate_exact(&exact_task("Paris"), &result("Paris")).unwrap();
    assert_eq!(evaluation.score, 1);
}

#[test]
fn scores_non_matching_response() {
    let evaluation = evaluate_exact(&exact_task("Paris"), &result("London")).unwrap();
    assert_eq!(evaluation.score, 0);
}

#[test]
fn ignores_surrounding_whitespace() {
    let evaluation = evaluate_exact(&exact_task("Paris"), &result("  Paris\n")).unwrap();
    assert_eq!(evaluation.score, 1);
}

#[test]
fn scores_are_case_sensitive_and_trim_only_the_ends() {
    let task = exact_task("Paris");
    assert_eq!(evaluate_exact(&task, &result("paris")).unwrap().score, 0);
    assert_eq!(evaluate_exact(&task, &result("Pa ris")).unwrap().score, 0);
    assert_eq!(evaluate_exact(&task, &result("\u{3000}Paris\u{a0}")).unwrap().score, 1);
    assert_eq!(evaluate_exact(&task, &result("\u{200b}Paris")).unwrap().score, 0);
    assert_eq!(evaluate_exact(&exact_task(" Paris"), &result(" Paris")).unwrap().score, 0);
}

#[test]
fn skips_tasks_without_evaluation() {
    assert!(evaluate_exact(&plain_task("t1"), &result("Paris")).is_none());
}

#[test]
fn evaluate_result_preserves_duration_ms() {
    let mut execution = result("Paris");
    execution.duration_ms = 42;
    let evaluated = evaluate_result(&exact_task("Paris"), execution);

    assert_eq!(evaluated.duration_ms, 42);
    assert_eq!(evaluated.task_id, "t1");
    assert_eq!(evaluated.response.text, "Paris");
}

#[test]
fn results_are_scored_in_their_order() {
    let scores: Vec<_> = evaluate_all(&exact_task("x"), vec![result("x"), result("y"), result(" x")])
        .into_iter()
        .map(|r| r.evaluation.unwrap().score)
        .collect();
    assert_eq!(scores, vec![1, 0, 1]);
}

#[test]
fn repeated_task_ids_are_rejected() {
    let tasks = vec![plain_task("a"), plain_task("b")];
    assert_eq!(unique_tasks(tasks.clone()), Ok(tasks));
    let error = unique_tasks(vec![
        plain_task("a"),
        plain_task("b"),
        plain_task("b"),
        plain_task("a"),
    ])
    .unwrap_err();
    assert_eq!(error, TaskError::DuplicateId("b".into()));
    assert_eq!(error.message(), "duplicate task id: b");
    assert_eq!(
        TaskError::Io("gone".into()).message(),
        "failed to read tasks file: gone"
    );
    assert_eq!(
        TaskError::Parse("bad".into()).message(),
        "failed to parse tasks file: bad"
    );
}
