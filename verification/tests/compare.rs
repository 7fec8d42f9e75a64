use arena::compare::{compare, compare_all, Comparison};
use arena::evaluate::{EvaluatedResult, Evaluation};
use arena::provider::{CompletionResponse, ModelId};

fn evaluated(task_id: &str, model: &str, score: Option<u32>) -> EvaluatedResult {
    EvaluatedResult {
        task_id: task_id.into(),
        model: ModelId::new(model),
        response: CompletionResponse { text: String::new() },
        evaluation: score.map(|score| Evaluation { score }),
        duration_ms: 0,
    }
}

#[test]
fn higher_score_wins() {
    let a = evaluated("t1", "model-a", Some(1));
    let b = evaluated("t1", "model-b", Some(0));

    let comparison = compare(&a, &b).unwrap();
    assert_eq!(comparison.winner, Some(ModelId::new("model-a")));

    let swapped = compare(&b, &a).unwrap();
    assert_eq!(swapped.model_a, ModelId::new("model-b"));
    assert_eq!(swapped.winner, Some(ModelId::new("model-a")));
}

#[test]
fn equal_scores_draw() {
    let a = evaluated("t1", "model-a", Some(1));
    let b = evaluated("t1", "model-b", Some(1));

    let comparison = compare(&a, &b).unwrap();
    assert_eq!(comparison.winner, None);
}

#[test]
fn missing_evaluation_produces_no_comparison() {
    let a = evaluated("t1", "model-a", Some(1));
    let b = evaluated("t1", "model-b", None);

    assert!(compare(&a, &b).is_none());
}

#[test]
fn different_tasks_are_not_compared() {
    let a = evaluated("t1", "model-a", Some(1));
    let b = evaluated("t2", "model-b", Some(0));

    assert!(compare(&a, &b).is_none());
}

#[test]
fn compare_all_emits_same_task_pairs_in_result_order() {
    let results = vec![
        evaluated("t1", "model-a", Some(1)),
        evaluated("t1", "model-b", Some(0)),
        evaluated("t1", "model-c", Some(0)),
        evaluated("t2", "model-a", Some(1)),
        evaluated("t2", "model-b", Some(0)),
    ];

    assert_eq!(
        compare_all(&results),
        vec![
            Comparison {
                task_id: "t1".into(),
                model_a: ModelId::new("model-a"),
                model_b: ModelId::new("model-b"),
                winner: Some(ModelId::new("model-a")),
            },
            Comparison {
                task_id: "t1".into(),
                model_a: ModelId::new("model-a"),
                model_b: ModelId::new("model-c"),
                winner: Some(ModelId::new("model-a")),
            },
            Comparison {
                task_id: "t1".into(),
                model_a: ModelId::new("model-b"),
                model_b: ModelId::new("model-c"),
                winner: None,
            },
            Comparison {
                task_id: "t2".into(),
                model_a: ModelId::new("model-a"),
                model_b: ModelId::new("model-b"),
                winner: Some(ModelId::new("model-a")),
            },
        ]
    );
}
