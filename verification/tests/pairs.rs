use arena::evaluate::EvaluatedResult;
use arena::judge::{
    JudgeDecision, JudgeError, JudgeOrientation, JudgePairsOutcome, Judgment, JudgmentFailureKind,
};
use arena::pairs::{pair_indices, presentations, OrientationOutcome, PairLedger};
use arena::provider::{CompletionResponse, ModelId, ProviderError};
use arena::slots::Slots;
use arena::task::Task;

fn task() -> Task {
    Task { id: "t1".into(), prompt: "p".into(), evaluation: None }
}

fn evaluated(model: &str) -> EvaluatedResult {
    EvaluatedResult {
        task_id: "t1".into(),
        model: ModelId::new(model),
        response: CompletionResponse { text: model.into() },
        evaluation: None,
        duration_ms: 0,
    }
}

fn ledger(models: &[&str]) -> PairLedger {
    let results: Vec<_> = models.iter().map(|model| evaluated(model)).collect();
    PairLedger::new(&ModelId::new("judge"), &task(), &results)
}

fn judged(started_ms: u64, a: &str, b: &str, winner: JudgeDecision) -> OrientationOutcome {
    OrientationOutcome {
        started_ms,
        attempts: 1,
        result: Ok(Judgment {
            task_id: "t1".into(),
            model_a: ModelId::new(a),
            model_b: ModelId::new(b),
            judge_model: ModelId::new("judge"),
            winner,
            reason: "position".into(),
            duration_ms: 1,
            agreement: true,
            orientation_ab: None,
            orientation_ba: None,
            reason_ab: None,
            reason_ba: None,
            raw_ab: None,
            raw_ba: None,
            raw: Some("raw".into()),
        }),
    }
}

fn broken(attempts: u32) -> OrientationOutcome {
    OrientationOutcome {
        started_ms: 0,
        attempts,
        result: Err(JudgeError::Provider {
            task_id: "t1".into(),
            judge_model: ModelId::new("judge"),
            source: ProviderError::RequestFailed("down".into()),
        }),
    }
}

fn names(outcome: &JudgePairsOutcome) -> Vec<String> {
    outcome
        .judgments
        .iter()
        .map(|j| format!("{}-{}", j.model_a.as_str(), j.model_b.as_str()))
        .collect()
}

#[test]
fn pairs_are_listed_by_first_and_second_member() {
    assert_eq!(pair_indices(0), vec![]);
    assert_eq!(pair_indices(1), vec![]);
    assert_eq!(pair_indices(4), vec![(0, 1), (0, 2), (0, 3), (1, 2), (1, 3), (2, 3)]);
}

#[test]
fn every_pair_is_presented_both_ways() {
    assert_eq!(
        presentations(3),
        vec![
            (0, JudgeOrientation::Ab, 0, 1),
            (0, JudgeOrientation::Ba, 1, 0),
            (1, JudgeOrientation::Ab, 0, 2),
            (1, JudgeOrientation::Ba, 2, 0),
            (2, JudgeOrientation::Ab, 1, 2),
            (2, JudgeOrientation::Ba, 2, 1),
        ]
    );
    assert!(presentations(1).is_empty());
    assert!(presentations(0).is_empty());
}

#[test]
fn the_first_position_winning_both_times_is_a_draw() {
    let mut ledger = ledger(&["m0", "m1"]);
    ledger
        .record(0, JudgeOrientation::Ba, judged(40, "m1", "m0", JudgeDecision::A), 60)
        .unwrap();
    ledger
        .record(0, JudgeOrientation::Ab, judged(50, "m0", "m1", JudgeDecision::A), 90)
        .unwrap();
    let outcome = ledger.finish();
    assert!(outcome.failures.is_empty());
    let judgment = &outcome.judgments[0];
    assert_eq!(judgment.model_a, ModelId::new("m0"));
    assert_eq!(judgment.winner, JudgeDecision::Draw);
    assert!(!judgment.agreement);
    assert_eq!(judgment.orientation_ab, Some(JudgeDecision::A));
    assert_eq!(judgment.orientation_ba, Some(JudgeDecision::B));
    assert_eq!(judgment.duration_ms, 50);
}

#[test]
fn outcomes_in_any_order_are_kept_in_pair_order() {
    let mut ledger = ledger(&["m0", "m1", "m2"]);
    let order = [
        (2, JudgeOrientation::Ba, "m2", "m1"),
        (0, JudgeOrientation::Ba, "m1", "m0"),
        (2, JudgeOrientation::Ab, "m1", "m2"),
        (1, JudgeOrientation::Ab, "m0", "m2"),
        (0, JudgeOrientation::Ab, "m0", "m1"),
        (1, JudgeOrientation::Ba, "m2", "m0"),
    ];
    for (index, orientation, a, b) in order {
        ledger.record(index, orientation, judged(0, a, b, JudgeDecision::Draw), 1).unwrap();
    }
    let outcome = ledger.finish();
    assert_eq!(names(&outcome), vec!["m0-m1", "m0-m2", "m1-m2"]);
    assert!(outcome.judgments.iter().all(|j| j.agreement));
    assert_eq!(outcome.judgments.len() + outcome.failures.len(), 3);
}

#[test]
fn one_failed_orientation_is_no_draw_but_a_failure() {
    let mut ledger = ledger(&["m0", "m1", "m2"]);
    ledger
        .record(0, JudgeOrientation::Ab, judged(0, "m0", "m1", JudgeDecision::A), 1)
        .unwrap();
    ledger.record(0, JudgeOrientation::Ba, broken(3), 1).unwrap();
    ledger.record(1, JudgeOrientation::Ab, broken(3), 1).unwrap();
    ledger.record(1, JudgeOrientation::Ba, broken(2), 1).unwrap();
    ledger
        .record(2, JudgeOrientation::Ab, judged(0, "m1", "m2", JudgeDecision::B), 1)
        .unwrap();
    ledger
        .record(2, JudgeOrientation::Ba, judged(0, "m2", "m1", JudgeDecision::A), 1)
        .unwrap();
    let outcome = ledger.finish();
    assert_eq!(names(&outcome), vec!["m1-m2"]);
    assert_eq!(outcome.judgments[0].winner, JudgeDecision::B);
    assert_eq!(outcome.failures.len(), 2);
    assert_eq!(outcome.failures[0].model_a, ModelId::new("m0"));
    assert_eq!(outcome.failures[0].model_b, ModelId::new("m1"));
    assert_eq!(outcome.failures[0].task_id, "t1");
    let only = &outcome.failures[0].orientations;
    assert_eq!(only.len(), 1);
    assert_eq!(only[0].orientation, JudgeOrientation::Ba);
    assert_eq!(only[0].kind, JudgmentFailureKind::Provider);
    let both: Vec<_> = outcome.failures[1]
        .orientations
        .iter()
        .map(|f| (f.orientation, f.attempts))
        .collect();
    assert_eq!(both, vec![(JudgeOrientation::Ab, 3), (JudgeOrientation::Ba, 2)]);
}

#[test]
fn a_pair_with_one_outcome_is_in_neither_list() {
    let mut ledger = ledger(&["m0", "m1"]);
    ledger.record(0, JudgeOrientation::Ab, broken(3), 1).unwrap();
    let outcome = ledger.finish();
    assert!(outcome.judgments.is_empty());
    assert!(outcome.failures.is_empty());
}

#[test]
fn results_of_different_tasks_end_the_judging() {
    let mut ledger = ledger(&["m0", "m1"]);
    let outcome = OrientationOutcome {
        started_ms: 0,
        attempts: 1,
        result: Err(JudgeError::DifferentTasks),
    };
    let error = ledger.record(0, JudgeOrientation::Ab, outcome, 1).unwrap_err();
    assert!(matches!(error, JudgeError::DifferentTasks));
}

#[test]
fn slots_keep_the_order_of_the_places() {
    let mut slots: Slots<&str> = Slots::new(3);
    assert_eq!(slots.len(), 3);
    slots.put(2, "c");
    slots.put(0, "a");
    assert!(!slots.is_full());
    slots.put(1, "b");
    assert!(slots.is_full());
    assert_eq!(slots.into_values(), vec!["a", "b", "c"]);

    let mut slots: Slots<u8> = Slots::new(2);
    slots.put(1, 5);
    assert_eq!(slots.into_values(), vec![5]);
}
