use arena::bootstrap::{BootstrapMeta, BootstrapUnavailable};
use arena::judge::{
    JudgeDecision, JudgeOrientation, Judgment, JudgmentFailure, JudgmentFailureKind,
    OrientationFailure,
};
use arena::persist::{JudgeDecoding, Output, RunMetadata};
use arena::provider::ModelId;
use arena::rating::{ModelRating, UnavailableReason};
use arena::report::from_output;
use arena::stats::{self, ModelStats, PairAgreement, Rate};
use arena::task::Task;

fn value(rate: Rate) -> f64 {
    if rate.whole == 0 {
        0.0
    } else {
        rate.part as f64 / rate.whole as f64
    }
}

fn run_meta(models: &[&str], judge: Option<&str>) -> RunMetadata {
    RunMetadata::new(
        models.iter().map(|id| ModelId::new(id)).collect(),
        judge.map(ModelId::new),
        Some("tasks.json".into()),
        "2026-01-02T03:04:05Z".into(),
        "https://example.test/v1".into(),
    )
}

fn task(id: &str) -> Task {
    Task {
        id: id.into(),
        prompt: "p".into(),
        evaluation: None,
    }
}

fn judgment(
    task_id: &str,
    model_a: &str,
    model_b: &str,
    winner: JudgeDecision,
    agreement: bool,
    orientation_ab: JudgeDecision,
    orientation_ba: JudgeDecision,
) -> Judgment {
    Judgment {
        task_id: task_id.into(),
        model_a: ModelId::new(model_a),
        model_b: ModelId::new(model_b),
        judge_model: ModelId::new("judge"),
        winner,
        reason: String::new(),
        duration_ms: 12,
        agreement,
        orientation_ab: Some(orientation_ab),
        orientation_ba: Some(orientation_ba),
        reason_ab: Some("ab".into()),
        reason_ba: Some("ba".into()),
        raw_ab: Some(r#"{"winner":"a","reason":"ab"}"#.into()),
        raw_ba: Some(r#"{"winner":"b","reason":"ba"}"#.into()),
        raw: None,
    }
}

fn output(
    run: RunMetadata,
    tasks: Vec<Task>,
    judgments: Option<Vec<Judgment>>,
    judgment_failures: Option<Vec<JudgmentFailure>>,
    statistics: Option<Vec<ModelStats>>,
    ratings: Option<Vec<ModelRating<f64>>>,
) -> Output<f64> {
    Output {
        run,
        tasks,
        results: vec![],
        comparisons: vec![],
        judgments,
        judgment_failures,
        statistics,
        ratings,
    }
}

#[test]
fn no_judge_output_produces_a_no_judge_report() {
    let output = output(
        run_meta(&["m0", "m1"], None),
        vec![task("t1")],
        None,
        None,
        None,
        None,
    );
    let report = from_output(&output);

    assert!(!report.summary.judge_used);
    assert_eq!(report.summary.complete, None);
    assert_eq!(report.summary.task_count, 1);
    assert_eq!(report.summary.candidate_count, 2);
    assert_eq!(report.summary.expected_pairs, None);
    assert_eq!(report.summary.resolved_pairs, None);
    assert_eq!(report.summary.failed_pairs, None);
    assert_eq!(report.summary.orientation_agreeing_pairs, None);
    assert_eq!(report.summary.orientation_disagreeing_pairs, None);
    assert_eq!(report.summary.agreement_rate, None);
    assert!(report.config.judge.is_none());
    assert!(report.config.judge_decoding.is_none());
    assert!(report.bootstrap.is_none());
    assert!(report.pairs.is_empty());
    assert!(report.failed_pairs.is_empty());
    assert!(report.results.is_empty());
    assert_eq!(report.models[0].model, &ModelId::new("m0"));
    assert_eq!(report.models[1].model, &ModelId::new("m1"));
    assert!(report.models.iter().all(|model| {
        model.wins == 0
            && model.rating.is_none()
            && model.unavailable.is_none()
            && model.rating_lower.is_none()
    }));
}

#[test]
fn complete_judge_output_maps_coverage() {
    let judgments = vec![judgment(
        "t1",
        "m0",
        "m1",
        JudgeDecision::A,
        true,
        JudgeDecision::A,
        JudgeDecision::A,
    )];
    let models = vec![ModelId::new("m0"), ModelId::new("m1")];
    let statistics = stats::aggregate(&judgments, &models);
    let ratings = vec![
        ModelRating {
            model: ModelId::new("m0"),
            rating: Some(1600.0),
            rating_lower: Some(1500.0),
            rating_upper: Some(1700.0),
            unavailable: None,
        },
        ModelRating {
            model: ModelId::new("m1"),
            rating: Some(1400.0),
            rating_lower: Some(1300.0),
            rating_upper: Some(1500.0),
            unavailable: None,
        },
    ];
    let run = run_meta(&["m0", "m1"], Some("judge"))
        .with_judge_coverage(1, 1, 0)
        .with_orientation_agreement(stats::pair_agreement(&judgments))
        .with_judge_decoding(JudgeDecoding::arena_default())
        .with_bootstrap(&BootstrapMeta {
            seed: 0,
            replicates: 1000,
            valid: Some(1000),
            clusters: 2,
            ran: true,
            unavailable: None,
        });
    let output = output(
        run,
        vec![task("t1")],
        Some(judgments),
        Some(vec![]),
        Some(statistics),
        Some(ratings),
    );
    let report = from_output(&output);

    assert!(report.summary.judge_used);
    assert_eq!(report.summary.complete, Some(true));
    assert_eq!(report.summary.expected_pairs, Some(1));
    assert_eq!(report.summary.resolved_pairs, Some(1));
    assert_eq!(report.summary.failed_pairs, Some(0));
    assert_eq!(report.summary.orientation_agreeing_pairs, Some(1));
    assert_eq!(report.summary.orientation_disagreeing_pairs, Some(0));
    assert_eq!(report.summary.agreement_rate.map(value), Some(1.0));
    assert_eq!(report.pairs.len(), 1);
    assert!(report.failed_pairs.is_empty());
    assert_eq!(report.config.judge, Some(&ModelId::new("judge")));
    assert_eq!(report.config.candidate_max_tokens, 4096);
    assert_eq!(
        report.config.judge_decoding,
        Some(JudgeDecoding::arena_default())
    );
    assert_eq!(report.bootstrap.as_ref().map(|item| item.ran), Some(true));
    assert_eq!(
        report.bootstrap.as_ref().map(|item| item.bounds_present),
        Some(true)
    );
}

#[test]
fn incomplete_judge_output_preserves_failed_pairs() {
    let judgments = vec![judgment(
        "t1",
        "m0",
        "m1",
        JudgeDecision::A,
        true,
        JudgeDecision::A,
        JudgeDecision::A,
    )];
    let failure = JudgmentFailure {
        task_id: "t2".into(),
        model_a: ModelId::new("m0"),
        model_b: ModelId::new("m1"),
        judge_model: ModelId::new("judge"),
        orientations: vec![OrientationFailure {
            orientation: JudgeOrientation::Ab,
            kind: JudgmentFailureKind::InvalidJson,
            error: "no valid judgment JSON found".into(),
            attempts: 3,
        }],
    };
    let models = vec![ModelId::new("m0"), ModelId::new("m1")];
    let statistics = stats::aggregate(&judgments, &models);
    let run = run_meta(&["m0", "m1"], Some("judge"))
        .with_judge_coverage(2, 1, 1)
        .with_orientation_agreement(stats::pair_agreement(&judgments))
        .with_judge_decoding(JudgeDecoding::arena_default());
    let output = output(
        run,
        vec![task("t1"), task("t2")],
        Some(judgments),
        Some(vec![failure]),
        Some(statistics),
        None,
    );
    let report = from_output(&output);

    assert_eq!(report.summary.complete, Some(false));
    assert_eq!(report.summary.expected_pairs, Some(2));
    assert_eq!(report.summary.resolved_pairs, Some(1));
    assert_eq!(report.summary.failed_pairs, Some(1));
    assert_eq!(report.pairs.len(), 1);
    assert_eq!(report.failed_pairs.len(), 1);
    assert_eq!(report.failed_pairs[0].task_id, "t2");
    assert_eq!(report.failed_pairs[0].model_a, &ModelId::new("m0"));
    assert_eq!(report.failed_pairs[0].model_b, &ModelId::new("m1"));
    assert_eq!(report.failed_pairs[0].orientations.len(), 1);
    assert_eq!(
        report.failed_pairs[0].orientations[0].kind,
        JudgmentFailureKind::InvalidJson
    );
}

#[test]
fn pairwise_rows_preserve_orientation_and_final_winner() {
    let judgments = vec![judgment(
        "t1",
        "m0",
        "m1",
        JudgeDecision::Draw,
        false,
        JudgeDecision::A,
        JudgeDecision::B,
    )];
    let output = output(
        run_meta(&["m0", "m1"], Some("judge"))
            .with_judge_coverage(1, 1, 0)
            .with_orientation_agreement(stats::pair_agreement(&judgments)),
        vec![task("t1")],
        Some(judgments),
        Some(vec![]),
        None,
        None,
    );
    let report = from_output(&output);
    let row = &report.pairs[0];

    assert_eq!(row.task_id, "t1");
    assert_eq!(row.model_a, &ModelId::new("m0"));
    assert_eq!(row.model_b, &ModelId::new("m1"));
    assert_eq!(row.winner, JudgeDecision::Draw);
    assert!(!row.agreement);
    assert_eq!(row.orientation_ab, Some(JudgeDecision::A));
    assert_eq!(row.orientation_ba, Some(JudgeDecision::B));
    assert_eq!(row.reason_ab, Some("ab"));
    assert_eq!(row.reason_ba, Some("ba"));
    assert_eq!(row.duration_ms, 12);
    assert_eq!(row.raw_ab, Some(r#"{"winner":"a","reason":"ab"}"#));
    assert_eq!(row.raw_ba, Some(r#"{"winner":"b","reason":"ba"}"#));
}

#[test]
fn unavailable_ratings_remain_unavailable_and_requested_models_remain_present() {
    let ratings = vec![
        ModelRating {
            model: ModelId::new("m0"),
            rating: Some(1500.0),
            rating_lower: None,
            rating_upper: None,
            unavailable: None,
        },
        ModelRating {
            model: ModelId::new("m1"),
            rating: None,
            rating_lower: None,
            rating_upper: None,
            unavailable: Some(UnavailableReason::NoComparisons),
        },
        ModelRating {
            model: ModelId::new("m2"),
            rating: None,
            rating_lower: None,
            rating_upper: None,
            unavailable: Some(UnavailableReason::NoComparisons),
        },
    ];
    let statistics = stats::aggregate(
        &[judgment(
            "t1",
            "m0",
            "m1",
            JudgeDecision::A,
            true,
            JudgeDecision::A,
            JudgeDecision::A,
        )],
        &[ModelId::new("m0"), ModelId::new("m1"), ModelId::new("m2")],
    );
    let output = output(
        run_meta(&["m0", "m1", "m2"], Some("judge")).with_judge_coverage(3, 1, 2),
        vec![task("t1")],
        Some(vec![]),
        Some(vec![]),
        Some(statistics),
        Some(ratings),
    );
    let report = from_output(&output);

    assert_eq!(report.models.len(), 3);
    assert_eq!(report.models[0].model, &ModelId::new("m0"));
    assert_eq!(report.models[0].rating, Some(1500.0));
    assert_eq!(report.models[0].unavailable, None);
    assert_eq!(report.models[1].model, &ModelId::new("m1"));
    assert_eq!(report.models[1].rating, None);
    assert_eq!(
        report.models[1].unavailable,
        Some(UnavailableReason::NoComparisons)
    );
    assert!(report.models[1].rating_lower.is_none());
    assert!(report.models[1].rating_upper.is_none());
    assert_eq!(report.models[2].model, &ModelId::new("m2"));
    assert_eq!(report.models[2].wins, 0);
    assert_eq!(report.models[2].total, 0);
    assert_eq!(
        report.models[2].unavailable,
        Some(UnavailableReason::NoComparisons)
    );
}

#[test]
fn bootstrap_invalid_replicates_state_is_preserved() {
    let ratings = vec![ModelRating {
        model: ModelId::new("m0"),
        rating: Some(1500.0),
        rating_lower: None,
        rating_upper: None,
        unavailable: None,
    }];
    let run = run_meta(&["m0"], Some("judge"))
        .with_judge_coverage(0, 0, 0)
        .with_orientation_agreement(PairAgreement {
            resolved_pairs: 0,
            orientation_agreeing_pairs: 0,
            orientation_disagreeing_pairs: 0,
            agreement_rate: Rate { part: 0, whole: 0 },
        })
        .with_bootstrap(&BootstrapMeta {
            seed: 7,
            replicates: 1000,
            valid: Some(744),
            clusters: 2,
            ran: true,
            unavailable: Some(BootstrapUnavailable::InvalidReplicates),
        });
    let output = output(
        run,
        vec![task("t1"), task("t2")],
        Some(vec![]),
        Some(vec![]),
        Some(stats::aggregate(&[], &[ModelId::new("m0")])),
        Some(ratings),
    );
    let report = from_output(&output);
    let bootstrap = report.bootstrap.expect("judge run records bootstrap");

    assert_eq!(bootstrap.seed, 7);
    assert_eq!(bootstrap.replicates, 1000);
    assert_eq!(bootstrap.valid, Some(744));
    assert_eq!(bootstrap.clusters, 2);
    assert!(bootstrap.ran);
    assert_eq!(
        bootstrap.unavailable,
        Some(BootstrapUnavailable::InvalidReplicates)
    );
    assert!(!bootstrap.bounds_present);
}
