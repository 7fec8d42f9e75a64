use arena::bootstrap::BootstrapUnavailable;
use arena::error::Error;
use arena::event::{run_complete, ExperimentEvent};
use arena::evaluate::EvaluatedResult;
use arena::exec::{
    build_exec_config, choose_models, completion, exec_config_at, expected_pairs, finish_exec,
    judge_progress_len, pairs_fit, results_for_task, unique_models, validate_judge, Collection,
    ExecConfig, ExecStep, Judged,
};
use arena::execute::{candidate_outcome, candidate_request, ExecutionResult};
use arena::judge::{JudgeDecision, JudgePairsOutcome, Judgment, JudgmentFailure};
use arena::persist::{utc_timestamp, JudgeDecoding, PersistError, RunMetadata, VERSION};
use arena::provider::{
    missing_variable, CompletionRequest, CompletionResponse, ModelId, ProviderError,
    DEFAULT_MAX_TOKENS,
};
use arena::rating::{FitFailure, Tally, UnavailableReason};
use arena::retry::{after_failure, backoff, is_retryable_provider, RetryStep, ATTEMPTS};
use arena::task::{Task, TaskEvaluation};

fn task(id: &str) -> Task {
    Task { id: id.into(), prompt: format!("prompt {id}"), evaluation: None }
}

fn config(tasks: Vec<Task>, models: &[&str], judge: Option<&str>) -> ExecConfig {
    ExecConfig {
        tasks,
        models: models.iter().map(|id| ModelId::new(id)).collect(),
        judge: judge.map(ModelId::new),
        seed: 5,
        tasks_path: Some("tasks.json".into()),
        started_at: "2026-01-02T03:04:05Z".into(),
        base_url: "https://example.test/v1".into(),
    }
}

fn executed(task_id: &str, model: &str, text: &str) -> ExecutionResult {
    ExecutionResult {
        task_id: task_id.into(),
        model: ModelId::new(model),
        response: CompletionResponse { text: text.into() },
        duration_ms: 1,
    }
}

fn evaluated(task_id: &str, model: &str) -> EvaluatedResult {
    EvaluatedResult {
        task_id: task_id.into(),
        model: ModelId::new(model),
        response: CompletionResponse { text: model.into() },
        evaluation: None,
        duration_ms: 1,
    }
}

fn judgment(task_id: &str, a: &str, b: &str, winner: JudgeDecision) -> Judgment {
    Judgment {
        task_id: task_id.into(),
        model_a: ModelId::new(a),
        model_b: ModelId::new(b),
        judge_model: ModelId::new("judge"),
        winner,
        reason: String::new(),
        duration_ms: 0,
        agreement: true,
        orientation_ab: None,
        orientation_ba: None,
        reason_ab: None,
        reason_ba: None,
        raw_ab: None,
        raw_ba: None,
        raw: None,
    }
}

fn failure(task_id: &str, a: &str, b: &str) -> JudgmentFailure {
    JudgmentFailure {
        task_id: task_id.into(),
        model_a: ModelId::new(a),
        model_b: ModelId::new(b),
        judge_model: ModelId::new("judge"),
        orientations: vec![],
    }
}

fn even(tally: &Tally) -> Result<Vec<u32>, FitFailure> {
    Ok(vec![1500; tally.wins.len()])
}

fn first(values: &Vec<u32>, _permille: u32) -> u32 {
    values[0]
}

#[test]
fn duplicate_model_ids_are_rejected() {
    let error = unique_models(vec!["a".into(), "b".into(), "a".into()]).unwrap_err();
    assert_eq!(error.message(), "duplicate model id: a");
    match error {
        Error::DuplicateModel(id) => assert_eq!(id, ModelId::new("a")),
        other => panic!("unexpected error: {other:?}"),
    }
}

#[test]
fn unique_model_ids_are_kept_in_order() {
    assert_eq!(
        unique_models(vec!["b".into(), "a".into()]).unwrap(),
        vec![ModelId::new("b"), ModelId::new("a")]
    );
}

#[test]
fn judge_progress_length_matches_expected_unordered_pairs() {
    assert_eq!(judge_progress_len(1, 2), 1);
    assert_eq!(judge_progress_len(2, 3), 6);
    assert_eq!(judge_progress_len(0, 4), 0);
    assert_eq!(judge_progress_len(3, 4), expected_pairs(3, 4) as u64);
}

#[test]
fn pair_counts_are_checked_against_the_machine() {
    assert_eq!(expected_pairs(5, 0), 0);
    assert_eq!(expected_pairs(5, 1), 0);
    assert_eq!(expected_pairs(2, 5), 20);
    assert_eq!(expected_pairs(2, 6), 30);
    assert!(pairs_fit(0, usize::MAX));
    assert!(pairs_fit(usize::MAX, 2));
    assert!(!pairs_fit(usize::MAX, 3));
    assert!(!pairs_fit(1, usize::MAX));
    assert!(!pairs_fit(1, usize::MAX - 1));
    assert!(pairs_fit(7, 0));
}

#[test]
fn the_judge_must_not_be_a_candidate() {
    let models = [ModelId::new("a"), ModelId::new("b")];
    assert!(validate_judge(&models, None).is_ok());
    assert!(validate_judge(&models, Some(&ModelId::new("c"))).is_ok());
    let error = validate_judge(&models, Some(&ModelId::new("b"))).unwrap_err();
    assert_eq!(error.message(), "judge model is also a candidate: b");

    let (chosen, judge) = choose_models(vec!["b".into(), " b".into()], Some("c".into())).unwrap();
    assert_eq!(chosen, vec![ModelId::new("b"), ModelId::new(" b")]);
    assert_eq!(judge, Some(ModelId::new("c")));
    assert!(matches!(
        choose_models(vec!["b".into()], Some("b".into())),
        Err(Error::JudgeIsCandidate(_))
    ));
}

#[test]
fn entered_models_are_trimmed_and_blank_ones_dropped() {
    let config = exec_config_at(
        vec![" m0 ".into(), "  ".into(), "m1\n".into()],
        Some(" judge ".into()),
        vec![task("t1")],
        "https://example.test/v1".into(),
        9,
        "2026-01-02T03:04:05Z".into(),
    )
    .unwrap();
    assert_eq!(config.models, vec![ModelId::new("m0"), ModelId::new("m1")]);
    assert_eq!(config.judge, Some(ModelId::new("judge")));
    assert_eq!(config.seed, 9);
    assert_eq!(config.tasks_path, None);
    assert_eq!(config.started_at, "2026-01-02T03:04:05Z");

    let error = build_exec_config(vec![" ".into()], None, vec![], String::new(), 0).unwrap_err();
    assert!(matches!(error, Error::NoCandidates));
    assert_eq!(error.message(), "at least one candidate model is required");

    let config =
        build_exec_config(vec!["m0".into()], Some(" ".into()), vec![], String::new(), 0).unwrap();
    assert_eq!(config.judge, None);
}

#[test]
fn timestamps_are_whole_seconds_in_utc() {
    let now = utc_timestamp();
    let bytes = now.as_bytes();
    assert_eq!(bytes.len(), 20, "{now}");
    assert_eq!((bytes[4], bytes[7], bytes[10]), (b'-', b'-', b'T'));
    assert_eq!((bytes[13], bytes[16], bytes[19]), (b':', b':', b'Z'));
    assert!(now.as_str() > "2024-01-01T00:00:00Z", "{now}");
    assert_eq!(now.chars().filter(|c| c.is_ascii_digit()).count(), 14);
}

#[test]
fn a_run_is_stamped_when_it_is_put_together() {
    let config = build_exec_config(vec!["m0".into()], None, vec![], String::new(), 0).unwrap();
    let bytes = config.started_at.as_bytes();
    assert_eq!(bytes.len(), 20, "{}", config.started_at);
    assert_eq!((bytes[4], bytes[7], bytes[10]), (b'-', b'-', b'T'));
    assert_eq!((bytes[13], bytes[16], bytes[19]), (b':', b':', b'Z'));
}

#[test]
fn completion_tells_the_pairs_of_the_record() {
    let run = RunMetadata::new(vec![], None, None, "now".into(), "url".into());
    assert_eq!(
        run_complete(&run, 0),
        ExperimentEvent::RunComplete { expected_pairs: 0, resolved_pairs: 0, failed_pairs: 0 }
    );
    let mut run = run;
    run.expected_pairs = Some(3);
    run.resolved_pairs = Some(1);
    assert_eq!(
        run_complete(&run, 2),
        ExperimentEvent::RunComplete { expected_pairs: 3, resolved_pairs: 1, failed_pairs: 2 }
    );
}

#[test]
fn candidate_requests_leave_the_temperature_open() {
    assert_eq!(
        candidate_request(&ModelId::new("m"), &task("t1")),
        CompletionRequest {
            model: ModelId::new("m"),
            prompt: "prompt t1".into(),
            temperature: None,
            max_tokens: Some(DEFAULT_MAX_TOKENS),
        }
    );
    let answered = candidate_outcome(
        &task("t1"),
        &ModelId::new("m"),
        Ok(CompletionResponse { text: "x".into() }),
        7,
    )
    .unwrap();
    assert_eq!(answered.task_id, "t1");
    assert_eq!(answered.model, ModelId::new("m"));
    assert_eq!(answered.duration_ms, 7);
    let error = candidate_outcome(
        &task("t1"),
        &ModelId::new("m"),
        Err(ProviderError::RequestFailed("upstream down".into())),
        7,
    )
    .unwrap_err();
    assert_eq!(
        error.message(),
        "execution failed for task t1 with model m: provider request failed: upstream down"
    );
}

#[test]
fn failed_requests_are_tried_three_times() {
    assert_eq!(ATTEMPTS, 3);
    assert_eq!(backoff(0), None);
    assert_eq!(backoff(1), Some(1));
    assert_eq!(backoff(2), Some(2));
    assert_eq!(backoff(3), None);
    assert_eq!(after_failure(1, true), RetryStep::Wait { seconds: 1 });
    assert_eq!(after_failure(2, true), RetryStep::Wait { seconds: 2 });
    assert_eq!(after_failure(3, true), RetryStep::GiveUp);
    assert_eq!(after_failure(1, false), RetryStep::GiveUp);
    assert!(is_retryable_provider(&ProviderError::RequestFailed(String::new())));
    assert!(is_retryable_provider(&ProviderError::InvalidResponse(String::new())));
}

#[test]
fn a_run_goes_through_all_candidates_before_judging() {
    let mut tasks = vec![task("t1"), task("t2")];
    tasks[0].evaluation = Some(TaskEvaluation::Exact { expected: "yes".into() });
    let config = config(tasks, &["m0", "m1"], Some("judge"));
    let mut run = Collection::new();

    assert!(matches!(run.step(&config), ExecStep::Candidates { task: 0 }));
    run.take_candidates(
        &config,
        vec![executed("t1", "m0", "yes"), executed("t1", "m1", "no")],
    );
    assert!(matches!(run.step(&config), ExecStep::Candidates { task: 1 }));
    run.take_candidates(
        &config,
        vec![executed("t2", "m0", "a"), executed("t2", "m1", "b")],
    );
    match run.step(&config) {
        ExecStep::Judge { task: 0, results } => {
            let texts: Vec<_> = results.iter().map(|r| r.response.text.as_str()).collect();
            assert_eq!(texts, vec!["yes", "no"]);
        }
        other => panic!("unexpected step: {other:?}"),
    }
    run.take_judged(
        &config,
        JudgePairsOutcome {
            judgments: vec![judgment("t1", "m0", "m1", JudgeDecision::A)],
            failures: vec![],
        },
    );
    assert!(matches!(run.step(&config), ExecStep::Judge { task: 1, .. }));
    run.take_judged(
        &config,
        JudgePairsOutcome { judgments: vec![], failures: vec![failure("t2", "m0", "m1")] },
    );
    assert!(matches!(run.step(&config), ExecStep::Done));

    let (results, judged) = run.into_parts(&config);
    let order: Vec<_> = results.iter().map(|r| (r.task_id.as_str(), r.model.as_str())).collect();
    assert_eq!(order, vec![("t1", "m0"), ("t1", "m1"), ("t2", "m0"), ("t2", "m1")]);

    let (output, failed) = finish_exec(&config, results, judged, &even, &first).unwrap();
    assert_eq!(failed, 1);
    assert_eq!(output.comparisons.len(), 1);
    assert_eq!(output.comparisons[0].winner, Some(ModelId::new("m0")));
    assert_eq!(output.run.complete, Some(false));
    assert_eq!(output.run.expected_pairs, Some(2));
    assert_eq!(output.run.resolved_pairs, Some(1));
    assert_eq!(output.run.failed_pairs, Some(1));
    assert_eq!(output.run.judge_decoding, Some(JudgeDecoding::arena_default()));
    assert_eq!(output.run.bootstrap_seed, Some(5));
    assert_eq!(output.run.bootstrap_ran, Some(false));
    assert_eq!(output.run.bootstrap_valid, None);
    assert_eq!(output.run.bootstrap_clusters, Some(1));
    assert_eq!(
        output.run.bootstrap_unavailable,
        Some(BootstrapUnavailable::TooFewTasks)
    );
    assert_eq!(output.judgments.as_ref().map(Vec::len), Some(1));
    assert_eq!(output.judgment_failures.as_ref().map(Vec::len), Some(1));
    let ratings = output.ratings.unwrap();
    assert_eq!(ratings.len(), 2);
    assert!(ratings.iter().all(|r| r.unavailable == Some(UnavailableReason::Separated)));
    assert_eq!(output.statistics.unwrap()[0].wins, 1);
    match completion(failed) {
        Err(Error::IncompleteJudgments(1)) => {}
        other => panic!("unexpected completion: {other:?}"),
    }
}

#[test]
fn a_run_without_a_judge_records_nothing_of_one() {
    let config = config(vec![task("t1")], &["m0"], None);
    let mut run = Collection::new();
    run.take_candidates(&config, vec![executed("t1", "m0", "a")]);
    assert!(matches!(run.step(&config), ExecStep::Done));
    let (results, judged) = run.into_parts(&config);
    assert!(judged.is_none());
    let (output, failed) = finish_exec(&config, results, judged, &even, &first).unwrap();
    assert_eq!(failed, 0);
    assert!(completion(failed).is_ok());
    assert_eq!(output.results.len(), 1);
    assert_eq!(output.tasks, config.tasks);
    assert!(output.judgments.is_none());
    assert!(output.judgment_failures.is_none());
    assert!(output.statistics.is_none());
    assert!(output.ratings.is_none());
    assert_eq!(output.run.complete, None);
    assert_eq!(output.run.judge_decoding, None);
    assert_eq!(output.run.bootstrap_seed, None);
}

#[test]
fn a_judge_with_a_single_candidate_is_complete() {
    let config = config(vec![task("t1")], &["m0"], Some("judge"));
    let judged = Judged { judgments: vec![], failures: vec![] };
    let (output, failed) =
        finish_exec(&config, vec![evaluated("t1", "m0")], Some(judged), &even, &first).unwrap();
    assert_eq!(failed, 0);
    assert_eq!(output.run.complete, Some(true));
    assert_eq!(output.run.expected_pairs, Some(0));
    assert_eq!(output.ratings.unwrap()[0].unavailable, Some(UnavailableReason::NoComparisons));
    assert_eq!(output.run.orientation_agreement.unwrap().resolved_pairs, 0);
}

#[test]
fn pairs_that_are_unaccounted_for_are_an_error() {
    let config = config(vec![task("t1")], &["m0", "m1", "m2"], Some("judge"));
    let judged = Judged {
        judgments: vec![judgment("t1", "m0", "m1", JudgeDecision::A)],
        failures: vec![failure("t1", "m0", "m2")],
    };
    let error = finish_exec(&config, vec![], Some(judged), &even, &first).unwrap_err();
    assert_eq!(
        error.message(),
        "inconsistent pair coverage: expected 3, resolved 1, failed 1"
    );
    let many = Judged {
        judgments: vec![
            judgment("t1", "m0", "m1", JudgeDecision::A),
            judgment("t1", "m0", "m1", JudgeDecision::A),
            judgment("t1", "m0", "m1", JudgeDecision::A),
            judgment("t1", "m0", "m1", JudgeDecision::A),
        ],
        failures: vec![],
    };
    assert!(matches!(
        finish_exec(&config, vec![], Some(many), &even, &first),
        Err(Error::InconsistentPairCoverage { expected: 3, resolved: 4, failed: 0 })
    ));
}

#[test]
fn results_are_picked_by_task() {
    let results = [
        evaluated("t1", "m0"),
        evaluated("t2", "m0"),
        evaluated("t1", "m1"),
    ];
    let picked = results_for_task(&results, &task("t1"));
    assert_eq!(picked, vec![results[0].clone(), results[2].clone()]);
    assert!(results_for_task(&results, &task("t3")).is_empty());
}

#[test]
fn records_hold_the_settings_of_the_run() {
    let run = RunMetadata::new(
        vec![ModelId::new("a")],
        None,
        Some("tasks.json".into()),
        "2026-01-02T03:04:05Z".into(),
        "https://example.test/v1".into(),
    );
    assert_eq!(run.version, VERSION);
    assert_eq!(run.provider_concurrency, 8);
    assert_eq!(run.request_timeout_secs, 120);
    assert_eq!(run.connect_timeout_secs, 10);
    assert_eq!((run.candidate_attempts, run.judge_attempts), (3, 3));
    assert_eq!(run.candidate_max_tokens, 4096);
    assert_eq!(run.tasks.as_deref(), Some("tasks.json"));
    let covered = run.with_judge_coverage(2, 2, 1);
    assert_eq!(covered.complete, Some(false));
}

#[test]
fn errors_are_put_in_words() {
    assert_eq!(
        Error::IncompleteJudgments(12).message(),
        "incomplete run: 12 judgment pair(s) failed"
    );
    assert_eq!(
        Error::Persist(PersistError::Io("full".into())).message(),
        "failed to write results file: full"
    );
    assert_eq!(
        Error::Persist(PersistError::Serialize("odd".into())).message(),
        "failed to serialize results: odd"
    );
    assert_eq!(
        Error::Provider(missing_variable("ARENA_API_KEY")).message(),
        "provider request failed: ARENA_API_KEY environment variable is not set"
    );
    assert_eq!(
        Error::Provider(ProviderError::InvalidResponse("x".into())).message(),
        "invalid provider response: x"
    );
    assert_eq!(Error::Json("j".into()).message(), "j");
    assert_eq!(Error::Io("i".into()).message(), "i");
}
