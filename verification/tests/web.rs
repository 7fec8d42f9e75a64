use arena::error::Error;
use arena::event::{candidate_finished, pair_failed, pair_resolved, ExperimentEvent};
use arena::exec::{build_exec_config, expected_pairs, ExecConfig};
use arena::execute::ExecutionResult;
use arena::judge::{
    JudgeDecision, JudgeOrientation, Judgment, JudgmentFailure, JudgmentFailureKind,
    OrientationFailure,
};
use arena::progress::{candidate_line, failure_line, judgment_line, phase_line};
use arena::provider::{CompletionResponse, ModelId};
use arena::task::Task;
use arena::web::{
    merge_credentials, output_file_name, resolve_web_provider, run_ending, waiting_pairs,
    ClientEvent, PairStatus, ResolvedWebProvider, RunEnding, RunSnapshot, RunState, RunStatus,
    StreamStep, WebProviderKind,
};

fn task() -> Task {
    Task { id: "t1".into(), prompt: "p".into(), evaluation: None }
}

fn judgment(winner: JudgeDecision, agreement: bool) -> Judgment {
    Judgment {
        task_id: "t1".into(),
        model_a: ModelId::new("m0"),
        model_b: ModelId::new("m1"),
        judge_model: ModelId::new("judge"),
        winner,
        reason: "ok".into(),
        duration_ms: 1,
        agreement,
        orientation_ab: None,
        orientation_ba: None,
        reason_ab: None,
        reason_ba: None,
        raw_ab: Some("raw-ab".into()),
        raw_ba: Some("raw-ba".into()),
        raw: None,
    }
}

fn pair_failure() -> JudgmentFailure {
    JudgmentFailure {
        task_id: "t1".into(),
        model_a: ModelId::new("m0"),
        model_b: ModelId::new("m1"),
        judge_model: ModelId::new("judge"),
        orientations: vec![OrientationFailure {
            orientation: JudgeOrientation::Ab,
            kind: JudgmentFailureKind::Provider,
            error: "nope".into(),
            attempts: 1,
        }],
    }
}

fn sample_config(models: &[&str], judge: Option<&str>) -> ExecConfig {
    build_exec_config(
        models.iter().map(|model| (*model).to_string()).collect(),
        judge.map(str::to_string),
        vec![task()],
        "https://example.test/v1".into(),
        0,
    )
    .unwrap()
}

fn run(models: &[&str], judge: Option<&str>) -> RunState {
    RunState::from_config(&sample_config(models, judge))
}

fn finished(model: &str) -> ExperimentEvent {
    ExperimentEvent::CandidateFinished {
        task_id: "t1".into(),
        model: ModelId::new(model),
        duration_ms: 3,
    }
}

fn snapshot(state: &RunState, id: &str) -> Box<RunSnapshot> {
    match state.snapshot(id.into()) {
        ClientEvent::Snapshot { snapshot } => snapshot,
        other => panic!("expected snapshot, got {other:?}"),
    }
}

#[test]
fn duplicate_candidate_models_are_rejected() {
    let error = build_exec_config(
        vec!["m0".into(), "m0".into()],
        None,
        vec![task()],
        "https://example.test/v1".into(),
        0,
    )
    .unwrap_err();
    match error {
        Error::DuplicateModel(id) => assert_eq!(id, ModelId::new("m0")),
        other => panic!("unexpected error: {other:?}"),
    }
}

#[test]
fn judge_matching_a_candidate_is_rejected() {
    let error = build_exec_config(
        vec!["m0".into(), "m1".into()],
        Some("m0".into()),
        vec![task()],
        "https://example.test/v1".into(),
        0,
    )
    .unwrap_err();
    match error {
        Error::JudgeIsCandidate(id) => assert_eq!(id, ModelId::new("m0")),
        other => panic!("unexpected error: {other:?}"),
    }
}

#[test]
fn unordered_pair_count_does_not_include_orientations() {
    let models = [ModelId::new("m0"), ModelId::new("m1"), ModelId::new("m2")];
    let pairs = waiting_pairs(&[task()], &models);
    assert_eq!(pairs.len(), 3);
    assert_eq!(expected_pairs(1, 3), 3);
    assert_eq!(expected_pairs(2, 3), 6);
}

#[test]
fn selected_provider_uses_the_matching_client() {
    let openai = resolve_web_provider(
        WebProviderKind::Openai,
        " super-secret-web-key ",
        "https://ignored.example/v1",
    )
    .ok()
    .unwrap();
    assert_eq!(openai.api_key, "super-secret-web-key");
    assert_eq!(openai.base_url, "https://api.openai.com/v1");

    let compatible = resolve_web_provider(
        WebProviderKind::Compatible,
        "key",
        " https://deepinfra.example/v1/ ",
    )
    .ok()
    .unwrap();
    assert_eq!(compatible.base_url, "https://deepinfra.example/v1/");

    let claude = resolve_web_provider(WebProviderKind::Claude, "key", "https://nope.example")
        .ok()
        .unwrap();
    assert_eq!(claude.base_url, "https://api.anthropic.com/v1");
    assert!(!WebProviderKind::Claude.supports_model_discovery());

    let gemini = resolve_web_provider(WebProviderKind::Gemini, "key", "").ok().unwrap();
    assert_eq!(gemini.base_url, "https://generativelanguage.googleapis.com/v1beta");
    assert!(!WebProviderKind::Gemini.supports_model_discovery());

    assert_eq!(
        resolve_web_provider(WebProviderKind::Compatible, "key", " ").err().unwrap(),
        "base URL is required"
    );
    assert_eq!(
        resolve_web_provider(WebProviderKind::Openai, " ", "").err().unwrap(),
        "API key is required"
    );
    assert!(WebProviderKind::Openai.supports_model_discovery());
    assert!(WebProviderKind::Compatible.supports_model_discovery());
}

#[test]
fn blank_credentials_are_filled_in_from_the_session() {
    let session = ResolvedWebProvider {
        kind: WebProviderKind::Compatible,
        api_key: "kept-key".into(),
        base_url: "https://kept.example".into(),
    };
    let merge = |kind, key: &str, url: &str| merge_credentials(Some(&session), kind, key, url);
    assert_eq!(
        merge(WebProviderKind::Compatible, " ", ""),
        ("kept-key".to_string(), "https://kept.example".to_string())
    );
    assert_eq!(
        merge(WebProviderKind::Compatible, " new ", ""),
        (" new ".to_string(), "https://kept.example".to_string())
    );
    assert_eq!(merge(WebProviderKind::Claude, " ", " "), (String::new(), String::new()));
    assert_eq!(
        merge_credentials(None, WebProviderKind::Claude, "k", " "),
        ("k".to_string(), String::new())
    );
}

#[test]
fn live_state_announces_each_event() {
    let mut state = run(&["m0", "m1"], Some("judge"));
    match state.apply(finished("m0")) {
        ClientEvent::CandidateFinished { seq: 1, task_id, model, duration_ms: 3 } => {
            assert_eq!(task_id, "t1");
            assert_eq!(model, "m0");
        }
        other => panic!("unexpected event: {other:?}"),
    }
    match state.apply(pair_resolved(&judgment(JudgeDecision::A, true))) {
        ClientEvent::PairResolved { seq: 2, judgment } => {
            assert_eq!(judgment.winner, JudgeDecision::A);
            assert_eq!(judgment.raw_ab.as_deref(), Some("raw-ab"));
        }
        other => panic!("unexpected event: {other:?}"),
    }
    state.output_path = Some("out.json".into());
    let last = state.apply(ExperimentEvent::RunComplete {
        expected_pairs: 1,
        resolved_pairs: 1,
        failed_pairs: 0,
    });
    assert!(last.is_terminal());
    match last {
        ClientEvent::RunComplete { seq: 3, expected_pairs: 1, output_path, .. } => {
            assert_eq!(output_path.as_deref(), Some("out.json"));
        }
        other => panic!("unexpected event: {other:?}"),
    }
    assert_eq!(state.status, RunStatus::Complete);
}

#[test]
fn snapshots_hold_what_is_known() {
    let mut state = run(&["m0", "m1"], Some("judge"));
    state.apply(finished("m0"));
    state.apply(pair_failed(&pair_failure()));
    let snapshot = snapshot(&state, "9");
    assert_eq!(snapshot.run_id, "9");
    assert_eq!(snapshot.state.seq, 2);
    assert_eq!(snapshot.state.status, RunStatus::Running);
    assert_eq!(snapshot.state.candidate_completed, 1);
    assert_eq!(snapshot.state.candidate_total, 2);
    assert_eq!(snapshot.state.expected_pairs, 1);
    assert_eq!(snapshot.state.resolved_pairs, 0);
    assert_eq!(snapshot.state.failed_pairs, 1);
    assert_eq!(snapshot.state.judge.as_deref(), Some("judge"));
    assert_eq!(snapshot.state.pairs[0].status, PairStatus::Failed);
    assert_eq!(
        snapshot.state.pairs[0].failure.as_ref().unwrap().orientations[0].error,
        "nope"
    );
}

#[test]
fn pairs_are_judged_once_all_candidates_have_answered() {
    let mut state = run(&["m0", "m1"], Some("judge"));
    assert_eq!(state.pairs[0].status, PairStatus::Waiting);
    state.apply(finished("m0"));
    assert_eq!(state.candidate_completed, 1);
    assert_eq!(state.pairs[0].status, PairStatus::Waiting);
    state.apply(finished("m1"));
    assert_eq!(state.candidate_completed, 2);
    assert_eq!(state.pairs[0].status, PairStatus::Judging);
}

#[test]
fn a_pair_has_one_row_whatever_its_order() {
    let mut state = run(&["m0", "m1"], Some("judge"));
    let mut swapped = judgment(JudgeDecision::B, true);
    swapped.model_a = ModelId::new("m1");
    swapped.model_b = ModelId::new("m0");
    state.apply(pair_resolved(&swapped));
    assert_eq!(state.pairs.len(), 1);
    assert_eq!(state.resolved_pairs, 1);
    assert_eq!(state.pairs[0].model_a, "m0");
    assert_eq!(state.pairs[0].model_b, "m1");
    assert_eq!(state.pairs[0].status, PairStatus::Resolved);
    assert_eq!(state.pairs[0].judgment.as_ref().unwrap().winner, JudgeDecision::B);

    let mut stranger = judgment(JudgeDecision::A, true);
    stranger.task_id = "t2".into();
    state.apply(pair_resolved(&stranger));
    assert_eq!(state.pairs.len(), 2);
}

#[test]
fn failed_pairs_leave_a_run_incomplete() {
    let mut state = run(&["m0", "m1"], Some("judge"));
    state.apply(ExperimentEvent::RunComplete {
        expected_pairs: 1,
        resolved_pairs: 0,
        failed_pairs: 1,
    });
    assert_eq!(state.status, RunStatus::Incomplete);
    assert_eq!(state.failed_pairs, 1);
    assert!(state.error.is_none());
    assert!(state.fail("too late".into()).is_none());
    assert_eq!(state.status, RunStatus::Incomplete);
}

#[test]
fn a_running_run_can_fail_once() {
    let mut state = run(&["m0"], None);
    assert!(state.pairs.is_empty());
    assert!(state.can_go_on());
    match state.fail("upstream down".into()) {
        Some(ClientEvent::RunFailed { seq: 1, error }) => assert_eq!(error, "upstream down"),
        other => panic!("unexpected event: {other:?}"),
    }
    assert_eq!(state.status, RunStatus::Failed);
    assert_eq!(state.error.as_deref(), Some("upstream down"));
    assert!(state.fail("again".into()).is_none());
    assert_eq!(state.seq, 1);
}

#[test]
fn an_ended_run_can_always_be_failed_to_no_effect() {
    let mut state = run(&["m0"], None);
    state.seq = u64::MAX;
    assert!(!state.can_fail());
    state.status = RunStatus::Complete;
    assert!(state.can_fail());
    assert!(state.fail("too late".into()).is_none());
    assert_eq!(state.seq, u64::MAX);
    assert!(state.error.is_none());
}

#[test]
fn events_are_numbered_without_gaps() {
    let mut state = run(&["m0", "m1"], Some("judge"));
    let mut numbers = vec![state.snapshot("1".into()).seq()];
    numbers.push(state.apply(finished("m0")).seq());
    numbers.push(state.apply(finished("m1")).seq());
    numbers.push(state.apply(pair_resolved(&judgment(JudgeDecision::A, true))).seq());
    assert_eq!(numbers, vec![0, 1, 2, 3]);
    assert_eq!(state.snapshot("1".into()).seq(), 3);
}

#[test]
fn streams_skip_what_the_snapshot_holds() {
    let mut state = run(&["m0"], None);
    let first = state.apply(finished("m0"));
    let snapshot = state.snapshot("2".into());
    let second = state.apply(finished("m0"));
    let last = state.fail("x".into()).unwrap();
    assert_eq!(first.stream_step(snapshot.seq()), StreamStep::Skip);
    assert_eq!(second.stream_step(snapshot.seq()), StreamStep::Send);
    assert_eq!(last.stream_step(snapshot.seq()), StreamStep::SendAndStop);
    assert!(!snapshot.is_terminal());
    assert!(state.snapshot("2".into()).is_terminal());
}

#[test]
fn completion_is_announced_only_after_writing() {
    let complete = || ExperimentEvent::RunComplete {
        expected_pairs: 0,
        resolved_pairs: 0,
        failed_pairs: 0,
    };
    assert!(matches!(run_ending(Ok(()), Some(complete())), RunEnding::Announce(_)));
    assert!(matches!(run_ending(Ok(()), None), RunEnding::Silent));
    match run_ending(Err("disk full".into()), Some(complete())) {
        RunEnding::Fail(error) => assert_eq!(error, "disk full"),
        other => panic!("unexpected ending: {other:?}"),
    }
    assert_eq!(output_file_name("7"), "7.json");
}

#[test]
fn progress_is_told_in_lines() {
    let result = ExecutionResult {
        task_id: "t1".into(),
        model: ModelId::new("m0"),
        response: CompletionResponse { text: "x".into() },
        duration_ms: 1203,
    };
    assert_eq!(candidate_line(&result), "exec  t1  m0  1203ms");
    assert_eq!(
        candidate_finished(&result),
        ExperimentEvent::CandidateFinished {
            task_id: "t1".into(),
            model: ModelId::new("m0"),
            duration_ms: 1203,
        }
    );
    assert_eq!(phase_line("t1", "exec"), "task t1  exec");
    assert_eq!(
        judgment_line(&judgment(JudgeDecision::A, true)),
        "judge  t1  m0 vs m1  1ms"
    );
    let mut failure = pair_failure();
    assert_eq!(failure_line(&failure), "judge  t1  m0 vs m1  failed  ab provider");
    failure.orientations.push(OrientationFailure {
        orientation: JudgeOrientation::Ba,
        kind: JudgmentFailureKind::InvalidJson,
        error: "bad".into(),
        attempts: 3,
    });
    assert_eq!(
        failure_line(&failure),
        "judge  t1  m0 vs m1  failed  ab provider, ba invalid_json"
    );
}
