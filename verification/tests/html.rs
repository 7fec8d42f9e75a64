use arena::bootstrap::{BootstrapMeta, BootstrapUnavailable};
use arena::evaluate::{EvaluatedResult, Evaluation};
use arena::html::{
    bootstrap_unavailable, escape, render, unavailable, RatingTexts, ReportTexts, STYLE,
};
use arena::judge::{
    JudgeDecision, JudgeOrientation, Judgment, JudgmentFailure, JudgmentFailureKind,
    OrientationFailure,
};
use arena::persist::{JudgeDecoding, Output, RunMetadata};
use arena::provider::{CompletionResponse, ModelId};
use arena::rating::{ModelRating, UnavailableReason};
use arena::report::{self, Report};
use arena::stats::{self, PairAgreement, Rate};
use arena::task::Task;

fn format_percent(rate: Rate) -> String {
    let rate = if rate.whole == 0 {
        0.0
    } else {
        rate.part as f64 / rate.whole as f64
    };
    let percent = rate * 100.0;
    if (percent - percent.round()).abs() < 0.05 {
        format!("{:.0}%", percent.round())
    } else {
        format!("{percent:.1}%")
    }
}

fn page(report: &Report<'_, f64>) -> String {
    let text = |value: Option<f64>| value.map(|value| format!("{value:.2}"));
    let texts = ReportTexts {
        ratings: report
            .models
            .iter()
            .map(|model| RatingTexts {
                rating: text(model.rating),
                rating_lower: text(model.rating_lower),
                rating_upper: text(model.rating_upper),
            })
            .collect(),
        agreement_rate: report.summary.agreement_rate.map(format_percent),
    };
    render(report, &texts)
}

fn run_meta(models: &[&str], judge: Option<&str>) -> RunMetadata {
    RunMetadata::new(
        models.iter().map(|id| ModelId::new(id)).collect(),
        judge.map(ModelId::new),
        Some("tasks.json".into()),
        "2026-01-02T03:04:05Z".into(),
        "https://example.test/v1".into(),
    )
}

fn task(id: &str) -> Task {
    Task {
        id: id.into(),
        prompt: "p".into(),
        evaluation: None,
    }
}

fn judgment() -> Judgment {
    Judgment {
        task_id: "t1".into(),
        model_a: ModelId::new("m0"),
        model_b: ModelId::new("m1"),
        judge_model: ModelId::new("judge"),
        winner: JudgeDecision::Draw,
        reason: String::new(),
        duration_ms: 12,
        agreement: false,
        orientation_ab: Some(JudgeDecision::A),
        orientation_ba: Some(JudgeDecision::B),
        reason_ab: Some("a < b & c".into()),
        reason_ba: Some("ba".into()),
        raw_ab: Some("</pre><script>alert(1)</script>".into()),
        raw_ba: Some(r#"{"winner":"b","reason":"ba"}"#.into()),
        raw: None,
    }
}

fn output(
    run: RunMetadata,
    tasks: Vec<Task>,
    results: Vec<EvaluatedResult>,
    judgments: Option<Vec<Judgment>>,
    judgment_failures: Option<Vec<JudgmentFailure>>,
    statistics: Option<Vec<stats::ModelStats>>,
    ratings: Option<Vec<ModelRating<f64>>>,
) -> Output<f64> {
    Output {
        run,
        tasks,
        results,
        comparisons: vec![],
        judgments,
        judgment_failures,
        statistics,
        ratings,
    }
}

fn render_output(data: &Output<f64>) -> String {
    page(&report::from_output(data))
}

#[test]
fn complete_report_renders_coverage_and_agreement() {
    let judgments = vec![judgment()];
    let models = vec![ModelId::new("m0"), ModelId::new("m1")];
    let data = output(
        run_meta(&["m0", "m1"], Some("judge"))
            .with_judge_coverage(1, 1, 0)
            .with_orientation_agreement(stats::pair_agreement(&judgments))
            .with_judge_decoding(JudgeDecoding::arena_default())
            .with_bootstrap(&BootstrapMeta {
                seed: 0,
                replicates: 1000,
                valid: Some(1000),
                clusters: 2,
                ran: true,
                unavailable: None,
            }),
        vec![task("t1")],
        vec![],
        Some(judgments),
        Some(vec![]),
        Some(stats::aggregate(&[], &models)),
        Some(vec![
            ModelRating {
                model: ModelId::new("m0"),
                rating: Some(1600.0),
                rating_lower: Some(1500.0),
                rating_upper: Some(1700.0),
                unavailable: None,
            },
            ModelRating {
                model: ModelId::new("m1"),
                rating: Some(1400.0),
                rating_lower: Some(1300.0),
                rating_upper: Some(1500.0),
                unavailable: None,
            },
        ]),
    );
    let html = render_output(&data);
    assert!(html.starts_with("<!doctype html>"));
    assert!(html.contains("<html"));
    assert!(html.contains("<head>"));
    assert!(html.contains("<style>"));
    assert!(html.contains("<body>"));
    assert!(html.contains("</html>"));
    assert!(html.contains("Arena Experiment"));
    assert!(html.contains("COMPLETE"));
    assert!(html.contains("1 / 1"));
    assert!(html.contains("Orientation agreement"));
    assert!(html.contains("100%"));
    assert!(html.contains("Pairwise results"));
    assert!(html.contains("m0"));
    assert!(html.contains("m1"));
    assert!(!html.contains("https://cdn"));
}

#[test]
fn no_judge_report_does_not_invent_pairwise_coverage() {
    let data = output(
        run_meta(&["m0"], None),
        vec![task("t1")],
        vec![EvaluatedResult {
            task_id: "t1".into(),
            model: ModelId::new("m0"),
            response: CompletionResponse {
                text: "hello <world>".into(),
            },
            evaluation: None,
            duration_ms: 5,
        }],
        None,
        None,
        None,
        None,
    );
    let html = render_output(&data);
    assert!(html.contains("No judge"));
    assert!(html.contains("no-judge run"));
    assert!(html.contains("m0"));
    assert!(html.contains("hello &lt;world&gt;"));
    assert!(html.contains("Candidate responses"));
    assert!(html.contains("Run configuration"));
    assert!(!html.contains("Orientation agreement"));
    assert!(!html.contains("Pairwise results"));
    assert!(!html.contains("Failed judgments"));
    assert!(!html.contains("Bootstrap"));
    assert!(!html.contains("no_comparisons"));
}

#[test]
fn incomplete_report_keeps_failed_judgments_separate() {
    let failure = JudgmentFailure {
        task_id: "t2".into(),
        model_a: ModelId::new("m0"),
        model_b: ModelId::new("m1"),
        judge_model: ModelId::new("judge"),
        orientations: vec![OrientationFailure {
            orientation: JudgeOrientation::Ab,
            kind: JudgmentFailureKind::InvalidJson,
            error: "no valid judgment JSON found".into(),
            attempts: 3,
        }],
    };
    let data = output(
        run_meta(&["m0", "m1"], Some("judge"))
            .with_judge_coverage(1, 0, 1)
            .with_orientation_agreement(PairAgreement {
                resolved_pairs: 0,
                orientation_agreeing_pairs: 0,
                orientation_disagreeing_pairs: 0,
                agreement_rate: Rate { part: 0, whole: 0 },
            })
            .with_judge_decoding(JudgeDecoding::arena_default()),
        vec![task("t2")],
        vec![],
        Some(vec![]),
        Some(vec![failure]),
        None,
        None,
    );
    let html = render_output(&data);
    assert!(html.contains("INCOMPLETE"));
    assert!(html.contains("Failed judgments"));
    assert!(html.contains("t2"));
    assert!(html.contains("invalid_json"));
    assert!(html.contains("class=\"failures\""));
    let pairwise = html.find("Pairwise results").unwrap();
    let failed = html.find("Failed judgments").unwrap();
    assert!(pairwise < failed);
}

#[test]
fn pairwise_and_audit_keep_orientation_and_escape_raw_text() {
    let data = output(
        run_meta(&["m0", "m1"], Some("judge"))
            .with_judge_coverage(1, 1, 0)
            .with_orientation_agreement(stats::pair_agreement(&[judgment()])),
        vec![task("t1")],
        vec![],
        Some(vec![judgment()]),
        Some(vec![]),
        None,
        None,
    );
    let html = render_output(&data);
    assert!(html.contains("AB"));
    assert!(html.contains("BA"));
    assert!(html.contains("Final"));
    assert!(html.contains("Draw"));
    assert!(html.contains("orientation disagreement"));
    assert!(html.contains("a &lt; b &amp; c"));
    assert!(html.contains("&lt;/pre&gt;&lt;script&gt;alert(1)&lt;/script&gt;"));
    assert!(!html.contains("</pre><script>alert(1)</script>"));
    assert!(html.contains("Raw AB completion"));
    assert!(
        html.contains("{&quot;winner&quot;:&quot;b&quot;,&quot;reason&quot;:&quot;ba&quot;}")
    );
    assert!(!html.contains("{\"winner\":\"b\",\"reason\":\"ba\"}"));
}

#[test]
fn bootstrap_invalid_replicates_is_rendered_without_reinterpretation() {
    let data = output(
        run_meta(&["m0"], Some("judge"))
            .with_judge_coverage(0, 0, 0)
            .with_orientation_agreement(PairAgreement {
                resolved_pairs: 0,
                orientation_agreeing_pairs: 0,
                orientation_disagreeing_pairs: 0,
                agreement_rate: Rate { part: 0, whole: 0 },
            })
            .with_bootstrap(&BootstrapMeta {
                seed: 7,
                replicates: 1000,
                valid: Some(744),
                clusters: 2,
                ran: true,
                unavailable: Some(BootstrapUnavailable::InvalidReplicates),
            }),
        vec![task("t1"), task("t2")],
        vec![],
        Some(vec![]),
        Some(vec![]),
        None,
        Some(vec![ModelRating {
            model: ModelId::new("m0"),
            rating: Some(1500.0),
            rating_lower: None,
            rating_upper: None,
            unavailable: None,
        }]),
    );
    let html = render_output(&data);
    assert!(html.contains("744 / 1000 valid"));
    assert!(html.contains("1000"));
    assert!(html.contains("744"));
    assert!(html.contains("invalid_replicates"));
    assert!(html.contains("Rating intervals"));
    assert!(html.contains("unavailable"));
    assert!(html.contains(">yes<"));
    assert!(!html.contains("implementation failed"));
    assert!(!html.contains("bootstrap failed"));
}

#[test]
fn unavailable_ratings_are_explicit_and_requested_models_remain_present() {
    let data = output(
        run_meta(&["m0", "m1", "m2"], Some("judge")).with_judge_coverage(3, 0, 3),
        vec![task("t1")],
        vec![],
        Some(vec![]),
        Some(vec![]),
        Some(stats::aggregate(
            &[],
            &[ModelId::new("m0"), ModelId::new("m1"), ModelId::new("m2")],
        )),
        Some(vec![
            ModelRating {
                model: ModelId::new("m0"),
                rating: Some(1595.4242509439325),
                rating_lower: None,
                rating_upper: None,
                unavailable: None,
            },
            ModelRating {
                model: ModelId::new("m1"),
                rating: None,
                rating_lower: None,
                rating_upper: None,
                unavailable: Some(UnavailableReason::NoComparisons),
            },
            ModelRating {
                model: ModelId::new("m2"),
                rating: None,
                rating_lower: None,
                rating_upper: None,
                unavailable: Some(UnavailableReason::NoComparisons),
            },
        ]),
    );
    let report = report::from_output(&data);
    assert_eq!(report.models[0].rating, Some(1595.4242509439325));
    let html = page(&report);
    assert!(html.contains("m0"));
    assert!(html.contains("m1"));
    assert!(html.contains("m2"));
    assert!(html.contains("1595.42"));
    assert!(!html.contains("1595.4242509439325"));
    assert!(html.contains("unavailable"));
    assert!(html.contains("no_comparisons"));
    assert!(html.contains("Bradley–Terry rating · derived from resolved pairwise judgments"));
}

#[test]
fn a_small_report_is_rendered_in_full() {
    let mut run = run_meta(&["m<0>"], None);
    run.provider_concurrency = 8;
    let data = output(
        run,
        vec![task("t1")],
        vec![EvaluatedResult {
            task_id: "t1".into(),
            model: ModelId::new("m<0>"),
            response: CompletionResponse { text: "it's".into() },
            evaluation: Some(Evaluation { score: 1 }),
            duration_ms: 5,
        }],
        None,
        None,
        None,
        None,
    );
    let expected = format!(
        "<!doctype html>\n<html lang=\"en\">\n<head>\n<meta charset=\"utf-8\">\n<meta name=\"viewport\" content=\"width=device-width, initial-scale=1\">\n<title>Arena experiment report</title>\n<style>\n{STYLE}</style>\n</head>\n<body>\n<main>\n\
         <header>\n<p class=\"eyebrow\">Arena Experiment</p>\n<h1>No judge</h1>\n<p class=\"meta\">1 task · 1 model · no-judge run</p>\n</header>\n\
         <section>\n<h2>Models</h2>\n<div class=\"scroll\"><table>\n<thead><tr><th>Model</th><th>W</th><th>L</th><th>D</th><th>Total</th><th>Rating</th><th>Lower bound</th><th>Upper bound</th><th>Unavailable reason</th></tr></thead>\n<tbody>\n\
         <tr><td class=\"model-id\">m&lt;0&gt;</td><td>0</td><td>0</td><td>0</td><td>0</td><td>unavailable</td><td>unavailable</td><td>unavailable</td><td></td></tr>\n</tbody></table></div>\n</section>\n\
         <section class=\"secondary\">\n<h2>Candidate responses</h2>\n<p class=\"note\">Task-level model outputs. Collapsed by default; content is stored text, not rendered markup.</p>\n\
         <details><summary>t1 — m&lt;0&gt;</summary>\n<dl>\n<dt>Task</dt><dd>t1</dd>\n<dt>Model</dt><dd>m&lt;0&gt;</dd>\n<dt>Duration</dt><dd>5 ms</dd>\n<dt>Score</dt><dd>1</dd>\n</dl>\n<pre>it&#39;s</pre>\n</details>\n</section>\n\
         <section class=\"secondary\">\n<details>\n<summary>Run configuration</summary>\n<dl>\n<dt>Models</dt><dd>m&lt;0&gt;</dd>\n<dt>Judge</dt><dd>not used</dd>\n<dt>Task path</dt><dd>tasks.json</dd>\n<dt>Base URL</dt><dd>https://example.test/v1</dd>\n<dt>Started at</dt><dd>2026-01-02T03:04:05Z</dd>\n\
         <dt>Provider concurrency</dt><dd>8</dd>\n<dt>Request timeout</dt><dd>120 s</dd>\n<dt>Connect timeout</dt><dd>10 s</dd>\n<dt>Candidate attempts</dt><dd>3</dd>\n<dt>Judge attempts</dt><dd>3</dd>\n<dt>Candidate max tokens</dt><dd>4096</dd>\n</dl>\n</details>\n</section>\n\
         </main>\n</body>\n</html>\n"
    );
    assert_eq!(render_output(&data), expected);
}

#[test]
fn judge_decoding_and_models_are_listed() {
    let data = output(
        run_meta(&["m0", "m1"], Some("j&j"))
            .with_judge_decoding(JudgeDecoding { temperature: 250, max_tokens: 4096 }),
        vec![],
        vec![],
        Some(vec![]),
        Some(vec![]),
        None,
        None,
    );
    let html = render_output(&data);
    assert!(html.contains("<h1>Judge: j&amp;j</h1>"));
    assert!(html.contains("0 tasks · 2 models · judge run"));
    assert!(html.contains("<dd>m0, m1</dd>"));
    assert!(html.contains("<dd>temperature 0.25, max_tokens 4096</dd>"));
    assert!(html.contains("<p>No resolved judgments.</p>"));
}

#[test]
fn stored_text_is_escaped() {
    assert_eq!(escape("<a href=\"x\">'&'</a>"), "&lt;a href=&quot;x&quot;&gt;&#39;&amp;&#39;&lt;/a&gt;");
    assert_eq!(escape(""), "");
}

#[test]
fn texts_must_be_of_the_figures_of_the_report() {
    let data = output(
        run_meta(&["m0"], None),
        vec![],
        vec![],
        None,
        None,
        None,
        Some(vec![ModelRating {
            model: ModelId::new("m0"),
            rating: Some(1500.0),
            rating_lower: None,
            rating_upper: None,
            unavailable: None,
        }]),
    );
    let report = report::from_output(&data);
    let texts = |rating: Option<&str>, lower: Option<&str>, agreement_rate: Option<&str>| {
        ReportTexts {
            ratings: vec![RatingTexts {
                rating: rating.map(Into::into),
                rating_lower: lower.map(Into::into),
                rating_upper: None,
            }],
            agreement_rate: agreement_rate.map(Into::into),
        }
    };
    assert!(texts(Some("1"), None, None).fit(&report));
    assert!(!texts(None, None, None).fit(&report));
    assert!(!texts(Some("1"), Some("0"), None).fit(&report));
    assert!(!texts(Some("1"), None, Some("50%")).fit(&report));
    assert!(!ReportTexts { ratings: vec![], agreement_rate: None }.fit(&report));
    let html = render(&report, &texts(Some("<1>"), None, None));
    assert!(html.contains("<td>&lt;1&gt;</td><td>unavailable</td>"));
}

#[test]
fn reasons_have_names() {
    let names: Vec<_> = [
        UnavailableReason::NoComparisons,
        UnavailableReason::Disconnected,
        UnavailableReason::Separated,
        UnavailableReason::Nonconvergence,
        UnavailableReason::NonfiniteResult,
    ]
    .into_iter()
    .map(unavailable)
    .collect();
    assert_eq!(
        names,
        vec!["no_comparisons", "disconnected", "separated", "nonconvergence", "nonfinite_result"]
    );
    let names: Vec<_> = [
        BootstrapUnavailable::TooFewTasks,
        BootstrapUnavailable::OriginalUnrated,
        BootstrapUnavailable::InvalidReplicates,
    ]
    .into_iter()
    .map(bootstrap_unavailable)
    .collect();
    assert_eq!(names, vec!["too_few_tasks", "original_unrated", "invalid_replicates"]);
}
