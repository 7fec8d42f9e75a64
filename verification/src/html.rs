//! A report as a page for a browser.
use crate::bootstrap::BootstrapUnavailable;
use crate::judge::{JudgeDecision, JudgeOrientation, JudgmentFailureKind, OrientationFailure};
use crate::persist::JudgeDecoding;
use crate::provider::ModelId;
use crate::rating::UnavailableReason;
use crate::report::{
    BootstrapReport, CandidateRow, FailedPairRow, ModelReport, PairRow, Report, ReportSummary,
    RunConfig,
};
use crate::text::{
    decimal, decimal_text, decimals_read_back, holds_inner, holds_its_end, holds_more, holds_part,
    number_read, thousandths, thousandths_text,
};
use vstd::prelude::*;

verus! {

/// The style sheet of the page.
pub const STYLE: &'static str = r#"
:root {
  --bg: #f4f1ea;
  --fg: #1d1c19;
  --muted: #5e5b54;
  --card: #fffcf7;
  --line: #d9d3c7;
  --agree-bg: #e7efe8;
  --agree-fg: #2b4b34;
  --disagree-bg: #f3eadc;
  --disagree-fg: #5c4520;
  --fail-bg: #f7eceb;
  --fail-line: #b56a64;
}
* { box-sizing: border-box; }
body {
  margin: 0;
  color: var(--fg);
  background: var(--bg);
  font: 16px/1.45 "Segoe UI", system-ui, sans-serif;
}
main {
  max-width: 72rem;
  margin: 0 auto;
  padding: 1.5rem 1.25rem 3rem;
}
h1, h2, h3 { font-weight: 650; letter-spacing: -0.02em; }
h1 { font-size: 1.7rem; margin: 0 0 .35rem; }
h2 { font-size: 1.15rem; margin: 0 0 .75rem; }
h3 { font-size: 1rem; margin: 0; }
.eyebrow { margin: 0; color: var(--muted); font-size: .82rem; text-transform: uppercase; letter-spacing: .08em; }
.meta { margin: .15rem 0 .6rem; color: var(--muted); }
.status {
  display: inline-block;
  margin: 0 0 1rem;
  padding: .15rem .55rem;
  border: 1px solid var(--line);
  border-radius: 999px;
  font-size: .78rem;
  letter-spacing: .04em;
}
.metrics { display: flex; flex-wrap: wrap; gap: .75rem; margin: 0 0 1.5rem; }
.metric {
  flex: 1 1 10rem;
  min-width: 9rem;
  background: var(--card);
  border: 1px solid var(--line);
  border-radius: .4rem;
  padding: .7rem .85rem;
}
.metric .label { display: block; color: var(--muted); font-size: .78rem; }
.metric .value { display: block; font-size: 1.15rem; font-variant-numeric: tabular-nums; }
section { margin: 0 0 1.75rem; }
.note { margin: 0 0 .7rem; color: var(--muted); font-size: .88rem; }
.scroll { overflow-x: auto; }
table { border-collapse: collapse; width: 100%; background: var(--card); }
th, td { border: 1px solid var(--line); padding: .45rem .6rem; text-align: left; vertical-align: top; }
th { background: #efeae1; font-weight: 600; }
.model-id, .wrap { overflow-wrap: anywhere; word-break: break-word; }
.pair {
  background: var(--card);
  border: 1px solid var(--line);
  border-radius: .45rem;
  padding: .9rem 1rem;
  margin: 0 0 .75rem;
}
.pair-top { display: flex; flex-wrap: wrap; gap: .4rem .8rem; align-items: baseline; margin-bottom: .55rem; }
.models { margin: 0 0 .7rem; color: var(--muted); overflow-wrap: anywhere; }
.outcomes { display: flex; flex-wrap: wrap; gap: .5rem; }
.outcome {
  min-width: 6.5rem;
  border: 1px solid var(--line);
  border-radius: .35rem;
  padding: .4rem .55rem;
}
.outcome .k { display: block; color: var(--muted); font-size: .75rem; }
.outcome .v { font-weight: 650; }
.pill {
  font-size: .78rem;
  padding: .1rem .5rem;
  border-radius: 999px;
}
.pill.agree { background: var(--agree-bg); color: var(--agree-fg); }
.pill.disagree { background: var(--disagree-bg); color: var(--disagree-fg); }
.muted { color: var(--muted); }
.failures { background: var(--fail-bg); border: 1px solid var(--fail-line); border-radius: .45rem; padding: .9rem 1rem; }
.failures article { margin: 0 0 .75rem; }
.failures article:last-child { margin: 0; }
.secondary details { background: var(--card); border: 1px solid var(--line); border-radius: .4rem; padding: .55rem .8rem; margin: 0 0 .5rem; }
details { margin: .4rem 0 0; }
summary { cursor: pointer; }
pre {
  white-space: pre-wrap;
  overflow-wrap: anywhere;
  background: #f1ede4;
  border: 1px solid var(--line);
  padding: .7rem .8rem;
  font-size: .86rem;
  margin: .4rem 0 0;
}
dl { display: grid; grid-template-columns: max-content 1fr; gap: .2rem 1rem; margin: .4rem 0 0; }
dt { color: var(--muted); }
dd { margin: 0; overflow-wrap: anywhere; }
@media (max-width: 640px) {
  main { padding: 1rem .8rem 2rem; }
  dl { grid-template-columns: 1fr; }
}
"#;

/// The head of the table of models.
pub const MODEL_TABLE_HEAD: &'static str =
    "<div class=\"scroll\"><table>\n<thead><tr><th>Model</th><th>W</th><th>L</th><th>D</th><th>Total</th><th>Rating</th><th>Lower bound</th><th>Upper bound</th><th>Unavailable reason</th></tr></thead>\n<tbody>\n";

/// How the section of the responses starts.
pub const RESULTS_HEAD: &'static str =
    "<section class=\"secondary\">\n<h2>Candidate responses</h2>\n<p class=\"note\">Task-level model outputs. Collapsed by default; content is stored text, not rendered markup.</p>\n";

/// How the outcomes of a pair start.
pub const OUTCOMES_HEAD: &'static str =
    "</p>\n<div class=\"outcomes\"><div class=\"outcome\"><span class=\"k\">AB</span><span class=\"v\">";

/// What stands between the outcomes of the two orientations.
pub const OUTCOME_BA: &'static str =
    "</span></div><div class=\"outcome\"><span class=\"k\">BA</span><span class=\"v\">";

/// What stands before the final outcome of a pair.
pub const OUTCOME_FINAL: &'static str =
    "</span></div><div class=\"outcome\"><span class=\"k\">Final</span><span class=\"v\">";

/// How the reasons of a pair start.
pub const REASONS_HEAD: &'static str =
    "</span></div></div>\n<details><summary>Reasons</summary>\n<p><strong>AB</strong><br>";

/// How the section of the resolved pairs starts.
pub const PAIRS_HEAD: &'static str =
    "<section>\n<h2>Pairwise results</h2>\n<p class=\"note\">Resolved judgments are the primary observations. Orientation disagreement is recorded, not interpreted as position bias.</p>\n";

/// How the section of what was recorded of the pairs starts.
pub const AUDIT_HEAD: &'static str =
    "<section class=\"secondary\">\n<h2>Audit details</h2>\n<p class=\"note\">Raw judge completions and orientation records. Secondary to the pairwise outcomes above.</p>\n";

/// How the section of the failed pairs starts.
pub const FAILURES_HEAD: &'static str =
    "<section class=\"failures\">\n<h2>Failed judgments</h2>\n<p class=\"note\">These pairs did not produce a resolved judgment and are not mixed into the pairwise results above.</p>\n";

/// How the section of resampling starts.
pub const BOOTSTRAP_HEAD: &'static str =
    "<section>\n<h2>Bootstrap</h2>\n<p class=\"note\">Task-clustered resampling of the observed-pair rating estimator. Point ratings and interval availability are distinct.</p>\n<div class=\"metrics\">\n";

/// How the section of the set-up starts.
pub const CONFIG_HEAD: &'static str =
    "<section class=\"secondary\">\n<details>\n<summary>Run configuration</summary>\n<dl>\n";

/// How the page starts, up to its style sheet.
pub const PAGE_HEAD: &'static str =
    "<!doctype html>\n<html lang=\"en\">\n<head>\n<meta charset=\"utf-8\">\n<meta name=\"viewport\" content=\"width=device-width, initial-scale=1\">\n<title>Arena experiment report</title>\n<style>\n";

/// The rating of a model and its bounds, written out.
#[derive(Debug)]
pub struct RatingTexts {
    pub rating: Option<String>,
    pub rating_lower: Option<String>,
    pub rating_upper: Option<String>,
}

/// The figures of a report that are written out by the caller.
#[derive(Debug)]
pub struct ReportTexts {
    pub ratings: Vec<RatingTexts>,
    pub agreement_rate: Option<String>,
}

/// How a character stands in a page.
pub open spec fn escaped_char(c: char) -> Seq<char> {
    if c == '&' {
        "&amp;"@
    } else if c == '<' {
        "&lt;"@
    } else if c == '>' {
        "&gt;"@
    } else if c == '"' {
        "&quot;"@
    } else if c == '\'' {
        "&#39;"@
    } else {
        seq![c]
    }
}

/// How a text stands in a page.
pub open spec fn escaped(text: Seq<char>) -> Seq<char>
    decreases text.len(),
{
    if text.len() == 0 {
        seq![]
    } else {
        escaped(text.drop_last()) + escaped_char(text.last())
    }
}

/// Escapes the characters that mean something in a page.
pub fn escape(text: &str) -> (r: String)
    ensures
        r@ == escaped(text@),
{
    let mut r: String = empty();
    for c in it: text.chars()
        invariant
            it.seq() == text@,
            r@ == escaped(text@.take(it.index() as int)),
    {
        let ghost more = text@.take(it.index() + 1);
        proof {
            assert(more.drop_last() =~= text@.take(it.index() as int));
            assert(more.last() == c);
        }
        if c == '&' {
            r.push_str("&amp;");
        } else if c == '<' {
            r.push_str("&lt;");
        } else if c == '>' {
            r.push_str("&gt;");
        } else if c == '"' {
            r.push_str("&quot;");
        } else if c == '\'' {
            r.push_str("&#39;");
        } else {
            let ghost before = r@;
            r.push(c);
            proof {
                assert(before.push(c) =~= before + seq![c]);
            }
        }
    }
    proof {
        assert(text@.take(text@.len() as int) =~= text@);
    }
    r
}

proof fn escaped_char_is_inert(c: char, d: char)
    requires
        d == '<' || d == '>' || d == '"' || d == '\'',
    ensures
        !escaped_char(c).contains(d),
{
    reveal_strlit("&amp;");
    reveal_strlit("&lt;");
    reveal_strlit("&gt;");
    reveal_strlit("&quot;");
    reveal_strlit("&#39;");
}

/// Stored text is shown, never read as markup: escaped, it holds no `<`, no
/// `>` and no quotation marks, so it can neither open nor close a tag or an
/// attribute.
pub proof fn stored_text_is_inert(text: Seq<char>, c: char)
    requires
        c == '<' || c == '>' || c == '"' || c == '\'',
    ensures
        !escaped(text).contains(c),
    decreases text.len(),
{
    if text.len() > 0 {
        stored_text_is_inert(text.drop_last(), c);
        escaped_char_is_inert(text.last(), c);
        let head = escaped(text.drop_last());
        let tail = escaped_char(text.last());
        assert forall|i: int| 0 <= i < escaped(text).len() implies escaped(text)[i] != c by {
            if i < head.len() {
                assert(escaped(text)[i] == head[i]);
                assert(head.contains(head[i]));
            } else {
                assert(escaped(text)[i] == tail[i - head.len()]);
                assert(tail.contains(tail[i - head.len()]));
            }
        }
    }
}

/// The word for a decision.
pub open spec fn decision_name(value: JudgeDecision) -> Seq<char> {
    match value {
        JudgeDecision::A => "A"@,
        JudgeDecision::B => "B"@,
        JudgeDecision::Draw => "Draw"@,
    }
}

fn decision(value: JudgeDecision) -> (r: &'static str)
    ensures
        r@ == decision_name(value),
{
    match value {
        JudgeDecision::A => "A",
        JudgeDecision::B => "B",
        JudgeDecision::Draw => "Draw",
    }
}

/// The word for a decision, if there is one.
pub open spec fn decision_or_nothing(value: Option<JudgeDecision>) -> Seq<char> {
    match value {
        Some(value) => decision_name(value),
        None => ""@,
    }
}

fn opt_decision(value: Option<JudgeDecision>) -> (r: &'static str)
    ensures
        r@ == decision_or_nothing(value),
{
    match value {
        Some(value) => decision(value),
        None => "",
    }
}

/// A text that may be absent, escaped.
pub open spec fn escaped_or_nothing(text: Option<&str>) -> Seq<char> {
    match text {
        Some(text) => escaped(text@),
        None => seq![],
    }
}

fn opt_text(text: Option<&str>) -> (r: String)
    ensures
        r@ == escaped_or_nothing(text),
{
    match text {
        Some(text) => escape(text),
        None => empty(),
    }
}

/// A rating, or that there is none.
pub open spec fn cell_text(value: Option<String>) -> Seq<char> {
    match value {
        Some(value) => escaped(value@),
        None => "unavailable"@,
    }
}

fn rating_cell(value: &Option<String>) -> (r: String)
    ensures
        r@ == cell_text(*value),
{
    match value {
        Some(value) => escape(value.as_str()),
        None => "unavailable".to_owned(),
    }
}

/// The word for the reason why a model has no rating.
pub open spec fn unavailable_name(reason: UnavailableReason) -> Seq<char> {
    match reason {
        UnavailableReason::NoComparisons => "no_comparisons"@,
        UnavailableReason::Disconnected => "disconnected"@,
        UnavailableReason::Separated => "separated"@,
        UnavailableReason::Nonconvergence => "nonconvergence"@,
        UnavailableReason::NonfiniteResult => "nonfinite_result"@,
    }
}

/// The word for the reason why a model has no rating.
pub fn unavailable(reason: UnavailableReason) -> (r: &'static str)
    ensures
        r@ == unavailable_name(reason),
{
    match reason {
        UnavailableReason::NoComparisons => "no_comparisons",
        UnavailableReason::Disconnected => "disconnected",
        UnavailableReason::Separated => "separated",
        UnavailableReason::Nonconvergence => "nonconvergence",
        UnavailableReason::NonfiniteResult => "nonfinite_result",
    }
}

/// The word for the reason, if there is one.
pub open spec fn reason_or_nothing(reason: Option<UnavailableReason>) -> Seq<char> {
    match reason {
        Some(reason) => unavailable_name(reason),
        None => ""@,
    }
}

fn opt_unavailable(reason: Option<UnavailableReason>) -> (r: &'static str)
    ensures
        r@ == reason_or_nothing(reason),
{
    match reason {
        Some(reason) => unavailable(reason),
        None => "",
    }
}

/// The word for the reason why there are no intervals.
pub open spec fn obstacle_name(reason: BootstrapUnavailable) -> Seq<char> {
    match reason {
        BootstrapUnavailable::TooFewTasks => "too_few_tasks"@,
        BootstrapUnavailable::OriginalUnrated => "original_unrated"@,
        BootstrapUnavailable::InvalidReplicates => "invalid_replicates"@,
    }
}

/// The word for the reason why there are no intervals.
pub fn bootstrap_unavailable(reason: BootstrapUnavailable) -> (r: &'static str)
    ensures
        r@ == obstacle_name(reason),
{
    match reason {
        BootstrapUnavailable::TooFewTasks => "too_few_tasks",
        BootstrapUnavailable::OriginalUnrated => "original_unrated",
        BootstrapUnavailable::InvalidReplicates => "invalid_replicates",
    }
}

/// The word for the reason, if there is one.
pub open spec fn obstacle_or_nothing(reason: Option<BootstrapUnavailable>) -> Seq<char> {
    match reason {
        Some(reason) => obstacle_name(reason),
        None => ""@,
    }
}

fn opt_bootstrap_unavailable(reason: Option<BootstrapUnavailable>) -> (r: &'static str)
    ensures
        r@ == obstacle_or_nothing(reason),
{
    match reason {
        Some(reason) => bootstrap_unavailable(reason),
        None => "",
    }
}

/// Whether the orientations agreed, in words.
pub open spec fn agreement_name(agreement: bool) -> Seq<char> {
    if agreement {
        "orientation agreement"@
    } else {
        "orientation disagreement"@
    }
}

fn agreement_label(agreement: bool) -> (r: &'static str)
    ensures
        r@ == agreement_name(agreement),
{
    if agreement {
        "orientation agreement"
    } else {
        "orientation disagreement"
    }
}

/// The style class for agreement and disagreement.
pub open spec fn agreement_class_name(agreement: bool) -> Seq<char> {
    if agreement {
        "agree"@
    } else {
        "disagree"@
    }
}

fn agreement_class(agreement: bool) -> (r: &'static str)
    ensures
        r@ == agreement_class_name(agreement),
{
    if agreement {
        "agree"
    } else {
        "disagree"
    }
}

/// A term and what it stands for.
pub open spec fn item_html(term: Seq<char>, value: Seq<char>) -> Seq<char> {
    "<dt>"@
        + escaped(term)
        + "</dt><dd>"@
        + value
        + "</dd>\n"@
}

fn item(term: &str, value: &str) -> (r: String)
    ensures
        r@ == item_html(term@, value@),
{
    let mut r: String = "<dt>".to_owned();
    r.push_str(escape(term).as_str());
    r.push_str("</dt><dd>");
    r.push_str(value);
    r.push_str("</dd>\n");
    r
}

/// A labelled figure.
pub open spec fn metric_html(label: Seq<char>, value: Seq<char>) -> Seq<char> {
    "<div class=\"metric\"><span class=\"label\">"@
        + escaped(label)
        + "</span><span class=\"value\">"@
        + value
        + "</span></div>\n"@
}

fn metric(label: &str, value: &str) -> (r: String)
    ensures
        r@ == metric_html(label@, value@),
{
    let mut r: String = "<div class=\"metric\"><span class=\"label\">".to_owned();
    r.push_str(escape(label).as_str());
    r.push_str("</span><span class=\"value\">");
    r.push_str(value);
    r.push_str("</span></div>\n");
    r
}

/// Two numbers, the second being the whole.
pub open spec fn share_text(part: Option<usize>, whole: Option<usize>) -> Seq<char> {
    match (part, whole) {
        (Some(part), Some(whole)) => decimal(part as nat) + " / "@ + decimal(whole as nat),
        _ => seq![],
    }
}

fn share(part: Option<usize>, whole: Option<usize>) -> (r: String)
    ensures
        r@ == share_text(part, whole),
{
    match (part, whole) {
        (Some(part), Some(whole)) => {
            let mut r: String = decimal_text(part as u64);
            r.push_str(" / ");
            r.push_str(decimal_text(whole as u64).as_str());
            r
        },
        _ => empty(),
    }
}

fn empty() -> (r: String)
    ensures
        r@ == Seq::<char>::empty(),
{
    let r: String = String::new();
    proof {
        assert(r@ =~= Seq::<char>::empty());
    }
    r
}

/// The heading: who judged.
pub open spec fn title_html(judge: Option<&ModelId>) -> Seq<char> {
    match judge {
        Some(judge) => "Judge: "@ + escaped(judge@),
        None => "No judge"@,
    }
}

fn title(judge: Option<&ModelId>) -> (r: String)
    ensures
        r@ == title_html(judge),
{
    match judge {
        Some(judge) => {
            let mut r: String = "Judge: ".to_owned();
            r.push_str(escape(judge.as_str()).as_str());
            r
        },
        None => "No judge".to_owned(),
    }
}

/// Whether the run is complete, if that is known.
pub open spec fn status_html(complete: Option<bool>) -> Seq<char> {
    match complete {
        Some(true) => "<p class=\"status\">COMPLETE</p>\n"@,
        Some(false) => "<p class=\"status\">INCOMPLETE</p>\n"@,
        None => seq![],
    }
}

fn status(complete: Option<bool>) -> (r: String)
    ensures
        r@ == status_html(complete),
{
    match complete {
        Some(complete) => if complete {
            "<p class=\"status\">COMPLETE</p>\n".to_owned()
        } else {
            "<p class=\"status\">INCOMPLETE</p>\n".to_owned()
        },
        None => empty(),
    }
}

/// How many pairs failed, if that is known.
pub open spec fn failed_html(failed: Option<usize>) -> Seq<char> {
    match failed {
        Some(failed) => metric_html("Failed pairs"@, decimal(failed as nat)),
        None => seq![],
    }
}

fn failed_metric(failed: Option<usize>) -> (r: String)
    ensures
        r@ == failed_html(failed),
{
    match failed {
        Some(failed) => metric("Failed pairs", decimal_text(failed as u64).as_str()),
        None => empty(),
    }
}

/// How many replicates were asked for, and how many of them are valid.
pub open spec fn replicates_text(bootstrap: BootstrapReport) -> Seq<char> {
    match bootstrap.valid {
        Some(valid) => decimal(valid as nat) + " / "@ + decimal(bootstrap.replicates as nat)
            + " valid"@,
        None => decimal(bootstrap.replicates as nat) + " requested"@,
    }
}

fn replicates(bootstrap: &BootstrapReport) -> (r: String)
    ensures
        r@ == replicates_text(*bootstrap),
{
    match bootstrap.valid {
        Some(valid) => {
            let mut r: String = decimal_text(valid as u64);
            r.push_str(" / ");
            r.push_str(decimal_text(bootstrap.replicates as u64).as_str());
            r.push_str(" valid");
            r
        },
        None => {
            let mut r: String = decimal_text(bootstrap.replicates as u64);
            r.push_str(" requested");
            r
        },
    }
}

/// The figure for resampling, if it was recorded.
pub open spec fn replicates_html(bootstrap: Option<BootstrapReport>) -> Seq<char> {
    match bootstrap {
        Some(bootstrap) => metric_html("Bootstrap"@, replicates_text(bootstrap)),
        None => seq![],
    }
}

fn replicates_metric(bootstrap: &Option<BootstrapReport>) -> (r: String)
    ensures
        r@ == replicates_html(*bootstrap),
{
    match bootstrap {
        Some(bootstrap) => metric("Bootstrap", replicates(bootstrap).as_str()),
        None => empty(),
    }
}

/// A figure that may be absent.
pub open spec fn or_nothing(text: Option<String>) -> Seq<char> {
    match text {
        Some(text) => escaped(text@),
        None => seq![],
    }
}

fn text_or_nothing(text: &Option<String>) -> (r: String)
    ensures
        r@ == or_nothing(*text),
{
    match text {
        Some(text) => escape(text.as_str()),
        None => empty(),
    }
}

/// The figures of a judge's run.
pub open spec fn figures_html(
    summary: ReportSummary,
    bootstrap: Option<BootstrapReport>,
    rate: Option<String>,
) -> Seq<char> {
    "<div class=\"metrics\">\n"@
        + metric_html("Pairs"@, share_text(summary.resolved_pairs, summary.expected_pairs))
        + failed_html(summary.failed_pairs)
        + metric_html("Orientation agreement"@, share_text(summary.orientation_agreeing_pairs, summary.resolved_pairs))
        + metric_html("Agreement rate"@, or_nothing(rate))
        + replicates_html(bootstrap)
        + "</div>\n"@
}

fn figures(
    summary: &ReportSummary,
    bootstrap: &Option<BootstrapReport>,
    rate: &Option<String>,
) -> (r: String)
    ensures
        r@ == figures_html(*summary, *bootstrap, *rate),
{
    let mut r: String = "<div class=\"metrics\">\n".to_owned();
    r.push_str(
        metric("Pairs", share(summary.resolved_pairs, summary.expected_pairs).as_str()).as_str(),
    );
    r.push_str(failed_metric(summary.failed_pairs).as_str());
    r.push_str(
        metric("Orientation agreement", share(summary.orientation_agreeing_pairs, summary.resolved_pairs).as_str()).as_str(),
    );
    r.push_str(metric("Agreement rate", text_or_nothing(rate).as_str()).as_str());
    r.push_str(replicates_metric(bootstrap).as_str());
    r.push_str("</div>\n");
    r
}

/// `one` for one thing, `many` for any other number of them.
pub open spec fn counted(count: usize, one: Seq<char>, many: Seq<char>) -> Seq<char> {
    if count == 1 {
        one
    } else {
        many
    }
}

fn counted_text(count: usize, one: &'static str, many: &'static str) -> (r: &'static str)
    ensures
        r@ == counted(count, one@, many@),
{
    if count == 1 {
        one
    } else {
        many
    }
}

/// What is there only in a judge's run.
pub open spec fn if_judged(judge_used: bool, html: Seq<char>) -> Seq<char> {
    if judge_used {
        html
    } else {
        seq![]
    }
}

/// The kind of run.
pub open spec fn run_kind(judge_used: bool) -> Seq<char> {
    if judge_used {
        " · judge run"@
    } else {
        " · no-judge run"@
    }
}

fn run_kind_text(judge_used: bool) -> (r: &'static str)
    ensures
        r@ == run_kind(judge_used),
{
    if judge_used {
        " · judge run"
    } else {
        " · no-judge run"
    }
}

fn judged_figures(
    summary: &ReportSummary,
    bootstrap: &Option<BootstrapReport>,
    rate: &Option<String>,
) -> (r: String)
    ensures
        r@ == if_judged(summary.judge_used, figures_html(*summary, *bootstrap, *rate)),
{
    if summary.judge_used {
        figures(summary, bootstrap, rate)
    } else {
        empty()
    }
}

/// The top of the page.
pub open spec fn header_html(
    summary: ReportSummary,
    config: RunConfig<'_>,
    bootstrap: Option<BootstrapReport>,
    rate: Option<String>,
) -> Seq<char> {
    "<header>\n<p class=\"eyebrow\">Arena Experiment</p>\n<h1>"@
        + title_html(config.judge)
        + "</h1>\n<p class=\"meta\">"@
        + decimal(summary.task_count as nat)
        + counted(summary.task_count, " task · "@, " tasks · "@)
        + decimal(summary.candidate_count as nat)
        + counted(summary.candidate_count, " model"@, " models"@)
        + run_kind(summary.judge_used)
        + "</p>\n"@
        + status_html(summary.complete)
        + if_judged(summary.judge_used, figures_html(summary, bootstrap, rate))
        + "</header>\n"@
}

fn header(
    summary: &ReportSummary,
    config: &RunConfig<'_>,
    bootstrap: &Option<BootstrapReport>,
    rate: &Option<String>,
) -> (r: String)
    ensures
        r@ == header_html(*summary, *config, *bootstrap, *rate),
{
    let mut r: String = "<header>\n<p class=\"eyebrow\">Arena Experiment</p>\n<h1>".to_owned();
    r.push_str(title(config.judge).as_str());
    r.push_str("</h1>\n<p class=\"meta\">");
    r.push_str(decimal_text(summary.task_count as u64).as_str());
    r.push_str(counted_text(summary.task_count, " task · ", " tasks · "));
    r.push_str(decimal_text(summary.candidate_count as u64).as_str());
    r.push_str(counted_text(summary.candidate_count, " model", " models"));
    r.push_str(run_kind_text(summary.judge_used));
    r.push_str("</p>\n");
    r.push_str(status(summary.complete).as_str());
    r.push_str(judged_figures(summary, bootstrap, rate).as_str());
    r.push_str("</header>\n");
    r
}

/// The row of a model.
pub open spec fn model_row_html<R>(model: ModelReport<'_, R>, texts: RatingTexts) -> Seq<char> {
    "<tr><td class=\"model-id\">"@
        + escaped(model.model@)
        + "</td><td>"@
        + decimal(model.wins as nat)
        + "</td><td>"@
        + decimal(model.losses as nat)
        + "</td><td>"@
        + decimal(model.draws as nat)
        + "</td><td>"@
        + decimal(model.total as nat)
        + "</td><td>"@
        + cell_text(texts.rating)
        + "</td><td>"@
        + cell_text(texts.rating_lower)
        + "</td><td>"@
        + cell_text(texts.rating_upper)
        + "</td><td>"@
        + reason_or_nothing(model.unavailable)
        + "</td></tr>\n"@
}

fn model_row<R>(model: &ModelReport<'_, R>, texts: &RatingTexts) -> (r: String)
    ensures
        r@ == model_row_html(*model, *texts),
{
    let mut r: String = "<tr><td class=\"model-id\">".to_owned();
    r.push_str(escape(model.model.as_str()).as_str());
    r.push_str("</td><td>");
    r.push_str(decimal_text(model.wins as u64).as_str());
    r.push_str("</td><td>");
    r.push_str(decimal_text(model.losses as u64).as_str());
    r.push_str("</td><td>");
    r.push_str(decimal_text(model.draws as u64).as_str());
    r.push_str("</td><td>");
    r.push_str(decimal_text(model.total as u64).as_str());
    r.push_str("</td><td>");
    r.push_str(rating_cell(&texts.rating).as_str());
    r.push_str("</td><td>");
    r.push_str(rating_cell(&texts.rating_lower).as_str());
    r.push_str("</td><td>");
    r.push_str(rating_cell(&texts.rating_upper).as_str());
    r.push_str("</td><td>");
    r.push_str(opt_unavailable(model.unavailable));
    r.push_str("</td></tr>\n");
    r
}

/// The rows of the models.
pub open spec fn model_rows_html<R>(
    rows: Seq<ModelReport<'_, R>>,
    texts: Seq<RatingTexts>,
    count: int,
) -> Seq<char>
    decreases count,
{
    if count <= 0 {
        seq![]
    } else {
        model_rows_html(rows, texts, count - 1) + model_row_html(rows[count - 1], texts[count - 1])
    }
}

fn model_rows<R>(rows: &[ModelReport<'_, R>], texts: &[RatingTexts]) -> (r: String)
    requires
        texts@.len() == rows@.len(),
    ensures
        r@ == model_rows_html(rows@, texts@, rows@.len() as int),
{
    let mut r: String = empty();
    let mut k: usize = 0;
    while k < rows.len()
        invariant
            k <= rows@.len(),
            texts@.len() == rows@.len(),
            r@ == model_rows_html(rows@, texts@, k as int),
        decreases rows@.len() - k,
    {
        r.push_str(model_row(&rows[k], &texts[k]).as_str());
        k += 1;
    }
    r
}

/// What the ratings are.
pub open spec fn rating_note_html() -> Seq<char> {
    "<p class=\"note\">Bradley–Terry rating · derived from resolved pairwise judgments</p>\n"@
}

fn rating_note(judge_used: bool) -> (r: String)
    ensures
        r@ == if_judged(judge_used, rating_note_html()),
{
    if judge_used {
        "<p class=\"note\">Bradley–Terry rating · derived from resolved pairwise judgments</p>\n".to_owned()
    } else {
        empty()
    }
}

/// The section of the models.
pub open spec fn models_html<R>(
    models: Seq<ModelReport<'_, R>>,
    texts: Seq<RatingTexts>,
    judge_used: bool,
) -> Seq<char> {
    "<section>\n<h2>Models</h2>\n"@
        + if_judged(judge_used, rating_note_html())
        + MODEL_TABLE_HEAD@
        + model_rows_html(models, texts, models.len() as int)
        + "</tbody></table></div>\n</section>\n"@
}

fn models_section<R>(
    models: &[ModelReport<'_, R>],
    texts: &[RatingTexts],
    judge_used: bool,
) -> (r: String)
    requires
        texts@.len() == models@.len(),
    ensures
        r@ == models_html(models@, texts@, judge_used),
{
    let mut r: String = "<section>\n<h2>Models</h2>\n".to_owned();
    r.push_str(rating_note(judge_used).as_str());
    r.push_str(MODEL_TABLE_HEAD);
    r.push_str(model_rows(models, texts).as_str());
    r.push_str("</tbody></table></div>\n</section>\n");
    r
}

/// The score of a response, if it has one.
pub open spec fn score_html(score: Option<u32>) -> Seq<char> {
    match score {
        Some(score) => item_html("Score"@, decimal(score as nat)),
        None => seq![],
    }
}

fn score_item(score: Option<u32>) -> (r: String)
    ensures
        r@ == score_html(score),
{
    match score {
        Some(score) => item("Score", decimal_text(score as u64).as_str()),
        None => empty(),
    }
}

/// A number with its unit.
pub open spec fn amount(number: u64, unit: Seq<char>) -> Seq<char> {
    decimal(number as nat) + unit
}

fn amount_text(number: u64, unit: &str) -> (r: String)
    ensures
        r@ == amount(number, unit@),
{
    let mut r: String = decimal_text(number);
    r.push_str(unit);
    r
}

/// One response.
pub open spec fn result_html(result: CandidateRow<'_>) -> Seq<char> {
    "<details><summary>"@
        + escaped(result.task_id@)
        + " — "@
        + escaped(result.model@)
        + "</summary>\n<dl>\n"@
        + item_html("Task"@, escaped(result.task_id@))
        + item_html("Model"@, escaped(result.model@))
        + item_html("Duration"@, amount(result.duration_ms, " ms"@))
        + score_html(result.score)
        + "</dl>\n<pre>"@
        + escaped(result.response@)
        + "</pre>\n</details>\n"@
}

fn result_details(result: &CandidateRow<'_>) -> (r: String)
    ensures
        r@ == result_html(*result),
{
    let mut r: String = "<details><summary>".to_owned();
    r.push_str(escape(result.task_id).as_str());
    r.push_str(" — ");
    r.push_str(escape(result.model.as_str()).as_str());
    r.push_str("</summary>\n<dl>\n");
    r.push_str(item("Task", escape(result.task_id).as_str()).as_str());
    r.push_str(item("Model", escape(result.model.as_str()).as_str()).as_str());
    r.push_str(item("Duration", amount_text(result.duration_ms, " ms").as_str()).as_str());
    r.push_str(score_item(result.score).as_str());
    r.push_str("</dl>\n<pre>");
    r.push_str(escape(result.response).as_str());
    r.push_str("</pre>\n</details>\n");
    r
}

/// The responses.
pub open spec fn result_rows_html(rows: Seq<CandidateRow<'_>>, count: int) -> Seq<char>
    decreases count,
{
    if count <= 0 {
        seq![]
    } else {
        result_rows_html(rows, count - 1) + result_html(rows[count - 1])
    }
}

fn result_rows(rows: &[CandidateRow<'_>]) -> (r: String)
    ensures
        r@ == result_rows_html(rows@, rows@.len() as int),
{
    let mut r: String = empty();
    let mut k: usize = 0;
    while k < rows.len()
        invariant
            k <= rows@.len(),
            r@ == result_rows_html(rows@, k as int),
        decreases rows@.len() - k,
    {
        r.push_str(result_details(&rows[k]).as_str());
        k += 1;
    }
    r
}

/// The section of the responses.
pub open spec fn some_results_html(results: Seq<CandidateRow<'_>>) -> Seq<char> {
    RESULTS_HEAD@
        + result_rows_html(results, results.len() as int)
        + "</section>\n"@
}

fn some_results(results: &[CandidateRow<'_>]) -> (r: String)
    ensures
        r@ == some_results_html(results@),
{
    let mut r: String = RESULTS_HEAD.to_owned();
    r.push_str(result_rows(results).as_str());
    r.push_str("</section>\n");
    r
}

/// The section of the responses, if there are any.
pub open spec fn results_html(results: Seq<CandidateRow<'_>>) -> Seq<char> {
    if results.len() == 0 {
        seq![]
    } else {
        some_results_html(results)
    }
}

fn results_section(results: &[CandidateRow<'_>]) -> (r: String)
    ensures
        r@ == results_html(results@),
{
    if results.len() == 0 {
        empty()
    } else {
        some_results(results)
    }
}

/// One resolved pair.
pub open spec fn pair_html(pair: PairRow<'_>) -> Seq<char> {
    "<article class=\"pair\">\n<div class=\"pair-top\"><h3>"@
        + escaped(pair.task_id@)
        + "</h3><span class=\"pill "@
        + agreement_class_name(pair.agreement)
        + "\">"@
        + agreement_name(pair.agreement)
        + "</span><span class=\"muted\">"@
        + decimal(pair.duration_ms as nat)
        + " ms</span></div>\n<p class=\"models\">A: "@
        + escaped(pair.model_a@)
        + " · B: "@
        + escaped(pair.model_b@)
        + OUTCOMES_HEAD@
        + decision_or_nothing(pair.orientation_ab)
        + OUTCOME_BA@
        + decision_or_nothing(pair.orientation_ba)
        + OUTCOME_FINAL@
        + decision_name(pair.winner)
        + REASONS_HEAD@
        + escaped_or_nothing(pair.reason_ab)
        + "</p>\n<p><strong>BA</strong><br>"@
        + escaped_or_nothing(pair.reason_ba)
        + "</p>\n</details>\n</article>\n"@
}

fn pair_article(pair: &PairRow<'_>) -> (r: String)
    ensures
        r@ == pair_html(*pair),
{
    let mut r: String = "<article class=\"pair\">\n<div class=\"pair-top\"><h3>".to_owned();
    r.push_str(escape(pair.task_id).as_str());
    r.push_str("</h3><span class=\"pill ");
    r.push_str(agreement_class(pair.agreement));
    r.push_str("\">");
    r.push_str(agreement_label(pair.agreement));
    r.push_str("</span><span class=\"muted\">");
    r.push_str(decimal_text(pair.duration_ms as u64).as_str());
    r.push_str(" ms</span></div>\n<p class=\"models\">A: ");
    r.push_str(escape(pair.model_a.as_str()).as_str());
    r.push_str(" · B: ");
    r.push_str(escape(pair.model_b.as_str()).as_str());
    r.push_str(OUTCOMES_HEAD);
    r.push_str(opt_decision(pair.orientation_ab));
    r.push_str(OUTCOME_BA);
    r.push_str(opt_decision(pair.orientation_ba));
    r.push_str(OUTCOME_FINAL);
    r.push_str(decision(pair.winner));
    r.push_str(REASONS_HEAD);
    r.push_str(opt_text(pair.reason_ab).as_str());
    r.push_str("</p>\n<p><strong>BA</strong><br>");
    r.push_str(opt_text(pair.reason_ba).as_str());
    r.push_str("</p>\n</details>\n</article>\n");
    r
}

/// The resolved pairs.
pub open spec fn pair_rows_html(rows: Seq<PairRow<'_>>, count: int) -> Seq<char>
    decreases count,
{
    if count <= 0 {
        seq![]
    } else {
        pair_rows_html(rows, count - 1) + pair_html(rows[count - 1])
    }
}

fn pair_rows(rows: &[PairRow<'_>]) -> (r: String)
    ensures
        r@ == pair_rows_html(rows@, rows@.len() as int),
{
    let mut r: String = empty();
    let mut k: usize = 0;
    while k < rows.len()
        invariant
            k <= rows@.len(),
            r@ == pair_rows_html(rows@, k as int),
        decreases rows@.len() - k,
    {
        r.push_str(pair_article(&rows[k]).as_str());
        k += 1;
    }
    r
}

/// What the section of the resolved pairs shows.
pub open spec fn pairs_body_html(pairs: Seq<PairRow<'_>>) -> Seq<char> {
    if pairs.len() == 0 {
        "<p>No resolved judgments.</p>\n"@
    } else {
        pair_rows_html(pairs, pairs.len() as int)
    }
}

fn pairs_body(pairs: &[PairRow<'_>]) -> (r: String)
    ensures
        r@ == pairs_body_html(pairs@),
{
    if pairs.len() == 0 {
        "<p>No resolved judgments.</p>\n".to_owned()
    } else {
        pair_rows(pairs)
    }
}

/// The section of the resolved pairs.
pub open spec fn pairs_html(pairs: Seq<PairRow<'_>>) -> Seq<char> {
    PAIRS_HEAD@
        + pairs_body_html(pairs)
        + "</section>\n"@
}

fn pairs_section(pairs: &[PairRow<'_>]) -> (r: String)
    ensures
        r@ == pairs_html(pairs@),
{
    let mut r: String = PAIRS_HEAD.to_owned();
    r.push_str(pairs_body(pairs).as_str());
    r.push_str("</section>\n");
    r
}

/// One pair with all that was recorded of it.
pub open spec fn audit_row_html(pair: PairRow<'_>) -> Seq<char> {
    "<details>\n<summary>"@
        + escaped(pair.task_id@)
        + " — "@
        + escaped(pair.model_a@)
        + " vs "@
        + escaped(pair.model_b@)
        + "</summary>\n<dl>\n"@
        + item_html("Task ID"@, escaped(pair.task_id@))
        + item_html("Model A"@, escaped(pair.model_a@))
        + item_html("Model B"@, escaped(pair.model_b@))
        + item_html("Final winner"@, decision_name(pair.winner))
        + item_html("Orientation agreement"@, agreement_name(pair.agreement))
        + item_html("AB winner"@, decision_or_nothing(pair.orientation_ab))
        + item_html("BA winner"@, decision_or_nothing(pair.orientation_ba))
        + item_html("Reason AB"@, escaped_or_nothing(pair.reason_ab))
        + item_html("Reason BA"@, escaped_or_nothing(pair.reason_ba))
        + item_html("Duration"@, amount(pair.duration_ms, " ms"@))
        + "<dt>Raw AB completion</dt><dd><pre>"@
        + escaped_or_nothing(pair.raw_ab)
        + "</pre></dd>\n<dt>Raw BA completion</dt><dd><pre>"@
        + escaped_or_nothing(pair.raw_ba)
        + "</pre></dd>\n</dl>\n</details>\n"@
}

fn audit_row(pair: &PairRow<'_>) -> (r: String)
    ensures
        r@ == audit_row_html(*pair),
{
    let mut r: String = "<details>\n<summary>".to_owned();
    r.push_str(escape(pair.task_id).as_str());
    r.push_str(" — ");
    r.push_str(escape(pair.model_a.as_str()).as_str());
    r.push_str(" vs ");
    r.push_str(escape(pair.model_b.as_str()).as_str());
    r.push_str("</summary>\n<dl>\n");
    r.push_str(item("Task ID", escape(pair.task_id).as_str()).as_str());
    r.push_str(item("Model A", escape(pair.model_a.as_str()).as_str()).as_str());
    r.push_str(item("Model B", escape(pair.model_b.as_str()).as_str()).as_str());
    r.push_str(item("Final winner", decision(pair.winner)).as_str());
    r.push_str(item("Orientation agreement", agreement_label(pair.agreement)).as_str());
    r.push_str(item("AB winner", opt_decision(pair.orientation_ab)).as_str());
    r.push_str(item("BA winner", opt_decision(pair.orientation_ba)).as_str());
    r.push_str(item("Reason AB", opt_text(pair.reason_ab).as_str()).as_str());
    r.push_str(item("Reason BA", opt_text(pair.reason_ba).as_str()).as_str());
    r.push_str(item("Duration", amount_text(pair.duration_ms, " ms").as_str()).as_str());
    r.push_str("<dt>Raw AB completion</dt><dd><pre>");
    r.push_str(opt_text(pair.raw_ab).as_str());
    r.push_str("</pre></dd>\n<dt>Raw BA completion</dt><dd><pre>");
    r.push_str(opt_text(pair.raw_ba).as_str());
    r.push_str("</pre></dd>\n</dl>\n</details>\n");
    r
}

/// The pairs with all that was recorded of them.
pub open spec fn audit_rows_html(rows: Seq<PairRow<'_>>, count: int) -> Seq<char>
    decreases count,
{
    if count <= 0 {
        seq![]
    } else {
        audit_rows_html(rows, count - 1) + audit_row_html(rows[count - 1])
    }
}

fn audit_rows(rows: &[PairRow<'_>]) -> (r: String)
    ensures
        r@ == audit_rows_html(rows@, rows@.len() as int),
{
    let mut r: String = empty();
    let mut k: usize = 0;
    while k < rows.len()
        invariant
            k <= rows@.len(),
            r@ == audit_rows_html(rows@, k as int),
        decreases rows@.len() - k,
    {
        r.push_str(audit_row(&rows[k]).as_str());
        k += 1;
    }
    r
}

/// The section of what was recorded of the pairs.
pub open spec fn some_audit_html(pairs: Seq<PairRow<'_>>) -> Seq<char> {
    AUDIT_HEAD@
        + audit_rows_html(pairs, pairs.len() as int)
        + "</section>\n"@
}

fn some_audit(pairs: &[PairRow<'_>]) -> (r: String)
    ensures
        r@ == some_audit_html(pairs@),
{
    let mut r: String = AUDIT_HEAD.to_owned();
    r.push_str(audit_rows(pairs).as_str());
    r.push_str("</section>\n");
    r
}

/// The section of what was recorded of the pairs, if there are any.
pub open spec fn audit_html(pairs: Seq<PairRow<'_>>) -> Seq<char> {
    if pairs.len() == 0 {
        seq![]
    } else {
        some_audit_html(pairs)
    }
}

fn audit_section(pairs: &[PairRow<'_>]) -> (r: String)
    ensures
        r@ == audit_html(pairs@),
{
    if pairs.len() == 0 {
        empty()
    } else {
        some_audit(pairs)
    }
}

/// What went wrong in an orientation, in words.
pub open spec fn failure_line_text(failure: OrientationFailure) -> Seq<char> {
    failure.orientation.name() + " "@ + failure.kind.name() + ": "@ + failure.error@
        + " (attempts: "@ + decimal(failure.attempts as nat) + ")"@
}

fn failure_line(failure: &OrientationFailure) -> (r: String)
    ensures
        r@ == failure_line_text(*failure),
{
    let mut r: String = failure.orientation.as_str().to_owned();
    r.push_str(" ");
    r.push_str(failure.kind.as_str());
    r.push_str(": ");
    r.push_str(failure.error.as_str());
    r.push_str(" (attempts: ");
    r.push_str(decimal_text(failure.attempts as u64).as_str());
    r.push_str(")");
    r
}

/// One failed orientation.
pub open spec fn failure_line_html(failure: OrientationFailure) -> Seq<char> {
    "<li>"@
        + escaped(failure_line_text(failure))
        + "</li>\n"@
}

fn failure_item(failure: &OrientationFailure) -> (r: String)
    ensures
        r@ == failure_line_html(*failure),
{
    let mut r: String = "<li>".to_owned();
    r.push_str(escape(failure_line(failure).as_str()).as_str());
    r.push_str("</li>\n");
    r
}

/// The failed orientations.
pub open spec fn failure_lines_html(rows: Seq<OrientationFailure>, count: int) -> Seq<char>
    decreases count,
{
    if count <= 0 {
        seq![]
    } else {
        failure_lines_html(rows, count - 1) + failure_line_html(rows[count - 1])
    }
}

fn failure_lines(rows: &[OrientationFailure]) -> (r: String)
    ensures
        r@ == failure_lines_html(rows@, rows@.len() as int),
{
    let mut r: String = empty();
    let mut k: usize = 0;
    while k < rows.len()
        invariant
            k <= rows@.len(),
            r@ == failure_lines_html(rows@, k as int),
        decreases rows@.len() - k,
    {
        r.push_str(failure_item(&rows[k]).as_str());
        k += 1;
    }
    r
}

/// One failed pair.
pub open spec fn failure_html(failure: FailedPairRow<'_>) -> Seq<char> {
    "<article>\n<dl>\n"@
        + item_html("Task ID"@, escaped(failure.task_id@))
        + item_html("Model A"@, escaped(failure.model_a@))
        + item_html("Model B"@, escaped(failure.model_b@))
        + "<dt>Failure information</dt><dd><ul>\n"@
        + failure_lines_html(failure.orientations@, failure.orientations@.len() as int)
        + "</ul></dd>\n</dl>\n</article>\n"@
}

fn failure_article(failure: &FailedPairRow<'_>) -> (r: String)
    ensures
        r@ == failure_html(*failure),
{
    let mut r: String = "<article>\n<dl>\n".to_owned();
    r.push_str(item("Task ID", escape(failure.task_id).as_str()).as_str());
    r.push_str(item("Model A", escape(failure.model_a.as_str()).as_str()).as_str());
    r.push_str(item("Model B", escape(failure.model_b.as_str()).as_str()).as_str());
    r.push_str("<dt>Failure information</dt><dd><ul>\n");
    r.push_str(failure_lines(failure.orientations).as_str());
    r.push_str("</ul></dd>\n</dl>\n</article>\n");
    r
}

/// The failed pairs.
pub open spec fn failure_rows_html(rows: Seq<FailedPairRow<'_>>, count: int) -> Seq<char>
    decreases count,
{
    if count <= 0 {
        seq![]
    } else {
        failure_rows_html(rows, count - 1) + failure_html(rows[count - 1])
    }
}

fn failure_rows(rows: &[FailedPairRow<'_>]) -> (r: String)
    ensures
        r@ == failure_rows_html(rows@, rows@.len() as int),
{
    let mut r: String = empty();
    let mut k: usize = 0;
    while k < rows.len()
        invariant
            k <= rows@.len(),
            r@ == failure_rows_html(rows@, k as int),
        decreases rows@.len() - k,
    {
        r.push_str(failure_article(&rows[k]).as_str());
        k += 1;
    }
    r
}

/// The section of the failed pairs.
pub open spec fn some_failures_html(failures: Seq<FailedPairRow<'_>>) -> Seq<char> {
    FAILURES_HEAD@
        + failure_rows_html(failures, failures.len() as int)
        + "</section>\n"@
}

fn some_failures(failures: &[FailedPairRow<'_>]) -> (r: String)
    ensures
        r@ == some_failures_html(failures@),
{
    let mut r: String = FAILURES_HEAD.to_owned();
    r.push_str(failure_rows(failures).as_str());
    r.push_str("</section>\n");
    r
}

/// The section of the failed pairs, if there are any.
pub open spec fn failures_html(failures: Seq<FailedPairRow<'_>>) -> Seq<char> {
    if failures.len() == 0 {
        seq![]
    } else {
        some_failures_html(failures)
    }
}

fn failures_section(failures: &[FailedPairRow<'_>]) -> (r: String)
    ensures
        r@ == failures_html(failures@),
{
    if failures.len() == 0 {
        empty()
    } else {
        some_failures(failures)
    }
}

/// The number of valid replicates, if there is one.
pub open spec fn valid_text(valid: Option<u32>) -> Seq<char> {
    match valid {
        Some(valid) => decimal(valid as nat),
        None => seq![],
    }
}

fn valid_replicates(valid: Option<u32>) -> (r: String)
    ensures
        r@ == valid_text(valid),
{
    match valid {
        Some(valid) => decimal_text(valid as u64),
        None => empty(),
    }
}

/// One word for yes, another for no.
pub open spec fn either(yes: bool, if_yes: Seq<char>, if_no: Seq<char>) -> Seq<char> {
    if yes {
        if_yes
    } else {
        if_no
    }
}

fn either_text(yes: bool, if_yes: &'static str, if_no: &'static str) -> (r: &'static str)
    ensures
        r@ == either(yes, if_yes@, if_no@),
{
    if yes {
        if_yes
    } else {
        if_no
    }
}

/// The section of resampling.
pub open spec fn some_bootstrap_html(bootstrap: BootstrapReport) -> Seq<char> {
    BOOTSTRAP_HEAD@
        + metric_html("Requested replicates"@, decimal(bootstrap.replicates as nat))
        + metric_html("Valid replicates"@, valid_text(bootstrap.valid))
        + metric_html("Task clusters"@, decimal(bootstrap.clusters as nat))
        + metric_html("Ran"@, either(bootstrap.ran, "yes"@, "no"@))
        + metric_html("Rating intervals"@, either(bootstrap.bounds_present, "present"@, "unavailable"@))
        + "</div>\n<dl>\n"@
        + item_html("Seed"@, decimal(bootstrap.seed as nat))
        + item_html("Unavailable reason"@, obstacle_or_nothing(bootstrap.unavailable))
        + "</dl>\n</section>\n"@
}

fn some_bootstrap(bootstrap: &BootstrapReport) -> (r: String)
    ensures
        r@ == some_bootstrap_html(*bootstrap),
{
    let mut r: String = BOOTSTRAP_HEAD.to_owned();
    r.push_str(
        metric("Requested replicates", decimal_text(bootstrap.replicates as u64).as_str()).as_str(),
    );
    r.push_str(metric("Valid replicates", valid_replicates(bootstrap.valid).as_str()).as_str());
    r.push_str(metric("Task clusters", decimal_text(bootstrap.clusters as u64).as_str()).as_str());
    r.push_str(metric("Ran", either_text(bootstrap.ran, "yes", "no")).as_str());
    r.push_str(
        metric("Rating intervals", either_text(bootstrap.bounds_present, "present", "unavailable")).as_str(),
    );
    r.push_str("</div>\n<dl>\n");
    r.push_str(item("Seed", decimal_text(bootstrap.seed).as_str()).as_str());
    r.push_str(
        item("Unavailable reason", opt_bootstrap_unavailable(bootstrap.unavailable)).as_str(),
    );
    r.push_str("</dl>\n</section>\n");
    r
}

/// The section of resampling, if it was recorded.
pub open spec fn bootstrap_html(bootstrap: Option<BootstrapReport>) -> Seq<char> {
    match bootstrap {
        Some(bootstrap) => some_bootstrap_html(bootstrap),
        None => seq![],
    }
}

fn bootstrap_section(bootstrap: &Option<BootstrapReport>) -> (r: String)
    ensures
        r@ == bootstrap_html(*bootstrap),
{
    match bootstrap {
        Some(bootstrap) => some_bootstrap(bootstrap),
        None => empty(),
    }
}

/// The first `count` names, escaped and separated by commas.
pub open spec fn names_html(models: Seq<ModelId>, count: int) -> Seq<char>
    decreases count,
{
    if count <= 0 {
        seq![]
    } else if count == 1 {
        escaped(models[0]@)
    } else {
        names_html(models, count - 1) + ", "@ + escaped(models[count - 1]@)
    }
}

fn names(models: &[ModelId]) -> (r: String)
    ensures
        r@ == names_html(models@, models@.len() as int),
{
    if models.len() == 0 {
        return empty();
    }
    let mut r: String = escape(models[0].as_str());
    let mut k: usize = 1;
    while k < models.len()
        invariant
            1 <= k <= models@.len(),
            r@ == names_html(models@, k as int),
        decreases models@.len() - k,
    {
        r.push_str(", ");
        r.push_str(escape(models[k].as_str()).as_str());
        k += 1;
    }
    r
}

/// The judge's name, or that there was none.
pub open spec fn judge_html(judge: Option<&ModelId>) -> Seq<char> {
    match judge {
        Some(judge) => escaped(judge@),
        None => "not used"@,
    }
}

fn judge_name(judge: Option<&ModelId>) -> (r: String)
    ensures
        r@ == judge_html(judge),
{
    match judge {
        Some(judge) => escape(judge.as_str()),
        None => "not used".to_owned(),
    }
}

/// How judge requests were decoded, in words.
pub open spec fn decoding_text(decoding: JudgeDecoding) -> Seq<char> {
    "temperature "@ + thousandths(decoding.temperature as nat) + ", max_tokens "@ + decimal(
        decoding.max_tokens as nat,
    )
}

/// How judge requests were decoded, if that was recorded.
pub open spec fn decoding_html(decoding: Option<JudgeDecoding>) -> Seq<char> {
    match decoding {
        Some(decoding) => item_html("Judge decoding"@, decoding_text(decoding)),
        None => seq![],
    }
}

fn decoding_item(decoding: Option<JudgeDecoding>) -> (r: String)
    ensures
        r@ == decoding_html(decoding),
{
    match decoding {
        Some(decoding) => {
            let mut text: String = "temperature ".to_owned();
            text.push_str(thousandths_text(decoding.temperature as u64).as_str());
            text.push_str(", max_tokens ");
            text.push_str(decimal_text(decoding.max_tokens as u64).as_str());
            item("Judge decoding", text.as_str())
        },
        None => empty(),
    }
}

/// The section of the set-up.
pub open spec fn config_html(config: RunConfig<'_>) -> Seq<char> {
    CONFIG_HEAD@
        + item_html("Models"@, names_html(config.models@, config.models@.len() as int))
        + item_html("Judge"@, judge_html(config.judge))
        + item_html("Task path"@, escaped_or_nothing(config.tasks))
        + item_html("Base URL"@, escaped(config.base_url@))
        + item_html("Started at"@, escaped(config.started_at@))
        + item_html("Provider concurrency"@, decimal(config.provider_concurrency as nat))
        + item_html("Request timeout"@, amount(config.request_timeout_secs, " s"@))
        + item_html("Connect timeout"@, amount(config.connect_timeout_secs, " s"@))
        + item_html("Candidate attempts"@, decimal(config.candidate_attempts as nat))
        + item_html("Judge attempts"@, decimal(config.judge_attempts as nat))
        + item_html("Candidate max tokens"@, decimal(config.candidate_max_tokens as nat))
        + decoding_html(config.judge_decoding)
        + "</dl>\n</details>\n</section>\n"@
}

fn config_section(config: &RunConfig<'_>) -> (r: String)
    ensures
        r@ == config_html(*config),
{
    let mut r: String = CONFIG_HEAD.to_owned();
    r.push_str(item("Models", names(config.models).as_str()).as_str());
    r.push_str(item("Judge", judge_name(config.judge).as_str()).as_str());
    r.push_str(item("Task path", opt_text(config.tasks).as_str()).as_str());
    r.push_str(item("Base URL", escape(config.base_url).as_str()).as_str());
    r.push_str(item("Started at", escape(config.started_at).as_str()).as_str());
    r.push_str(
        item("Provider concurrency", decimal_text(config.provider_concurrency as u64).as_str()).as_str(),
    );
    r.push_str(
        item("Request timeout", amount_text(config.request_timeout_secs, " s").as_str()).as_str(),
    );
    r.push_str(
        item("Connect timeout", amount_text(config.connect_timeout_secs, " s").as_str()).as_str(),
    );
    r.push_str(
        item("Candidate attempts", decimal_text(config.candidate_attempts as u64).as_str()).as_str(),
    );
    r.push_str(
        item("Judge attempts", decimal_text(config.judge_attempts as u64).as_str()).as_str(),
    );
    r.push_str(
        item("Candidate max tokens", decimal_text(config.candidate_max_tokens as u64).as_str()).as_str(),
    );
    r.push_str(decoding_item(config.judge_decoding).as_str());
    r.push_str("</dl>\n</details>\n</section>\n");
    r
}

/// The sections that only a judge's run has, above the responses.
pub open spec fn judged_html<R>(report: Report<'_, R>) -> Seq<char> {
    pairs_html(report.pairs@) + failures_html(report.failed_pairs@) + bootstrap_html(
        report.bootstrap,
    )
}

fn judged_sections<R>(report: &Report<'_, R>) -> (r: String)
    ensures
        r@ == if_judged(report.summary.judge_used, judged_html(*report)),
{
    if report.summary.judge_used {
        let mut r: String = pairs_section(report.pairs.as_slice());
        r.push_str(failures_section(report.failed_pairs.as_slice()).as_str());
        r.push_str(bootstrap_section(&report.bootstrap).as_str());
        r
    } else {
        empty()
    }
}

fn judged_audit<R>(report: &Report<'_, R>) -> (r: String)
    ensures
        r@ == if_judged(report.summary.judge_used, audit_html(report.pairs@)),
{
    if report.summary.judge_used {
        audit_section(report.pairs.as_slice())
    } else {
        empty()
    }
}

/// The whole page.
pub open spec fn page_html<R>(report: Report<'_, R>, texts: ReportTexts) -> Seq<char> {
    PAGE_HEAD@
        + STYLE@
        + "</style>\n</head>\n<body>\n<main>\n"@
        + header_html(report.summary, report.config, report.bootstrap, texts.agreement_rate)
        + models_html(report.models@, texts.ratings@, report.summary.judge_used)
        + if_judged(report.summary.judge_used, judged_html(report))
        + results_html(report.results@)
        + if_judged(report.summary.judge_used, audit_html(report.pairs@))
        + config_html(report.config)
        + "</main>\n</body>\n</html>\n"@
}

/// The texts are of the rating and the bounds that a model has.
pub open spec fn are_of_model<R>(texts: RatingTexts, model: ModelReport<'_, R>) -> bool {
    &&& texts.rating is Some <==> model.rating is Some
    &&& texts.rating_lower is Some <==> model.rating_lower is Some
    &&& texts.rating_upper is Some <==> model.rating_upper is Some
}

/// The texts are of the figures that the report has: those of its models, in
/// their order, and the agreement rate.
pub open spec fn are_of_report<R>(texts: ReportTexts, report: Report<'_, R>) -> bool {
    &&& texts.ratings@.len() == report.models@.len()
    &&& forall|i: int|
        0 <= i < texts.ratings@.len() ==> are_of_model(
            #[trigger] texts.ratings@[i],
            report.models@[i],
        )
    &&& texts.agreement_rate is Some <==> report.summary.agreement_rate is Some
}

impl ReportTexts {
    /// Whether the texts are of the figures that the report has.
    pub fn fit<R>(&self, report: &Report<'_, R>) -> (r: bool)
        ensures
            r == are_of_report(*self, *report),
    {
        if self.ratings.len() != report.models.len() {
            return false;
        }
        let mut i: usize = 0;
        while i < self.ratings.len()
            invariant
                i <= self.ratings@.len(),
                self.ratings@.len() == report.models@.len(),
                forall|t: int|
                    0 <= t < i ==> are_of_model(
                        #[trigger] self.ratings@[t],
                        report.models@[t],
                    ),
            decreases self.ratings@.len() - i,
        {
            let texts: &RatingTexts = &self.ratings[i];
            let model: &ModelReport<'_, R> = &report.models[i];
            if texts.rating.is_some() != model.rating.is_some() || texts.rating_lower.is_some()
                != model.rating_lower.is_some() || texts.rating_upper.is_some()
                != model.rating_upper.is_some() {
                assert(!are_of_model(self.ratings@[i as int], report.models@[i as int]));
                return false;
            }
            i += 1;
        }
        self.agreement_rate.is_some() == report.summary.agreement_rate.is_some()
    }
}

/// Renders the report as a page. The figures that it has come as texts.
pub fn render<R>(report: &Report<'_, R>, texts: &ReportTexts) -> (r: String)
    requires
        are_of_report(*texts, *report),
    ensures
        r@ == page_html(*report, *texts),
{
    let mut r: String = PAGE_HEAD.to_owned();
    r.push_str(STYLE);
    r.push_str("</style>\n</head>\n<body>\n<main>\n");
    r.push_str(
        header(&report.summary, &report.config, &report.bootstrap, &texts.agreement_rate).as_str(),
    );
    r.push_str(
        models_section(report.models.as_slice(), texts.ratings.as_slice(), report.summary.judge_used).as_str(),
    );
    r.push_str(judged_sections(report).as_str());
    r.push_str(results_section(report.results.as_slice()).as_str());
    r.push_str(judged_audit(report).as_str());
    r.push_str(config_section(&report.config).as_str());
    r.push_str("</main>\n</body>\n</html>\n");
    r
}

/// A text is escaped part by part.
pub proof fn escaping_goes_part_by_part(a: Seq<char>, b: Seq<char>)
    ensures
        escaped(a + b) == escaped(a) + escaped(b),
    decreases b.len(),
{
    if b.len() == 0 {
        assert(a + b =~= a);
        assert(escaped(a) + escaped(b) =~= escaped(a));
    } else {
        escaping_goes_part_by_part(a, b.drop_last());
        assert((a + b).drop_last() =~= a + b.drop_last());
        assert(escaped(a + b) =~= escaped(a) + escaped(b));
    }
}

/// Escaping replaces five characters by their names. Every other character
/// stands for itself.
pub proof fn escaping_names_five_characters(text: Seq<char>, c: char)
    ensures
        c == '&' ==> escaped(text.push(c)) == escaped(text) + "&amp;"@,
        c == '<' ==> escaped(text.push(c)) == escaped(text) + "&lt;"@,
        c == '>' ==> escaped(text.push(c)) == escaped(text) + "&gt;"@,
        c == '"' ==> escaped(text.push(c)) == escaped(text) + "&quot;"@,
        c == '\'' ==> escaped(text.push(c)) == escaped(text) + "&#39;"@,
        c != '&' && c != '<' && c != '>' && c != '"' && c != '\'' ==> escaped(text.push(c))
            == escaped(text).push(c),
        escaped(Seq::empty()) == Seq::<char>::empty(),
{
    assert(text.push(c).drop_last() =~= text);
    assert(escaped(text) + seq![c] =~= escaped(text).push(c));
}

/// A page text with the names of characters undone.
pub open spec fn unescaped(text: Seq<char>) -> Seq<char>
    decreases text.len(),
{
    if text.len() == 0 {
        seq![]
    } else if text.len() >= 5 && text.take(5) == seq!['&', 'a', 'm', 'p', ';'] {
        seq!['&'] + unescaped(text.skip(5))
    } else if text.len() >= 4 && text.take(4) == seq!['&', 'l', 't', ';'] {
        seq!['<'] + unescaped(text.skip(4))
    } else if text.len() >= 4 && text.take(4) == seq!['&', 'g', 't', ';'] {
        seq!['>'] + unescaped(text.skip(4))
    } else if text.len() >= 6 && text.take(6) == seq!['&', 'q', 'u', 'o', 't', ';'] {
        seq!['"'] + unescaped(text.skip(6))
    } else if text.len() >= 5 && text.take(5) == seq!['&', '#', '3', '9', ';'] {
        seq!['\''] + unescaped(text.skip(5))
    } else {
        seq![text[0]] + unescaped(text.skip(1))
    }
}

/// Escaping loses nothing: a browser that reads the names of characters shows
/// the text that was stored.
#[verifier::spinoff_prover]
#[verifier::rlimit(30)]
pub proof fn escaping_can_be_undone(text: Seq<char>)
    ensures
        unescaped(escaped(text)) == text,
    decreases text.len(),
{
    if text.len() > 0 {
        let c = text[0];
        let rest = text.drop_first();
        escaping_can_be_undone(rest);
        assert(text =~= seq![c] + rest);
        escaping_goes_part_by_part(seq![c], rest);
        assert(seq![c].drop_last() =~= Seq::<char>::empty());
        reveal_with_fuel(escaped, 2);
        assert(escaped(seq![c]) =~= escaped_char(c));
        let all = escaped(text);
        let tail = escaped(rest);
        reveal_strlit("&amp;");
        reveal_strlit("&lt;");
        reveal_strlit("&gt;");
        reveal_strlit("&quot;");
        reveal_strlit("&#39;");
        assert(all == escaped_char(c) + tail);
        if c == '&' {
            assert(all.take(5) =~= seq!['&', 'a', 'm', 'p', ';']);
            assert(all.skip(5) =~= tail);
        } else if c == '<' {
            assert(all.len() >= 5 ==> all.take(5)[1] == 'l');
            assert(all.take(4) =~= seq!['&', 'l', 't', ';']);
            assert(all.skip(4) =~= tail);
        } else if c == '>' {
            assert(all.len() >= 5 ==> all.take(5)[1] == 'g');
            assert(all.take(4)[1] == 'g');
            assert(all.take(4) =~= seq!['&', 'g', 't', ';']);
            assert(all.skip(4) =~= tail);
        } else if c == '"' {
            assert(all.take(5)[1] == 'q');
            assert(all.take(4)[1] == 'q');
            assert(all.take(6) =~= seq!['&', 'q', 'u', 'o', 't', ';']);
            assert(all.skip(6) =~= tail);
        } else if c == '\'' {
            assert(all.take(5)[1] == '#');
            assert(all.take(4)[1] == '#');
            assert(all.len() >= 6 ==> all.take(6)[1] == '#');
            assert(all.take(5) =~= seq!['&', '#', '3', '9', ';']);
            assert(all.skip(5) =~= tail);
        } else {
            assert(all[0] == c);
            assert(all.len() >= 4 ==> all.take(4)[0] == c);
            assert(all.len() >= 5 ==> all.take(5)[0] == c);
            assert(all.len() >= 6 ==> all.take(6)[0] == c);
            assert(all.skip(1) =~= tail);
        }
    }
}

/// The items, each between the same two texts.
pub open spec fn enclosed(open: Seq<char>, items: Seq<Seq<char>>, close: Seq<char>) -> Seq<char>
    decreases items.len(),
{
    if items.len() == 0 {
        seq![]
    } else {
        enclosed(open, items.drop_last(), close) + open + items.last() + close
    }
}

proof fn number_is_inert(n: nat, c: char)
    requires
        c == '<' || c == '>',
    ensures
        !decimal(n).contains(c),
{
    decimals_read_back(n);
}

proof fn rating_is_inert(value: Option<String>)
    ensures
        !cell_text(value).contains('<'),
{
    match value {
        Some(value) => stored_text_is_inert(value@, '<'),
        None => reveal_strlit("unavailable"),
    }
}

proof fn reason_is_inert(reason: Option<UnavailableReason>)
    ensures
        !reason_or_nothing(reason).contains('<'),
{
    reveal_strlit("");
    reveal_strlit("no_comparisons");
    reveal_strlit("disconnected");
    reveal_strlit("separated");
    reveal_strlit("nonconvergence");
    reveal_strlit("nonfinite_result");
}

proof fn nine_enclosed(
    open: Seq<char>,
    a: Seq<char>,
    b: Seq<char>,
    c: Seq<char>,
    d: Seq<char>,
    e: Seq<char>,
    f: Seq<char>,
    g: Seq<char>,
    h: Seq<char>,
    close: Seq<char>,
)
    ensures
        enclosed(open, seq![a, b, c, d, e, f, g, h], close) == open + a + close + open + b + close
            + open + c + close + open + d + close + open + e + close + open + f + close + open + g
            + close + open + h + close,
{
    let s8 = seq![a, b, c, d, e, f, g, h];
    let s7 = seq![a, b, c, d, e, f, g];
    let s6 = seq![a, b, c, d, e, f];
    let s5 = seq![a, b, c, d, e];
    let s4 = seq![a, b, c, d];
    let s3 = seq![a, b, c];
    let s2 = seq![a, b];
    let s1 = seq![a];
    let s0 = Seq::<Seq<char>>::empty();
    assert(s8.drop_last() =~= s7);
    assert(s7.drop_last() =~= s6);
    assert(s6.drop_last() =~= s5);
    assert(s5.drop_last() =~= s4);
    assert(s4.drop_last() =~= s3);
    assert(s3.drop_last() =~= s2);
    assert(s2.drop_last() =~= s1);
    assert(s1.drop_last() =~= s0);
    assert(enclosed(open, s0, close) =~= Seq::<char>::empty());
    assert(Seq::<char>::empty() + open =~= open);
    assert(enclosed(open, s1, close) == open + a + close);
    assert(enclosed(open, s2, close) == enclosed(open, s1, close) + open + b + close);
    assert(enclosed(open, s3, close) == enclosed(open, s2, close) + open + c + close);
    assert(enclosed(open, s4, close) == enclosed(open, s3, close) + open + d + close);
    assert(enclosed(open, s5, close) == enclosed(open, s4, close) + open + e + close);
    assert(enclosed(open, s6, close) == enclosed(open, s5, close) + open + f + close);
    assert(enclosed(open, s7, close) == enclosed(open, s6, close) + open + g + close);
    assert(enclosed(open, s8, close) == enclosed(open, s7, close) + open + h + close);
}

/// In the table of models every figure stands under the heading that names it.
/// The head of the table is a row of headings and a model's row is a row of as
/// many cells, the first of which is the model's name; no cell holds a tag, so
/// that the cells can be told apart.
#[verifier::spinoff_prover]
#[verifier::rlimit(60)]
pub proof fn figures_stand_under_their_headings<R>(
    model: ModelReport<'_, R>,
    texts: RatingTexts,
) -> (r: (Seq<Seq<char>>, Seq<Seq<char>>))
    ensures
        MODEL_TABLE_HEAD@ == "<div class=\"scroll\"><table>\n<thead><tr><th>Model</th>"@ + enclosed(
            "<th>"@,
            r.0.drop_first(),
            "</th>"@,
        ) + "</tr></thead>\n<tbody>\n"@,
        model_row_html(model, texts) == "<tr><td class=\"model-id\">"@ + r.1[0] + "</td>"@
            + enclosed("<td>"@, r.1.drop_first(), "</td>"@) + "</tr>\n"@,
        r.0.len() == r.1.len(),
        forall|k: int| 0 <= k < r.1.len() ==> !(#[trigger] r.1[k]).contains('<'),
        r.0.len() == 9,
        r.0[0] == "Model"@ && r.1[0] == escaped(model.model@),
        r.0.contains("W"@) && r.1[r.0.index_of("W"@)] == decimal(model.wins as nat),
        r.0.contains("L"@) && r.1[r.0.index_of("L"@)] == decimal(model.losses as nat),
        r.0.contains("D"@) && r.1[r.0.index_of("D"@)] == decimal(model.draws as nat),
        r.0.contains("Total"@) && r.1[r.0.index_of("Total"@)] == decimal(model.total as nat),
        r.0.contains("Rating"@) && (match texts.rating {
            Some(text) => r.1[r.0.index_of("Rating"@)] == escaped(text@),
            None => r.1[r.0.index_of("Rating"@)] == "unavailable"@,
        }),
        r.0.contains("Lower bound"@) && (match texts.rating_lower {
            Some(text) => r.1[r.0.index_of("Lower bound"@)] == escaped(text@),
            None => r.1[r.0.index_of("Lower bound"@)] == "unavailable"@,
        }),
        r.0.contains("Upper bound"@) && (match texts.rating_upper {
            Some(text) => r.1[r.0.index_of("Upper bound"@)] == escaped(text@),
            None => r.1[r.0.index_of("Upper bound"@)] == "unavailable"@,
        }),
        r.0.contains("Unavailable reason"@) && r.1[r.0.index_of("Unavailable reason"@)] == (
        match model.unavailable {
            None => ""@,
            Some(UnavailableReason::NoComparisons) => "no_comparisons"@,
            Some(UnavailableReason::Disconnected) => "disconnected"@,
            Some(UnavailableReason::Separated) => "separated"@,
            Some(UnavailableReason::Nonconvergence) => "nonconvergence"@,
            Some(UnavailableReason::NonfiniteResult) => "nonfinite_result"@,
        }),
{
    let headings = seq![
        "Model"@,
        "W"@,
        "L"@,
        "D"@,
        "Total"@,
        "Rating"@,
        "Lower bound"@,
        "Upper bound"@,
        "Unavailable reason"@,
    ];
    let cells = seq![
        escaped(model.model@),
        decimal(model.wins as nat),
        decimal(model.losses as nat),
        decimal(model.draws as nat),
        decimal(model.total as nat),
        cell_text(texts.rating),
        cell_text(texts.rating_lower),
        cell_text(texts.rating_upper),
        reason_or_nothing(model.unavailable),
    ];
    headings_are_different();
    table_head_lists_headings(headings);
    row_lists_cells(model, texts, cells);
    stored_text_is_inert(model.model@, '<');
    number_is_inert(model.wins as nat, '<');
    number_is_inert(model.losses as nat, '<');
    number_is_inert(model.draws as nat, '<');
    number_is_inert(model.total as nat, '<');
    rating_is_inert(texts.rating);
    rating_is_inert(texts.rating_lower);
    rating_is_inert(texts.rating_upper);
    reason_is_inert(model.unavailable);
    only_place(headings, 1);
    only_place(headings, 2);
    only_place(headings, 3);
    only_place(headings, 4);
    only_place(headings, 5);
    only_place(headings, 6);
    only_place(headings, 7);
    only_place(headings, 8);
    (headings, cells)
}

proof fn headings_are_different()
    ensures
        "Model"@.len() == 5,
        "Model"@[0] == 'M',
        "W"@.len() == 1,
        "W"@[0] == 'W',
        "L"@.len() == 1,
        "L"@[0] == 'L',
        "D"@.len() == 1,
        "D"@[0] == 'D',
        "Total"@.len() == 5,
        "Total"@[0] == 'T',
        "Rating"@.len() == 6,
        "Lower bound"@.len() == 11,
        "Lower bound"@[0] == 'L',
        "Upper bound"@.len() == 11,
        "Upper bound"@[0] == 'U',
        "Unavailable reason"@.len() == 18,
{
    reveal_strlit("Model");
    reveal_strlit("W");
    reveal_strlit("L");
    reveal_strlit("D");
    reveal_strlit("Total");
    reveal_strlit("Rating");
    reveal_strlit("Lower bound");
    reveal_strlit("Upper bound");
    reveal_strlit("Unavailable reason");
}

proof fn only_place(headings: Seq<Seq<char>>, at: int)
    requires
        0 <= at < headings.len(),
        forall|k: int| 0 <= k < headings.len() && k != at ==> {
            ||| (#[trigger] headings[k]).len() != headings[at].len()
            ||| headings[k].len() > 0 && headings[k][0] != headings[at][0]
        },
    ensures
        headings.contains(headings[at]),
        headings.index_of(headings[at]) == at,
{
    let k = headings.index_of(headings[at]);
    assert(headings[at] == headings[at]);
    assert(0 <= k < headings.len() && headings[k] == headings[at]);
}

#[verifier::spinoff_prover]
#[verifier::rlimit(60)]
proof fn table_head_lists_headings(headings: Seq<Seq<char>>)
    requires
        headings == seq![
            "Model"@,
            "W"@,
            "L"@,
            "D"@,
            "Total"@,
            "Rating"@,
            "Lower bound"@,
            "Upper bound"@,
            "Unavailable reason"@,
        ],
    ensures
        MODEL_TABLE_HEAD@ == "<div class=\"scroll\"><table>\n<thead><tr><th>Model</th>"@ + enclosed(
            "<th>"@,
            headings.drop_first(),
            "</th>"@,
        ) + "</tr></thead>\n<tbody>\n"@,
{
    let inner = seq![
        "W"@,
        "L"@,
        "D"@,
        "Total"@,
        "Rating"@,
        "Lower bound"@,
        "Upper bound"@,
        "Unavailable reason"@,
    ];
    assert(headings.drop_first() =~= inner);
    nine_enclosed(
        "<th>"@,
        "W"@,
        "L"@,
        "D"@,
        "Total"@,
        "Rating"@,
        "Lower bound"@,
        "Upper bound"@,
        "Unavailable reason"@,
        "</th>"@,
    );
    reveal_strlit("W");
    reveal_strlit("L");
    reveal_strlit("D");
    reveal_strlit("Total");
    reveal_strlit("Rating");
    reveal_strlit("Lower bound");
    reveal_strlit("Upper bound");
    reveal_strlit("Unavailable reason");
    reveal_strlit("<th>");
    reveal_strlit("</th>");
    reveal_strlit("<div class=\"scroll\"><table>\n<thead><tr><th>Model</th>");
    reveal_strlit("</tr></thead>\n<tbody>\n");
    reveal_strlit(
        "<div class=\"scroll\"><table>\n<thead><tr><th>Model</th><th>W</th><th>L</th><th>D</th><th>Total</th><th>Rating</th><th>Lower bound</th><th>Upper bound</th><th>Unavailable reason</th></tr></thead>\n<tbody>\n",
    );
    assert(MODEL_TABLE_HEAD@ =~= "<div class=\"scroll\"><table>\n<thead><tr><th>Model</th>"@
        + enclosed("<th>"@, headings.drop_first(), "</th>"@) + "</tr></thead>\n<tbody>\n"@);
}

proof fn next_cell(
    row: Seq<char>,
    start: Seq<char>,
    cells: Seq<char>,
    open: Seq<char>,
    cell: Seq<char>,
    close: Seq<char>,
)
    requires
        row + close == start + cells,
    ensures
        row + (close + open) + cell + close == start + (cells + open + cell + close),
{
    assert(row + (close + open) + cell + close =~= (row + close) + open + cell + close);
    assert((start + cells) + open + cell + close =~= start + (cells + open + cell + close));
}

#[verifier::spinoff_prover]
#[verifier::rlimit(40)]
proof fn row_lists_cells<R>(
    model: ModelReport<'_, R>,
    texts: RatingTexts,
    cells: Seq<Seq<char>>,
)
    requires
        cells == seq![
            escaped(model.model@),
            decimal(model.wins as nat),
            decimal(model.losses as nat),
            decimal(model.draws as nat),
            decimal(model.total as nat),
            cell_text(texts.rating),
            cell_text(texts.rating_lower),
            cell_text(texts.rating_upper),
            reason_or_nothing(model.unavailable),
        ],
    ensures
        model_row_html(model, texts) == "<tr><td class=\"model-id\">"@ + cells[0] + "</td>"@
            + enclosed("<td>"@, cells.drop_first(), "</td>"@) + "</tr>\n"@,
{
    let inner = seq![
        cells[1],
        cells[2],
        cells[3],
        cells[4],
        cells[5],
        cells[6],
        cells[7],
        cells[8],
    ];
    assert(cells.drop_first() =~= inner);
    let open = "<td>"@;
    let close = "</td>"@;
    nine_enclosed(
        open,
        cells[1],
        cells[2],
        cells[3],
        cells[4],
        cells[5],
        cells[6],
        cells[7],
        cells[8],
        close,
    );
    reveal_strlit("</td><td>");
    reveal_strlit("<td>");
    reveal_strlit("</td>");
    reveal_strlit("</td></tr>\n");
    reveal_strlit("</tr>\n");
    assert("</td><td>"@ =~= close + open);
    assert("</td></tr>\n"@ =~= close + "</tr>\n"@);
    let gap = close + open;
    let row = "<tr><td class=\"model-id\">"@ + cells[0];
    let start = row + close;
    let r1 = row + gap + cells[1];
    let r2 = r1 + gap + cells[2];
    let r3 = r2 + gap + cells[3];
    let r4 = r3 + gap + cells[4];
    let r5 = r4 + gap + cells[5];
    let r6 = r5 + gap + cells[6];
    let r7 = r6 + gap + cells[7];
    let r8 = r7 + gap + cells[8];
    let e1 = open + cells[1] + close;
    let e2 = e1 + open + cells[2] + close;
    let e3 = e2 + open + cells[3] + close;
    let e4 = e3 + open + cells[4] + close;
    let e5 = e4 + open + cells[5] + close;
    let e6 = e5 + open + cells[6] + close;
    let e7 = e6 + open + cells[7] + close;
    let e8 = e7 + open + cells[8] + close;
    let e0 = Seq::<char>::empty();
    assert(row + close =~= start + e0);
    next_cell(row, start, e0, open, cells[1], close);
    assert(e0 + open =~= open);
    next_cell(r1, start, e1, open, cells[2], close);
    next_cell(r2, start, e2, open, cells[3], close);
    next_cell(r3, start, e3, open, cells[4], close);
    next_cell(r4, start, e4, open, cells[5], close);
    next_cell(r5, start, e5, open, cells[6], close);
    next_cell(r6, start, e6, open, cells[7], close);
    next_cell(r7, start, e7, open, cells[8], close);
    assert(model_row_html(model, texts) == r8 + (close + "</tr>\n"@));
    assert(r8 + (close + "</tr>\n"@) =~= (r8 + close) + "</tr>\n"@);
    assert(enclosed(open, cells.drop_first(), close) == e8);
}

/// The page says under this label what the value is.
pub open spec fn states(html: Seq<char>, label: Seq<char>, value: Seq<char>) -> bool {
    holds_part(html, "<dt>"@ + escaped(label) + "</dt><dd>"@ + value + "</dd>\n"@)
}

/// The page shows the value as a figure with this label.
pub open spec fn displays(html: Seq<char>, label: Seq<char>, value: Seq<char>) -> bool {
    holds_part(
        html,
        "<div class=\"metric\"><span class=\"label\">"@ + escaped(label)
            + "</span><span class=\"value\">"@ + value + "</span></div>\n"@,
    )
}

/// So many rows, one after the other.
pub open spec fn in_rows(row: spec_fn(int) -> Seq<char>, count: int) -> Seq<char>
    decreases count,
{
    if count <= 0 {
        seq![]
    } else {
        in_rows(row, count - 1) + row(count - 1)
    }
}

/// The text holds every one of so many rows, each directly after the one before
/// it.
pub open spec fn holds_rows(html: Seq<char>, row: spec_fn(int) -> Seq<char>, count: int) -> bool {
    &&& forall|k: int| 0 <= k < count ==> holds_part(html, #[trigger] row(k))
    &&& forall|k: int| 0 <= k < count - 1 ==> holds_part(html, #[trigger] row(k) + row(k + 1))
}

proof fn rows_hold(row: spec_fn(int) -> Seq<char>, count: int)
    ensures
        holds_rows(in_rows(row, count), row, count),
    decreases count,
{
    broadcast use {holds_its_end, holds_more};

    if count > 0 {
        rows_hold(row, count - 1);
        let all = in_rows(row, count);
        let head = in_rows(row, count - 1);
        assert forall|k: int| 0 <= k < count implies holds_part(all, #[trigger] row(k)) by {
            if k < count - 1 {
                assert(holds_part(head, row(k)));
            }
        }
        assert forall|k: int| 0 <= k < count - 1 implies holds_part(
            all,
            #[trigger] row(k) + row(k + 1),
        ) by {
            if k < count - 2 {
                assert(holds_part(head, row(k) + row(k + 1)));
            } else {
                let before = in_rows(row, k);
                assert(head == before + row(k));
                assert(all =~= before + (row(k) + row(k + 1)));
            }
        }
    }
}

proof fn rows_hold_in(html: Seq<char>, part: Seq<char>, row: spec_fn(int) -> Seq<char>, count: int)
    requires
        holds_part(html, part),
        holds_rows(part, row, count),
    ensures
        holds_rows(html, row, count),
{
    assert forall|k: int| 0 <= k < count implies holds_part(html, #[trigger] row(k)) by {
        holds_inner(html, part, row(k));
    }
    assert forall|k: int| 0 <= k < count - 1 implies holds_part(
        html,
        #[trigger] row(k) + row(k + 1),
    ) by {
        holds_inner(html, part, row(k) + row(k + 1));
    }
}

proof fn model_rows_in_rows<R>(
    rows: Seq<ModelReport<'_, R>>,
    texts: Seq<RatingTexts>,
    count: int,
)
    ensures
        model_rows_html(rows, texts, count) == in_rows(
            |k: int| model_row_html(rows[k], texts[k]),
            count,
        ),
    decreases count,
{
    if count > 0 {
        model_rows_in_rows(rows, texts, count - 1);
    }
}

proof fn result_rows_in_rows(rows: Seq<CandidateRow<'_>>, count: int)
    ensures
        result_rows_html(rows, count) == in_rows(|k: int| result_html(rows[k]), count),
    decreases count,
{
    if count > 0 {
        result_rows_in_rows(rows, count - 1);
    }
}

proof fn pair_rows_in_rows(rows: Seq<PairRow<'_>>, count: int)
    ensures
        pair_rows_html(rows, count) == in_rows(|k: int| pair_html(rows[k]), count),
    decreases count,
{
    if count > 0 {
        pair_rows_in_rows(rows, count - 1);
    }
}

proof fn audit_rows_in_rows(rows: Seq<PairRow<'_>>, count: int)
    ensures
        audit_rows_html(rows, count) == in_rows(|k: int| audit_row_html(rows[k]), count),
    decreases count,
{
    if count > 0 {
        audit_rows_in_rows(rows, count - 1);
    }
}

proof fn failure_rows_in_rows(rows: Seq<FailedPairRow<'_>>, count: int)
    ensures
        failure_rows_html(rows, count) == in_rows(|k: int| failure_html(rows[k]), count),
    decreases count,
{
    if count > 0 {
        failure_rows_in_rows(rows, count - 1);
    }
}

proof fn failure_lines_in_rows(rows: Seq<OrientationFailure>, count: int)
    ensures
        failure_lines_html(rows, count) == in_rows(|k: int| failure_line_html(rows[k]), count),
    decreases count,
{
    if count > 0 {
        failure_lines_in_rows(rows, count - 1);
    }
}

/// The page shows every model and every response of the report, and of a judge's
/// run every resolved pair, what was recorded of it, every failed pair and what
/// resampling came to, each list in the order of the report. At its top stand
/// the counts of the run and at its end the set-up.
#[verifier::spinoff_prover]
#[verifier::rlimit(60)]
pub proof fn pages_show_all_of_the_report<R>(report: Report<'_, R>, texts: ReportTexts)
    ensures
        ({
            let page = page_html(report, texts);
            &&& holds_part(
                page,
                header_html(report.summary, report.config, report.bootstrap, texts.agreement_rate),
            )
            &&& holds_part(page, MODEL_TABLE_HEAD@)
            &&& holds_rows(
                page,
                |k: int| model_row_html(report.models@[k], texts.ratings@[k]),
                report.models@.len() as int,
            )
            &&& holds_rows(
                page,
                |k: int| result_html(report.results@[k]),
                report.results@.len() as int,
            )
            &&& report.summary.judge_used ==> {
                &&& holds_rows(
                    page,
                    |k: int| pair_html(report.pairs@[k]),
                    report.pairs@.len() as int,
                )
                &&& holds_rows(
                    page,
                    |k: int| audit_row_html(report.pairs@[k]),
                    report.pairs@.len() as int,
                )
                &&& holds_rows(
                    page,
                    |k: int| failure_html(report.failed_pairs@[k]),
                    report.failed_pairs@.len() as int,
                )
                &&& report.bootstrap matches Some(bootstrap) ==> holds_part(
                    page,
                    some_bootstrap_html(bootstrap),
                )
            }
            &&& holds_part(page, config_html(report.config))
        }),
{
    broadcast use {holds_its_end, holds_more};

    let page = page_html(report, texts);
    let judged = report.summary.judge_used;
    let models = models_html(report.models@, texts.ratings@, judged);
    let count = report.models@.len() as int;
    let model_row = |k: int| model_row_html(report.models@[k], texts.ratings@[k]);
    model_rows_in_rows(report.models@, texts.ratings@, count);
    rows_hold(model_row, count);
    assert(holds_part(page, models));
    assert(holds_part(models, MODEL_TABLE_HEAD@));
    holds_inner(page, models, MODEL_TABLE_HEAD@);
    assert(holds_part(models, in_rows(model_row, count)));
    holds_inner(page, models, in_rows(model_row, count));
    rows_hold_in(page, in_rows(model_row, count), model_row, count);
    let results = results_html(report.results@);
    let many = report.results@.len() as int;
    let result_row = |k: int| result_html(report.results@[k]);
    assert(holds_part(page, results));
    if many > 0 {
        result_rows_in_rows(report.results@, many);
        rows_hold(result_row, many);
        assert(holds_part(results, in_rows(result_row, many)));
        holds_inner(page, results, in_rows(result_row, many));
        rows_hold_in(page, in_rows(result_row, many), result_row, many);
    }
    if judged {
        let sections = judged_html(report);
        assert(if_judged(judged, sections) == sections);
        assert(holds_part(page, sections));
        let pairs = report.pairs@.len() as int;
        let pair_row = |k: int| pair_html(report.pairs@[k]);
        let audit = |k: int| audit_row_html(report.pairs@[k]);
        if pairs > 0 {
            pair_rows_in_rows(report.pairs@, pairs);
            rows_hold(pair_row, pairs);
            let section = pairs_html(report.pairs@);
            assert(pairs_body_html(report.pairs@) == in_rows(pair_row, pairs));
            assert(holds_part(section, in_rows(pair_row, pairs)));
            assert(sections =~= Seq::<char>::empty() + section + failures_html(
                report.failed_pairs@,
            ) + bootstrap_html(report.bootstrap));
            assert(holds_part(sections, section));
            holds_inner(page, sections, section);
            holds_inner(page, section, in_rows(pair_row, pairs));
            rows_hold_in(page, in_rows(pair_row, pairs), pair_row, pairs);
            audit_rows_in_rows(report.pairs@, pairs);
            rows_hold(audit, pairs);
            let recorded = audit_html(report.pairs@);
            assert(if_judged(judged, recorded) == recorded);
            assert(holds_part(page, recorded));
            assert(holds_part(recorded, in_rows(audit, pairs)));
            holds_inner(page, recorded, in_rows(audit, pairs));
            rows_hold_in(page, in_rows(audit, pairs), audit, pairs);
        }
        let failures = report.failed_pairs@.len() as int;
        let failure_row = |k: int| failure_html(report.failed_pairs@[k]);
        if failures > 0 {
            failure_rows_in_rows(report.failed_pairs@, failures);
            rows_hold(failure_row, failures);
            let section = failures_html(report.failed_pairs@);
            assert(holds_part(section, in_rows(failure_row, failures)));
            assert(holds_part(sections, section));
            holds_inner(page, sections, section);
            holds_inner(page, section, in_rows(failure_row, failures));
            rows_hold_in(page, in_rows(failure_row, failures), failure_row, failures);
        }
        if let Some(bootstrap) = report.bootstrap {
            let section = some_bootstrap_html(bootstrap);
            assert(holds_part(sections, section));
            holds_inner(page, sections, section);
        }
    }
}

/// The page of a run without a judge does not depend on pairs, failed pairs or
/// resampling, and holds no figures of judging.
pub proof fn unjudged_pages_show_nothing_of_judging<R>(
    one: Report<'_, R>,
    two: Report<'_, R>,
    texts: ReportTexts,
)
    requires
        !one.summary.judge_used,
        one.summary.judge_used == two.summary.judge_used,
        one.summary.task_count == two.summary.task_count,
        one.summary.candidate_count == two.summary.candidate_count,
        one.summary.complete == two.summary.complete,
        one.config == two.config,
        one.models == two.models,
        one.results == two.results,
    ensures
        page_html(one, texts) == page_html(two, texts),
{
}

/// A response is shown under its task and its model, with its duration in
/// milliseconds and its score, which is there exactly if it has one.
#[verifier::spinoff_prover]
#[verifier::rlimit(60)]
pub proof fn responses_are_labelled(result: CandidateRow<'_>)
    ensures
        states(result_html(result), "Task"@, escaped(result.task_id@)),
        states(result_html(result), "Model"@, escaped(result.model@)),
        states(
            result_html(result),
            "Duration"@,
            decimal(result.duration_ms as nat) + " ms"@,
        ),
        result.score matches Some(score) ==> states(
            result_html(result),
            "Score"@,
            decimal(score as nat),
        ),
        holds_part(result_html(result), "<pre>"@ + escaped(result.response@) + "</pre>"@),
{
    broadcast use {holds_its_end, holds_more};

    let html = result_html(result);
    let head = "<details><summary>"@ + escaped(result.task_id@) + " — "@ + escaped(result.model@)
        + "</summary>\n<dl>\n"@ + item_html("Task"@, escaped(result.task_id@)) + item_html(
        "Model"@,
        escaped(result.model@),
    ) + item_html("Duration"@, amount(result.duration_ms, " ms"@)) + score_html(result.score);
    assert(html == head + "</dl>\n<pre>"@ + escaped(result.response@)
        + "</pre>\n</details>\n"@);
    assert(holds_part(html, item_html("Task"@, escaped(result.task_id@))));
    assert(holds_part(html, item_html("Model"@, escaped(result.model@))));
    assert(holds_part(html, item_html("Duration"@, amount(result.duration_ms, " ms"@))));
    assert(holds_part(html, score_html(result.score)));
    reveal_strlit("</dl>\n<pre>");
    reveal_strlit("<pre>");
    reveal_strlit("</pre>\n</details>\n");
    reveal_strlit("</pre>");
    reveal_strlit("</dl>\n");
    reveal_strlit("\n</details>\n");
    assert("</dl>\n<pre>"@ =~= "</dl>\n"@ + "<pre>"@);
    assert("</pre>\n</details>\n"@ =~= "</pre>"@ + "\n</details>\n"@);
    let part = "<pre>"@ + escaped(result.response@) + "</pre>"@;
    assert(html =~= (head + "</dl>\n"@) + part + "\n</details>\n"@);
}

/// The text ends with the other one.
pub open spec fn ends_in(text: Seq<char>, end: Seq<char>) -> bool {
    end.len() <= text.len() && text.skip(text.len() - end.len()) == end
}

/// The text starts with the other one.
pub open spec fn starts_in(text: Seq<char>, start: Seq<char>) -> bool {
    start.len() <= text.len() && text.take(start.len() as int) == start
}

proof fn framed(
    before: Seq<char>,
    left: Seq<char>,
    value: Seq<char>,
    right: Seq<char>,
    open: Seq<char>,
    close: Seq<char>,
)
    requires
        ends_in(left, open),
        starts_in(right, close),
    ensures
        holds_part(before + left + value + right, open + value + close),
{
    let l = left.take(left.len() - open.len());
    let r = right.skip(close.len() as int);
    assert(left =~= l + open);
    assert(right =~= close + r);
    assert(before + left + value + right =~= (before + l) + (open + value + close) + r);
}

#[verifier::spinoff_prover]
#[verifier::rlimit(60)]
proof fn pair_literals()
    ensures
        ends_in("<article class=\"pair\">\n<div class=\"pair-top\"><h3>"@, "<h3>"@),
        ends_in(OUTCOMES_HEAD@, "<span class=\"k\">AB</span><span class=\"v\">"@),
        ends_in(OUTCOME_BA@, "<span class=\"k\">BA</span><span class=\"v\">"@),
        ends_in(OUTCOME_FINAL@, "<span class=\"k\">Final</span><span class=\"v\">"@),
        ends_in(REASONS_HEAD@, "<strong>AB</strong><br>"@),
        ends_in("</p>\n<p><strong>BA</strong><br>"@, "<strong>BA</strong><br>"@),
        ends_in(" ms</span></div>\n<p class=\"models\">A: "@, "<p class=\"models\">A: "@),
        ends_in("\">"@, "\">"@),
        starts_in("</h3><span class=\"pill "@, "</h3>"@),
        starts_in("</span><span class=\"muted\">"@, "</span>"@),
        starts_in(OUTCOME_BA@, "</span>"@),
        starts_in(OUTCOME_FINAL@, "</span>"@),
        starts_in(REASONS_HEAD@, "</span>"@),
        starts_in("</p>\n<p><strong>BA</strong><br>"@, "</p>"@),
        starts_in("</p>\n</details>\n</article>\n"@, "</p>"@),
        starts_in(OUTCOMES_HEAD@, "</p>"@),
{
    reveal_strlit("<article class=\"pair\">\n<div class=\"pair-top\"><h3>");
    reveal_strlit("</h3><span class=\"pill ");
    reveal_strlit("<h3>");
    reveal_strlit("</h3>");
    reveal_strlit("\">");
    reveal_strlit("</span><span class=\"muted\">");
    reveal_strlit("</span>");
    reveal_strlit(" ms</span></div>\n<p class=\"models\">A: ");
    reveal_strlit("<p class=\"models\">A: ");
    reveal_strlit("</p>");
    reveal_strlit("<span class=\"k\">AB</span><span class=\"v\">");
    reveal_strlit("<span class=\"k\">BA</span><span class=\"v\">");
    reveal_strlit("<span class=\"k\">Final</span><span class=\"v\">");
    reveal_strlit("<strong>AB</strong><br>");
    reveal_strlit("<strong>BA</strong><br>");
    reveal_strlit("</p>\n<p><strong>BA</strong><br>");
    reveal_strlit("</p>\n</details>\n</article>\n");
    reveal_strlit("</p>\n<div class=\"outcomes\"><div class=\"outcome\"><span class=\"k\">AB</span><span class=\"v\">");
    reveal_strlit("</span></div><div class=\"outcome\"><span class=\"k\">BA</span><span class=\"v\">");
    reveal_strlit("</span></div><div class=\"outcome\"><span class=\"k\">Final</span><span class=\"v\">");
    reveal_strlit("</span></div></div>\n<details><summary>Reasons</summary>\n<p><strong>AB</strong><br>");
    assert("<article class=\"pair\">\n<div class=\"pair-top\"><h3>"@.skip("<article class=\"pair\">\n<div class=\"pair-top\"><h3>"@.len() - "<h3>"@.len()) =~= "<h3>"@);
    assert(OUTCOMES_HEAD@.skip(OUTCOMES_HEAD@.len() - "<span class=\"k\">AB</span><span class=\"v\">"@.len()) =~= "<span class=\"k\">AB</span><span class=\"v\">"@);
    assert(OUTCOME_BA@.skip(OUTCOME_BA@.len() - "<span class=\"k\">BA</span><span class=\"v\">"@.len()) =~= "<span class=\"k\">BA</span><span class=\"v\">"@);
    assert(OUTCOME_FINAL@.skip(OUTCOME_FINAL@.len() - "<span class=\"k\">Final</span><span class=\"v\">"@.len()) =~= "<span class=\"k\">Final</span><span class=\"v\">"@);
    assert(REASONS_HEAD@.skip(REASONS_HEAD@.len() - "<strong>AB</strong><br>"@.len()) =~= "<strong>AB</strong><br>"@);
    assert("</p>\n<p><strong>BA</strong><br>"@.skip("</p>\n<p><strong>BA</strong><br>"@.len() - "<strong>BA</strong><br>"@.len()) =~= "<strong>BA</strong><br>"@);
    assert(" ms</span></div>\n<p class=\"models\">A: "@.skip(" ms</span></div>\n<p class=\"models\">A: "@.len() - "<p class=\"models\">A: "@.len()) =~= "<p class=\"models\">A: "@);
    assert("\">"@.skip("\">"@.len() - "\">"@.len()) =~= "\">"@);
    assert("</h3><span class=\"pill "@.take("</h3>"@.len() as int) =~= "</h3>"@);
    assert("</span><span class=\"muted\">"@.take("</span>"@.len() as int) =~= "</span>"@);
    assert(OUTCOME_BA@.take("</span>"@.len() as int) =~= "</span>"@);
    assert(OUTCOME_FINAL@.take("</span>"@.len() as int) =~= "</span>"@);
    assert(REASONS_HEAD@.take("</span>"@.len() as int) =~= "</span>"@);
    assert("</p>\n<p><strong>BA</strong><br>"@.take("</p>"@.len() as int) =~= "</p>"@);
    assert("</p>\n</details>\n</article>\n"@.take("</p>"@.len() as int) =~= "</p>"@);
    assert(OUTCOMES_HEAD@.take("</p>"@.len() as int) =~= "</p>"@);
}

/// A resolved pair is shown with its models as A and B, who won when A was shown
/// first, who won when B was, and who won in the end.
#[verifier::spinoff_prover]
#[verifier::rlimit(60)]
pub proof fn outcomes_are_labelled(pair: PairRow<'_>)
    ensures
        ({
            let html = pair_html(pair);
            let word = |value: Option<JudgeDecision>|
                match value {
                    Some(JudgeDecision::A) => "A"@,
                    Some(JudgeDecision::B) => "B"@,
                    Some(JudgeDecision::Draw) => "Draw"@,
                    None => ""@,
                };
            &&& holds_part(
                html,
                "<p class=\"models\">A: "@ + escaped(pair.model_a@) + " · B: "@ + escaped(
                    pair.model_b@,
                ) + "</p>"@,
            )
            &&& holds_part(
                html,
                "<span class=\"k\">AB</span><span class=\"v\">"@ + word(pair.orientation_ab)
                    + "</span>"@,
            )
            &&& holds_part(
                html,
                "<span class=\"k\">BA</span><span class=\"v\">"@ + word(pair.orientation_ba)
                    + "</span>"@,
            )
            &&& holds_part(
                html,
                "<span class=\"k\">Final</span><span class=\"v\">"@ + word(Some(pair.winner))
                    + "</span>"@,
            )
            &&& pair.agreement ==> holds_part(html, "\">"@ + "orientation agreement"@ + "</span>"@)
            &&& !pair.agreement ==> holds_part(
                html,
                "\">"@ + "orientation disagreement"@ + "</span>"@,
            )
            &&& holds_part(html, "<h3>"@ + escaped(pair.task_id@) + "</h3>"@)
            &&& holds_part(
                html,
                "<strong>AB</strong><br>"@ + escaped_or_nothing(pair.reason_ab) + "</p>"@,
            )
            &&& holds_part(
                html,
                "<strong>BA</strong><br>"@ + escaped_or_nothing(pair.reason_ba) + "</p>"@,
            )
        }),
{
    broadcast use {holds_its_end, holds_more};

    let html = pair_html(pair);
    let p0 = "<article class=\"pair\">\n<div class=\"pair-top\"><h3>"@;
    let p1 = p0 + escaped(pair.task_id@);
    let p2 = p1 + "</h3><span class=\"pill "@;
    let p3 = p2 + agreement_class_name(pair.agreement);
    let p4 = p3 + "\">"@;
    let p5 = p4 + agreement_name(pair.agreement);
    let p6 = p5 + "</span><span class=\"muted\">"@;
    let p7 = p6 + decimal(pair.duration_ms as nat);
    let p8 = p7 + " ms</span></div>\n<p class=\"models\">A: "@;
    let p9 = p8 + escaped(pair.model_a@);
    let p10 = p9 + " · B: "@;
    let p11 = p10 + escaped(pair.model_b@);
    let p12 = p11 + OUTCOMES_HEAD@;
    let p13 = p12 + decision_or_nothing(pair.orientation_ab);
    let p14 = p13 + OUTCOME_BA@;
    let p15 = p14 + decision_or_nothing(pair.orientation_ba);
    let p16 = p15 + OUTCOME_FINAL@;
    let p17 = p16 + decision_name(pair.winner);
    let p18 = p17 + REASONS_HEAD@;
    let p19 = p18 + escaped_or_nothing(pair.reason_ab);
    let p20 = p19 + "</p>\n<p><strong>BA</strong><br>"@;
    let p21 = p20 + escaped_or_nothing(pair.reason_ba);
    let p22 = p21 + "</p>\n</details>\n</article>\n"@;
    assert(html == p22);
    pair_literals();
    let nothing = Seq::<char>::empty();
    assert(nothing + p0 =~= p0);
    framed(
        nothing,
        "<article class=\"pair\">\n<div class=\"pair-top\"><h3>"@,
        escaped(pair.task_id@),
        "</h3><span class=\"pill "@,
        "<h3>"@,
        "</h3>"@,
    );
    framed(
        p3,
        "\">"@,
        agreement_name(pair.agreement),
        "</span><span class=\"muted\">"@,
        "\">"@,
        "</span>"@,
    );
    let models = escaped(pair.model_a@) + " · B: "@ + escaped(pair.model_b@);
    assert(p11 =~= p8 + models);
    framed(
        p7,
        " ms</span></div>\n<p class=\"models\">A: "@,
        models,
        OUTCOMES_HEAD@,
        "<p class=\"models\">A: "@,
        "</p>"@,
    );
    assert("<p class=\"models\">A: "@ + models + "</p>"@ =~= "<p class=\"models\">A: "@ + escaped(pair.model_a@) + " · B: "@ + escaped(
        pair.model_b@,
    ) + "</p>"@);
    framed(
        p11,
        OUTCOMES_HEAD@,
        decision_or_nothing(pair.orientation_ab),
        OUTCOME_BA@,
        "<span class=\"k\">AB</span><span class=\"v\">"@,
        "</span>"@,
    );
    framed(
        p13,
        OUTCOME_BA@,
        decision_or_nothing(pair.orientation_ba),
        OUTCOME_FINAL@,
        "<span class=\"k\">BA</span><span class=\"v\">"@,
        "</span>"@,
    );
    framed(
        p15,
        OUTCOME_FINAL@,
        decision_name(pair.winner),
        REASONS_HEAD@,
        "<span class=\"k\">Final</span><span class=\"v\">"@,
        "</span>"@,
    );
    framed(
        p17,
        REASONS_HEAD@,
        escaped_or_nothing(pair.reason_ab),
        "</p>\n<p><strong>BA</strong><br>"@,
        "<strong>AB</strong><br>"@,
        "</p>"@,
    );
    framed(
        p19,
        "</p>\n<p><strong>BA</strong><br>"@,
        escaped_or_nothing(pair.reason_ba),
        "</p>\n</details>\n</article>\n"@,
        "<strong>BA</strong><br>"@,
        "</p>"@,
    );
}

/// What was recorded of a pair is told under its labels: the models by their
/// sides, each order's winner and reason, the final winner and whether the
/// orders agreed.
#[verifier::spinoff_prover]
#[verifier::rlimit(60)]
pub proof fn records_are_labelled(pair: PairRow<'_>)
    ensures
        ({
            let html = audit_row_html(pair);
            let word = |value: Option<JudgeDecision>|
                match value {
                    Some(JudgeDecision::A) => "A"@,
                    Some(JudgeDecision::B) => "B"@,
                    Some(JudgeDecision::Draw) => "Draw"@,
                    None => ""@,
                };
            let text = |value: Option<&str>|
                match value {
                    Some(value) => escaped(value@),
                    None => seq![],
                };
            &&& states(html, "Task ID"@, escaped(pair.task_id@))
            &&& states(html, "Model A"@, escaped(pair.model_a@))
            &&& states(html, "Model B"@, escaped(pair.model_b@))
            &&& states(html, "Final winner"@, word(Some(pair.winner)))
            &&& states(html, "AB winner"@, word(pair.orientation_ab))
            &&& states(html, "BA winner"@, word(pair.orientation_ba))
            &&& states(html, "Reason AB"@, text(pair.reason_ab))
            &&& states(html, "Reason BA"@, text(pair.reason_ba))
            &&& states(html, "Duration"@, decimal(pair.duration_ms as nat) + " ms"@)
            &&& pair.agreement ==> states(
                html,
                "Orientation agreement"@,
                "orientation agreement"@,
            )
            &&& !pair.agreement ==> states(
                html,
                "Orientation agreement"@,
                "orientation disagreement"@,
            )
            &&& holds_part(
                html,
                "<dt>Raw AB completion</dt><dd><pre>"@ + text(pair.raw_ab)
                    + "</pre></dd>\n<dt>Raw BA completion</dt><dd><pre>"@ + text(pair.raw_ba)
                    + "</pre></dd>\n</dl>\n</details>\n"@,
            )
        }),
{
    broadcast use {holds_its_end, holds_more};

    let html = audit_row_html(pair);
    assert(holds_part(html, item_html("Task ID"@, escaped(pair.task_id@))));
    assert(holds_part(html, item_html("Model A"@, escaped(pair.model_a@))));
    assert(holds_part(html, item_html("Model B"@, escaped(pair.model_b@))));
    assert(holds_part(html, item_html("Final winner"@, decision_name(pair.winner))));
    assert(holds_part(
        html,
        item_html("Orientation agreement"@, agreement_name(pair.agreement)),
    ));
    assert(holds_part(html, item_html("AB winner"@, decision_or_nothing(pair.orientation_ab))));
    assert(holds_part(html, item_html("BA winner"@, decision_or_nothing(pair.orientation_ba))));
    assert(holds_part(html, item_html("Reason AB"@, escaped_or_nothing(pair.reason_ab))));
    assert(holds_part(html, item_html("Reason BA"@, escaped_or_nothing(pair.reason_ba))));
    assert(holds_part(html, item_html("Duration"@, amount(pair.duration_ms, " ms"@))));
    let head = "<details>\n<summary>"@ + escaped(pair.task_id@) + " — "@ + escaped(pair.model_a@)
        + " vs "@ + escaped(pair.model_b@) + "</summary>\n<dl>\n"@ + item_html(
        "Task ID"@,
        escaped(pair.task_id@),
    ) + item_html("Model A"@, escaped(pair.model_a@)) + item_html(
        "Model B"@,
        escaped(pair.model_b@),
    ) + item_html("Final winner"@, decision_name(pair.winner)) + item_html(
        "Orientation agreement"@,
        agreement_name(pair.agreement),
    ) + item_html("AB winner"@, decision_or_nothing(pair.orientation_ab)) + item_html(
        "BA winner"@,
        decision_or_nothing(pair.orientation_ba),
    ) + item_html("Reason AB"@, escaped_or_nothing(pair.reason_ab)) + item_html(
        "Reason BA"@,
        escaped_or_nothing(pair.reason_ba),
    ) + item_html("Duration"@, amount(pair.duration_ms, " ms"@));
    let part = "<dt>Raw AB completion</dt><dd><pre>"@ + escaped_or_nothing(pair.raw_ab)
        + "</pre></dd>\n<dt>Raw BA completion</dt><dd><pre>"@ + escaped_or_nothing(pair.raw_ba)
        + "</pre></dd>\n</dl>\n</details>\n"@;
    assert(html == head + "<dt>Raw AB completion</dt><dd><pre>"@ + escaped_or_nothing(pair.raw_ab)
        + "</pre></dd>\n<dt>Raw BA completion</dt><dd><pre>"@ + escaped_or_nothing(pair.raw_ba)
        + "</pre></dd>\n</dl>\n</details>\n"@);
    assert(html =~= head + part);
}

/// A failed pair is shown with its task, its models by their sides, and a line
/// for every order that failed: which one, in what way, with what error and
/// after how many attempts.
#[verifier::spinoff_prover]
#[verifier::rlimit(60)]
pub proof fn failures_are_labelled(failure: FailedPairRow<'_>)
    ensures
        ({
            let html = failure_html(failure);
            let line = |k: int|
                {
                    let one = failure.orientations@[k];
                    let order = match one.orientation {
                        JudgeOrientation::Ab => "ab"@,
                        JudgeOrientation::Ba => "ba"@,
                    };
                    let kind = match one.kind {
                        JudgmentFailureKind::Provider => "provider"@,
                        JudgmentFailureKind::InvalidJson => "invalid_json"@,
                    };
                    "<li>"@ + escaped(
                        order + " "@ + kind + ": "@ + one.error@ + " (attempts: "@ + decimal(
                            one.attempts as nat,
                        ) + ")"@,
                    ) + "</li>\n"@
                };
            &&& states(html, "Task ID"@, escaped(failure.task_id@))
            &&& states(html, "Model A"@, escaped(failure.model_a@))
            &&& states(html, "Model B"@, escaped(failure.model_b@))
            &&& holds_rows(html, line, failure.orientations@.len() as int)
        }),
{
    broadcast use {holds_its_end, holds_more};

    let html = failure_html(failure);
    let count = failure.orientations@.len() as int;
    let line = |k: int|
        {
            let one = failure.orientations@[k];
            let order = match one.orientation {
                JudgeOrientation::Ab => "ab"@,
                JudgeOrientation::Ba => "ba"@,
            };
            let kind = match one.kind {
                JudgmentFailureKind::Provider => "provider"@,
                JudgmentFailureKind::InvalidJson => "invalid_json"@,
            };
            "<li>"@ + escaped(
                order + " "@ + kind + ": "@ + one.error@ + " (attempts: "@ + decimal(
                    one.attempts as nat,
                ) + ")"@,
            ) + "</li>\n"@
        };
    let row = |k: int| failure_line_html(failure.orientations@[k]);
    assert(holds_part(html, item_html("Task ID"@, escaped(failure.task_id@))));
    assert(holds_part(html, item_html("Model A"@, escaped(failure.model_a@))));
    assert(holds_part(html, item_html("Model B"@, escaped(failure.model_b@))));
    failure_lines_in_rows(failure.orientations@, count);
    rows_hold(row, count);
    assert(holds_part(html, in_rows(row, count)));
    rows_hold_in(html, in_rows(row, count), row, count);
    assert forall|k: int| #[trigger] line(k) == row(k) by {}
    assert(line =~= row);
}

/// The top of a page names the judge, or says that there was none; it counts the
/// tasks and the models, says whether a judged run is complete, and of a judge's
/// run how many of the expected pairs were resolved, how many failed, and in how
/// many of the resolved ones the orders agreed.
#[verifier::spinoff_prover]
#[verifier::rlimit(60)]
pub proof fn counts_are_labelled(
    summary: ReportSummary,
    config: RunConfig<'_>,
    bootstrap: Option<BootstrapReport>,
    rate: Option<String>,
)
    ensures
        ({
            let html = header_html(summary, config, bootstrap, rate);
            &&& config.judge matches Some(judge) ==> holds_part(
                html,
                "Judge: "@ + escaped(judge@),
            )
            &&& config.judge is None ==> holds_part(html, "No judge"@)
            &&& holds_part(
                html,
                "<p class=\"meta\">"@ + decimal(summary.task_count as nat) + (if summary.task_count
                    == 1 {
                    " task · "@
                } else {
                    " tasks · "@
                }) + decimal(summary.candidate_count as nat) + (if summary.candidate_count == 1 {
                    " model"@
                } else {
                    " models"@
                }) + (if summary.judge_used {
                    " · judge run"@
                } else {
                    " · no-judge run"@
                }) + "</p>\n"@,
            )
            &&& summary.complete == Some(true) ==> holds_part(
                html,
                "<p class=\"status\">COMPLETE</p>\n"@,
            )
            &&& summary.complete == Some(false) ==> holds_part(
                html,
                "<p class=\"status\">INCOMPLETE</p>\n"@,
            )
            &&& summary.judge_used ==> {
                &&& summary.resolved_pairs is Some && summary.expected_pairs is Some ==> displays(
                    html,
                    "Pairs"@,
                    decimal(summary.resolved_pairs->Some_0 as nat) + " / "@ + decimal(
                        summary.expected_pairs->Some_0 as nat,
                    ),
                )
                &&& summary.failed_pairs is Some ==> displays(
                    html,
                    "Failed pairs"@,
                    decimal(summary.failed_pairs->Some_0 as nat),
                )
                &&& summary.orientation_agreeing_pairs is Some && summary.resolved_pairs is Some
                    ==> displays(
                    html,
                    "Orientation agreement"@,
                    decimal(summary.orientation_agreeing_pairs->Some_0 as nat) + " / "@ + decimal(
                        summary.resolved_pairs->Some_0 as nat,
                    ),
                )
                &&& rate matches Some(text) ==> displays(
                    html,
                    "Agreement rate"@,
                    escaped(text@),
                )
                &&& bootstrap is Some && bootstrap->Some_0.valid is Some ==> displays(
                    html,
                    "Bootstrap"@,
                    decimal(bootstrap->Some_0.valid->Some_0 as nat) + " / "@ + decimal(
                        bootstrap->Some_0.replicates as nat,
                    ) + " valid"@,
                )
                &&& bootstrap is Some && bootstrap->Some_0.valid is None ==> displays(
                    html,
                    "Bootstrap"@,
                    decimal(bootstrap->Some_0.replicates as nat) + " requested"@,
                )
            }
        }),
{
    broadcast use {holds_its_end, holds_more};

    let html = header_html(summary, config, bootstrap, rate);
    let tasks = counted(summary.task_count, " task · "@, " tasks · "@);
    let models = counted(summary.candidate_count, " model"@, " models"@);
    let kind = run_kind(summary.judge_used);
    let h0 = "<header>\n<p class=\"eyebrow\">Arena Experiment</p>\n<h1>"@ + title_html(config.judge);
    let h1 = h0 + "</h1>\n<p class=\"meta\">"@;
    let h2 = h1 + decimal(summary.task_count as nat) + tasks + decimal(
        summary.candidate_count as nat,
    ) + models + kind + "</p>\n"@;
    let h3 = h2 + status_html(summary.complete);
    let figures = figures_html(summary, bootstrap, rate);
    let h4 = h3 + if_judged(summary.judge_used, figures);
    assert(html == h4 + "</header>\n"@);
    assert(holds_part(html, title_html(config.judge)));
    assert(holds_part(html, status_html(summary.complete)));
    reveal_strlit("</h1>\n<p class=\"meta\">");
    reveal_strlit("</h1>\n");
    reveal_strlit("<p class=\"meta\">");
    assert("</h1>\n<p class=\"meta\">"@ =~= "</h1>\n"@ + "<p class=\"meta\">"@);
    let part = "<p class=\"meta\">"@ + decimal(summary.task_count as nat) + tasks + decimal(
        summary.candidate_count as nat,
    ) + models + kind + "</p>\n"@;
    assert(h2 =~= (h0 + "</h1>\n"@) + part);
    assert(holds_part(h2, part));
    assert(holds_part(h3, part));
    assert(holds_part(h4, part));
    assert(holds_part(html, part));
    if summary.judge_used {
        assert(if_judged(summary.judge_used, figures) == figures);
        assert(holds_part(html, figures));
        let pairs = metric_html("Pairs"@, share_text(summary.resolved_pairs, summary.expected_pairs));
        let failed = failed_html(summary.failed_pairs);
        let agreement = metric_html(
            "Orientation agreement"@,
            share_text(summary.orientation_agreeing_pairs, summary.resolved_pairs),
        );
        let shown = metric_html("Agreement rate"@, or_nothing(rate));
        let sampled = replicates_html(bootstrap);
        assert(holds_part(figures, pairs));
        assert(holds_part(figures, failed));
        assert(holds_part(figures, agreement));
        assert(holds_part(figures, shown));
        assert(holds_part(figures, sampled));
        holds_inner(html, figures, pairs);
        holds_inner(html, figures, failed);
        holds_inner(html, figures, agreement);
        holds_inner(html, figures, shown);
        holds_inner(html, figures, sampled);
    }
}

/// What resampling was asked for and came to is shown under its labels.
#[verifier::spinoff_prover]
#[verifier::rlimit(60)]
pub proof fn resampling_is_labelled(bootstrap: BootstrapReport)
    ensures
        ({
            let html = some_bootstrap_html(bootstrap);
            &&& displays(html, "Requested replicates"@, decimal(bootstrap.replicates as nat))
            &&& bootstrap.valid matches Some(valid) ==> displays(
                html,
                "Valid replicates"@,
                decimal(valid as nat),
            )
            &&& bootstrap.valid is None ==> displays(html, "Valid replicates"@, seq![])
            &&& displays(html, "Task clusters"@, decimal(bootstrap.clusters as nat))
            &&& bootstrap.ran ==> displays(html, "Ran"@, "yes"@)
            &&& !bootstrap.ran ==> displays(html, "Ran"@, "no"@)
            &&& bootstrap.bounds_present ==> displays(html, "Rating intervals"@, "present"@)
            &&& !bootstrap.bounds_present ==> displays(
                html,
                "Rating intervals"@,
                "unavailable"@,
            )
            &&& states(html, "Seed"@, decimal(bootstrap.seed as nat))
            &&& states(
                html,
                "Unavailable reason"@,
                match bootstrap.unavailable {
                    None => ""@,
                    Some(BootstrapUnavailable::TooFewTasks) => "too_few_tasks"@,
                    Some(BootstrapUnavailable::OriginalUnrated) => "original_unrated"@,
                    Some(BootstrapUnavailable::InvalidReplicates) => "invalid_replicates"@,
                },
            )
        }),
{
    broadcast use {holds_its_end, holds_more};

    let html = some_bootstrap_html(bootstrap);
    assert(holds_part(
        html,
        metric_html("Requested replicates"@, decimal(bootstrap.replicates as nat)),
    ));
    assert(holds_part(html, metric_html("Valid replicates"@, valid_text(bootstrap.valid))));
    assert(holds_part(html, metric_html("Task clusters"@, decimal(bootstrap.clusters as nat))));
    assert(holds_part(html, metric_html("Ran"@, either(bootstrap.ran, "yes"@, "no"@))));
    assert(holds_part(
        html,
        metric_html(
            "Rating intervals"@,
            either(bootstrap.bounds_present, "present"@, "unavailable"@),
        ),
    ));
    assert(holds_part(html, item_html("Seed"@, decimal(bootstrap.seed as nat))));
    assert(holds_part(
        html,
        item_html("Unavailable reason"@, obstacle_or_nothing(bootstrap.unavailable)),
    ));
}

/// How the run was set up is told under its labels.
#[verifier::spinoff_prover]
#[verifier::rlimit(60)]
pub proof fn settings_are_labelled(config: RunConfig<'_>)
    ensures
        ({
            let html = config_html(config);
            &&& states(
                html,
                "Models"@,
                names_html(config.models@, config.models@.len() as int),
            )
            &&& config.judge matches Some(judge) ==> states(html, "Judge"@, escaped(judge@))
            &&& config.judge is None ==> states(html, "Judge"@, "not used"@)
            &&& config.tasks matches Some(path) ==> states(html, "Task path"@, escaped(path@))
            &&& states(html, "Base URL"@, escaped(config.base_url@))
            &&& states(html, "Started at"@, escaped(config.started_at@))
            &&& states(
                html,
                "Provider concurrency"@,
                decimal(config.provider_concurrency as nat),
            )
            &&& states(
                html,
                "Request timeout"@,
                decimal(config.request_timeout_secs as nat) + " s"@,
            )
            &&& states(
                html,
                "Connect timeout"@,
                decimal(config.connect_timeout_secs as nat) + " s"@,
            )
            &&& states(html, "Candidate attempts"@, decimal(config.candidate_attempts as nat))
            &&& states(html, "Judge attempts"@, decimal(config.judge_attempts as nat))
            &&& states(
                html,
                "Candidate max tokens"@,
                decimal(config.candidate_max_tokens as nat),
            )
            &&& config.judge_decoding matches Some(decoding) ==> states(
                html,
                "Judge decoding"@,
                "temperature "@ + thousandths(decoding.temperature as nat) + ", max_tokens "@
                    + decimal(decoding.max_tokens as nat),
            )
        }),
{
    broadcast use {holds_its_end, holds_more};

    let html = config_html(config);
    assert(holds_part(
        html,
        item_html("Models"@, names_html(config.models@, config.models@.len() as int)),
    ));
    assert(holds_part(html, item_html("Judge"@, judge_html(config.judge))));
    assert(holds_part(html, item_html("Task path"@, escaped_or_nothing(config.tasks))));
    assert(holds_part(html, item_html("Base URL"@, escaped(config.base_url@))));
    assert(holds_part(html, item_html("Started at"@, escaped(config.started_at@))));
    assert(holds_part(
        html,
        item_html("Provider concurrency"@, decimal(config.provider_concurrency as nat)),
    ));
    assert(holds_part(
        html,
        item_html("Request timeout"@, amount(config.request_timeout_secs, " s"@)),
    ));
    assert(holds_part(
        html,
        item_html("Connect timeout"@, amount(config.connect_timeout_secs, " s"@)),
    ));
    assert(holds_part(
        html,
        item_html("Candidate attempts"@, decimal(config.candidate_attempts as nat)),
    ));
    assert(holds_part(html, item_html("Judge attempts"@, decimal(config.judge_attempts as nat))));
    assert(holds_part(
        html,
        item_html("Candidate max tokens"@, decimal(config.candidate_max_tokens as nat)),
    ));
    assert(holds_part(html, decoding_html(config.judge_decoding)));
}

/// The models of a run are listed by their names, in their order and with
/// commas between them.
pub proof fn names_are_listed(models: Seq<ModelId>, count: int)
    requires
        1 <= count <= models.len(),
    ensures
        names_html(models, 1) == escaped(models[0]@),
        count > 1 ==> names_html(models, count) == names_html(models, count - 1) + ", "@ + escaped(
            models[count - 1]@,
        ),
        forall|k: int|
            0 <= k < count ==> holds_part(
                names_html(models, count),
                escaped((#[trigger] models[k])@),
            ),
    decreases count,
{
    broadcast use {holds_its_end, holds_more};

    assert forall|k: int| 0 <= k < count implies holds_part(
        names_html(models, count),
        escaped((#[trigger] models[k])@),
    ) by {
        if count == 1 {
            let name = escaped(models[0]@);
            assert(name =~= Seq::<char>::empty() + name);
        } else if k < count - 1 {
            names_are_listed(models, count - 1);
            assert(holds_part(names_html(models, count - 1), escaped(models[k]@)));
        }
    }
}

/// Whatever `escape` returns opens and closes no tag and no attribute, and the
/// text can be read back from it; a text without any of the five characters is
/// left as it is.
pub proof fn escaped_text_is_inert_and_complete(text: &str, r: String)
    requires
        call_ensures(escape, (text,), r),
    ensures
        unescaped(r@) == text@,
        !r@.contains('<') && !r@.contains('>') && !r@.contains('"') && !r@.contains('\''),
        !text@.contains('&') && !text@.contains('<') && !text@.contains('>') && !text@.contains('"')
            && !text@.contains('\'') ==> r@ == text@,
{
    escaping_can_be_undone(text@);
    stored_text_is_inert(text@, '<');
    stored_text_is_inert(text@, '>');
    stored_text_is_inert(text@, '"');
    stored_text_is_inert(text@, '\'');
    if !text@.contains('&') && !text@.contains('<') && !text@.contains('>') && !text@.contains('"')
        && !text@.contains('\'') {
        plain_text_is_shown_as_it_is(text@);
    }
}

/// A text without any of the five characters is shown as it is.
pub proof fn plain_text_is_shown_as_it_is(text: Seq<char>)
    requires
        !text.contains('&') && !text.contains('<') && !text.contains('>'),
        !text.contains('"') && !text.contains('\''),
    ensures
        escaped(text) == text,
    decreases text.len(),
{
    if text.len() > 0 {
        let head = text.drop_last();
        assert forall|c: char| #[trigger] head.contains(c) implies text.contains(c) by {
            let i = choose|i: int| 0 <= i < head.len() && head[i] == c;
            assert(text[i] == c);
        }
        assert(text.contains(text.last()));
        plain_text_is_shown_as_it_is(head);
        escaping_names_five_characters(head, text.last());
        assert(head.push(text.last()) =~= text);
    }
}

/// Whatever `render` returns holds the table of models, with a row for every
/// model of the report in which each figure stands under its heading: its wins
/// under W, its losses under L, and so on. `r` gives the headings and the cells
/// of the row at `k`.
#[verifier::spinoff_prover]
#[verifier::rlimit(40)]
pub proof fn rendered_rows_show_the_figures<R>(
    report: &Report<'_, R>,
    texts: &ReportTexts,
    page: String,
    k: int,
) -> (r: (Seq<Seq<char>>, Seq<Seq<char>>))
    requires
        call_ensures(render::<R>, (report, texts), page),
        0 <= k < report.models@.len(),
    ensures
        holds_part(
            page@,
            "<div class=\"scroll\"><table>\n<thead><tr><th>Model</th>"@ + enclosed(
                "<th>"@,
                r.0.drop_first(),
                "</th>"@,
            ) + "</tr></thead>\n<tbody>\n"@,
        ),
        holds_part(
            page@,
            "<tr><td class=\"model-id\">"@ + r.1[0] + "</td>"@ + enclosed(
                "<td>"@,
                r.1.drop_first(),
                "</td>"@,
            ) + "</tr>\n"@,
        ),
        r.0.len() == 9 && r.1.len() == 9,
        forall|i: int| 0 <= i < r.1.len() ==> !(#[trigger] r.1[i]).contains('<'),
        unescaped(r.1[0]) == report.models@[k].model@,
        number_read(r.1[r.0.index_of("W"@)]) == report.models@[k].wins,
        number_read(r.1[r.0.index_of("L"@)]) == report.models@[k].losses,
        number_read(r.1[r.0.index_of("D"@)]) == report.models@[k].draws,
        number_read(r.1[r.0.index_of("Total"@)]) == report.models@[k].total,
        texts.ratings@[k].rating matches Some(text) ==> unescaped(r.1[r.0.index_of("Rating"@)])
            == text@,
        texts.ratings@[k].rating_lower matches Some(text) ==> unescaped(
            r.1[r.0.index_of("Lower bound"@)],
        ) == text@,
        texts.ratings@[k].rating_upper matches Some(text) ==> unescaped(
            r.1[r.0.index_of("Upper bound"@)],
        ) == text@,
{
    let model = report.models@[k];
    let rating = texts.ratings@[k];
    let r = figures_stand_under_their_headings(model, rating);
    assert(holds_part(page@, model_row_html(model, rating)) && holds_part(page@, MODEL_TABLE_HEAD@))
        by {
        pages_show_all_of_the_report(*report, *texts);
        let row = |k: int| model_row_html(report.models@[k], texts.ratings@[k]);
        assert(holds_rows(page@, row, report.models@.len() as int));
        assert(holds_part(page@, row(k)));
    }
    escaping_can_be_undone(model.model@);
    decimals_read_back(model.wins as nat);
    decimals_read_back(model.losses as nat);
    decimals_read_back(model.draws as nat);
    decimals_read_back(model.total as nat);
    if let Some(text) = rating.rating {
        escaping_can_be_undone(text@);
    }
    if let Some(text) = rating.rating_lower {
        escaping_can_be_undone(text@);
    }
    if let Some(text) = rating.rating_upper {
        escaping_can_be_undone(text@);
    }
    r
}

/// Whatever `render` returns holds every response in full, under its task and
/// its model.
#[verifier::spinoff_prover]
#[verifier::rlimit(40)]
pub proof fn rendered_pages_hold_the_responses<R>(
    report: &Report<'_, R>,
    texts: &ReportTexts,
    page: String,
    k: int,
)
    requires
        call_ensures(render::<R>, (report, texts), page),
        0 <= k < report.results@.len(),
    ensures
        states(page@, "Task"@, escaped(report.results@[k].task_id@)),
        states(page@, "Model"@, escaped(report.results@[k].model@)),
        holds_part(page@, "<pre>"@ + escaped(report.results@[k].response@) + "</pre>"@),
        unescaped(escaped(report.results@[k].response@)) == report.results@[k].response@,
{
    let result = report.results@[k];
    pages_show_all_of_the_report(*report, *texts);
    responses_are_labelled(result);
    let row = |k: int| result_html(report.results@[k]);
    assert(holds_rows(page@, row, report.results@.len() as int));
    assert(holds_part(page@, row(k)));
    holds_inner(
        page@,
        row(k),
        "<dt>"@ + escaped("Task"@) + "</dt><dd>"@ + escaped(result.task_id@) + "</dd>\n"@,
    );
    holds_inner(
        page@,
        row(k),
        "<dt>"@ + escaped("Model"@) + "</dt><dd>"@ + escaped(result.model@) + "</dd>\n"@,
    );
    holds_inner(page@, row(k), "<pre>"@ + escaped(result.response@) + "</pre>"@);
    escaping_can_be_undone(result.response@);
}

/// Whatever `render` returns of a judged run shows for every judged pair what was
/// decided in each order and in the end, under the names of the models.
#[verifier::spinoff_prover]
#[verifier::rlimit(40)]
pub proof fn rendered_pages_show_the_outcomes<R>(
    report: &Report<'_, R>,
    texts: &ReportTexts,
    page: String,
    k: int,
)
    requires
        call_ensures(render::<R>, (report, texts), page),
        report.summary.judge_used,
        0 <= k < report.pairs@.len(),
    ensures
        ({
            let pair = report.pairs@[k];
            let word = |value: Option<JudgeDecision>|
                match value {
                    Some(JudgeDecision::A) => "A"@,
                    Some(JudgeDecision::B) => "B"@,
                    Some(JudgeDecision::Draw) => "Draw"@,
                    None => ""@,
                };
            &&& holds_part(
                page@,
                "<p class=\"models\">A: "@ + escaped(pair.model_a@) + " · B: "@ + escaped(
                    pair.model_b@,
                ) + "</p>"@,
            )
            &&& holds_part(
                page@,
                "<span class=\"k\">AB</span><span class=\"v\">"@ + word(pair.orientation_ab)
                    + "</span>"@,
            )
            &&& holds_part(
                page@,
                "<span class=\"k\">BA</span><span class=\"v\">"@ + word(pair.orientation_ba)
                    + "</span>"@,
            )
            &&& holds_part(
                page@,
                "<span class=\"k\">Final</span><span class=\"v\">"@ + word(Some(pair.winner))
                    + "</span>"@,
            )
        }),
{
    let pair = report.pairs@[k];
    let word = |value: Option<JudgeDecision>|
        match value {
            Some(JudgeDecision::A) => "A"@,
            Some(JudgeDecision::B) => "B"@,
            Some(JudgeDecision::Draw) => "Draw"@,
            None => ""@,
        };
    assert(holds_part(page@, pair_html(pair))) by {
        pages_show_all_of_the_report(*report, *texts);
        let row = |k: int| pair_html(report.pairs@[k]);
        assert(holds_rows(page@, row, report.pairs@.len() as int));
        assert(holds_part(page@, row(k)));
    }
    outcomes_are_labelled(pair);
    let html = pair_html(pair);
    holds_inner(
        page@,
        html,
        "<p class=\"models\">A: "@ + escaped(pair.model_a@) + " · B: "@ + escaped(pair.model_b@)
            + "</p>"@,
    );
    holds_inner(
        page@,
        html,
        "<span class=\"k\">AB</span><span class=\"v\">"@ + word(pair.orientation_ab)
            + "</span>"@,
    );
    holds_inner(
        page@,
        html,
        "<span class=\"k\">BA</span><span class=\"v\">"@ + word(pair.orientation_ba)
            + "</span>"@,
    );
    holds_inner(
        page@,
        html,
        "<span class=\"k\">Final</span><span class=\"v\">"@ + word(Some(pair.winner))
            + "</span>"@,
    );
}

/// What is collapsed is headed by the task and the models that it is about, in
/// their order, and a judged pair by whether its orders agreed and how long it
/// took.
pub proof fn records_are_headed(result: CandidateRow<'_>, pair: PairRow<'_>)
    ensures
        starts_in(
            result_html(result),
            "<details><summary>"@ + escaped(result.task_id@) + " — "@ + escaped(result.model@)
                + "</summary>"@,
        ),
        starts_in(
            audit_row_html(pair),
            "<details>\n<summary>"@ + escaped(pair.task_id@) + " — "@ + escaped(pair.model_a@)
                + " vs "@ + escaped(pair.model_b@) + "</summary>"@,
        ),
        pair.agreement ==> holds_part(
            pair_html(pair),
            "<span class=\"pill "@ + "agree"@ + "\">"@ + "orientation agreement"@
                + "</span><span class=\"muted\">"@ + decimal(pair.duration_ms as nat)
                + " ms</span>"@,
        ),
        !pair.agreement ==> holds_part(
            pair_html(pair),
            "<span class=\"pill "@ + "disagree"@ + "\">"@ + "orientation disagreement"@
                + "</span><span class=\"muted\">"@ + decimal(pair.duration_ms as nat)
                + " ms</span>"@,
        ),
{
    reveal_strlit("</summary>\n<dl>\n");
    reveal_strlit("</summary>");
    reveal_strlit("\n<dl>\n");
    assert("</summary>\n<dl>\n"@ =~= "</summary>"@ + "\n<dl>\n"@);
    result_starts(result);
    audit_row_starts(pair);
    pair_starts(pair);
}

#[verifier::spinoff_prover]
#[verifier::rlimit(40)]
proof fn result_starts(result: CandidateRow<'_>)
    requires
        "</summary>\n<dl>\n"@ == "</summary>"@ + "\n<dl>\n"@,
    ensures
        starts_in(
            result_html(result),
            "<details><summary>"@ + escaped(result.task_id@) + " — "@ + escaped(result.model@)
                + "</summary>"@,
        ),
{
    let head = "<details><summary>"@ + escaped(result.task_id@) + " — "@ + escaped(result.model@)
        + "</summary>"@;
    let rest = "\n<dl>\n"@ + item_html("Task"@, escaped(result.task_id@)) + item_html(
        "Model"@,
        escaped(result.model@),
    ) + item_html("Duration"@, amount(result.duration_ms, " ms"@)) + score_html(result.score)
        + "</dl>\n<pre>"@ + escaped(result.response@) + "</pre>\n</details>\n"@;
    assert(result_html(result) =~= head + rest);
    assert(result_html(result).take(head.len() as int) =~= head);
}

#[verifier::spinoff_prover]
#[verifier::rlimit(40)]
proof fn audit_row_starts(pair: PairRow<'_>)
    requires
        "</summary>\n<dl>\n"@ == "</summary>"@ + "\n<dl>\n"@,
    ensures
        starts_in(
            audit_row_html(pair),
            "<details>\n<summary>"@ + escaped(pair.task_id@) + " — "@ + escaped(pair.model_a@)
                + " vs "@ + escaped(pair.model_b@) + "</summary>"@,
        ),
{
    let head = "<details>\n<summary>"@ + escaped(pair.task_id@) + " — "@ + escaped(pair.model_a@)
        + " vs "@ + escaped(pair.model_b@) + "</summary>"@;
    let rest = "\n<dl>\n"@ + item_html("Task ID"@, escaped(pair.task_id@)) + item_html(
        "Model A"@,
        escaped(pair.model_a@),
    ) + item_html("Model B"@, escaped(pair.model_b@)) + item_html(
        "Final winner"@,
        decision_name(pair.winner),
    ) + item_html("Orientation agreement"@, agreement_name(pair.agreement)) + item_html(
        "AB winner"@,
        decision_or_nothing(pair.orientation_ab),
    ) + item_html("BA winner"@, decision_or_nothing(pair.orientation_ba)) + item_html(
        "Reason AB"@,
        escaped_or_nothing(pair.reason_ab),
    ) + item_html("Reason BA"@, escaped_or_nothing(pair.reason_ba)) + item_html(
        "Duration"@,
        amount(pair.duration_ms, " ms"@),
    ) + "<dt>Raw AB completion</dt><dd><pre>"@ + escaped_or_nothing(pair.raw_ab)
        + "</pre></dd>\n<dt>Raw BA completion</dt><dd><pre>"@ + escaped_or_nothing(pair.raw_ba)
        + "</pre></dd>\n</dl>\n</details>\n"@;
    assert(audit_row_html(pair) =~= head + rest);
    assert(audit_row_html(pair).take(head.len() as int) =~= head);
}

#[verifier::spinoff_prover]
#[verifier::rlimit(40)]
proof fn pair_starts(pair: PairRow<'_>)
    ensures
        holds_part(
            pair_html(pair),
            "<span class=\"pill "@ + agreement_class_name(pair.agreement) + "\">"@
                + agreement_name(pair.agreement) + "</span><span class=\"muted\">"@ + decimal(
                pair.duration_ms as nat,
            ) + " ms</span>"@,
        ),
{
    reveal_strlit("</h3><span class=\"pill ");
    reveal_strlit("</h3>");
    reveal_strlit("<span class=\"pill ");
    reveal_strlit(" ms</span></div>\n<p class=\"models\">A: ");
    reveal_strlit(" ms</span>");
    reveal_strlit("</div>\n<p class=\"models\">A: ");
    assert("</h3><span class=\"pill "@ =~= "</h3>"@ + "<span class=\"pill "@);
    assert(" ms</span></div>\n<p class=\"models\">A: "@ =~= " ms</span>"@
        + "</div>\n<p class=\"models\">A: "@);
    let part = "<span class=\"pill "@ + agreement_class_name(pair.agreement) + "\">"@
        + agreement_name(pair.agreement) + "</span><span class=\"muted\">"@ + decimal(
        pair.duration_ms as nat,
    ) + " ms</span>"@;
    let before = "<article class=\"pair\">\n<div class=\"pair-top\"><h3>"@ + escaped(pair.task_id@)
        + "</h3>"@;
    let after = "</div>\n<p class=\"models\">A: "@ + escaped(pair.model_a@) + " · B: "@ + escaped(
        pair.model_b@,
    ) + OUTCOMES_HEAD@ + decision_or_nothing(pair.orientation_ab) + OUTCOME_BA@
        + decision_or_nothing(pair.orientation_ba) + OUTCOME_FINAL@ + decision_name(pair.winner)
        + REASONS_HEAD@ + escaped_or_nothing(pair.reason_ab)
        + "</p>\n<p><strong>BA</strong><br>"@ + escaped_or_nothing(pair.reason_ba)
        + "</p>\n</details>\n</article>\n"@;
    assert(pair_html(pair) =~= before + part + after);
}

/// A response without a score is shown as one with a score, but for the line with
/// the score.
pub proof fn scores_add_one_line(scored: CandidateRow<'_>, unscored: CandidateRow<'_>) -> (r: (
    Seq<char>,
    Seq<char>,
))
    requires
        scored.score is Some,
        unscored == (CandidateRow { score: None, ..scored }),
    ensures
        result_html(unscored) == r.0 + r.1,
        result_html(scored) == r.0 + ("<dt>"@ + escaped("Score"@) + "</dt><dd>"@ + decimal(
            scored.score->Some_0 as nat,
        ) + "</dd>\n"@) + r.1,
{
    let before = "<details><summary>"@ + escaped(scored.task_id@) + " — "@ + escaped(scored.model@)
        + "</summary>\n<dl>\n"@ + item_html("Task"@, escaped(scored.task_id@)) + item_html(
        "Model"@,
        escaped(scored.model@),
    ) + item_html("Duration"@, amount(scored.duration_ms, " ms"@));
    let after = "</dl>\n<pre>"@ + escaped(scored.response@) + "</pre>\n</details>\n"@;
    assert(result_html(unscored) =~= before + after);
    assert(result_html(scored) =~= before + item_html(
        "Score"@,
        decimal(scored.score->Some_0 as nat),
    ) + after);
    (before, after)
}

/// One more response is one more record at the end of the others, and the first
/// one brings the section with it.
pub proof fn responses_add_one_record(results: Seq<CandidateRow<'_>>, more: CandidateRow<'_>) -> (r: (
    Seq<char>,
    Seq<char>,
))
    ensures
        results_html(results.push(more)) == r.0 + result_html(more) + r.1,
        results.len() > 0 ==> results_html(results) == r.0 + r.1,
        results.len() == 0 ==> results_html(results).len() == 0,
{
    let count = results.len() as int;
    let all = results.push(more);
    result_rows_keep(results, more, count);
    let before = RESULTS_HEAD@ + result_rows_html(results, count);
    assert(results_html(all) =~= before + result_html(more) + "</section>\n"@);
    (before, "</section>\n"@)
}

proof fn result_rows_keep(results: Seq<CandidateRow<'_>>, more: CandidateRow<'_>, count: int)
    requires
        0 <= count <= results.len(),
    ensures
        result_rows_html(results.push(more), count) == result_rows_html(results, count),
    decreases count,
{
    if count > 0 {
        result_rows_keep(results, more, count - 1);
        assert(results.push(more)[count - 1] == results[count - 1]);
    }
}

} // verus!
