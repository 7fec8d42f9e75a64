//! A run as it is reported.
use crate::bootstrap::BootstrapUnavailable;
use crate::evaluate::EvaluatedResult;
use crate::judge::{text_view, JudgeDecision, Judgment, JudgmentFailure, OrientationFailure};
use crate::persist::{JudgeDecoding, Output};
use crate::provider::ModelId;
use crate::rating::{ModelRating, UnavailableReason};
use crate::stats::{ModelStats, Rate};
use vstd::prelude::*;

verus! {

/// A whole report. It borrows from the run it is of.
#[derive(Debug)]
pub struct Report<'a, R> {
    pub summary: ReportSummary,
    pub config: RunConfig<'a>,
    pub models: Vec<ModelReport<'a, R>>,
    pub results: Vec<CandidateRow<'a>>,
    pub pairs: Vec<PairRow<'a>>,
    pub failed_pairs: Vec<FailedPairRow<'a>>,
    pub bootstrap: Option<BootstrapReport>,
}

/// The counts of a run. What belongs to judging is there if it was recorded.
#[derive(Debug, Clone, Copy, PartialEq, Eq)]
pub struct ReportSummary {
    pub judge_used: bool,
    pub complete: Option<bool>,
    pub task_count: usize,
    pub candidate_count: usize,
    pub expected_pairs: Option<usize>,
    pub resolved_pairs: Option<usize>,
    pub failed_pairs: Option<usize>,
    pub orientation_agreeing_pairs: Option<usize>,
    pub orientation_disagreeing_pairs: Option<usize>,
    pub agreement_rate: Option<Rate>,
}

/// How a run was set up.
#[derive(Debug)]
pub struct RunConfig<'a> {
    pub models: &'a [ModelId],
    pub judge: Option<&'a ModelId>,
    pub tasks: Option<&'a str>,
    pub base_url: &'a str,
    pub started_at: &'a str,
    pub provider_concurrency: usize,
    pub request_timeout_secs: u64,
    pub connect_timeout_secs: u64,
    pub candidate_attempts: u32,
    pub judge_attempts: u32,
    pub candidate_max_tokens: u32,
    pub judge_decoding: Option<JudgeDecoding>,
}

/// A candidate with its record and its rating.
#[derive(Debug)]
pub struct ModelReport<'a, R> {
    pub model: &'a ModelId,
    pub wins: u32,
    pub losses: u32,
    pub draws: u32,
    pub total: u32,
    pub rating: Option<R>,
    pub rating_lower: Option<R>,
    pub rating_upper: Option<R>,
    pub unavailable: Option<UnavailableReason>,
}

/// One response.
#[derive(Debug)]
pub struct CandidateRow<'a> {
    pub task_id: &'a str,
    pub model: &'a ModelId,
    pub response: &'a str,
    pub score: Option<u32>,
    pub duration_ms: u64,
}

/// One resolved pair.
#[derive(Debug)]
pub struct PairRow<'a> {
    pub task_id: &'a str,
    pub model_a: &'a ModelId,
    pub model_b: &'a ModelId,
    pub winner: JudgeDecision,
    pub agreement: bool,
    pub orientation_ab: Option<JudgeDecision>,
    pub orientation_ba: Option<JudgeDecision>,
    pub reason_ab: Option<&'a str>,
    pub reason_ba: Option<&'a str>,
    pub duration_ms: u64,
    pub raw_ab: Option<&'a str>,
    pub raw_ba: Option<&'a str>,
}

/// One failed pair.
#[derive(Debug)]
pub struct FailedPairRow<'a> {
    pub task_id: &'a str,
    pub model_a: &'a ModelId,
    pub model_b: &'a ModelId,
    pub orientations: &'a [OrientationFailure],
}

/// What resampling came to.
#[derive(Debug, Clone, Copy, PartialEq, Eq)]
pub struct BootstrapReport {
    pub seed: u64,
    pub replicates: u32,
    pub clusters: usize,
    pub ran: bool,
    pub valid: Option<u32>,
    pub unavailable: Option<BootstrapUnavailable>,
    pub bounds_present: bool,
}

/// A borrowed text that may be absent.
pub open spec fn str_view(text: Option<&str>) -> Option<Seq<char>> {
    match text {
        Some(text) => Some(text@),
        None => None,
    }
}

fn text_ref(text: &Option<String>) -> (r: Option<&str>)
    ensures
        str_view(r) == text_view(*text),
{
    match text {
        Some(text) => Some(text.as_str()),
        None => None,
    }
}

/// The first record of the model.
pub open spec fn stats_of(stats: Seq<ModelStats>, name: Seq<char>) -> Option<ModelStats>
    decreases stats.len(),
{
    if stats.len() == 0 {
        None
    } else if stats.first().model@ == name {
        Some(stats.first())
    } else {
        stats_of(stats.drop_first(), name)
    }
}

/// The first rating of the model.
pub open spec fn rating_of<R>(ratings: Seq<ModelRating<R>>, name: Seq<char>) -> Option<
    ModelRating<R>,
>
    decreases ratings.len(),
{
    if ratings.len() == 0 {
        None
    } else if ratings.first().model@ == name {
        Some(ratings.first())
    } else {
        rating_of(ratings.drop_first(), name)
    }
}

fn find_stats<'a>(stats: &'a Vec<ModelStats>, model: &ModelId) -> (r: Option<&'a ModelStats>)
    ensures
        r matches Some(found) ==> stats_of(stats@, model@) == Some(*found),
        r is None ==> stats_of(stats@, model@) is None,
{
    let mut i: usize = 0;
    proof {
        assert(stats@.skip(0) =~= stats@);
    }
    while i < stats.len()
        invariant
            i <= stats@.len(),
            stats_of(stats@, model@) == stats_of(stats@.skip(i as int), model@),
        decreases stats@.len() - i,
    {
        proof {
            assert(stats@.skip(i as int).first() == stats@[i as int]);
            assert(stats@.skip(i as int).drop_first() =~= stats@.skip(i + 1));
        }
        if stats[i].model == *model {
            return Some(&stats[i]);
        }
        i += 1;
    }
    None
}

fn find_rating<'a, R>(ratings: &'a Vec<ModelRating<R>>, model: &ModelId) -> (r: Option<
    &'a ModelRating<R>,
>)
    ensures
        r matches Some(found) ==> rating_of(ratings@, model@) == Some(*found),
        r is None ==> rating_of(ratings@, model@) is None,
{
    let mut i: usize = 0;
    proof {
        assert(ratings@.skip(0) =~= ratings@);
    }
    while i < ratings.len()
        invariant
            i <= ratings@.len(),
            rating_of(ratings@, model@) == rating_of(ratings@.skip(i as int), model@),
        decreases ratings@.len() - i,
    {
        proof {
            assert(ratings@.skip(i as int).first() == ratings@[i as int]);
            assert(ratings@.skip(i as int).drop_first() =~= ratings@.skip(i + 1));
        }
        if ratings[i].model == *model {
            return Some(&ratings[i]);
        }
        i += 1;
    }
    None
}

/// The row of a model: its record, or zeros, and its rating, or nothing.
pub open spec fn is_model_report<R>(
    row: ModelReport<'_, R>,
    model: ModelId,
    statistics: Option<Vec<ModelStats>>,
    ratings: Option<Vec<ModelRating<R>>>,
) -> bool {
    let stats = match statistics {
        Some(all) => stats_of(all@, model@),
        None => None,
    };
    let rating = match ratings {
        Some(all) => rating_of(all@, model@),
        None => None,
    };
    &&& *row.model == model
    &&& match stats {
        Some(stats) => row.wins == stats.wins && row.losses == stats.losses && row.draws
            == stats.draws && row.total == stats.total,
        None => row.wins == 0 && row.losses == 0 && row.draws == 0 && row.total == 0,
    }
    &&& match rating {
        Some(rating) => row.rating == rating.rating && row.rating_lower == rating.rating_lower
            && row.rating_upper == rating.rating_upper && row.unavailable == rating.unavailable,
        None => row.rating is None && row.rating_lower is None && row.rating_upper is None
            && row.unavailable is None,
    }
}

fn model_report<'a, R: Copy>(
    model: &'a ModelId,
    statistics: &Option<Vec<ModelStats>>,
    ratings: &Option<Vec<ModelRating<R>>>,
) -> (r: ModelReport<'a, R>)
    ensures
        is_model_report(r, *model, *statistics, *ratings),
{
    let mut row: ModelReport<'a, R> = ModelReport {
        model,
        wins: 0,
        losses: 0,
        draws: 0,
        total: 0,
        rating: None,
        rating_lower: None,
        rating_upper: None,
        unavailable: None,
    };
    if let Some(all) = statistics {
        if let Some(stats) = find_stats(all, model) {
            row.wins = stats.wins;
            row.losses = stats.losses;
            row.draws = stats.draws;
            row.total = stats.total;
        }
    }
    if let Some(all) = ratings {
        if let Some(rating) = find_rating(all, model) {
            row.rating = rating.rating;
            row.rating_lower = rating.rating_lower;
            row.rating_upper = rating.rating_upper;
            row.unavailable = rating.unavailable;
        }
    }
    row
}

/// The row of a response.
pub open spec fn is_candidate_row(row: CandidateRow<'_>, result: EvaluatedResult) -> bool {
    &&& row.task_id@ == result.task_id@
    &&& *row.model == result.model
    &&& row.response@ == result.response.text@
    &&& row.score == (match result.evaluation {
        Some(evaluation) => Some(evaluation.score),
        None => None,
    })
    &&& row.duration_ms == result.duration_ms
}

fn candidate_row(result: &EvaluatedResult) -> (r: CandidateRow<'_>)
    ensures
        is_candidate_row(r, *result),
{
    let score: Option<u32> = match result.evaluation {
        Some(evaluation) => Some(evaluation.score),
        None => None,
    };
    CandidateRow {
        task_id: result.task_id.as_str(),
        model: &result.model,
        response: result.response.text.as_str(),
        score,
        duration_ms: result.duration_ms,
    }
}

/// The row of a resolved pair.
pub open spec fn is_pair_row(row: PairRow<'_>, judgment: Judgment) -> bool {
    &&& row.task_id@ == judgment.task_id@
    &&& *row.model_a == judgment.model_a
    &&& *row.model_b == judgment.model_b
    &&& row.winner == judgment.winner
    &&& row.agreement == judgment.agreement
    &&& row.orientation_ab == judgment.orientation_ab
    &&& row.orientation_ba == judgment.orientation_ba
    &&& str_view(row.reason_ab) == text_view(judgment.reason_ab)
    &&& str_view(row.reason_ba) == text_view(judgment.reason_ba)
    &&& row.duration_ms == judgment.duration_ms
    &&& str_view(row.raw_ab) == text_view(judgment.raw_ab)
    &&& str_view(row.raw_ba) == text_view(judgment.raw_ba)
}

fn pair_row(judgment: &Judgment) -> (r: PairRow<'_>)
    ensures
        is_pair_row(r, *judgment),
{
    PairRow {
        task_id: judgment.task_id.as_str(),
        model_a: &judgment.model_a,
        model_b: &judgment.model_b,
        winner: judgment.winner,
        agreement: judgment.agreement,
        orientation_ab: judgment.orientation_ab,
        orientation_ba: judgment.orientation_ba,
        reason_ab: text_ref(&judgment.reason_ab),
        reason_ba: text_ref(&judgment.reason_ba),
        duration_ms: judgment.duration_ms,
        raw_ab: text_ref(&judgment.raw_ab),
        raw_ba: text_ref(&judgment.raw_ba),
    }
}

/// The row of a failed pair.
pub open spec fn is_failed_pair_row(row: FailedPairRow<'_>, failure: JudgmentFailure) -> bool {
    &&& row.task_id@ == failure.task_id@
    &&& *row.model_a == failure.model_a
    &&& *row.model_b == failure.model_b
    &&& row.orientations@ == failure.orientations@
}

fn failed_pair_row(failure: &JudgmentFailure) -> (r: FailedPairRow<'_>)
    ensures
        is_failed_pair_row(r, *failure),
{
    FailedPairRow {
        task_id: failure.task_id.as_str(),
        model_a: &failure.model_a,
        model_b: &failure.model_b,
        orientations: failure.orientations.as_slice(),
    }
}

/// Some rating has an interval.
pub open spec fn has_bounds<R>(ratings: Option<Vec<ModelRating<R>>>) -> bool {
    match ratings {
        Some(all) => exists|i: int|
            0 <= i < all@.len() && (#[trigger] all@[i]).rating_lower is Some
                && all@[i].rating_upper is Some,
        None => false,
    }
}

fn any_bounds<R>(ratings: &Option<Vec<ModelRating<R>>>) -> (r: bool)
    ensures
        r == has_bounds(*ratings),
{
    if let Some(all) = ratings {
        let mut i: usize = 0;
        while i < all.len()
            invariant
                i <= all@.len(),
                *ratings == Some(*all),
                forall|t: int|
                    0 <= t < i ==> (#[trigger] all@[t]).rating_lower is None
                        || all@[t].rating_upper is None,
            decreases all@.len() - i,
        {
            if all[i].rating_lower.is_some() && all[i].rating_upper.is_some() {
                assert(all@[i as int].rating_lower is Some);
                return true;
            }
            i += 1;
        }
    }
    false
}

/// What is reported of resampling: nothing unless the run recorded it.
pub open spec fn bootstrap_of<R>(output: Output<R>) -> Option<BootstrapReport> {
    match (
        output.run.bootstrap_seed,
        output.run.bootstrap_replicates,
        output.run.bootstrap_clusters,
        output.run.bootstrap_ran,
    ) {
        (Some(seed), Some(replicates), Some(clusters), Some(ran)) => Some(
            BootstrapReport {
                seed,
                replicates,
                clusters,
                ran,
                valid: output.run.bootstrap_valid,
                unavailable: output.run.bootstrap_unavailable,
                bounds_present: has_bounds(output.ratings),
            },
        ),
        _ => None,
    }
}

fn bootstrap_report<R>(output: &Output<R>) -> (r: Option<BootstrapReport>)
    ensures
        r == bootstrap_of(*output),
{
    match (
        output.run.bootstrap_seed,
        output.run.bootstrap_replicates,
        output.run.bootstrap_clusters,
        output.run.bootstrap_ran,
    ) {
        (Some(seed), Some(replicates), Some(clusters), Some(ran)) => Some(
            BootstrapReport {
                seed,
                replicates,
                clusters,
                ran,
                valid: output.run.bootstrap_valid,
                unavailable: output.run.bootstrap_unavailable,
                bounds_present: any_bounds(&output.ratings),
            },
        ),
        _ => None,
    }
}

/// The counts of the run.
pub open spec fn summary_of<R>(output: Output<R>) -> ReportSummary {
    let agreement = output.run.orientation_agreement;
    ReportSummary {
        judge_used: output.run.judge is Some,
        complete: output.run.complete,
        task_count: output.tasks@.len() as usize,
        candidate_count: output.run.models@.len() as usize,
        expected_pairs: output.run.expected_pairs,
        resolved_pairs: output.run.resolved_pairs,
        failed_pairs: output.run.failed_pairs,
        orientation_agreeing_pairs: match agreement {
            Some(agreement) => Some(agreement.orientation_agreeing_pairs),
            None => None,
        },
        orientation_disagreeing_pairs: match agreement {
            Some(agreement) => Some(agreement.orientation_disagreeing_pairs),
            None => None,
        },
        agreement_rate: match agreement {
            Some(agreement) => Some(agreement.agreement_rate),
            None => None,
        },
    }
}

fn report_summary<R>(output: &Output<R>) -> (r: ReportSummary)
    ensures
        r == summary_of(*output),
{
    let mut summary: ReportSummary = ReportSummary {
        judge_used: output.run.judge.is_some(),
        complete: output.run.complete,
        task_count: output.tasks.len(),
        candidate_count: output.run.models.len(),
        expected_pairs: output.run.expected_pairs,
        resolved_pairs: output.run.resolved_pairs,
        failed_pairs: output.run.failed_pairs,
        orientation_agreeing_pairs: None,
        orientation_disagreeing_pairs: None,
        agreement_rate: None,
    };
    if let Some(agreement) = output.run.orientation_agreement {
        summary.orientation_agreeing_pairs = Some(agreement.orientation_agreeing_pairs);
        summary.orientation_disagreeing_pairs = Some(agreement.orientation_disagreeing_pairs);
        summary.agreement_rate = Some(agreement.agreement_rate);
    }
    summary
}

/// The set-up of the run.
pub open spec fn is_config<R>(config: RunConfig<'_>, output: Output<R>) -> bool {
    &&& config.models@ == output.run.models@
    &&& match config.judge {
        Some(judge) => output.run.judge == Some(*judge),
        None => output.run.judge is None,
    }
    &&& str_view(config.tasks) == text_view(output.run.tasks)
    &&& config.base_url@ == output.run.base_url@
    &&& config.started_at@ == output.run.started_at@
    &&& config.provider_concurrency == output.run.provider_concurrency
    &&& config.request_timeout_secs == output.run.request_timeout_secs
    &&& config.connect_timeout_secs == output.run.connect_timeout_secs
    &&& config.candidate_attempts == output.run.candidate_attempts
    &&& config.judge_attempts == output.run.judge_attempts
    &&& config.candidate_max_tokens == output.run.candidate_max_tokens
    &&& config.judge_decoding == output.run.judge_decoding
}

fn run_config<R>(output: &Output<R>) -> (r: RunConfig<'_>)
    ensures
        is_config(r, *output),
{
    RunConfig {
        models: output.run.models.as_slice(),
        judge: output.run.judge.as_ref(),
        tasks: text_ref(&output.run.tasks),
        base_url: output.run.base_url.as_str(),
        started_at: output.run.started_at.as_str(),
        provider_concurrency: output.run.provider_concurrency,
        request_timeout_secs: output.run.request_timeout_secs,
        connect_timeout_secs: output.run.connect_timeout_secs,
        candidate_attempts: output.run.candidate_attempts,
        judge_attempts: output.run.judge_attempts,
        candidate_max_tokens: output.run.candidate_max_tokens,
        judge_decoding: output.run.judge_decoding,
    }
}

/// The contents of a list that may be absent.
pub open spec fn items_of<T>(items: Option<Vec<T>>) -> Seq<T> {
    match items {
        Some(items) => items@,
        None => seq![],
    }
}

/// The report says of the run what the run recorded: every candidate, every
/// response, every resolved and every failed pair, each in its order.
pub open spec fn is_report<R>(report: Report<'_, R>, output: Output<R>) -> bool {
    &&& report.summary == summary_of(output)
    &&& is_config(report.config, output)
    &&& report.models@.len() == output.run.models@.len()
    &&& forall|i: int|
        0 <= i < report.models@.len() ==> is_model_report(
            #[trigger] report.models@[i],
            output.run.models@[i],
            output.statistics,
            output.ratings,
        )
    &&& report.results@.len() == output.results@.len()
    &&& forall|i: int|
        0 <= i < report.results@.len() ==> is_candidate_row(
            #[trigger] report.results@[i],
            output.results@[i],
        )
    &&& report.pairs@.len() == items_of(output.judgments).len()
    &&& forall|i: int|
        0 <= i < report.pairs@.len() ==> is_pair_row(
            #[trigger] report.pairs@[i],
            items_of(output.judgments)[i],
        )
    &&& report.failed_pairs@.len() == items_of(output.judgment_failures).len()
    &&& forall|i: int|
        0 <= i < report.failed_pairs@.len() ==> is_failed_pair_row(
            #[trigger] report.failed_pairs@[i],
            items_of(output.judgment_failures)[i],
        )
    &&& report.bootstrap == bootstrap_of(output)
}

/// Makes the report of a run.
pub fn from_output<'a, R: Copy>(output: &'a Output<R>) -> (report: Report<'a, R>)
    ensures
        is_report(report, *output),
{
    let mut models: Vec<ModelReport<'a, R>> = Vec::new();
    let mut i: usize = 0;
    while i < output.run.models.len()
        invariant
            i <= output.run.models@.len(),
            models@.len() == i,
            forall|t: int|
                0 <= t < i ==> is_model_report(
                    #[trigger] models@[t],
                    output.run.models@[t],
                    output.statistics,
                    output.ratings,
                ),
        decreases output.run.models@.len() - i,
    {
        models.push(model_report(&output.run.models[i], &output.statistics, &output.ratings));
        i += 1;
    }
    let mut results: Vec<CandidateRow<'a>> = Vec::new();
    let mut i: usize = 0;
    while i < output.results.len()
        invariant
            i <= output.results@.len(),
            results@.len() == i,
            forall|t: int|
                0 <= t < i ==> is_candidate_row(#[trigger] results@[t], output.results@[t]),
        decreases output.results@.len() - i,
    {
        results.push(candidate_row(&output.results[i]));
        i += 1;
    }
    let mut pairs: Vec<PairRow<'a>> = Vec::new();
    if let Some(judgments) = &output.judgments {
        let mut i: usize = 0;
        while i < judgments.len()
            invariant
                i <= judgments@.len(),
                pairs@.len() == i,
                forall|t: int| 0 <= t < i ==> is_pair_row(#[trigger] pairs@[t], judgments@[t]),
            decreases judgments@.len() - i,
        {
            pairs.push(pair_row(&judgments[i]));
            i += 1;
        }
    }
    let mut failed_pairs: Vec<FailedPairRow<'a>> = Vec::new();
    if let Some(failures) = &output.judgment_failures {
        let mut i: usize = 0;
        while i < failures.len()
            invariant
                i <= failures@.len(),
                failed_pairs@.len() == i,
                forall|t: int|
                    0 <= t < i ==> is_failed_pair_row(#[trigger] failed_pairs@[t], failures@[t]),
            decreases failures@.len() - i,
        {
            failed_pairs.push(failed_pair_row(&failures[i]));
            i += 1;
        }
    }
    Report {
        summary: report_summary(output),
        config: run_config(output),
        models,
        results,
        pairs,
        failed_pairs,
        bootstrap: bootstrap_report(output),
    }
}

/// The record that is found for a model is one with its name, with none of that
/// name before it; nothing is found only if there is none.
pub proof fn records_are_found_by_name(stats: Seq<ModelStats>, name: Seq<char>)
    ensures
        stats_of(stats, name) matches Some(found) ==> exists|k: int|
            {
                &&& 0 <= k < stats.len()
                &&& #[trigger] stats[k] == found
                &&& found.model@ == name
                &&& forall|t: int| 0 <= t < k ==> (#[trigger] stats[t]).model@ != name
            },
        stats_of(stats, name) is None ==> forall|k: int|
            0 <= k < stats.len() ==> (#[trigger] stats[k]).model@ != name,
    decreases stats.len(),
{
    if stats.len() > 0 {
        let rest = stats.drop_first();
        records_are_found_by_name(rest, name);
        if stats.first().model@ == name {
            assert(stats[0] == stats.first());
        } else {
            match stats_of(rest, name) {
                Some(found) => {
                    let k = choose|k: int|
                        {
                            &&& 0 <= k < rest.len()
                            &&& #[trigger] rest[k] == found
                            &&& found.model@ == name
                            &&& forall|t: int| 0 <= t < k ==> (#[trigger] rest[t]).model@ != name
                        };
                    assert(stats[k + 1] == found);
                    assert forall|t: int| 0 <= t < k + 1 implies (#[trigger] stats[t]).model@
                        != name by {
                        if t > 0 {
                            assert(stats[t] == rest[t - 1]);
                        }
                    }
                },
                None => {
                    assert forall|k: int| 0 <= k < stats.len() implies (#[trigger] stats[k]).model@
                        != name by {
                        if k > 0 {
                            assert(stats[k] == rest[k - 1]);
                        }
                    }
                },
            }
        }
    }
}

/// The rating that is found for a model is one with its name, with none of that
/// name before it; nothing is found only if there is none.
pub proof fn ratings_are_found_by_name<R>(ratings: Seq<ModelRating<R>>, name: Seq<char>)
    ensures
        rating_of(ratings, name) matches Some(found) ==> exists|k: int|
            {
                &&& 0 <= k < ratings.len()
                &&& #[trigger] ratings[k] == found
                &&& found.model@ == name
                &&& forall|t: int| 0 <= t < k ==> (#[trigger] ratings[t]).model@ != name
            },
        rating_of(ratings, name) is None ==> forall|k: int|
            0 <= k < ratings.len() ==> (#[trigger] ratings[k]).model@ != name,
    decreases ratings.len(),
{
    if ratings.len() > 0 {
        let rest = ratings.drop_first();
        ratings_are_found_by_name(rest, name);
        if ratings.first().model@ == name {
            assert(ratings[0] == ratings.first());
        } else {
            match rating_of(rest, name) {
                Some(found) => {
                    let k = choose|k: int|
                        {
                            &&& 0 <= k < rest.len()
                            &&& #[trigger] rest[k] == found
                            &&& found.model@ == name
                            &&& forall|t: int| 0 <= t < k ==> (#[trigger] rest[t]).model@ != name
                        };
                    assert(ratings[k + 1] == found);
                    assert forall|t: int| 0 <= t < k + 1 implies (#[trigger] ratings[t]).model@
                        != name by {
                        if t > 0 {
                            assert(ratings[t] == rest[t - 1]);
                        }
                    }
                },
                None => {
                    assert forall|k: int| 0 <= k < ratings.len() implies (
                    #[trigger] ratings[k]).model@ != name by {
                        if k > 0 {
                            assert(ratings[k] == rest[k - 1]);
                        }
                    }
                },
            }
        }
    }
}

/// A model is reported with its own record and its own rating, each figure as
/// it was recorded. Without a record its counts are zero, and without a rating
/// nothing is said of one.
pub proof fn models_are_reported_as_recorded<R>(
    report: Report<'_, R>,
    output: Output<R>,
    i: int,
    s: int,
    t: int,
)
    requires
        is_report(report, output),
        0 <= i < output.run.models@.len(),
        output.statistics is Some,
        output.ratings is Some,
        0 <= s < output.statistics->Some_0@.len(),
        0 <= t < output.ratings->Some_0@.len(),
        output.statistics->Some_0@[s].model@ == output.run.models@[i]@,
        output.ratings->Some_0@[t].model@ == output.run.models@[i]@,
        forall|k: int, j: int|
            0 <= k < j < output.statistics->Some_0@.len() ==> (
            #[trigger] output.statistics->Some_0@[k]).model@ != (
            #[trigger] output.statistics->Some_0@[j]).model@,
        forall|k: int, j: int|
            0 <= k < j < output.ratings->Some_0@.len() ==> (
            #[trigger] output.ratings->Some_0@[k]).model@ != (
            #[trigger] output.ratings->Some_0@[j]).model@,
    ensures
        report.models@.len() == output.run.models@.len(),
        *report.models@[i].model == output.run.models@[i],
        report.models@[i].wins == output.statistics->Some_0@[s].wins,
        report.models@[i].losses == output.statistics->Some_0@[s].losses,
        report.models@[i].draws == output.statistics->Some_0@[s].draws,
        report.models@[i].total == output.statistics->Some_0@[s].total,
        report.models@[i].rating == output.ratings->Some_0@[t].rating,
        report.models@[i].rating_lower == output.ratings->Some_0@[t].rating_lower,
        report.models@[i].rating_upper == output.ratings->Some_0@[t].rating_upper,
        report.models@[i].unavailable == output.ratings->Some_0@[t].unavailable,
{
    let stats = output.statistics->Some_0@;
    let ratings = output.ratings->Some_0@;
    let name = output.run.models@[i]@;
    records_are_found_by_name(stats, name);
    ratings_are_found_by_name(ratings, name);
    assert(is_model_report(
        report.models@[i],
        output.run.models@[i],
        output.statistics,
        output.ratings,
    ));
    if let Some(found) = stats_of(stats, name) {
        let k = choose|k: int|
            {
                &&& 0 <= k < stats.len()
                &&& #[trigger] stats[k] == found
                &&& found.model@ == name
                &&& forall|t: int| 0 <= t < k ==> (#[trigger] stats[t]).model@ != name
            };
        if k < s {
            assert(stats[k].model@ != stats[s].model@);
        }
        if s < k {
            assert(stats[s].model@ != stats[k].model@);
        }
    }
    if let Some(found) = rating_of(ratings, name) {
        let k = choose|k: int|
            {
                &&& 0 <= k < ratings.len()
                &&& #[trigger] ratings[k] == found
                &&& found.model@ == name
                &&& forall|t: int| 0 <= t < k ==> (#[trigger] ratings[t]).model@ != name
            };
        if k < t {
            assert(ratings[k].model@ != ratings[t].model@);
        }
        if t < k {
            assert(ratings[t].model@ != ratings[k].model@);
        }
    }
}

/// A model of which nothing was recorded is reported with zero counts and
/// without a rating.
pub proof fn unrecorded_models_are_reported_empty<R>(
    report: Report<'_, R>,
    output: Output<R>,
    i: int,
)
    requires
        is_report(report, output),
        0 <= i < output.run.models@.len(),
    ensures
        output.statistics is None ==> report.models@[i].wins == 0 && report.models@[i].losses == 0
            && report.models@[i].draws == 0 && report.models@[i].total == 0,
        output.ratings is None ==> report.models@[i].rating is None
            && report.models@[i].rating_lower is None && report.models@[i].rating_upper is None
            && report.models@[i].unavailable is None,
{
    assert(is_model_report(
        report.models@[i],
        output.run.models@[i],
        output.statistics,
        output.ratings,
    ));
}

/// Every response, every resolved and every failed pair of the run is in the
/// report, in its order and as it was recorded: the sides of a pair, the winner
/// of each order and of the pair, the reasons and the completions.
pub proof fn rows_are_reported_as_recorded<R>(report: Report<'_, R>, output: Output<R>, i: int)
    requires
        is_report(report, output),
        0 <= i,
    ensures
        report.results@.len() == output.results@.len(),
        i < output.results@.len() ==> {
            let row = report.results@[i];
            let result = output.results@[i];
            &&& row.task_id@ == result.task_id@
            &&& *row.model == result.model
            &&& row.response@ == result.response.text@
            &&& row.duration_ms == result.duration_ms
            &&& row.score is Some <==> result.evaluation is Some
            &&& row.score matches Some(score) ==> score == result.evaluation->Some_0.score
        },
        output.judgments is None ==> report.pairs@.len() == 0,
        output.judgments matches Some(judgments) ==> {
            &&& report.pairs@.len() == judgments@.len()
            &&& i < judgments@.len() ==> {
                let row = report.pairs@[i];
                let judgment = judgments@[i]@;
                &&& row.task_id@ == judgment.task_id
                &&& row.model_a@ == judgment.model_a
                &&& row.model_b@ == judgment.model_b
                &&& row.winner == judgment.winner
                &&& row.agreement == judgment.agreement
                &&& row.orientation_ab == judgment.orientation_ab
                &&& row.orientation_ba == judgment.orientation_ba
                &&& str_view(row.reason_ab) == judgment.reason_ab
                &&& str_view(row.reason_ba) == judgment.reason_ba
                &&& str_view(row.raw_ab) == judgment.raw_ab
                &&& str_view(row.raw_ba) == judgment.raw_ba
                &&& row.duration_ms == judgment.duration_ms
            }
        },
        output.judgment_failures is None ==> report.failed_pairs@.len() == 0,
        output.judgment_failures matches Some(failures) ==> {
            &&& report.failed_pairs@.len() == failures@.len()
            &&& i < failures@.len() ==> {
                let row = report.failed_pairs@[i];
                &&& row.task_id@ == failures@[i].task_id@
                &&& *row.model_a == failures@[i].model_a
                &&& *row.model_b == failures@[i].model_b
                &&& row.orientations@ == failures@[i].orientations@
            }
        },
{
    if i < output.results@.len() {
        assert(is_candidate_row(report.results@[i], output.results@[i]));
    }
    if i < report.pairs@.len() {
        assert(is_pair_row(report.pairs@[i], items_of(output.judgments)[i]));
    }
    if i < report.failed_pairs@.len() {
        assert(is_failed_pair_row(
            report.failed_pairs@[i],
            items_of(output.judgment_failures)[i],
        ));
    }
}

/// The counts of a report are those of the run, and so is what it says of
/// resampling, which is there exactly if the run recorded it. Intervals are said
/// to be present exactly if some rating has both bounds.
pub proof fn counts_are_reported_as_recorded<R>(report: Report<'_, R>, output: Output<R>)
    requires
        is_report(report, output),
        output.tasks@.len() <= usize::MAX,
        output.run.models@.len() <= usize::MAX,
    ensures
        report.summary.judge_used <==> output.run.judge is Some,
        report.summary.complete == output.run.complete,
        report.summary.task_count == output.tasks@.len(),
        report.summary.candidate_count == output.run.models@.len(),
        report.summary.expected_pairs == output.run.expected_pairs,
        report.summary.resolved_pairs == output.run.resolved_pairs,
        report.summary.failed_pairs == output.run.failed_pairs,
        output.run.orientation_agreement is None ==> report.summary.orientation_agreeing_pairs
            is None && report.summary.orientation_disagreeing_pairs is None
            && report.summary.agreement_rate is None,
        output.run.orientation_agreement matches Some(agreement) ==> {
            &&& report.summary.orientation_agreeing_pairs == Some(
                agreement.orientation_agreeing_pairs,
            )
            &&& report.summary.orientation_disagreeing_pairs == Some(
                agreement.orientation_disagreeing_pairs,
            )
            &&& report.summary.agreement_rate == Some(agreement.agreement_rate)
        },
        report.bootstrap is Some <==> output.run.bootstrap_seed is Some
            && output.run.bootstrap_replicates is Some && output.run.bootstrap_clusters is Some
            && output.run.bootstrap_ran is Some,
        report.bootstrap matches Some(bootstrap) ==> {
            &&& Some(bootstrap.seed) == output.run.bootstrap_seed
            &&& Some(bootstrap.replicates) == output.run.bootstrap_replicates
            &&& Some(bootstrap.clusters) == output.run.bootstrap_clusters
            &&& Some(bootstrap.ran) == output.run.bootstrap_ran
            &&& bootstrap.valid == output.run.bootstrap_valid
            &&& bootstrap.unavailable == output.run.bootstrap_unavailable
            &&& bootstrap.bounds_present <==> output.ratings is Some && exists|i: int|
                0 <= i < output.ratings->Some_0@.len() && (
                #[trigger] output.ratings->Some_0@[i]).rating_lower is Some
                    && output.ratings->Some_0@[i].rating_upper is Some
        },
        report.config.models@ == output.run.models@,
        report.config.judge is Some <==> output.run.judge is Some,
        report.config.judge matches Some(judge) ==> output.run.judge == Some(*judge),
        str_view(report.config.tasks) == text_view(output.run.tasks),
        report.config.base_url@ == output.run.base_url@,
        report.config.started_at@ == output.run.started_at@,
        report.config.provider_concurrency == output.run.provider_concurrency,
        report.config.request_timeout_secs == output.run.request_timeout_secs,
        report.config.connect_timeout_secs == output.run.connect_timeout_secs,
        report.config.candidate_attempts == output.run.candidate_attempts,
        report.config.judge_attempts == output.run.judge_attempts,
        report.config.candidate_max_tokens == output.run.candidate_max_tokens,
        report.config.judge_decoding == output.run.judge_decoding,
{
}

/// Whatever `from_output` returns has a row for every model of the run, in the
/// order of the run, with the counts and the rating that are recorded under its
/// name.
pub proof fn reports_tell_what_is_recorded<'a, R: Copy>(
    output: &'a Output<R>,
    report: Report<'a, R>,
    i: int,
    s: int,
    t: int,
)
    requires
        call_ensures(from_output::<R>, (output,), report),
        0 <= i < output.run.models@.len(),
        output.statistics is Some,
        output.ratings is Some,
        0 <= s < output.statistics->Some_0@.len(),
        0 <= t < output.ratings->Some_0@.len(),
        output.statistics->Some_0@[s].model@ == output.run.models@[i]@,
        output.ratings->Some_0@[t].model@ == output.run.models@[i]@,
        forall|k: int, j: int|
            0 <= k < j < output.statistics->Some_0@.len() ==> (
            #[trigger] output.statistics->Some_0@[k]).model@ != (
            #[trigger] output.statistics->Some_0@[j]).model@,
        forall|k: int, j: int|
            0 <= k < j < output.ratings->Some_0@.len() ==> (
            #[trigger] output.ratings->Some_0@[k]).model@ != (
            #[trigger] output.ratings->Some_0@[j]).model@,
    ensures
        report.models@.len() == output.run.models@.len(),
        *report.models@[i].model == output.run.models@[i],
        report.models@[i].wins == output.statistics->Some_0@[s].wins,
        report.models@[i].losses == output.statistics->Some_0@[s].losses,
        report.models@[i].draws == output.statistics->Some_0@[s].draws,
        report.models@[i].total == output.statistics->Some_0@[s].total,
        report.models@[i].rating == output.ratings->Some_0@[t].rating,
        report.models@[i].rating_lower == output.ratings->Some_0@[t].rating_lower,
        report.models@[i].rating_upper == output.ratings->Some_0@[t].rating_upper,
        report.models@[i].unavailable == output.ratings->Some_0@[t].unavailable,
{
    models_are_reported_as_recorded(report, *output, i, s, t);
}

} // verus!
