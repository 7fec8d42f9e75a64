//! A whole run: its configuration, and what its results come to.
use crate::bootstrap::{
    are_uncertain, rate_with_uncertainty, resampling_needs_tasks_and_ratings, BootstrapMeta,
};
use crate::compare::{compare_all, compared, Comparison};
use crate::error::Error;
use crate::evaluate::{evaluate_all, evaluated, EvaluatedResult};
use crate::execute::ExecutionResult;
use crate::judge::{
    text_view, JudgePairsOutcome, Judgment, JudgmentFailure, JUDGE_TEMPERATURE,
};
use crate::pairs::{pair_count, pair_indices, pairs_of};
use crate::persist::{
    is_complete, is_timestamp, utc_timestamp, JudgeDecoding, Output, RunMetadata, VERSION,
};
use crate::provider::{
    ModelId, CONNECT_TIMEOUT_SECS, DEFAULT_MAX_TOKENS, PROVIDER_CONCURRENCY, REQUEST_TIMEOUT_SECS,
};
use crate::rating::{is_fit, FitFailure, Tally};
use crate::retry::ATTEMPTS;
use crate::roster::{is_roster, lists_model, names_of};
use crate::stats::{
    aggregate, agreement_counts_every_pair_once, agreement_of, count, counted_models, is_record,
    pair_agreement, Counted, ModelStats, PairAgreement,
};
use crate::task::Task;
use crate::text::{is_empty_text, text_same, trimmed};
use vstd::prelude::*;

verus! {

/// What to run.
#[derive(Debug)]
pub struct ExecConfig {
    pub tasks: Vec<Task>,
    pub models: Vec<ModelId>,
    pub judge: Option<ModelId>,
    pub seed: u64,
    pub tasks_path: Option<String>,
    pub started_at: String,
    pub base_url: String,
}

/// The name at `k` stands earlier in the list as well.
pub open spec fn name_repeats(names: Seq<Seq<char>>, k: int) -> bool {
    exists|j: int| 0 <= j < k && #[trigger] names[j] == names[k]
}

/// No name stands in the list twice.
pub open spec fn all_different(names: Seq<Seq<char>>) -> bool {
    forall|k: int| 0 <= k < names.len() ==> !#[trigger] name_repeats(names, k)
}

/// The texts as sequences of characters.
pub open spec fn texts_of(ids: Seq<String>) -> Seq<Seq<char>> {
    ids.map_values(|id: String| id@)
}

/// `name` is the first one that repeats an earlier one.
pub open spec fn first_repeated(names: Seq<Seq<char>>, name: Seq<char>) -> bool {
    exists|k: int|
        {
            &&& 0 <= k < names.len()
            &&& #[trigger] name_repeats(names, k)
            &&& names[k] == name
            &&& forall|t: int| 0 <= t < k ==> !#[trigger] name_repeats(names, t)
        }
}

/// The models of these ids, in their order, if no id is given twice; otherwise
/// the first one that is.
pub open spec fn are_unique_models(
    r: Result<Vec<ModelId>, Error>,
    names: Seq<Seq<char>>,
) -> bool {
    match r {
        Ok(models) => all_different(names) && names_of(models@) == names,
        Err(Error::DuplicateModel(model)) => first_repeated(names, model@),
        Err(_) => false,
    }
}

/// The models of these ids. No id may be given twice.
pub fn unique_models(ids: Vec<String>) -> (r: Result<Vec<ModelId>, Error>)
    ensures
        are_unique_models(r, texts_of(ids@)),
{
    let ghost names = texts_of(ids@);
    let mut models: Vec<ModelId> = Vec::new();
    let mut k: usize = 0;
    while k < ids.len()
        invariant
            k <= ids@.len(),
            names == texts_of(ids@),
            names_of(models@) == names.take(k as int),
            forall|t: int| 0 <= t < k ==> !#[trigger] name_repeats(names, t),
        decreases ids@.len() - k,
    {
        let mut j: usize = 0;
        while j < k
            invariant
                j <= k < ids@.len(),
                names == texts_of(ids@),
                forall|t: int| 0 <= t < k ==> !#[trigger] name_repeats(names, t),
                forall|t: int| 0 <= t < j ==> #[trigger] names[t] != names[k as int],
            decreases k - j,
        {
            if text_same(ids[j].as_str(), ids[k].as_str()) {
                assert(names[j as int] == names[k as int]);
                assert(name_repeats(names, k as int));
                return Err(Error::DuplicateModel(ModelId::new(ids[k].as_str())));
            }
            j += 1;
        }
        let ghost before = models@;
        models.push(ModelId::new(ids[k].as_str()));
        proof {
            assert(names_of(models@) =~= names_of(before).push(names[k as int]));
            assert(names.take(k + 1) =~= names.take(k as int).push(names[k as int]));
        }
        k += 1;
    }
    proof {
        assert(names.take(names.len() as int) =~= names);
    }
    Ok(models)
}

/// Some model of the list has this name.
pub open spec fn is_candidate(models: Seq<ModelId>, name: Seq<char>) -> bool {
    exists|i: int| 0 <= i < models.len() && (#[trigger] models[i])@ == name
}

/// Whether the judge stands apart from the candidates.
pub open spec fn is_valid_judge(
    r: Result<(), Error>,
    models: Seq<ModelId>,
    judge: Option<ModelId>,
) -> bool {
    match r {
        Ok(()) => judge matches Some(judge) ==> !is_candidate(models, judge@),
        Err(Error::JudgeIsCandidate(model)) => judge == Some(model) && is_candidate(models, model@),
        Err(_) => false,
    }
}

/// The judge must not be one of the candidates.
pub fn validate_judge(models: &[ModelId], judge: Option<&ModelId>) -> (r: Result<(), Error>)
    ensures
        is_valid_judge(
            r,
            models@,
            match judge {
                Some(judge) => Some(*judge),
                None => None,
            },
        ),
{
    if let Some(chosen) = judge {
        let mut i: usize = 0;
        while i < models.len()
            invariant
                i <= models@.len(),
                judge == Some(chosen),
                forall|t: int| 0 <= t < i ==> (#[trigger] models@[t])@ != chosen@,
            decreases models@.len() - i,
        {
            if models[i] == *chosen {
                assert(models@[i as int]@ == chosen@);
                return Err(Error::JudgeIsCandidate(chosen.clone()));
            }
            i += 1;
        }
    }
    Ok(())
}

/// The number of unordered pairs of models over all tasks.
pub open spec fn expected_pairs_spec(tasks: int, models: int) -> int {
    tasks * (models * (models - 1) / 2)
}

proof fn half_of_product(models: int)
    requires
        models >= 1,
    ensures
        models % 2 == 0 ==> (models / 2) * (models - 1) == models * (models - 1) / 2,
        models % 2 != 0 ==> models * ((models - 1) / 2) == models * (models - 1) / 2,
{
    let half = models / 2;
    if models % 2 == 0 {
        assert(models == 2 * half);
        assert((2 * half) * (models - 1) == 2 * (half * (models - 1))) by (nonlinear_arith);
    } else {
        assert(models - 1 == 2 * half);
        assert(models * (2 * half) == 2 * (models * half)) by (nonlinear_arith);
    }
}

/// Whether the number of pairs can be counted on this machine.
pub fn pairs_fit(tasks: usize, models: usize) -> (r: bool)
    ensures
        r == (expected_pairs_spec(tasks as int, models as int) <= usize::MAX),
{
    if models == 0 {
        assert(expected_pairs_spec(tasks as int, 0) == 0) by {
            assert(0 * (0 - 1) / 2 == 0);
            assert(tasks as int * 0 == 0);
        }
        return true;
    }
    proof {
        half_of_product(models as int);
    }
    let per_task: Option<usize> = if models % 2 == 0 {
        (models / 2).checked_mul(models - 1)
    } else {
        models.checked_mul((models - 1) / 2)
    };
    match per_task {
        None => {
            if tasks == 0 {
                assert(expected_pairs_spec(0, models as int) == 0);
                true
            } else {
                let ghost pairs = models as int * (models - 1) / 2;
                assert(tasks as int * pairs >= pairs) by (nonlinear_arith)
                    requires
                        tasks >= 1,
                        pairs >= 0,
                ;
                false
            }
        },
        Some(pairs) => tasks.checked_mul(pairs).is_some(),
    }
}

/// The number of unordered pairs of models over all tasks.
pub fn expected_pairs(tasks: usize, models: usize) -> (r: usize)
    requires
        expected_pairs_spec(tasks as int, models as int) <= usize::MAX,
    ensures
        r == expected_pairs_spec(tasks as int, models as int),
{
    if tasks == 0 || models == 0 {
        assert(expected_pairs_spec(tasks as int, models as int) == 0) by {
            assert(models == 0 ==> models as int * (models - 1) == 0) by (nonlinear_arith);
            let pairs = models as int * (models - 1) / 2;
            assert(tasks == 0 || pairs == 0 ==> tasks as int * pairs == 0) by (nonlinear_arith);
        }
        return 0;
    }
    proof {
        half_of_product(models as int);
        let pairs = models as int * (models - 1) / 2;
        assert(tasks as int * pairs >= pairs) by (nonlinear_arith)
            requires
                tasks >= 1,
                pairs >= 0,
        ;
    }
    let per_task: usize = if models % 2 == 0 {
        (models / 2) * (models - 1)
    } else {
        models * ((models - 1) / 2)
    };
    tasks * per_task
}

/// The texts without the white space around them, those that are then empty
/// left out.
pub open spec fn tidied(texts: Seq<Seq<char>>) -> Seq<Seq<char>>
    decreases texts.len(),
{
    if texts.len() == 0 {
        seq![]
    } else {
        let head = tidied(texts.drop_last());
        let last = trimmed(texts.last());
        if last.len() == 0 {
            head
        } else {
            head.push(last)
        }
    }
}

fn tidy(texts: Vec<String>) -> (r: Vec<String>)
    ensures
        texts_of(r@) == tidied(texts_of(texts@)),
{
    let ghost all = texts_of(texts@);
    let mut r: Vec<String> = Vec::new();
    let mut k: usize = 0;
    proof {
        assert(texts_of(r@) =~= tidied(all.take(0)));
    }
    while k < texts.len()
        invariant
            k <= texts@.len(),
            all == texts_of(texts@),
            texts_of(r@) == tidied(all.take(k as int)),
        decreases texts@.len() - k,
    {
        proof {
            assert(all.take(k + 1).drop_last() =~= all.take(k as int));
            assert(all.take(k + 1).last() == texts@[k as int]@);
        }
        let text: &str = texts[k].as_str().trim();
        if !is_empty_text(text) {
            let ghost before = r@;
            r.push(text.to_owned());
            proof {
                assert(texts_of(r@) =~= texts_of(before).push(text@));
            }
        }
        k += 1;
    }
    proof {
        assert(all.take(all.len() as int) =~= all);
    }
    r
}

/// The judge that an optional text names: none if it is blank.
pub open spec fn judge_named(judge: Option<String>) -> Option<Seq<char>> {
    match judge {
        Some(text) => if trimmed(text@).len() == 0 {
            None
        } else {
            Some(trimmed(text@))
        },
        None => None,
    }
}

/// The name of a model that may be absent.
pub open spec fn model_view(model: Option<ModelId>) -> Option<Seq<char>> {
    match model {
        Some(model) => Some(model@),
        None => None,
    }
}

/// The result of putting a configuration together from what was entered.
pub open spec fn is_configured(
    r: Result<ExecConfig, Error>,
    models: Seq<Seq<char>>,
    judge: Option<Seq<char>>,
    tasks: Vec<Task>,
    base_url: String,
    seed: u64,
) -> bool {
    match r {
        Ok(config) => {
            &&& all_different(models)
            &&& models.len() > 0
            &&& judge matches Some(judge) ==> !models.contains(judge)
            &&& names_of(config.models@) == models
            &&& model_view(config.judge) == judge
            &&& config.tasks == tasks
            &&& config.base_url == base_url
            &&& config.seed == seed
            &&& config.tasks_path is None
        },
        Err(Error::DuplicateModel(model)) => first_repeated(models, model@),
        Err(Error::NoCandidates) => models.len() == 0,
        Err(Error::JudgeIsCandidate(model)) => all_different(models) && judge == Some(model@)
            && models.contains(model@),
        Err(_) => false,
    }
}

/// Puts a configuration together from what was entered, with the time at which
/// the run starts.
pub fn exec_config_at(
    models: Vec<String>,
    judge: Option<String>,
    tasks: Vec<Task>,
    base_url: String,
    seed: u64,
    started_at: String,
) -> (r: Result<ExecConfig, Error>)
    ensures
        is_configured(r, tidied(texts_of(models@)), judge_named(judge), tasks, base_url, seed),
        r matches Ok(config) ==> config.started_at == started_at,
{
    let ghost wanted = tidied(texts_of(models@));
    let ghost wanted_judge = judge_named(judge);
    let chosen: Vec<ModelId> = match unique_models(tidy(models)) {
        Ok(chosen) => chosen,
        Err(error) => return Err(error),
    };
    if chosen.len() == 0 {
        proof {
            assert(names_of(chosen@).len() == 0);
        }
        return Err(Error::NoCandidates);
    }
    let judge: Option<ModelId> = match judge {
        Some(text) => {
            let name: &str = text.as_str().trim();
            if is_empty_text(name) {
                None
            } else {
                Some(ModelId::new(name))
            }
        },
        None => None,
    };
    proof {
        assert forall|name: Seq<char>| is_candidate(chosen@, name) <==> wanted.contains(name) by {
            if is_candidate(chosen@, name) {
                let i = choose|i: int| 0 <= i < chosen@.len() && (#[trigger] chosen@[i])@ == name;
                assert(names_of(chosen@)[i] == name);
            }
            if wanted.contains(name) {
                let i = choose|i: int| 0 <= i < wanted.len() && wanted[i] == name;
                assert(chosen@[i]@ == name);
            }
        }
    }
    match validate_judge(chosen.as_slice(), judge.as_ref()) {
        Ok(()) => {},
        Err(error) => return Err(error),
    }
    Ok(
        ExecConfig {
            tasks,
            models: chosen,
            judge,
            seed,
            tasks_path: None,
            started_at,
            base_url,
        },
    )
}

/// Puts a configuration together from what was entered. The run starts now.
pub fn build_exec_config(
    models: Vec<String>,
    judge: Option<String>,
    tasks: Vec<Task>,
    base_url: String,
    seed: u64,
) -> (r: Result<ExecConfig, Error>)
    ensures
        is_configured(r, tidied(texts_of(models@)), judge_named(judge), tasks, base_url, seed),
        r matches Ok(config) ==> is_timestamp(config.started_at@),
{
    exec_config_at(models, judge, tasks, base_url, seed, utc_timestamp())
}

/// The results of one task, in their order.
pub open spec fn results_of(results: Seq<EvaluatedResult>, task_id: Seq<char>) -> Seq<
    EvaluatedResult,
>
    decreases results.len(),
{
    if results.len() == 0 {
        seq![]
    } else if results.last().task_id@ == task_id {
        results_of(results.drop_last(), task_id).push(results.last())
    } else {
        results_of(results.drop_last(), task_id)
    }
}

/// The results of one task.
pub fn results_for_task(results: &[EvaluatedResult], task: &Task) -> (r: Vec<EvaluatedResult>)
    ensures
        r@ == results_of(results@, task.id@),
{
    let mut r: Vec<EvaluatedResult> = Vec::new();
    let mut k: usize = 0;
    while k < results.len()
        invariant
            k <= results@.len(),
            r@ == results_of(results@.take(k as int), task.id@),
        decreases results@.len() - k,
    {
        proof {
            assert(results@.take(k + 1).drop_last() =~= results@.take(k as int));
            assert(results@.take(k + 1).last() == results@[k as int]);
        }
        if text_same(results[k].task_id.as_str(), task.id.as_str()) {
            r.push(results[k].clone());
        }
        k += 1;
    }
    proof {
        assert(results@.take(results@.len() as int) =~= results@);
    }
    r
}

fn copy_models(models: &Vec<ModelId>) -> (r: Vec<ModelId>)
    ensures
        r@ == models@,
{
    let mut r: Vec<ModelId> = Vec::new();
    let mut k: usize = 0;
    while k < models.len()
        invariant
            k <= models@.len(),
            r@ == models@.take(k as int),
        decreases models@.len() - k,
    {
        r.push(models[k].clone());
        proof {
            assert(r@ =~= models@.take(k + 1));
        }
        k += 1;
    }
    proof {
        assert(r@ =~= models@);
    }
    r
}

fn copy_tasks(tasks: &Vec<Task>) -> (r: Vec<Task>)
    ensures
        r@ == tasks@,
{
    let mut r: Vec<Task> = Vec::new();
    let mut k: usize = 0;
    while k < tasks.len()
        invariant
            k <= tasks@.len(),
            r@ == tasks@.take(k as int),
        decreases tasks@.len() - k,
    {
        r.push(tasks[k].clone());
        proof {
            assert(r@ =~= tasks@.take(k + 1));
        }
        k += 1;
    }
    proof {
        assert(r@ =~= tasks@);
    }
    r
}

fn copy_judge(judge: &Option<ModelId>) -> (r: Option<ModelId>)
    ensures
        r == *judge,
{
    match judge {
        Some(judge) => Some(judge.clone()),
        None => None,
    }
}

/// What was judged in a run, over all its tasks.
#[derive(Debug)]
pub struct Judged {
    pub judgments: Vec<Judgment>,
    pub failures: Vec<JudgmentFailure>,
}

/// The record says where the run came from and how it was carried out.
pub open spec fn records_config(run: RunMetadata, config: ExecConfig) -> bool {
    &&& run.version@ == VERSION@
    &&& run.models@ == config.models@
    &&& run.judge == config.judge
    &&& run.tasks == config.tasks_path
    &&& run.base_url == config.base_url
    &&& run.started_at == config.started_at
    &&& run.provider_concurrency == PROVIDER_CONCURRENCY
    &&& run.request_timeout_secs == REQUEST_TIMEOUT_SECS
    &&& run.connect_timeout_secs == CONNECT_TIMEOUT_SECS
    &&& run.candidate_attempts == ATTEMPTS
    &&& run.judge_attempts == ATTEMPTS
    &&& run.candidate_max_tokens == DEFAULT_MAX_TOKENS
}

/// Nothing is recorded of a judge.
pub open spec fn records_no_judge<R>(output: Output<R>) -> bool {
    &&& output.judgments is None
    &&& output.judgment_failures is None
    &&& output.statistics is None
    &&& output.ratings is None
    &&& output.run.complete is None
    &&& output.run.expected_pairs is None
    &&& output.run.resolved_pairs is None
    &&& output.run.failed_pairs is None
    &&& output.run.orientation_agreement is None
    &&& output.run.judge_decoding is None
    &&& output.run.bootstrap_seed is None
    &&& output.run.bootstrap_replicates is None
    &&& output.run.bootstrap_clusters is None
    &&& output.run.bootstrap_ran is None
    &&& output.run.bootstrap_valid is None
    &&& output.run.bootstrap_unavailable is None
}

/// The coverage of the pairs and their agreement are recorded.
pub open spec fn records_coverage(run: RunMetadata, expected: int, judged: Judged) -> bool {
    &&& run.expected_pairs == Some(expected as usize)
    &&& run.resolved_pairs == Some(judged.judgments@.len() as usize)
    &&& run.failed_pairs == Some(judged.failures@.len() as usize)
    &&& run.complete == Some(
        is_complete(
            expected as usize,
            judged.judgments@.len() as usize,
            judged.failures@.len() as usize,
        ),
    )
    &&& run.orientation_agreement matches Some(agreement) && agreement_of(
        judged.judgments@,
        agreement,
    )
    &&& run.judge_decoding == Some(
        JudgeDecoding { temperature: JUDGE_TEMPERATURE, max_tokens: DEFAULT_MAX_TOKENS },
    )
}

/// The statistics and the ratings are those of the judgments, and what
/// resampling came to is recorded.
pub open spec fn records_judgments<
    R,
    F: Fn(&Tally) -> Result<Vec<R>, FitFailure>,
    P: Fn(&Vec<R>, u32) -> R,
>(output: Output<R>, config: ExecConfig, judged: Judged, fit: F, percentile: P) -> bool {
    &&& output.judgments == Some(judged.judgments)
    &&& output.judgment_failures == Some(judged.failures)
    &&& output.statistics is Some
    &&& is_roster(
        counted_models(output.statistics->Some_0@),
        judged.judgments@,
        config.models@,
    )
    &&& forall|i: int|
        0 <= i < output.statistics->Some_0@.len() ==> is_record(
            #[trigger] output.statistics->Some_0@[i],
            judged.judgments@,
        )
    &&& output.ratings is Some
    &&& output.run.bootstrap_seed is Some
    &&& output.run.bootstrap_replicates is Some
    &&& output.run.bootstrap_clusters is Some
    &&& output.run.bootstrap_ran is Some
    &&& are_uncertain(
        output.ratings->Some_0@,
        BootstrapMeta {
            seed: output.run.bootstrap_seed->Some_0,
            replicates: output.run.bootstrap_replicates->Some_0,
            valid: output.run.bootstrap_valid,
            clusters: output.run.bootstrap_clusters->Some_0,
            ran: output.run.bootstrap_ran->Some_0,
            unavailable: output.run.bootstrap_unavailable,
        },
        judged.judgments@,
        config.models@,
        config.seed,
        fit,
        percentile,
    )
}

/// The pairs that the run is expected to judge.
pub open spec fn pairs_expected(config: ExecConfig) -> int {
    expected_pairs_spec(config.tasks@.len() as int, config.models@.len() as int)
}

/// Puts the record of a finished run together. With a judge, the resolved and
/// the failed pairs must account for all the expected ones.
pub fn finish_exec<
    R: Copy,
    F: Fn(&Tally) -> Result<Vec<R>, FitFailure>,
    P: Fn(&Vec<R>, u32) -> R,
>(
    config: &ExecConfig,
    results: Vec<EvaluatedResult>,
    judged: Option<Judged>,
    fit: &F,
    percentile: &P,
) -> (r: Result<(Output<R>, usize), Error>)
    requires
        is_fit(*fit),
        forall|values: Vec<R>, permille: u32| #[trigger] percentile.requires((&values, permille)),
        judged matches Some(judged) ==> {
            &&& pairs_expected(*config) <= usize::MAX
            &&& 2 * judged.judgments@.len() <= u32::MAX
        },
    ensures
        match (r, judged) {
            (Ok((output, failed)), None) => {
                &&& failed == 0
                &&& records_config(output.run, *config)
                &&& output.tasks@ == config.tasks@
                &&& output.results == results
                &&& output.comparisons@ == compared(results@, results@.len() as int)
                &&& records_no_judge(output)
            },
            (Ok((output, failed)), Some(judged)) => {
                &&& judged.judgments@.len() + judged.failures@.len() == pairs_expected(*config)
                &&& failed == judged.failures@.len()
                &&& records_config(output.run, *config)
                &&& output.tasks@ == config.tasks@
                &&& output.results == results
                &&& output.comparisons@ == compared(results@, results@.len() as int)
                &&& records_coverage(output.run, pairs_expected(*config), judged)
                &&& records_judgments(output, *config, judged, *fit, *percentile)
            },
            (Err(error), Some(judged)) => {
                &&& judged.judgments@.len() + judged.failures@.len() != pairs_expected(*config)
                &&& error == (Error::InconsistentPairCoverage {
                    expected: pairs_expected(*config) as usize,
                    resolved: judged.judgments@.len() as usize,
                    failed: judged.failures@.len() as usize,
                })
            },
            (Err(_), None) => false,
        },
{
    let comparisons: Vec<Comparison> = compare_all(results.as_slice());
    let run: RunMetadata = RunMetadata::new(
        copy_models(&config.models),
        copy_judge(&config.judge),
        config.tasks_path.clone(),
        config.started_at.clone(),
        config.base_url.clone(),
    );
    let tasks: Vec<Task> = copy_tasks(&config.tasks);
    match judged {
        None => Ok(
            (
                Output {
                    run,
                    tasks,
                    results,
                    comparisons,
                    judgments: None,
                    judgment_failures: None,
                    statistics: None,
                    ratings: None,
                },
                0,
            ),
        ),
        Some(judged) => {
            let expected: usize = expected_pairs(config.tasks.len(), config.models.len());
            let resolved: usize = judged.judgments.len();
            let failed: usize = judged.failures.len();
            if resolved > expected || failed != expected - resolved {
                return Err(Error::InconsistentPairCoverage { expected, resolved, failed });
            }
            let statistics: Vec<ModelStats> = aggregate(
                judged.judgments.as_slice(),
                config.models.as_slice(),
            );
            let agreement: PairAgreement = pair_agreement(judged.judgments.as_slice());
            let (ratings, meta) = rate_with_uncertainty(
                judged.judgments.as_slice(),
                config.models.as_slice(),
                config.seed,
                fit,
                percentile,
            );
            let run: RunMetadata = run.with_judge_coverage(
                expected,
                resolved,
                failed,
            ).with_orientation_agreement(agreement).with_judge_decoding(
                JudgeDecoding::arena_default(),
            ).with_bootstrap(&meta);
            Ok(
                (
                    Output {
                        run,
                        tasks,
                        results,
                        comparisons,
                        judgments: Some(judged.judgments),
                        judgment_failures: Some(judged.failures),
                        statistics: Some(statistics),
                        ratings: Some(ratings),
                    },
                    failed,
                ),
            )
        },
    }
}

/// A run with failed pairs is incomplete, which is an error once its record
/// has been written.
pub fn completion(failed_pairs: usize) -> (r: Result<(), Error>)
    ensures
        match r {
            Ok(()) => failed_pairs == 0,
            Err(error) => failed_pairs > 0 && error == Error::IncompleteJudgments(failed_pairs),
        },
{
    if failed_pairs > 0 {
        return Err(Error::IncompleteJudgments(failed_pairs));
    }
    Ok(())
}

/// A finished run with a judge is complete exactly if no pair failed, and then
/// every expected pair was resolved.
pub proof fn complete_iff_nothing_failed(run: RunMetadata, expected: int, judged: Judged)
    requires
        judged.judgments@.len() + judged.failures@.len() == expected,
        expected <= usize::MAX,
        records_coverage(run, expected, judged),
    ensures
        run.complete == Some(judged.failures@.len() == 0),
        run.resolved_pairs->Some_0 + run.failed_pairs->Some_0 == run.expected_pairs->Some_0,
{
}

/// The number of steps of a progress bar over all the pairs.
pub fn judge_progress_len(tasks: usize, models: usize) -> (r: u64)
    requires
        expected_pairs_spec(tasks as int, models as int) <= usize::MAX,
    ensures
        r == expected_pairs_spec(tasks as int, models as int),
{
    expected_pairs(tasks, models) as u64
}

/// The candidates and the judge of a run, as they were named. No candidate may
/// be named twice, and the judge must not be one of them.
pub fn choose_models(models: Vec<String>, judge: Option<String>) -> (r: Result<
    (Vec<ModelId>, Option<ModelId>),
    Error,
>)
    ensures
        match r {
            Ok((chosen, judged_by)) => {
                &&& all_different(texts_of(models@))
                &&& names_of(chosen@) == texts_of(models@)
                &&& model_view(judged_by) == text_view(judge)
                &&& judged_by matches Some(judge) ==> !is_candidate(chosen@, judge@)
            },
            Err(Error::DuplicateModel(model)) => first_repeated(texts_of(models@), model@),
            Err(Error::JudgeIsCandidate(model)) => all_different(texts_of(models@)) && text_view(
                judge,
            ) == Some(model@) && texts_of(models@).contains(model@),
            Err(_) => false,
        },
{
    let ghost names = texts_of(models@);
    let chosen: Vec<ModelId> = match unique_models(models) {
        Ok(chosen) => chosen,
        Err(error) => return Err(error),
    };
    let judge: Option<ModelId> = match judge {
        Some(name) => Some(ModelId::new(name.as_str())),
        None => None,
    };
    match validate_judge(chosen.as_slice(), judge.as_ref()) {
        Ok(()) => Ok((chosen, judge)),
        Err(error) => {
            proof {
                if let Error::JudgeIsCandidate(model) = &error {
                    let i = choose|i: int|
                        0 <= i < chosen@.len() && (#[trigger] chosen@[i])@ == model@;
                    assert(names_of(chosen@)[i] == model@);
                }
            }
            Err(error)
        },
    }
}

/// What is to be done next in a run.
#[derive(Debug)]
pub enum ExecStep {
    /// Run the candidates on the task with this index.
    Candidates { task: usize },
    /// Put the pairs of these results of the task before the judge.
    Judge { task: usize, results: Vec<EvaluatedResult> },
    /// All has been run and judged.
    Done,
}

/// What a run has collected so far: the results of the first `executed` tasks,
/// and what was judged of the first `judged` tasks.
#[derive(Debug)]
pub struct Collection {
    pub results: Vec<EvaluatedResult>,
    pub judgments: Vec<Judgment>,
    pub failures: Vec<JudgmentFailure>,
    pub executed: usize,
    pub judged: usize,
}

/// The results with their scores.
pub open spec fn scored(task: Task, results: Seq<ExecutionResult>) -> Seq<EvaluatedResult> {
    results.map_values(|result: ExecutionResult| evaluated(task, result))
}

impl Collection {
    /// Nothing has been run.
    pub fn new() -> (r: Self)
        ensures
            r.results@.len() == 0,
            r.judgments@.len() == 0,
            r.failures@.len() == 0,
            r.executed == 0,
            r.judged == 0,
    {
        Collection {
            results: Vec::new(),
            judgments: Vec::new(),
            failures: Vec::new(),
            executed: 0,
            judged: 0,
        }
    }

    /// What is to be done next: first the candidates are run on every task, then,
    /// if there is a judge, the results of every task are judged.
    pub fn step(&self, config: &ExecConfig) -> (r: ExecStep)
        ensures
            match r {
                ExecStep::Candidates { task } => task == self.executed && task
                    < config.tasks@.len(),
                ExecStep::Judge { task, results } => {
                    &&& self.executed >= config.tasks@.len()
                    &&& config.judge is Some
                    &&& task == self.judged
                    &&& task < config.tasks@.len()
                    &&& results@ == results_of(self.results@, config.tasks@[task as int].id@)
                },
                ExecStep::Done => self.executed >= config.tasks@.len() && (config.judge is None
                    || self.judged >= config.tasks@.len()),
            },
    {
        if self.executed < config.tasks.len() {
            ExecStep::Candidates { task: self.executed }
        } else if config.judge.is_some() && self.judged < config.tasks.len() {
            ExecStep::Judge {
                task: self.judged,
                results: results_for_task(self.results.as_slice(), &config.tasks[self.judged]),
            }
        } else {
            ExecStep::Done
        }
    }

    /// Takes in what the candidates answered to the next task, with scores.
    pub fn take_candidates(&mut self, config: &ExecConfig, executed: Vec<ExecutionResult>)
        requires
            old(self).executed < config.tasks@.len(),
        ensures
            final(self).results@ == old(self).results@ + scored(
                config.tasks@[old(self).executed as int],
                executed@,
            ),
            final(self).judgments == old(self).judgments,
            final(self).failures == old(self).failures,
            final(self).executed == old(self).executed + 1,
            final(self).judged == old(self).judged,
    {
        assert(config.tasks@.len() == config.tasks.len());
        let mut more: Vec<EvaluatedResult> = evaluate_all(&config.tasks[self.executed], executed);
        self.results.append(&mut more);
        self.executed = self.executed + 1;
    }

    /// Takes in what judging the next task came to.
    pub fn take_judged(&mut self, config: &ExecConfig, outcome: JudgePairsOutcome)
        requires
            old(self).judged < config.tasks@.len(),
        ensures
            final(self).results == old(self).results,
            final(self).judgments@ == old(self).judgments@ + outcome.judgments@,
            final(self).failures@ == old(self).failures@ + outcome.failures@,
            final(self).executed == old(self).executed,
            final(self).judged == old(self).judged + 1,
    {
        assert(config.tasks@.len() == config.tasks.len());
        let mut judgments: Vec<Judgment> = outcome.judgments;
        let mut failures: Vec<JudgmentFailure> = outcome.failures;
        self.judgments.append(&mut judgments);
        self.failures.append(&mut failures);
        self.judged = self.judged + 1;
    }

    /// What was judged, if there is a judge.
    pub fn into_parts(self, config: &ExecConfig) -> (r: (Vec<EvaluatedResult>, Option<Judged>))
        ensures
            r.0 == self.results,
            config.judge is None ==> r.1 is None,
            config.judge is Some ==> r.1 == Some(
                Judged { judgments: self.judgments, failures: self.failures },
            ),
    {
        if config.judge.is_some() {
            (
                self.results,
                Some(Judged { judgments: self.judgments, failures: self.failures }),
            )
        } else {
            (self.results, None)
        }
    }
}

/// The results of the first `count` tasks, task by task, where `runs` holds
/// what the candidates answered to each.
pub open spec fn collected(
    tasks: Seq<Task>,
    runs: Seq<Seq<ExecutionResult>>,
    count: int,
) -> Seq<EvaluatedResult>
    decreases count,
{
    if count <= 0 {
        seq![]
    } else {
        collected(tasks, runs, count - 1) + scored(tasks[count - 1], runs[count - 1])
    }
}

proof fn results_of_add(one: Seq<EvaluatedResult>, two: Seq<EvaluatedResult>, id: Seq<char>)
    ensures
        results_of(one + two, id) == results_of(one, id) + results_of(two, id),
    decreases two.len(),
{
    if two.len() == 0 {
        assert(one + two =~= one);
        assert(results_of(one, id) + results_of(two, id) =~= results_of(one, id));
    } else {
        results_of_add(one, two.drop_last(), id);
        assert((one + two).drop_last() =~= one + two.drop_last());
        assert(results_of(one + two, id) =~= results_of(one, id) + results_of(two, id));
    }
}

proof fn results_of_one_task(results: Seq<EvaluatedResult>, task: Seq<char>, id: Seq<char>)
    requires
        forall|i: int| 0 <= i < results.len() ==> (#[trigger] results[i]).task_id@ == task,
    ensures
        results_of(results, id) == (if task == id {
            results
        } else {
            seq![]
        }),
    decreases results.len(),
{
    if results.len() > 0 {
        let head = results.drop_last();
        assert forall|i: int| 0 <= i < head.len() implies (#[trigger] head[i]).task_id@ == task by {
            assert(head[i] == results[i]);
        }
        results_of_one_task(head, task, id);
        assert(results[results.len() - 1] == results.last());
        assert(head.push(results.last()) =~= results);
    }
}

/// The judge of a task sees exactly what the candidates answered to that task,
/// in the order of the candidates, as long as no two tasks have the same id.
pub proof fn tasks_are_judged_on_their_own_results(
    tasks: Seq<Task>,
    runs: Seq<Seq<ExecutionResult>>,
    count: int,
    k: int,
)
    requires
        0 <= count <= tasks.len(),
        runs.len() == tasks.len(),
        0 <= k < tasks.len(),
        forall|i: int, j: int|
            0 <= i < j < tasks.len() ==> (#[trigger] tasks[i]).id@ != (#[trigger] tasks[j]).id@,
        forall|i: int, j: int|
            0 <= i < runs.len() && 0 <= j < runs[i].len() ==> (#[trigger] runs[i][j]).task_id@
                == tasks[i].id@,
    ensures
        results_of(collected(tasks, runs, count), tasks[k].id@) == (if k < count {
            scored(tasks[k], runs[k])
        } else {
            seq![]
        }),
    decreases count,
{
    if count > 0 {
        tasks_are_judged_on_their_own_results(tasks, runs, count - 1, k);
        let last = scored(tasks[count - 1], runs[count - 1]);
        results_of_add(collected(tasks, runs, count - 1), last, tasks[k].id@);
        assert forall|i: int| 0 <= i < last.len() implies (#[trigger] last[i]).task_id@
            == tasks[count - 1].id@ by {
            assert(runs[count - 1][i].task_id@ == tasks[count - 1].id@);
        }
        results_of_one_task(last, tasks[count - 1].id@, tasks[k].id@);
        let before = results_of(collected(tasks, runs, count - 1), tasks[k].id@);
        if k == count - 1 {
            assert(before + last =~= last);
        } else {
            if k < count - 1 {
                assert(tasks[k].id@ != tasks[count - 1].id@);
            } else {
                assert(tasks[count - 1].id@ != tasks[k].id@);
            }
            assert(before + Seq::<EvaluatedResult>::empty() =~= before);
        }
    }
}

/// The pairs of all tasks together: how many were resolved and how many failed
/// of each.
pub open spec fn pairs_judged(outcomes: Seq<(nat, nat)>) -> nat
    decreases outcomes.len(),
{
    if outcomes.len() == 0 {
        0
    } else {
        pairs_judged(outcomes.drop_last()) + outcomes.last().0 + outcomes.last().1
    }
}

/// Where every task accounts for all its pairs, resolved and failed pairs
/// together are the expected ones.
pub proof fn finished_runs_are_consistent(outcomes: Seq<(nat, nat)>, models: int)
    requires
        models >= 0,
        forall|t: int|
            0 <= t < outcomes.len() ==> (#[trigger] outcomes[t]).0 + outcomes[t].1 == pairs_of(
                models,
            ).len(),
    ensures
        pairs_judged(outcomes) == expected_pairs_spec(outcomes.len() as int, models),
    decreases outcomes.len(),
{
    pair_count(models);
    let pairs = models * (models - 1) / 2;
    assert(pairs == pairs_of(models).len());
    let count = outcomes.len() as int;
    if count > 0 {
        let head = outcomes.drop_last();
        assert forall|t: int| 0 <= t < head.len() implies (#[trigger] head[t]).0 + head[t].1
            == pairs_of(models).len() by {
            assert(head[t] == outcomes[t]);
        }
        finished_runs_are_consistent(head, models);
        assert(outcomes[count - 1] == outcomes.last());
        assert(count * pairs == (count - 1) * pairs + pairs) by (nonlinear_arith);
    } else {
        assert(0 * pairs == 0);
    }
}

/// What was entered is kept without the white space around it, in its order;
/// only blank texts are left out.
pub proof fn only_blank_names_are_dropped(texts: Seq<Seq<char>>)
    ensures
        tidied(texts) == texts.map_values(|text: Seq<char>| trimmed(text)).filter(
            |text: Seq<char>| text.len() > 0,
        ),
    decreases texts.len(),
{
    reveal(Seq::filter);
    let all = texts.map_values(|text: Seq<char>| trimmed(text));
    if texts.len() > 0 {
        only_blank_names_are_dropped(texts.drop_last());
        assert(all.drop_last() =~= texts.drop_last().map_values(
            |text: Seq<char>| trimmed(text),
        ));
        assert(all.last() == trimmed(texts.last()));
    } else {
        assert(all =~= Seq::<Seq<char>>::empty());
    }
}

/// A judge is named exactly by a text that is not blank, without the white space
/// around it.
pub proof fn blank_judges_are_none(judge: Option<String>)
    ensures
        judge_named(judge) is Some <==> judge is Some && trimmed(judge->Some_0@).len() > 0,
        judge_named(judge) matches Some(name) ==> name == trimmed(judge->Some_0@),
{
}

/// The results of a task are those with its id, in their order.
pub proof fn a_task_has_the_results_with_its_id(
    results: Seq<EvaluatedResult>,
    task_id: Seq<char>,
)
    ensures
        results_of(results, task_id) == results.filter(
            |result: EvaluatedResult| result.task_id@ == task_id,
        ),
    decreases results.len(),
{
    reveal(Seq::filter);
    if results.len() > 0 {
        a_task_has_the_results_with_its_id(results.drop_last(), task_id);
    } else {
        assert(results =~= Seq::<EvaluatedResult>::empty());
    }
}

/// As many pairs are expected as there are unordered pairs of models, once for
/// every task.
pub proof fn every_task_expects_every_pair(tasks: int, models: int)
    requires
        0 <= tasks,
        0 <= models,
    ensures
        expected_pairs_spec(tasks, models) == tasks * pairs_of(models).len(),
        expected_pairs_spec(tasks + 1, models) == expected_pairs_spec(tasks, models) + pairs_of(
            models,
        ).len(),
        expected_pairs_spec(0, models) == 0,
{
    pair_count(models);
    let pairs = models * (models - 1) / 2;
    assert(pairs == pairs_of(models).len());
    assert((tasks + 1) * pairs == tasks * pairs + pairs) by (nonlinear_arith);
    assert(0 * pairs == 0);
}

/// The names are all different exactly if no two places hold the same one, and
/// a name is reported as repeated only if two places do.
pub proof fn repeated_names_stand_twice(names: Seq<Seq<char>>, name: Seq<char>)
    ensures
        all_different(names) <==> forall|i: int, j: int|
            0 <= i < j < names.len() ==> #[trigger] names[i] != #[trigger] names[j],
        first_repeated(names, name) ==> exists|i: int, j: int|
            0 <= i < j < names.len() && #[trigger] names[i] == name && #[trigger] names[j] == name,
{
    if all_different(names) {
        assert forall|i: int, j: int| 0 <= i < j < names.len() implies #[trigger] names[i]
            != #[trigger] names[j] by {
            assert(!name_repeats(names, j));
        }
    }
    if first_repeated(names, name) {
        let k = choose|k: int|
            {
                &&& 0 <= k < names.len()
                &&& #[trigger] name_repeats(names, k)
                &&& names[k] == name
                &&& forall|t: int| 0 <= t < k ==> !#[trigger] name_repeats(names, t)
            };
        let j = choose|j: int| 0 <= j < k && #[trigger] names[j] == names[k];
        assert(names[j] == name && names[k] == name);
    }
}

/// A judge's run is recorded as complete exactly if as many pairs were resolved
/// as were expected and none failed.
pub proof fn complete_runs_resolved_every_pair(run: RunMetadata, expected: int, judged: Judged)
    requires
        records_coverage(run, expected, judged),
        0 <= expected <= usize::MAX,
        judged.judgments@.len() <= usize::MAX,
        judged.failures@.len() <= usize::MAX,
    ensures
        run.complete == Some(judged.judgments@.len() == expected && judged.failures@.len() == 0),
        run.expected_pairs->Some_0 == expected,
        run.resolved_pairs->Some_0 == judged.judgments@.len(),
        run.failed_pairs->Some_0 == judged.failures@.len(),
        run.judge_decoding == Some(JudgeDecoding { temperature: 0, max_tokens: 4096 }),
        run.orientation_agreement is Some,
        run.orientation_agreement->Some_0.resolved_pairs == judged.judgments@.len(),
        run.orientation_agreement->Some_0.orientation_agreeing_pairs == judged.judgments@.filter(
            |j: Judgment| j.agreement,
        ).len(),
{
    agreement_counts_every_pair_once(judged.judgments@, run.orientation_agreement->Some_0);
}

/// A run is recorded with what it was set up with, and with the settings that
/// every run has.
pub proof fn runs_record_their_setup(run: RunMetadata, config: ExecConfig)
    requires
        records_config(run, config),
    ensures
        run.models@ == config.models@,
        run.judge == config.judge,
        run.tasks == config.tasks_path,
        run.base_url == config.base_url,
        run.started_at == config.started_at,
        run.provider_concurrency == 8,
        run.request_timeout_secs == 120,
        run.connect_timeout_secs == 10,
        run.candidate_attempts == 3,
        run.judge_attempts == 3,
        run.candidate_max_tokens == 4096,
{
}

/// What is recorded of a judged run is what was judged: the judgments and the
/// failures as they are, a record of every model over those judgments, and
/// ratings from the run's own seed.
pub proof fn judged_runs_record_what_was_judged<
    R,
    F: Fn(&Tally) -> Result<Vec<R>, FitFailure>,
    P: Fn(&Vec<R>, u32) -> R,
>(output: Output<R>, config: ExecConfig, judged: Judged, fit: F, percentile: P)
    requires
        records_judgments(output, config, judged, fit, percentile),
    ensures
        output.judgments == Some(judged.judgments),
        output.judgment_failures == Some(judged.failures),
        forall|i: int|
            0 <= i < config.models@.len() ==> is_candidate(
                counted_models(output.statistics->Some_0@),
                (#[trigger] config.models@[i])@,
            ),
        forall|i: int|
            0 <= i < output.statistics->Some_0@.len() ==> (
            #[trigger] output.statistics->Some_0@[i]).wins == count(
                judged.judgments@,
                output.statistics->Some_0@[i].model@,
                Counted::Win,
            ),
        output.run.bootstrap_seed == Some(config.seed),
        output.run.bootstrap_replicates == Some(1000u32),
{
    let meta = BootstrapMeta {
        seed: output.run.bootstrap_seed->Some_0,
        replicates: output.run.bootstrap_replicates->Some_0,
        valid: output.run.bootstrap_valid,
        clusters: output.run.bootstrap_clusters->Some_0,
        ran: output.run.bootstrap_ran->Some_0,
        unavailable: output.run.bootstrap_unavailable,
    };
    resampling_needs_tasks_and_ratings(
        output.ratings->Some_0@,
        meta,
        judged.judgments@,
        config.models@,
        config.seed,
        fit,
        percentile,
    );
    let list = counted_models(output.statistics->Some_0@);
    assert forall|i: int| 0 <= i < config.models@.len() implies is_candidate(
        list,
        (#[trigger] config.models@[i])@,
    ) by {
        assert(lists_model(config.models@, config.models@[i]@));
        assert(lists_model(list, config.models@[i]@));
    }
    assert forall|i: int| 0 <= i < output.statistics->Some_0@.len() implies (
    #[trigger] output.statistics->Some_0@[i]).wins == count(
        judged.judgments@,
        output.statistics->Some_0@[i].model@,
        Counted::Win,
    ) by {
        assert(is_record(output.statistics->Some_0@[i], judged.judgments@));
    }
}

/// A configuration holds the candidates as they were entered, in their order,
/// and the judge that was named, who is none of them. It is refused exactly if
/// there is no candidate, a candidate is named twice, or the judge is one.
pub proof fn configurations_hold_what_was_entered(
    r: Result<ExecConfig, Error>,
    models: Seq<Seq<char>>,
    judge: Option<Seq<char>>,
    tasks: Vec<Task>,
    base_url: String,
    seed: u64,
)
    requires
        is_configured(r, models, judge, tasks, base_url, seed),
    ensures
        r is Ok <==> {
            &&& models.len() > 0
            &&& forall|i: int, j: int|
                0 <= i < j < models.len() ==> #[trigger] models[i] != #[trigger] models[j]
            &&& judge is Some ==> !models.contains(judge->Some_0)
        },
        r matches Ok(config) ==> {
            &&& config.models@.len() == models.len()
            &&& forall|i: int| 0 <= i < models.len() ==> (#[trigger] config.models@[i])@ == models[i]
            &&& config.judge is Some <==> judge is Some
            &&& config.judge matches Some(chosen) ==> judge == Some(chosen@)
            &&& config.tasks == tasks
            &&& config.base_url == base_url
            &&& config.seed == seed
            &&& config.tasks_path is None
        },
        r matches Err(Error::JudgeIsCandidate(model)) ==> judge == Some(model@),
{
    match r {
        Ok(config) => {
            repeated_names_stand_twice(models, seq![]);
            assert forall|i: int| 0 <= i < models.len() implies (#[trigger] config.models@[i])@
                == models[i] by {
                assert(names_of(config.models@)[i] == config.models@[i]@);
            }
        },
        Err(Error::DuplicateModel(model)) => {
            repeated_names_stand_twice(models, model@);
        },
        Err(_) => {},
    }
}

/// Nothing of a judge is recorded in a run without one.
pub proof fn runs_without_a_judge_record_none<R>(output: Output<R>)
    requires
        records_no_judge(output),
    ensures
        output.judgments is None && output.judgment_failures is None && output.statistics is None
            && output.ratings is None,
        output.run.complete is None && output.run.expected_pairs is None
            && output.run.resolved_pairs is None && output.run.failed_pairs is None,
        output.run.bootstrap_seed is None && output.run.bootstrap_ran is None
            && output.run.bootstrap_valid is None && output.run.judge_decoding is None,
{
}

/// Whatever `exec_config_at` returns: the names that were entered without the
/// white space around them, blank ones left out, in their order; it is refused
/// exactly if none is left, one stands twice, or the judge is one of them.
pub proof fn entered_names_make_the_configuration(
    models: Vec<String>,
    judge: Option<String>,
    tasks: Vec<Task>,
    base_url: String,
    seed: u64,
    started_at: String,
    r: Result<ExecConfig, Error>,
    names: Seq<Seq<char>>,
)
    requires
        call_ensures(exec_config_at, (models, judge, tasks, base_url, seed, started_at), r),
        names == Seq::new(models@.len(), |i: int| trimmed(models@[i]@)).filter(
            |name: Seq<char>| name.len() > 0,
        ),
    ensures
        ({
            let judged = judge is Some && trimmed(judge->Some_0@).len() > 0;
            let judged_by = trimmed(judge->Some_0@);
            &&& r is Ok <==> {
                &&& names.len() > 0
                &&& forall|i: int, j: int|
                    0 <= i < j < names.len() ==> #[trigger] names[i] != #[trigger] names[j]
                &&& judged ==> !names.contains(judged_by)
            }
            &&& r matches Ok(config) ==> {
                &&& config.models@.len() == names.len()
                &&& forall|i: int|
                    0 <= i < names.len() ==> (#[trigger] config.models@[i])@ == names[i]
                &&& config.judge is Some <==> judged
                &&& judged ==> config.judge->Some_0@ == judged_by
                &&& config.tasks == tasks
                &&& config.base_url == base_url
                &&& config.seed == seed
                &&& config.started_at == started_at
            }
        }),
{
    let texts = texts_of(models@);
    only_blank_names_are_dropped(texts);
    assert(texts.map_values(|text: Seq<char>| trimmed(text)) =~= Seq::new(
        models@.len(),
        |i: int| trimmed(models@[i]@),
    ));
    assert((|text: Seq<char>| text.len() > 0) =~= (|name: Seq<char>| name.len() > 0));
    assert(tidied(texts) == names);
    blank_judges_are_none(judge);
    configurations_hold_what_was_entered(
        r,
        tidied(texts),
        judge_named(judge),
        tasks,
        base_url,
        seed,
    );
}

/// Whatever `results_for_task` returns are the results with the id of the task,
/// all of them and in their order.
pub proof fn results_are_those_of_the_task(
    results: &[EvaluatedResult],
    task: &Task,
    r: Vec<EvaluatedResult>,
)
    requires
        call_ensures(results_for_task, (results, task), r),
    ensures
        ({
            let id = task.id@;
            r@ == results@.filter(|result: EvaluatedResult| result.task_id@ == id)
        }),
{
    a_task_has_the_results_with_its_id(results@, task.id@);
}

/// Whatever `expected_pairs` returns is one for every two models and every task.
pub proof fn every_two_models_meet_on_every_task(
    tasks: usize,
    models: usize,
    pairs: Vec<(usize, usize)>,
    r: usize,
)
    requires
        call_ensures(pair_indices, (models,), pairs),
        call_ensures(expected_pairs, (tasks, models), r),
    ensures
        r == tasks * pairs@.len(),
        2 * r == tasks * (models * (models - 1)),
{
    every_task_expects_every_pair(tasks as int, models as int);
    let listed = pairs@.map_values(|p: (usize, usize)| (p.0 as int, p.1 as int));
    assert(listed.len() == pairs@.len());
    pair_count(models as int);
    assert(2 * (tasks * pairs@.len()) == tasks * (pairs@.len() * 2)) by (nonlinear_arith);
}

/// The judge may be any model but a candidate.
pub proof fn judges_are_no_candidates(
    models: &[ModelId],
    judge: &ModelId,
    r: Result<(), Error>,
    none: Result<(), Error>,
)
    requires
        call_ensures(validate_judge, (models, Some(judge)), r),
        call_ensures(validate_judge, (models, None), none),
    ensures
        none is Ok,
        r is Err <==> exists|i: int| 0 <= i < models@.len() && (#[trigger] models@[i])@ == judge@,
        r matches Err(error) ==> (error matches Error::JudgeIsCandidate(model) && model@ == judge@),
{
}

/// A run with failed pairs ends in an error that tells how many.
pub proof fn incomplete_runs_end_in_an_error(failed_pairs: usize, r: Result<(), Error>)
    requires
        call_ensures(completion, (failed_pairs,), r),
    ensures
        r is Ok <==> failed_pairs == 0,
        r matches Err(error) ==> error == Error::IncompleteJudgments(failed_pairs),
{
}

/// A run goes through the tasks in their order, first for all answers and then,
/// if there is a judge, for all judgments, each task with its own results.
pub proof fn answers_come_before_judgments(
    progress: &Collection,
    config: &ExecConfig,
    r: ExecStep,
)
    requires
        call_ensures(Collection::step, (progress, config), r),
    ensures
        r is Candidates <==> progress.executed < config.tasks@.len(),
        r is Judge <==> progress.executed >= config.tasks@.len() && config.judge is Some
            && progress.judged < config.tasks@.len(),
        r matches ExecStep::Candidates { task } ==> task == progress.executed,
        r matches ExecStep::Judge { task, results } ==> task == progress.judged && ({
            let id = config.tasks@[task as int].id@;
            results@ == progress.results@.filter(
                |result: EvaluatedResult| result.task_id@ == id,
            )
        }),
{
    if let ExecStep::Judge { task, results } = r {
        a_task_has_the_results_with_its_id(progress.results@, config.tasks@[task as int].id@);
    }
}

/// Whatever `finish_exec` returns of a run without a judge holds the tasks and
/// the results as they were, with their comparisons, and nothing of judging.
pub proof fn unjudged_runs_are_recorded<
    R: Copy,
    F: Fn(&Tally) -> Result<Vec<R>, FitFailure>,
    P: Fn(&Vec<R>, u32) -> R,
>(
    config: &ExecConfig,
    results: Vec<EvaluatedResult>,
    all: &[EvaluatedResult],
    fit: &F,
    percentile: &P,
    comparisons: Vec<Comparison>,
    r: Result<(Output<R>, usize), Error>,
)
    requires
        call_ensures(finish_exec::<R, F, P>, (config, results, None, fit, percentile), r),
        all@ == results@,
        call_ensures(compare_all, (all,), comparisons),
    ensures
        r is Ok,
        r->Ok_0.1 == 0,
        ({
            let output = r->Ok_0.0;
            &&& output.tasks@ == config.tasks@
            &&& output.results == results
            &&& output.comparisons@ == comparisons@
            &&& output.judgments is None && output.judgment_failures is None
            &&& output.statistics is None && output.ratings is None
            &&& output.run.complete is None
            &&& output.run.models@ == config.models@
        }),
{
}

/// Whatever `finish_exec` returns of a judged run: an error exactly if the pairs
/// that were resolved or failed are not as many as were expected, and otherwise
/// all that was judged, with the run complete exactly if no pair failed.
pub proof fn judged_runs_are_recorded<
    R: Copy,
    F: Fn(&Tally) -> Result<Vec<R>, FitFailure>,
    P: Fn(&Vec<R>, u32) -> R,
>(
    config: &ExecConfig,
    results: Vec<EvaluatedResult>,
    judged: Judged,
    all: &[EvaluatedResult],
    fit: &F,
    percentile: &P,
    comparisons: Vec<Comparison>,
    pairs: Vec<(usize, usize)>,
    r: Result<(Output<R>, usize), Error>,
)
    requires
        call_ensures(finish_exec::<R, F, P>, (config, results, Some(judged), fit, percentile), r),
        all@ == results@,
        call_ensures(compare_all, (all,), comparisons),
        call_ensures(pair_indices, (config.models@.len() as usize,), pairs),
        config.models@.len() <= usize::MAX,
        config.tasks@.len() * pairs@.len() <= usize::MAX,
    ensures
        r is Ok <==> judged.judgments@.len() + judged.failures@.len() == config.tasks@.len()
            * pairs@.len(),
        r matches Ok((output, failed)) ==> {
            &&& failed == judged.failures@.len()
            &&& output.tasks@ == config.tasks@
            &&& output.results == results
            &&& output.comparisons@ == comparisons@
            &&& output.judgments == Some(judged.judgments)
            &&& output.judgment_failures == Some(judged.failures)
            &&& output.run.complete == Some(judged.failures@.len() == 0)
            &&& output.run.models@ == config.models@
            &&& output.run.judge == config.judge
            &&& output.run.expected_pairs == Some((config.tasks@.len() * pairs@.len()) as usize)
            &&& output.run.resolved_pairs == Some(judged.judgments@.len() as usize)
            &&& output.run.failed_pairs == Some(judged.failures@.len() as usize)
            &&& output.run.bootstrap_seed == Some(config.seed)
        },
{
    let (tasks, models) = (config.tasks@.len() as int, config.models@.len() as int);
    every_task_expects_every_pair(tasks, models);
    let listed = pairs@.map_values(|p: (usize, usize)| (p.0 as int, p.1 as int));
    assert(listed.len() == pairs@.len());
    assert(pairs_expected(*config) == config.tasks@.len() * pairs@.len());
    if let Ok((output, failed)) = r {
        complete_iff_nothing_failed(output.run, pairs_expected(*config), judged);
        judged_runs_record_what_was_judged(output, *config, judged, *fit, *percentile);
    }
}

/// Whatever `unique_models` returns: the models of the names in their order, or,
/// if a name stands twice, an error with the one that comes up a second time
/// first.
pub proof fn models_are_named_once(ids: Vec<String>, r: Result<Vec<ModelId>, Error>)
    requires
        call_ensures(unique_models, (ids,), r),
    ensures
        r is Ok <==> forall|i: int, j: int|
            0 <= i < j < ids@.len() ==> (#[trigger] ids@[i])@ != (#[trigger] ids@[j])@,
        r matches Ok(models) ==> {
            &&& models@.len() == ids@.len()
            &&& forall|i: int| 0 <= i < ids@.len() ==> (#[trigger] models@[i])@ == ids@[i]@
        },
        r matches Err(error) ==> (error matches Error::DuplicateModel(model) && exists|
            i: int,
            j: int,
        |
            0 <= i < j < ids@.len() && (#[trigger] ids@[i])@ == model@ && (
            #[trigger] ids@[j])@ == model@ && forall|s: int, t: int|
                0 <= s < t < j ==> (#[trigger] ids@[s])@ != (#[trigger] ids@[t])@),
{
    let names = texts_of(ids@);
    repeated_names_stand_twice(names, seq![]);
    assert forall|i: int| 0 <= i < ids@.len() implies #[trigger] names[i] == ids@[i]@ by {}
    if all_different(names) {
        assert forall|i: int, j: int| 0 <= i < j < ids@.len() implies (#[trigger] ids@[i])@ != (
        #[trigger] ids@[j])@ by {
            assert(names[i] != names[j]);
        }
    }
    match r {
        Ok(models) => {
            assert forall|i: int| 0 <= i < ids@.len() implies (
            #[trigger] models@[i])@ == ids@[i]@ by {
                assert(names_of(models@)[i] == models@[i]@);
            }
        },
        Err(Error::DuplicateModel(model)) => {
            let k = choose|k: int|
                {
                    &&& 0 <= k < names.len()
                    &&& #[trigger] name_repeats(names, k)
                    &&& names[k] == model@
                    &&& forall|t: int| 0 <= t < k ==> !#[trigger] name_repeats(names, t)
                };
            let i = choose|i: int| 0 <= i < k && #[trigger] names[i] == names[k];
            assert(ids@[i]@ == model@ && ids@[k]@ == model@);
            assert forall|s: int, t: int| 0 <= s < t < k implies (#[trigger] ids@[s])@ != (
            #[trigger] ids@[t])@ by {
                assert(!name_repeats(names, t));
                assert(names[s] != names[t]);
            }
        },
        Err(_) => {},
    }
}

} // verus!
