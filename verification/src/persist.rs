//! The record of a run.
use crate::bootstrap::{BootstrapMeta, BootstrapUnavailable};
use crate::compare::Comparison;
use crate::evaluate::EvaluatedResult;
use crate::judge::{Judgment, JudgmentFailure, JUDGE_TEMPERATURE};
use crate::provider::{
    ModelId, CONNECT_TIMEOUT_SECS, DEFAULT_MAX_TOKENS, PROVIDER_CONCURRENCY, REQUEST_TIMEOUT_SECS,
};
use crate::rating::ModelRating;
use crate::retry::ATTEMPTS;
use crate::stats::{ModelStats, PairAgreement};
use crate::task::Task;
use vstd::prelude::*;

verus! {

/// The version that runs are recorded with.
pub const VERSION: &'static str = "0.1.0";

/// How judge requests are decoded.
#[derive(Debug, Clone, Copy, PartialEq, Eq, Structural)]
pub struct JudgeDecoding {
    /// In thousandths.
    pub temperature: u32,
    pub max_tokens: u32,
}

impl JudgeDecoding {
    /// The decoding that every judge request asks for.
    pub fn arena_default() -> (r: Self)
        ensures
            r.temperature == JUDGE_TEMPERATURE,
            r.max_tokens == DEFAULT_MAX_TOKENS,
    {
        JudgeDecoding { temperature: JUDGE_TEMPERATURE, max_tokens: DEFAULT_MAX_TOKENS }
    }
}

/// Where a run came from and how it went.
#[derive(Debug)]
pub struct RunMetadata {
    pub version: String,
    pub models: Vec<ModelId>,
    pub judge: Option<ModelId>,
    pub tasks: Option<String>,
    pub base_url: String,
    pub started_at: String,
    pub provider_concurrency: usize,
    pub request_timeout_secs: u64,
    pub connect_timeout_secs: u64,
    pub candidate_attempts: u32,
    pub judge_attempts: u32,
    pub candidate_max_tokens: u32,
    pub complete: Option<bool>,
    pub expected_pairs: Option<usize>,
    pub resolved_pairs: Option<usize>,
    pub failed_pairs: Option<usize>,
    pub orientation_agreement: Option<PairAgreement>,
    pub judge_decoding: Option<JudgeDecoding>,
    pub bootstrap_seed: Option<u64>,
    pub bootstrap_replicates: Option<u32>,
    pub bootstrap_clusters: Option<usize>,
    pub bootstrap_ran: Option<bool>,
    pub bootstrap_valid: Option<u32>,
    pub bootstrap_unavailable: Option<BootstrapUnavailable>,
}

/// A run is complete when every expected pair was resolved and none failed.
pub open spec fn is_complete(expected: usize, resolved: usize, failed: usize) -> bool {
    resolved == expected && failed == 0
}

impl RunMetadata {
    /// The record of a run without a judge's part.
    pub fn new(
        models: Vec<ModelId>,
        judge: Option<ModelId>,
        tasks: Option<String>,
        started_at: String,
        base_url: String,
    ) -> (r: Self)
        ensures
            r.version@ == VERSION@,
            r == (RunMetadata {
                version: r.version,
                models,
                judge,
                tasks,
                base_url,
                started_at,
                provider_concurrency: PROVIDER_CONCURRENCY,
                request_timeout_secs: REQUEST_TIMEOUT_SECS,
                connect_timeout_secs: CONNECT_TIMEOUT_SECS,
                candidate_attempts: ATTEMPTS,
                judge_attempts: ATTEMPTS,
                candidate_max_tokens: DEFAULT_MAX_TOKENS,
                complete: None,
                expected_pairs: None,
                resolved_pairs: None,
                failed_pairs: None,
                orientation_agreement: None,
                judge_decoding: None,
                bootstrap_seed: None,
                bootstrap_replicates: None,
                bootstrap_clusters: None,
                bootstrap_ran: None,
                bootstrap_valid: None,
                bootstrap_unavailable: None,
            }),
    {
        RunMetadata {
            version: VERSION.to_owned(),
            models,
            judge,
            tasks,
            base_url,
            started_at,
            provider_concurrency: PROVIDER_CONCURRENCY,
            request_timeout_secs: REQUEST_TIMEOUT_SECS,
            connect_timeout_secs: CONNECT_TIMEOUT_SECS,
            candidate_attempts: ATTEMPTS,
            judge_attempts: ATTEMPTS,
            candidate_max_tokens: DEFAULT_MAX_TOKENS,
            complete: None,
            expected_pairs: None,
            resolved_pairs: None,
            failed_pairs: None,
            orientation_agreement: None,
            judge_decoding: None,
            bootstrap_seed: None,
            bootstrap_replicates: None,
            bootstrap_clusters: None,
            bootstrap_ran: None,
            bootstrap_valid: None,
            bootstrap_unavailable: None,
        }
    }

    /// Adds how many unordered pairs were expected, resolved and failed.
    pub fn with_judge_coverage(self, expected: usize, resolved: usize, failed: usize) -> (r: Self)
        ensures
            r == (RunMetadata {
                complete: Some(is_complete(expected, resolved, failed)),
                expected_pairs: Some(expected),
                resolved_pairs: Some(resolved),
                failed_pairs: Some(failed),
                ..self
            }),
    {
        RunMetadata {
            complete: Some(resolved == expected && failed == 0),
            expected_pairs: Some(expected),
            resolved_pairs: Some(resolved),
            failed_pairs: Some(failed),
            ..self
        }
    }

    /// Adds how often the two orientations agreed.
    pub fn with_orientation_agreement(self, agreement: PairAgreement) -> (r: Self)
        ensures
            r == (RunMetadata { orientation_agreement: Some(agreement), ..self }),
    {
        RunMetadata { orientation_agreement: Some(agreement), ..self }
    }

    /// Adds how judge requests were decoded.
    pub fn with_judge_decoding(self, decoding: JudgeDecoding) -> (r: Self)
        ensures
            r == (RunMetadata { judge_decoding: Some(decoding), ..self }),
    {
        RunMetadata { judge_decoding: Some(decoding), ..self }
    }

    /// Adds what resampling was asked for and came to.
    pub fn with_bootstrap(self, meta: &BootstrapMeta) -> (r: Self)
        ensures
            r == (RunMetadata {
                bootstrap_seed: Some(meta.seed),
                bootstrap_replicates: Some(meta.replicates),
                bootstrap_clusters: Some(meta.clusters),
                bootstrap_ran: Some(meta.ran),
                bootstrap_valid: meta.valid,
                bootstrap_unavailable: meta.unavailable,
                ..self
            }),
    {
        RunMetadata {
            bootstrap_seed: Some(meta.seed),
            bootstrap_replicates: Some(meta.replicates),
            bootstrap_clusters: Some(meta.clusters),
            bootstrap_ran: Some(meta.ran),
            bootstrap_valid: meta.valid,
            bootstrap_unavailable: meta.unavailable,
            ..self
        }
    }
}

/// `c` can stand at place `k` of a time written `yyyy-mm-ddThh:mm:ssZ`.
pub open spec fn fits_timestamp(k: int, c: char) -> bool {
    if k == 4 || k == 7 {
        c == '-'
    } else if k == 10 {
        c == 'T'
    } else if k == 13 || k == 16 {
        c == ':'
    } else if k == 19 {
        c == 'Z'
    } else {
        '0' <= c <= '9'
    }
}

/// The text ends in a time written `yyyy-mm-ddThh:mm:ssZ`. More than that is
/// there only of a year with a sign and further digits.
pub open spec fn is_timestamp(text: Seq<char>) -> bool {
    &&& text.len() >= 20
    &&& forall|k: int|
        0 <= k < 20 ==> #[trigger] fits_timestamp(k, text[text.len() - 20 + k])
}

/// `chrono::Utc::now` written by `DateTime::to_rfc3339_opts` with whole seconds
/// and a `Z`: the result is `yyyy-mm-ddThh:mm:ssZ`, where a year after 9999 has
/// a sign and more digits. Which moment it is is left open, and so is what
/// happens if the machine's clock stands before 1970.
#[verifier::external_body]
pub fn utc_timestamp() -> (r: String)
    ensures
        is_timestamp(r@),
{
    chrono::Utc::now().to_rfc3339_opts(chrono::SecondsFormat::Secs, true)
}

/// A run with all that it produced. What belongs to judging is there exactly
/// if a judge was used.
#[derive(Debug)]
pub struct Output<R> {
    pub run: RunMetadata,
    pub tasks: Vec<Task>,
    pub results: Vec<EvaluatedResult>,
    pub comparisons: Vec<Comparison>,
    pub judgments: Option<Vec<Judgment>>,
    pub judgment_failures: Option<Vec<JudgmentFailure>>,
    pub statistics: Option<Vec<ModelStats>>,
    pub ratings: Option<Vec<ModelRating<R>>>,
}

/// Why a record could not be written or read.
#[derive(Debug, PartialEq, Eq)]
pub enum PersistError {
    Io(String),
    Serialize(String),
}

impl PersistError {
    pub open spec fn message_spec(self) -> Seq<char> {
        match self {
            PersistError::Io(cause) => "failed to write results file: "@ + cause@,
            PersistError::Serialize(cause) => "failed to serialize results: "@ + cause@,
        }
    }

    /// The error in words.
    pub fn message(&self) -> (r: String)
        ensures
            r@ == self.message_spec(),
    {
        match self {
            PersistError::Io(cause) => {
                let mut r: String = "failed to write results file: ".to_owned();
                r.push_str(cause.as_str());
                r
            },
            PersistError::Serialize(cause) => {
                let mut r: String = "failed to serialize results: ".to_owned();
                r.push_str(cause.as_str());
                r
            },
        }
    }
}

/// A run is recorded as complete exactly if every expected pair was resolved and
/// none failed, and nothing else of the record changes.
pub proof fn complete_runs_lack_nothing(
    run: RunMetadata,
    expected: usize,
    resolved: usize,
    failed: usize,
    r: RunMetadata,
)
    requires
        call_ensures(RunMetadata::with_judge_coverage, (run, expected, resolved, failed), r),
    ensures
        r.complete == Some(true) <==> resolved == expected && failed == 0,
        r.complete == Some(false) <==> resolved != expected || failed > 0,
        r.expected_pairs == Some(expected),
        r.resolved_pairs == Some(resolved),
        r.failed_pairs == Some(failed),
        r == (RunMetadata {
            complete: r.complete,
            expected_pairs: r.expected_pairs,
            resolved_pairs: r.resolved_pairs,
            failed_pairs: r.failed_pairs,
            ..run
        }),
{
}

/// What resampling came to is recorded as it was, whatever was recorded before,
/// and nothing else of the record changes.
pub proof fn resampling_is_recorded(run: RunMetadata, meta: &BootstrapMeta, r: RunMetadata)
    requires
        call_ensures(RunMetadata::with_bootstrap, (run, meta), r),
    ensures
        r.bootstrap_seed == Some(meta.seed),
        r.bootstrap_replicates == Some(meta.replicates),
        r.bootstrap_clusters == Some(meta.clusters),
        r.bootstrap_ran == Some(meta.ran),
        r.bootstrap_valid == meta.valid,
        r.bootstrap_unavailable == meta.unavailable,
        r.complete == run.complete && r.models == run.models && r.judge == run.judge,
{
}

} // verus!
