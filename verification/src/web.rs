//! A run as it is followed from a browser.
use crate::event::ExperimentEvent;
use crate::exec::{expected_pairs, expected_pairs_spec, model_view, ExecConfig};
use crate::judge::{
    text_view, Judgment, JudgmentFailure, JudgmentFailureView, JudgmentView,
};
use crate::pairs::{pair_count, pair_indices, pairs_in_rows, pairs_inside, pairs_of};
use crate::provider::ModelId;
use crate::task::Task;
use crate::text::{is_empty_text, text_same, trimmed};
use vstd::prelude::*;

verus! {

/// How far a run is.
#[derive(Clone, Copy, Debug, PartialEq, Eq, Structural)]
pub enum RunStatus {
    Running,
    Complete,
    Incomplete,
    Failed,
}

/// How far a pair is.
#[derive(Clone, Copy, Debug, PartialEq, Eq, Structural)]
pub enum PairStatus {
    Waiting,
    Judging,
    Resolved,
    Failed,
}

/// One pair of models on one task.
#[derive(Debug, PartialEq, Eq)]
pub struct PairRow {
    pub task_id: String,
    pub model_a: String,
    pub model_b: String,
    pub status: PairStatus,
    pub judgment: Option<Judgment>,
    pub failure: Option<JudgmentFailure>,
}

/// A pair row, with its texts as sequences of characters.
pub struct PairRowView {
    pub task_id: Seq<char>,
    pub model_a: Seq<char>,
    pub model_b: Seq<char>,
    pub status: PairStatus,
    pub judgment: Option<JudgmentView>,
    pub failure: Option<JudgmentFailureView>,
}

/// A judgment that may be absent.
pub open spec fn judgment_view(judgment: Option<Judgment>) -> Option<JudgmentView> {
    match judgment {
        Some(judgment) => Some(judgment@),
        None => None,
    }
}

/// A failure that may be absent.
pub open spec fn failure_view(failure: Option<JudgmentFailure>) -> Option<JudgmentFailureView> {
    match failure {
        Some(failure) => Some(failure@),
        None => None,
    }
}

impl View for PairRow {
    type V = PairRowView;

    open spec fn view(&self) -> PairRowView {
        PairRowView {
            task_id: self.task_id@,
            model_a: self.model_a@,
            model_b: self.model_b@,
            status: self.status,
            judgment: judgment_view(self.judgment),
            failure: failure_view(self.failure),
        }
    }
}

impl Clone for PairRow {
    fn clone(&self) -> (r: Self)
        ensures
            r@ == self@,
    {
        let judgment: Option<Judgment> = match &self.judgment {
            Some(judgment) => Some(judgment.clone()),
            None => None,
        };
        let failure: Option<JudgmentFailure> = match &self.failure {
            Some(failure) => Some(failure.clone()),
            None => None,
        };
        PairRow {
            task_id: self.task_id.clone(),
            model_a: self.model_a.clone(),
            model_b: self.model_b.clone(),
            status: self.status,
            judgment,
            failure,
        }
    }
}

/// The rows, with their texts as sequences of characters.
pub open spec fn rows_view(rows: Seq<PairRow>) -> Seq<PairRowView> {
    rows.map_values(|row: PairRow| row@)
}

fn copy_rows(rows: &Vec<PairRow>) -> (r: Vec<PairRow>)
    ensures
        rows_view(r@) == rows_view(rows@),
{
    let mut r: Vec<PairRow> = Vec::new();
    let mut k: usize = 0;
    while k < rows.len()
        invariant
            k <= rows@.len(),
            rows_view(r@) == rows_view(rows@).take(k as int),
        decreases rows@.len() - k,
    {
        let ghost before = r@;
        r.push(rows[k].clone());
        proof {
            assert(rows_view(r@) =~= rows_view(before).push(rows@[k as int]@));
            assert(rows_view(rows@).take(k + 1) =~= rows_view(rows@).take(k as int).push(
                rows@[k as int]@,
            ));
        }
        k += 1;
    }
    proof {
        assert(rows_view(rows@).take(rows@.len() as int) =~= rows_view(rows@));
    }
    r
}

/// What is known of a run.
#[derive(Debug)]
pub struct RunState {
    pub seq: u64,
    pub status: RunStatus,
    pub error: Option<String>,
    pub candidate_count: usize,
    pub task_count: usize,
    pub judge: Option<String>,
    pub started_at: String,
    pub candidate_completed: usize,
    pub candidate_total: usize,
    pub expected_pairs: usize,
    pub resolved_pairs: usize,
    pub failed_pairs: usize,
    pub pairs: Vec<PairRow>,
    pub output_path: Option<String>,
}

/// What is known of a run, with its texts as sequences of characters.
pub struct RunStateView {
    pub seq: u64,
    pub status: RunStatus,
    pub error: Option<Seq<char>>,
    pub candidate_count: usize,
    pub task_count: usize,
    pub judge: Option<Seq<char>>,
    pub started_at: Seq<char>,
    pub candidate_completed: usize,
    pub candidate_total: usize,
    pub expected_pairs: usize,
    pub resolved_pairs: usize,
    pub failed_pairs: usize,
    pub pairs: Seq<PairRowView>,
    pub output_path: Option<Seq<char>>,
}

impl View for RunState {
    type V = RunStateView;

    open spec fn view(&self) -> RunStateView {
        RunStateView {
            seq: self.seq,
            status: self.status,
            error: text_view(self.error),
            candidate_count: self.candidate_count,
            task_count: self.task_count,
            judge: text_view(self.judge),
            started_at: self.started_at@,
            candidate_completed: self.candidate_completed,
            candidate_total: self.candidate_total,
            expected_pairs: self.expected_pairs,
            resolved_pairs: self.resolved_pairs,
            failed_pairs: self.failed_pairs,
            pairs: rows_view(self.pairs@),
            output_path: text_view(self.output_path),
        }
    }
}

/// What is known of a run at one moment, under the run's id.
#[derive(Debug)]
pub struct RunSnapshot {
    pub run_id: String,
    pub state: RunState,
}

/// What a browser is told.
#[derive(Debug)]
pub enum ClientEvent {
    Snapshot { snapshot: Box<RunSnapshot> },
    CandidateFinished { seq: u64, task_id: String, model: String, duration_ms: u64 },
    PairResolved { seq: u64, judgment: Judgment },
    PairFailed { seq: u64, failure: JudgmentFailure },
    RunComplete {
        seq: u64,
        expected_pairs: usize,
        resolved_pairs: usize,
        failed_pairs: usize,
        output_path: Option<String>,
    },
    RunFailed { seq: u64, error: String },
}

/// What a browser is told, with texts as sequences of characters.
pub enum ClientEventView {
    Snapshot { run_id: Seq<char>, state: RunStateView },
    CandidateFinished { seq: u64, task_id: Seq<char>, model: Seq<char>, duration_ms: u64 },
    PairResolved { seq: u64, judgment: JudgmentView },
    PairFailed { seq: u64, failure: JudgmentFailureView },
    RunComplete {
        seq: u64,
        expected_pairs: usize,
        resolved_pairs: usize,
        failed_pairs: usize,
        output_path: Option<Seq<char>>,
    },
    RunFailed { seq: u64, error: Seq<char> },
}

impl View for ClientEvent {
    type V = ClientEventView;

    open spec fn view(&self) -> ClientEventView {
        match *self {
            ClientEvent::Snapshot { snapshot } => ClientEventView::Snapshot {
                run_id: snapshot.run_id@,
                state: snapshot.state@,
            },
            ClientEvent::CandidateFinished {
                seq,
                task_id,
                model,
                duration_ms,
            } => ClientEventView::CandidateFinished {
                seq,
                task_id: task_id@,
                model: model@,
                duration_ms,
            },
            ClientEvent::PairResolved { seq, judgment } => ClientEventView::PairResolved {
                seq,
                judgment: judgment@,
            },
            ClientEvent::PairFailed { seq, failure } => ClientEventView::PairFailed {
                seq,
                failure: failure@,
            },
            ClientEvent::RunComplete {
                seq,
                expected_pairs,
                resolved_pairs,
                failed_pairs,
                output_path,
            } => ClientEventView::RunComplete {
                seq,
                expected_pairs,
                resolved_pairs,
                failed_pairs,
                output_path: text_view(output_path),
            },
            ClientEvent::RunFailed { seq, error } => ClientEventView::RunFailed {
                seq,
                error: error@,
            },
        }
    }
}

/// The number of the event.
pub open spec fn seq_of(event: ClientEventView) -> u64 {
    match event {
        ClientEventView::Snapshot { state, .. } => state.seq,
        ClientEventView::CandidateFinished { seq, .. } => seq,
        ClientEventView::PairResolved { seq, .. } => seq,
        ClientEventView::PairFailed { seq, .. } => seq,
        ClientEventView::RunComplete { seq, .. } => seq,
        ClientEventView::RunFailed { seq, .. } => seq,
    }
}

/// Nothing follows the event.
pub open spec fn is_last(event: ClientEventView) -> bool {
    match event {
        ClientEventView::Snapshot { state, .. } => state.status != RunStatus::Running,
        ClientEventView::RunComplete { .. } => true,
        ClientEventView::RunFailed { .. } => true,
        _ => false,
    }
}

/// What to do with an event on its way to a browser.
#[derive(Clone, Copy, Debug, PartialEq, Eq, Structural)]
pub enum StreamStep {
    Skip,
    Send,
    SendAndStop,
}

impl ClientEvent {
    /// The number of the event.
    pub fn seq(&self) -> (r: u64)
        ensures
            r == seq_of(self@),
    {
        match self {
            ClientEvent::Snapshot { snapshot } => snapshot.state.seq,
            ClientEvent::CandidateFinished { seq, .. } => *seq,
            ClientEvent::PairResolved { seq, .. } => *seq,
            ClientEvent::PairFailed { seq, .. } => *seq,
            ClientEvent::RunComplete { seq, .. } => *seq,
            ClientEvent::RunFailed { seq, .. } => *seq,
        }
    }

    /// Whether nothing follows the event.
    pub fn is_terminal(&self) -> (r: bool)
        ensures
            r == is_last(self@),
    {
        match self {
            ClientEvent::Snapshot { snapshot } => snapshot.state.status != RunStatus::Running,
            ClientEvent::RunComplete { .. } | ClientEvent::RunFailed { .. } => true,
            _ => false,
        }
    }

    /// What to do with the event for a browser that was first sent a snapshot
    /// with the number `seen`: what the snapshot already holds is not repeated.
    pub fn stream_step(&self, seen: u64) -> (r: StreamStep)
        ensures
            r == (if seq_of(self@) <= seen {
                StreamStep::Skip
            } else if is_last(self@) {
                StreamStep::SendAndStop
            } else {
                StreamStep::Send
            }),
    {
        if self.seq() <= seen {
            StreamStep::Skip
        } else if self.is_terminal() {
            StreamStep::SendAndStop
        } else {
            StreamStep::Send
        }
    }
}

/// The row is of the given pair on the given task, in either order.
pub open spec fn is_pair(
    row: PairRowView,
    task_id: Seq<char>,
    model_a: Seq<char>,
    model_b: Seq<char>,
) -> bool {
    row.task_id == task_id && ((row.model_a == model_a && row.model_b == model_b) || (row.model_a
        == model_b && row.model_b == model_a))
}

/// Whether the row is of the given pair on the given task, in either order.
pub fn same_unordered_pair(row: &PairRow, task_id: &str, model_a: &str, model_b: &str) -> (r: bool)
    ensures
        r == is_pair(row@, task_id@, model_a@, model_b@),
{
    text_same(row.task_id.as_str(), task_id) && ((text_same(row.model_a.as_str(), model_a)
        && text_same(row.model_b.as_str(), model_b)) || (text_same(row.model_a.as_str(), model_b)
        && text_same(row.model_b.as_str(), model_a)))
}

/// The first row of the pair from `start` on, or the number of rows.
pub open spec fn row_of_pair(
    rows: Seq<PairRowView>,
    task_id: Seq<char>,
    model_a: Seq<char>,
    model_b: Seq<char>,
    start: int,
) -> int
    decreases rows.len() - start,
{
    if start >= rows.len() || is_pair(rows[start], task_id, model_a, model_b) {
        start
    } else {
        row_of_pair(rows, task_id, model_a, model_b, start + 1)
    }
}

/// The rows with what is now known of a pair: its row is changed, or added if
/// there is none.
pub open spec fn upserted(
    rows: Seq<PairRowView>,
    task_id: Seq<char>,
    model_a: Seq<char>,
    model_b: Seq<char>,
    status: PairStatus,
    judgment: Option<JudgmentView>,
    failure: Option<JudgmentFailureView>,
) -> Seq<PairRowView> {
    let k = row_of_pair(rows, task_id, model_a, model_b, 0);
    if k < rows.len() {
        rows.update(k, PairRowView { status, judgment, failure, ..rows[k] })
    } else {
        rows.push(PairRowView { task_id, model_a, model_b, status, judgment, failure })
    }
}

/// Records what is now known of a pair.
pub fn upsert_pair(
    pairs: &mut Vec<PairRow>,
    task_id: &str,
    model_a: &ModelId,
    model_b: &ModelId,
    status: PairStatus,
    judgment: Option<Judgment>,
    failure: Option<JudgmentFailure>,
)
    ensures
        rows_view(final(pairs)@) == upserted(
            rows_view(old(pairs)@),
            task_id@,
            model_a@,
            model_b@,
            status,
            judgment_view(judgment),
            failure_view(failure),
        ),
{
    let ghost rows = rows_view(pairs@);
    let mut k: usize = 0;
    while k < pairs.len()
        invariant
            k <= pairs@.len(),
            pairs@ == old(pairs)@,
            rows == rows_view(pairs@),
            row_of_pair(rows, task_id@, model_a@, model_b@, 0) == row_of_pair(
                rows,
                task_id@,
                model_a@,
                model_b@,
                k as int,
            ),
        decreases pairs@.len() - k,
    {
        assert(rows[k as int] == pairs@[k as int]@);
        if same_unordered_pair(&pairs[k], task_id, model_a.as_str(), model_b.as_str()) {
            pairs[k].status = status;
            pairs[k].judgment = judgment;
            pairs[k].failure = failure;
            proof {
                assert(rows_view(pairs@) =~= upserted(
                    rows,
                    task_id@,
                    model_a@,
                    model_b@,
                    status,
                    judgment_view(judgment),
                    failure_view(failure),
                ));
            }
            return ;
        }
        k += 1;
    }
    pairs.push(
        PairRow {
            task_id: task_id.to_owned(),
            model_a: model_a.as_str().to_owned(),
            model_b: model_b.as_str().to_owned(),
            status,
            judgment,
            failure,
        },
    );
    proof {
        assert(rows_view(pairs@) =~= upserted(
            rows,
            task_id@,
            model_a@,
            model_b@,
            status,
            judgment_view(judgment),
            failure_view(failure),
        ));
    }
}

/// The row as it is once all candidates have answered.
pub open spec fn judging_row(row: PairRowView) -> PairRowView {
    if row.status == PairStatus::Waiting {
        PairRowView { status: PairStatus::Judging, ..row }
    } else {
        row
    }
}

/// The state once judging can begin: when all candidates have answered, the
/// pairs that wait are being judged.
pub open spec fn judging(state: RunStateView) -> RunStateView {
    if state.candidate_completed < state.candidate_total {
        state
    } else {
        RunStateView {
            pairs: state.pairs.map_values(|row: PairRowView| judging_row(row)),
            ..state
        }
    }
}

/// The state after an event.
pub open spec fn applied(state: RunStateView, event: ExperimentEvent) -> RunStateView {
    let state = RunStateView { seq: (state.seq + 1) as u64, ..state };
    match event {
        ExperimentEvent::CandidateFinished { .. } => judging(
            RunStateView {
                candidate_completed: (state.candidate_completed + 1) as usize,
                ..state
            },
        ),
        ExperimentEvent::PairResolved { task_id, model_a, model_b, judgment } => RunStateView {
            resolved_pairs: (state.resolved_pairs + 1) as usize,
            pairs: upserted(
                state.pairs,
                task_id@,
                model_a@,
                model_b@,
                PairStatus::Resolved,
                Some(judgment@),
                None,
            ),
            ..state
        },
        ExperimentEvent::PairFailed { task_id, model_a, model_b, failure } => RunStateView {
            failed_pairs: (state.failed_pairs + 1) as usize,
            pairs: upserted(
                state.pairs,
                task_id@,
                model_a@,
                model_b@,
                PairStatus::Failed,
                None,
                Some(failure@),
            ),
            ..state
        },
        ExperimentEvent::RunComplete { expected_pairs, resolved_pairs, failed_pairs } =>
            RunStateView {
            status: if failed_pairs == 0 {
                RunStatus::Complete
            } else {
                RunStatus::Incomplete
            },
            expected_pairs,
            resolved_pairs,
            failed_pairs,
            ..state
        },
    }
}

/// What a browser is told of an event that led to this state.
pub open spec fn announced(after: RunStateView, event: ExperimentEvent) -> ClientEventView {
    match event {
        ExperimentEvent::CandidateFinished { task_id, model, duration_ms } =>
            ClientEventView::CandidateFinished {
            seq: after.seq,
            task_id: task_id@,
            model: model@,
            duration_ms,
        },
        ExperimentEvent::PairResolved { judgment, .. } => ClientEventView::PairResolved {
            seq: after.seq,
            judgment: judgment@,
        },
        ExperimentEvent::PairFailed { failure, .. } => ClientEventView::PairFailed {
            seq: after.seq,
            failure: failure@,
        },
        ExperimentEvent::RunComplete { expected_pairs, resolved_pairs, failed_pairs } =>
            ClientEventView::RunComplete {
            seq: after.seq,
            expected_pairs,
            resolved_pairs,
            failed_pairs,
            output_path: after.output_path,
        },
    }
}

/// The state after a failure.
pub open spec fn failed_state(state: RunStateView, error: Seq<char>) -> RunStateView {
    RunStateView {
        seq: (state.seq + 1) as u64,
        status: RunStatus::Failed,
        error: Some(error),
        ..state
    }
}

/// The state after an attempt to fail the run, and what a browser is told of it:
/// only a run that has not ended fails.
pub open spec fn failing(state: RunStateView, error: Seq<char>) -> (
    RunStateView,
    Option<ClientEventView>,
) {
    if state.status == RunStatus::Running {
        let after = failed_state(state, error);
        (after, Some(ClientEventView::RunFailed { seq: after.seq, error }))
    } else {
        (state, None)
    }
}

/// An event that may be absent.
pub open spec fn event_view(event: Option<ClientEvent>) -> Option<ClientEventView> {
    match event {
        Some(event) => Some(event@),
        None => None,
    }
}

/// The counters that the event moves can go up by one.
pub open spec fn has_room(state: RunStateView, event: ExperimentEvent) -> bool {
    &&& state.seq < u64::MAX
    &&& match event {
        ExperimentEvent::CandidateFinished { .. } => state.candidate_completed < usize::MAX,
        ExperimentEvent::PairResolved { .. } => state.resolved_pairs < usize::MAX,
        ExperimentEvent::PairFailed { .. } => state.failed_pairs < usize::MAX,
        ExperimentEvent::RunComplete { .. } => true,
    }
}

/// A row of a pair that has not been judged.
pub open spec fn waiting_row(task: Task, model_a: ModelId, model_b: ModelId) -> PairRowView {
    PairRowView {
        task_id: task.id@,
        model_a: model_a@,
        model_b: model_b@,
        status: PairStatus::Waiting,
        judgment: None,
        failure: None,
    }
}

/// The rows of all pairs of models on one task.
pub open spec fn task_rows(task: Task, models: Seq<ModelId>) -> Seq<PairRowView> {
    pairs_of(models.len() as int).map_values(
        |p: (int, int)| waiting_row(task, models[p.0], models[p.1]),
    )
}

/// The rows of all pairs of models on all tasks.
pub open spec fn waiting_rows(tasks: Seq<Task>, models: Seq<ModelId>) -> Seq<PairRowView>
    decreases tasks.len(),
{
    if tasks.len() == 0 {
        seq![]
    } else {
        waiting_rows(tasks.drop_last(), models) + task_rows(tasks.last(), models)
    }
}

/// One row for every unordered pair of models on every task.
pub fn waiting_pairs(tasks: &[Task], models: &[ModelId]) -> (r: Vec<PairRow>)
    ensures
        rows_view(r@) == waiting_rows(tasks@, models@),
{
    let pairs: Vec<(usize, usize)> = pair_indices(models.len());
    let ghost all = pairs_of(models@.len() as int);
    proof {
        pairs_inside(models@.len() as int, models@.len() as int);
        assert forall|t: int| 0 <= t < pairs@.len() implies (#[trigger] pairs@[t]).0 < models@.len()
            && pairs@[t].1 < models@.len() && all[t] == (
            pairs@[t].0 as int,
            pairs@[t].1 as int,
        ) by {
            assert(all[t] == (pairs@[t].0 as int, pairs@[t].1 as int));
        }
    }
    let mut r: Vec<PairRow> = Vec::new();
    let mut k: usize = 0;
    proof {
        assert(rows_view(r@) =~= waiting_rows(tasks@.take(0), models@));
    }
    while k < tasks.len()
        invariant
            k <= tasks@.len(),
            pairs@.len() == all.len(),
            all == pairs_of(models@.len() as int),
            forall|t: int|
                0 <= t < pairs@.len() ==> (#[trigger] pairs@[t]).0 < models@.len() && pairs@[t].1
                    < models@.len() && all[t] == (pairs@[t].0 as int, pairs@[t].1 as int),
            rows_view(r@) == waiting_rows(tasks@.take(k as int), models@),
        decreases tasks@.len() - k,
    {
        let ghost before = rows_view(r@);
        let ghost rows = task_rows(tasks@[k as int], models@);
        let mut p: usize = 0;
        proof {
            assert(before + rows.take(0) =~= before);
        }
        while p < pairs.len()
            invariant
                k < tasks@.len(),
                p <= pairs@.len(),
                pairs@.len() == all.len(),
                all == pairs_of(models@.len() as int),
                forall|t: int|
                    0 <= t < pairs@.len() ==> (#[trigger] pairs@[t]).0 < models@.len()
                        && pairs@[t].1 < models@.len() && all[t] == (
                        pairs@[t].0 as int,
                        pairs@[t].1 as int,
                    ),
                rows == task_rows(tasks@[k as int], models@),
                rows_view(r@) == before + rows.take(p as int),
            decreases pairs@.len() - p,
        {
            let (i, j) = pairs[p];
            let ghost earlier = r@;
            let row: PairRow = PairRow {
                task_id: tasks[k].id.clone(),
                model_a: models[i].as_str().to_owned(),
                model_b: models[j].as_str().to_owned(),
                status: PairStatus::Waiting,
                judgment: None,
                failure: None,
            };
            proof {
                assert(pairs@[p as int] == (i, j));
                assert(row@ == rows[p as int]);
            }
            r.push(row);
            proof {
                assert(rows_view(r@) =~= rows_view(earlier).push(row@));
                assert(rows.take(p + 1) =~= rows.take(p as int).push(rows[p as int]));
                assert(rows_view(r@) =~= before + rows.take(p + 1));
            }
            p += 1;
        }
        proof {
            assert(rows.take(rows.len() as int) =~= rows);
            assert(tasks@.take(k + 1).drop_last() =~= tasks@.take(k as int));
            assert(tasks@.take(k + 1).last() == tasks@[k as int]);
        }
        k += 1;
    }
    proof {
        assert(tasks@.take(tasks@.len() as int) =~= tasks@);
    }
    r
}

/// What is known of a run before it starts.
pub open spec fn initial_state(config: ExecConfig) -> RunStateView {
    let candidates = config.models@.len() as int;
    let tasks = config.tasks@.len() as int;
    RunStateView {
        seq: 0,
        status: RunStatus::Running,
        error: None,
        candidate_count: candidates as usize,
        task_count: tasks as usize,
        judge: model_view(config.judge),
        started_at: config.started_at@,
        candidate_completed: 0,
        candidate_total: if tasks * candidates <= usize::MAX {
            (tasks * candidates) as usize
        } else {
            usize::MAX
        },
        expected_pairs: if config.judge is Some {
            expected_pairs_spec(tasks, candidates) as usize
        } else {
            0
        },
        resolved_pairs: 0,
        failed_pairs: 0,
        pairs: if config.judge is Some {
            waiting_rows(config.tasks@, config.models@)
        } else {
            seq![]
        },
        output_path: None,
    }
}

impl RunState {
    /// What is known of a run before it starts.
    pub fn from_config(config: &ExecConfig) -> (r: Self)
        requires
            config.judge is Some ==> expected_pairs_spec(
                config.tasks@.len() as int,
                config.models@.len() as int,
            ) <= usize::MAX,
        ensures
            r@ == initial_state(*config),
    {
        let candidate_count: usize = config.models.len();
        let task_count: usize = config.tasks.len();
        let candidate_total: usize = match task_count.checked_mul(
            candidate_count,
        ) {
            Some(total) => total,
            None => usize::MAX,
        };
        let (expected, pairs, judge) = match &config.judge {
            Some(judge) => (
                expected_pairs(task_count, candidate_count),
                waiting_pairs(config.tasks.as_slice(), config.models.as_slice()),
                Some(judge.as_str().to_owned()),
            ),
            None => (0, Vec::new(), None),
        };
        let r: RunState = RunState {
            seq: 0,
            status: RunStatus::Running,
            error: None,
            candidate_count,
            task_count,
            judge,
            started_at: config.started_at.clone(),
            candidate_completed: 0,
            candidate_total,
            expected_pairs: expected,
            resolved_pairs: 0,
            failed_pairs: 0,
            pairs,
            output_path: None,
        };
        proof {
            assert(r@.pairs =~= initial_state(*config).pairs);
        }
        r
    }

    /// Whether all the counters can go up by one.
    pub fn can_go_on(&self) -> (r: bool)
        ensures
            r == (self@.seq < u64::MAX && self@.candidate_completed < usize::MAX
                && self@.resolved_pairs < usize::MAX && self@.failed_pairs < usize::MAX),
    {
        self.seq < u64::MAX && self.candidate_completed < usize::MAX && self.resolved_pairs
            < usize::MAX && self.failed_pairs < usize::MAX
    }

    /// What is known, under the run's id.
    pub fn snapshot(&self, run_id: String) -> (r: ClientEvent)
        ensures
            r@ == (ClientEventView::Snapshot { run_id: run_id@, state: self@ }),
    {
        ClientEvent::Snapshot {
            snapshot: Box::new(
                RunSnapshot {
                    run_id,
                    state: RunState {
                        seq: self.seq,
                        status: self.status,
                        error: self.error.clone(),
                        candidate_count: self.candidate_count,
                        task_count: self.task_count,
                        judge: self.judge.clone(),
                        started_at: self.started_at.clone(),
                        candidate_completed: self.candidate_completed,
                        candidate_total: self.candidate_total,
                        expected_pairs: self.expected_pairs,
                        resolved_pairs: self.resolved_pairs,
                        failed_pairs: self.failed_pairs,
                        pairs: copy_rows(&self.pairs),
                        output_path: self.output_path.clone(),
                    },
                },
            ),
        }
    }

    /// Takes an event in and says what a browser is told of it.
    pub fn apply(&mut self, event: ExperimentEvent) -> (r: ClientEvent)
        requires
            has_room(old(self)@, event),
        ensures
            final(self)@ == applied(old(self)@, event),
            r@ == announced(applied(old(self)@, event), event),
    {
        self.seq = self.seq + 1;
        match event {
            ExperimentEvent::CandidateFinished { task_id, model, duration_ms } => {
                self.candidate_completed = self.candidate_completed + 1;
                self.mark_judging();
                ClientEvent::CandidateFinished {
                    seq: self.seq,
                    task_id,
                    model: model.as_str().to_owned(),
                    duration_ms,
                }
            },
            ExperimentEvent::PairResolved { task_id, model_a, model_b, judgment } => {
                self.resolved_pairs = self.resolved_pairs + 1;
                upsert_pair(
                    &mut self.pairs,
                    task_id.as_str(),
                    &model_a,
                    &model_b,
                    PairStatus::Resolved,
                    Some(judgment.clone()),
                    None,
                );
                ClientEvent::PairResolved { seq: self.seq, judgment }
            },
            ExperimentEvent::PairFailed { task_id, model_a, model_b, failure } => {
                self.failed_pairs = self.failed_pairs + 1;
                upsert_pair(
                    &mut self.pairs,
                    task_id.as_str(),
                    &model_a,
                    &model_b,
                    PairStatus::Failed,
                    None,
                    Some(failure.clone()),
                );
                ClientEvent::PairFailed { seq: self.seq, failure }
            },
            ExperimentEvent::RunComplete { expected_pairs, resolved_pairs, failed_pairs } => {
                self.status = if failed_pairs == 0 {
                    RunStatus::Complete
                } else {
                    RunStatus::Incomplete
                };
                self.expected_pairs = expected_pairs;
                self.resolved_pairs = resolved_pairs;
                self.failed_pairs = failed_pairs;
                ClientEvent::RunComplete {
                    seq: self.seq,
                    expected_pairs,
                    resolved_pairs,
                    failed_pairs,
                    output_path: self.output_path.clone(),
                }
            },
        }
    }

    /// Whether the run can be failed: it has ended, or its number can go up.
    pub fn can_fail(&self) -> (r: bool)
        ensures
            r == (self@.status == RunStatus::Running ==> self@.seq < u64::MAX),
    {
        self.status != RunStatus::Running || self.seq < u64::MAX
    }

    /// Ends a running run with an error. A run that has ended stays as it is.
    pub fn fail(&mut self, error: String) -> (r: Option<ClientEvent>)
        requires
            old(self)@.status == RunStatus::Running ==> old(self)@.seq < u64::MAX,
        ensures
            (final(self)@, event_view(r)) == failing(old(self)@, error@),
            old(self)@.status != RunStatus::Running ==> *final(self) == *old(self),
    {
        if self.status != RunStatus::Running {
            return None;
        }
        self.seq = self.seq + 1;
        self.status = RunStatus::Failed;
        self.error = Some(error.clone());
        Some(ClientEvent::RunFailed { seq: self.seq, error })
    }

    /// Once all candidates have answered, the pairs that wait are being judged.
    pub fn mark_judging(&mut self)
        ensures
            final(self)@ == judging(old(self)@),
    {
        if self.candidate_completed < self.candidate_total {
            return ;
        }
        let ghost rows = rows_view(self.pairs@);
        let ghost before = self@;
        let mut k: usize = 0;
        while k < self.pairs.len()
            invariant
                k <= self.pairs@.len(),
                self.pairs@.len() == rows.len(),
                self@ == (RunStateView { pairs: rows_view(self.pairs@), ..before }),
                forall|t: int|
                    0 <= t < k ==> (#[trigger] self.pairs@[t])@ == judging_row(rows[t]),
                forall|t: int| k <= t < rows.len() ==> (#[trigger] self.pairs@[t])@ == rows[t],
            decreases self.pairs@.len() - k,
        {
            if self.pairs[k].status == PairStatus::Waiting {
                self.pairs[k].status = PairStatus::Judging;
            }
            k += 1;
        }
        proof {
            assert(rows_view(self.pairs@) =~= rows.map_values(
                |row: PairRowView| judging_row(row),
            ));
        }
    }
}

/// Every event has a number of its own: each is one higher than the last.
pub proof fn events_are_numbered(state: RunStateView, event: ExperimentEvent)
    requires
        state.seq < u64::MAX,
    ensures
        applied(state, event).seq == state.seq + 1,
        seq_of(announced(applied(state, event), event)) == state.seq + 1,
{
}

/// The state after the events, taken in one after the other.
pub open spec fn state_after(state: RunStateView, events: Seq<ExperimentEvent>) -> RunStateView
    decreases events.len(),
{
    if events.len() == 0 {
        state
    } else {
        applied(state_after(state, events.drop_last()), events.last())
    }
}

/// What a browser is told of the `k`-th of the events.
pub open spec fn told(
    state: RunStateView,
    events: Seq<ExperimentEvent>,
    k: int,
) -> ClientEventView {
    announced(state_after(state, events.take(k + 1)), events[k])
}

proof fn number_after(state: RunStateView, events: Seq<ExperimentEvent>)
    requires
        state.seq + events.len() <= u64::MAX,
    ensures
        state_after(state, events).seq == state.seq + events.len(),
    decreases events.len(),
{
    if events.len() > 0 {
        number_after(state, events.drop_last());
        events_are_numbered(state_after(state, events.drop_last()), events.last());
    }
}

/// Events that follow each other have numbers that follow each other. Their
/// numbers are above that of a snapshot exactly if they came after it, so that
/// who starts from a snapshot is told every later event and no earlier one.
pub proof fn events_follow_their_snapshot(
    state: RunStateView,
    events: Seq<ExperimentEvent>,
    j: int,
    k: int,
)
    requires
        state.seq + events.len() <= u64::MAX,
        0 <= j <= events.len(),
        0 <= k < events.len(),
    ensures
        seq_of(told(state, events, k)) == state.seq + k + 1,
        seq_of(told(state, events, k)) > state_after(state, events.take(j)).seq <==> j <= k,
{
    number_after(state, events.take(j));
    number_after(state, events.take(k + 1));
    assert(events.take(k + 1).last() == events[k]);
}

/// A run fails at most once. One that has not ended takes the error on and its
/// number goes up, with nothing else changed; one that has ended stays as it
/// is; and a second failure changes nothing and keeps the first error.
pub proof fn a_run_fails_once(state: RunStateView, first: Seq<char>, second: Seq<char>)
    requires
        state.status == RunStatus::Running ==> state.seq < u64::MAX,
    ensures
        ({
            let (after, event) = failing(state, first);
            &&& state.status == RunStatus::Running ==> {
                &&& after == (RunStateView {
                    seq: after.seq,
                    status: RunStatus::Failed,
                    error: Some(first),
                    ..state
                })
                &&& after.seq == state.seq + 1
                &&& event == Some(ClientEventView::RunFailed { seq: after.seq, error: first })
            }
            &&& state.status != RunStatus::Running ==> after == state && event is None
            &&& failing(after, second) == (after, None::<ClientEventView>)
        }),
{
}

/// A browser that has been told that nothing follows has been told so exactly
/// when the run has ended.
pub proof fn last_event_ends_the_run(state: RunStateView, event: ExperimentEvent)
    requires
        state.status == RunStatus::Running,
    ensures
        is_last(announced(applied(state, event), event)) <==> applied(state, event).status
            != RunStatus::Running,
        applied(state, event).status == RunStatus::Complete <==> (event matches
            ExperimentEvent::RunComplete { failed_pairs, .. } && failed_pairs == 0),
{
}

/// No two rows are of the same unordered pair on the same task.
pub open spec fn one_row_per_pair(rows: Seq<PairRowView>) -> bool {
    forall|i: int, j: int|
        0 <= i < j < rows.len() ==> !is_pair(
            #[trigger] rows[i],
            (#[trigger] rows[j]).task_id,
            rows[j].model_a,
            rows[j].model_b,
        )
}

proof fn found_row(
    rows: Seq<PairRowView>,
    task_id: Seq<char>,
    model_a: Seq<char>,
    model_b: Seq<char>,
    start: int,
)
    requires
        0 <= start <= rows.len(),
    ensures
        ({
            let k = row_of_pair(rows, task_id, model_a, model_b, start);
            &&& start <= k <= rows.len()
            &&& k < rows.len() ==> is_pair(rows[k], task_id, model_a, model_b)
            &&& forall|i: int| start <= i < k ==> !is_pair(#[trigger] rows[i], task_id, model_a, model_b)
        }),
    decreases rows.len() - start,
{
    if start < rows.len() && !is_pair(rows[start], task_id, model_a, model_b) {
        found_row(rows, task_id, model_a, model_b, start + 1);
    }
}

/// Whatever happens, there is at most one row for an unordered pair on a task.
pub proof fn events_keep_one_row_per_pair(state: RunStateView, event: ExperimentEvent)
    requires
        one_row_per_pair(state.pairs),
    ensures
        one_row_per_pair(applied(state, event).pairs),
{
    let before = state.pairs;
    let after = applied(state, event).pairs;
    match event {
        ExperimentEvent::CandidateFinished { .. } => {
            assert forall|i: int, j: int| 0 <= i < j < after.len() implies !is_pair(
                #[trigger] after[i],
                (#[trigger] after[j]).task_id,
                after[j].model_a,
                after[j].model_b,
            ) by {
                assert(!is_pair(before[i], before[j].task_id, before[j].model_a, before[j].model_b));
            }
        },
        ExperimentEvent::PairResolved { task_id, model_a, model_b, judgment } => {
            upsert_keeps_one_row(
                before,
                task_id@,
                model_a@,
                model_b@,
                PairStatus::Resolved,
                Some(judgment@),
                None,
            );
        },
        ExperimentEvent::PairFailed { task_id, model_a, model_b, failure } => {
            upsert_keeps_one_row(
                before,
                task_id@,
                model_a@,
                model_b@,
                PairStatus::Failed,
                None,
                Some(failure@),
            );
        },
        ExperimentEvent::RunComplete { .. } => {},
    }
}

/// The row `k` is now the only one of the pair, in the place and with the
/// models in the order that it had, or at the end if there was none. All other
/// rows are as they were.
pub open spec fn only_row_changed(
    before: Seq<PairRowView>,
    after: Seq<PairRowView>,
    k: int,
    row: PairRowView,
) -> bool {
    &&& 0 <= k < after.len()
    &&& after[k].status == row.status
    &&& after[k].judgment == row.judgment
    &&& after[k].failure == row.failure
    &&& forall|i: int|
        0 <= i < after.len() ==> (is_pair(
            #[trigger] after[i],
            row.task_id,
            row.model_a,
            row.model_b,
        ) <==> i == k)
    &&& forall|i: int| 0 <= i < before.len() && i != k ==> #[trigger] after[i] == before[i]
    &&& if exists|i: int|
        0 <= i < before.len() && is_pair(
            #[trigger] before[i],
            row.task_id,
            row.model_a,
            row.model_b,
        ) {
        &&& after.len() == before.len()
        &&& after[k].task_id == before[k].task_id
        &&& after[k].model_a == before[k].model_a
        &&& after[k].model_b == before[k].model_b
    } else {
        &&& k == before.len()
        &&& after.len() == before.len() + 1
        &&& after[k] == row
    }
}

/// The row of a pair that the event is about, where there was none before.
pub open spec fn row_of_event(event: ExperimentEvent) -> Option<PairRowView> {
    match event {
        ExperimentEvent::PairResolved { task_id, model_a, model_b, judgment } => Some(
            PairRowView {
                task_id: task_id@,
                model_a: model_a@,
                model_b: model_b@,
                status: PairStatus::Resolved,
                judgment: Some(judgment@),
                failure: None,
            },
        ),
        ExperimentEvent::PairFailed { task_id, model_a, model_b, failure } => Some(
            PairRowView {
                task_id: task_id@,
                model_a: model_a@,
                model_b: model_b@,
                status: PairStatus::Failed,
                judgment: None,
                failure: Some(failure@),
            },
        ),
        _ => None,
    }
}

/// What becomes of a pair changes the one row of the pair, or adds it, and moves
/// the number of the run and the one counter of such pairs. Nothing else
/// changes.
pub proof fn a_pair_changes_one_row(
    state: RunStateView,
    event: ExperimentEvent,
    row: PairRowView,
) -> (k: int)
    requires
        one_row_per_pair(state.pairs),
        row_of_event(event) == Some(row),
        has_room(state, event),
    ensures
        only_row_changed(state.pairs, applied(state, event).pairs, k, row),
        applied(state, event) == (RunStateView {
            seq: (state.seq + 1) as u64,
            pairs: applied(state, event).pairs,
            resolved_pairs: applied(state, event).resolved_pairs,
            failed_pairs: applied(state, event).failed_pairs,
            ..state
        }),
        applied(state, event).resolved_pairs == state.resolved_pairs + (if row.status
            == PairStatus::Resolved {
            1int
        } else {
            0
        }),
        applied(state, event).failed_pairs == state.failed_pairs + (if row.status
            == PairStatus::Failed {
            1int
        } else {
            0
        }),
{
    let before = state.pairs;
    let after = applied(state, event).pairs;
    let k = row_of_pair(before, row.task_id, row.model_a, row.model_b, 0);
    found_row(before, row.task_id, row.model_a, row.model_b, 0);
    assert forall|i: int| 0 <= i < after.len() implies (is_pair(
        #[trigger] after[i],
        row.task_id,
        row.model_a,
        row.model_b,
    ) <==> i == k) by {
        if i < before.len() && k < before.len() {
            assert(is_pair(before[k], row.task_id, row.model_a, row.model_b));
            if i < k {
                assert(!is_pair(before[i], row.task_id, row.model_a, row.model_b));
            } else if k < i {
                assert(!is_pair(
                    before[k],
                    before[i].task_id,
                    before[i].model_a,
                    before[i].model_b,
                ));
            }
        } else if i < before.len() {
            assert(!is_pair(before[i], row.task_id, row.model_a, row.model_b));
        }
    }
    k
}

proof fn upsert_keeps_one_row(
    rows: Seq<PairRowView>,
    task_id: Seq<char>,
    model_a: Seq<char>,
    model_b: Seq<char>,
    status: PairStatus,
    judgment: Option<JudgmentView>,
    failure: Option<JudgmentFailureView>,
)
    requires
        one_row_per_pair(rows),
    ensures
        one_row_per_pair(upserted(rows, task_id, model_a, model_b, status, judgment, failure)),
{
    let after = upserted(rows, task_id, model_a, model_b, status, judgment, failure);
    found_row(rows, task_id, model_a, model_b, 0);
    assert forall|i: int, j: int| 0 <= i < j < after.len() implies !is_pair(
        #[trigger] after[i],
        (#[trigger] after[j]).task_id,
        after[j].model_a,
        after[j].model_b,
    ) by {
        if j < rows.len() {
            assert(!is_pair(rows[i], rows[j].task_id, rows[j].model_a, rows[j].model_b));
        } else {
            assert(!is_pair(rows[i], task_id, model_a, model_b));
        }
    }
}

proof fn pairs_are_different(n: int, rows: int)
    requires
        0 <= rows <= n,
    ensures
        forall|s: int, t: int|
            0 <= s < t < pairs_in_rows(n, rows).len() ==> (#[trigger] pairs_in_rows(n, rows)[s])
                != (#[trigger] pairs_in_rows(n, rows)[t]),
        forall|s: int| 0 <= s < pairs_in_rows(n, rows).len() ==> (#[trigger] pairs_in_rows(
            n,
            rows,
        )[s]).0 < rows,
    decreases rows,
{
    if rows > 0 {
        pairs_are_different(n, rows - 1);
        let head = pairs_in_rows(n, rows - 1);
        let all = pairs_in_rows(n, rows);
        assert forall|s: int| 0 <= s < all.len() implies (#[trigger] all[s]).0 < rows by {
            if s < head.len() {
                assert(all[s] == head[s]);
            }
        }
        assert forall|s: int, t: int| 0 <= s < t < all.len() implies (#[trigger] all[s]) != (
        #[trigger] all[t]) by {
            if s < head.len() {
                assert(all[s] == head[s]);
                if t < head.len() {
                    assert(all[t] == head[t]);
                } else {
                    assert(head[s].0 < rows - 1);
                }
            }
        }
    }
}

/// A run of different tasks and different models starts with one row for each
/// pair: as many rows as pairs are expected.
pub proof fn rows_match_expected_pairs(tasks: Seq<Task>, models: Seq<ModelId>)
    requires
        forall|i: int, j: int|
            0 <= i < j < tasks.len() ==> (#[trigger] tasks[i]).id@ != (#[trigger] tasks[j]).id@,
        forall|i: int, j: int|
            0 <= i < j < models.len() ==> (#[trigger] models[i])@ != (#[trigger] models[j])@,
    ensures
        waiting_rows(tasks, models).len() == expected_pairs_spec(
            tasks.len() as int,
            models.len() as int,
        ),
        one_row_per_pair(waiting_rows(tasks, models)),
        forall|k: int|
            0 <= k < waiting_rows(tasks, models).len() ==> exists|t: int|
                0 <= t < tasks.len() && (#[trigger] tasks[t]).id@ == (#[trigger] waiting_rows(
                    tasks,
                    models,
                )[k]).task_id,
    decreases tasks.len(),
{
    let n = models.len() as int;
    pair_count(n);
    let per_task = n * (n - 1) / 2;
    assert(per_task == pairs_of(n).len());
    if tasks.len() > 0 {
        let head = tasks.drop_last();
        let last = tasks.last();
        let count = tasks.len() as int;
        assert forall|i: int, j: int| 0 <= i < j < head.len() implies (#[trigger] head[i]).id@ != (
        #[trigger] head[j]).id@ by {
            assert(head[i] == tasks[i] && head[j] == tasks[j]);
        }
        rows_match_expected_pairs(head, models);
        assert(count * per_task == (count - 1) * per_task + per_task) by (nonlinear_arith);
        let front = waiting_rows(head, models);
        let rows = task_rows(last, models);
        let all = waiting_rows(tasks, models);
        pairs_inside(n, n);
        pairs_are_different(n, n);
        assert(tasks[count - 1] == last);
        assert forall|k: int| 0 <= k < all.len() implies exists|t: int|
            0 <= t < tasks.len() && (#[trigger] tasks[t]).id@ == (#[trigger] all[k]).task_id by {
            if k < front.len() {
                assert(all[k] == front[k]);
                let t = choose|t: int|
                    0 <= t < head.len() && (#[trigger] head[t]).id@ == front[k].task_id;
                assert(tasks[t].id@ == all[k].task_id);
            } else {
                assert(all[k] == rows[k - front.len()]);
                assert(tasks[count - 1].id@ == all[k].task_id);
            }
        }
        assert forall|i: int, j: int| 0 <= i < j < all.len() implies !is_pair(
            #[trigger] all[i],
            (#[trigger] all[j]).task_id,
            all[j].model_a,
            all[j].model_b,
        ) by {
            if j < front.len() {
                assert(all[i] == front[i] && all[j] == front[j]);
            } else {
                let q = j - front.len();
                assert(all[j] == rows[q]);
                let pq = pairs_of(n)[q];
                assert(rows[q] == waiting_row(last, models[pq.0], models[pq.1]));
                if i < front.len() {
                    assert(all[i] == front[i]);
                    let t = choose|t: int|
                        0 <= t < head.len() && (#[trigger] head[t]).id@ == front[i].task_id;
                    assert(head[t] == tasks[t]);
                    assert(tasks[t].id@ != tasks[count - 1].id@);
                } else {
                    let p = i - front.len();
                    assert(all[i] == rows[p]);
                    let pp = pairs_of(n)[p];
                    assert(rows[p] == waiting_row(last, models[pp.0], models[pp.1]));
                    assert(pp != pq);
                    assert(0 <= pp.0 < pp.1 < n);
                    assert(0 <= pq.0 < pq.1 < n);
                    if models[pp.0]@ == models[pq.0]@ && pp.0 != pq.0 {
                        if pp.0 < pq.0 {
                            assert(models[pp.0]@ != models[pq.0]@);
                        } else {
                            assert(models[pq.0]@ != models[pp.0]@);
                        }
                    }
                    if models[pp.1]@ == models[pq.1]@ && pp.1 != pq.1 {
                        if pp.1 < pq.1 {
                            assert(models[pp.1]@ != models[pq.1]@);
                        } else {
                            assert(models[pq.1]@ != models[pp.1]@);
                        }
                    }
                    if models[pp.0]@ == models[pq.1]@ && models[pp.1]@ == models[pq.0]@ {
                        if pp.0 < pq.1 {
                            assert(models[pp.0]@ != models[pq.1]@);
                        } else if pq.1 < pp.0 {
                            assert(models[pq.1]@ != models[pp.0]@);
                        } else {
                            assert(models[pq.0]@ != models[pp.1]@);
                        }
                    }
                }
            }
        }
    } else {
        assert(0 * per_task == 0);
    }
}

/// The address of the OpenAI API.
pub const OPENAI_BASE_URL: &'static str = "https://api.openai.com/v1";

/// The address of the Anthropic API.
pub const ANTHROPIC_BASE_URL: &'static str = "https://api.anthropic.com/v1";

/// The address of the Gemini API.
pub const GEMINI_BASE_URL: &'static str = "https://generativelanguage.googleapis.com/v1beta";

/// The providers that can be chosen in a browser.
#[derive(Debug, Clone, Copy, PartialEq, Eq, Structural)]
pub enum WebProviderKind {
    Openai,
    Claude,
    Gemini,
    Compatible,
}

/// The address that a provider always has.
pub open spec fn fixed_url(kind: WebProviderKind) -> Option<Seq<char>> {
    match kind {
        WebProviderKind::Openai => Some(OPENAI_BASE_URL@),
        WebProviderKind::Claude => Some(ANTHROPIC_BASE_URL@),
        WebProviderKind::Gemini => Some(GEMINI_BASE_URL@),
        WebProviderKind::Compatible => None,
    }
}

impl WebProviderKind {
    /// The address that the provider always has.
    pub fn fixed_base_url(self) -> (r: Option<&'static str>)
        ensures
            match r {
                Some(url) => fixed_url(self) == Some(url@),
                None => fixed_url(self) is None,
            },
    {
        match self {
            WebProviderKind::Openai => Some(OPENAI_BASE_URL),
            WebProviderKind::Claude => Some(ANTHROPIC_BASE_URL),
            WebProviderKind::Gemini => Some(GEMINI_BASE_URL),
            WebProviderKind::Compatible => None,
        }
    }

    /// Whether the provider can be asked for its models.
    pub fn supports_model_discovery(self) -> (r: bool)
        ensures
            r == (self == WebProviderKind::Openai || self == WebProviderKind::Compatible),
    {
        match self {
            WebProviderKind::Openai | WebProviderKind::Compatible => true,
            _ => false,
        }
    }
}

/// A provider with what is needed to reach it.
pub struct ResolvedWebProvider {
    pub kind: WebProviderKind,
    pub api_key: String,
    pub base_url: String,
}

/// What is said when the key is blank.
pub const MISSING_KEY: &'static str = "API key is required";

/// What is said when the address is blank.
pub const MISSING_URL: &'static str = "base URL is required";

/// Trims what was entered for a provider. The key must not be blank, nor the
/// address where the provider has no fixed one.
pub fn resolve_web_provider(kind: WebProviderKind, api_key: &str, base_url: &str) -> (r: Result<
    ResolvedWebProvider,
    &'static str,
>)
    ensures
        match r {
            Ok(resolved) => {
                &&& trimmed(api_key@).len() > 0
                &&& resolved.kind == kind
                &&& resolved.api_key@ == trimmed(api_key@)
                &&& match fixed_url(kind) {
                    Some(url) => resolved.base_url@ == url,
                    None => resolved.base_url@ == trimmed(base_url@) && trimmed(base_url@).len()
                        > 0,
                }
            },
            Err(message) => {
                ||| trimmed(api_key@).len() == 0 && message@ == MISSING_KEY@
                ||| trimmed(api_key@).len() > 0 && fixed_url(kind) is None && trimmed(
                    base_url@,
                ).len() == 0 && message@ == MISSING_URL@
            },
        },
{
    let key: &str = api_key.trim();
    if is_empty_text(key) {
        return Err(MISSING_KEY);
    }
    let url: String = match kind.fixed_base_url() {
        Some(url) => url.to_owned(),
        None => {
            let url: &str = base_url.trim();
            if is_empty_text(url) {
                return Err(MISSING_URL);
            }
            url.to_owned()
        },
    };
    Ok(ResolvedWebProvider { kind, api_key: key.to_owned(), base_url: url })
}

/// What was entered, or what is kept for the same provider if that was blank.
pub open spec fn entered_or_kept(
    kind: WebProviderKind,
    entered: Seq<char>,
    kept_kind: Option<WebProviderKind>,
    kept: Seq<char>,
) -> Seq<char> {
    if trimmed(entered).len() > 0 {
        entered
    } else if kept_kind == Some(kind) {
        kept
    } else {
        seq![]
    }
}

/// The key and the address to use: blank ones are filled in from the session,
/// if it is with the same provider.
pub fn merge_credentials(
    session: Option<&ResolvedWebProvider>,
    kind: WebProviderKind,
    api_key: &str,
    base_url: &str,
) -> (r: (String, String))
    ensures
        session matches Some(kept) ==> r.0@ == entered_or_kept(
            kind,
            api_key@,
            Some(kept.kind),
            kept.api_key@,
        ) && r.1@ == entered_or_kept(kind, base_url@, Some(kept.kind), kept.base_url@),
        session is None ==> r.0@ == entered_or_kept(kind, api_key@, None, seq![]) && r.1@
            == entered_or_kept(kind, base_url@, None, seq![]),
{
    let mut key: String = api_key.to_owned();
    let mut url: String = base_url.to_owned();
    if is_empty_text(api_key.trim()) {
        key = String::new();
    }
    if is_empty_text(base_url.trim()) {
        url = String::new();
    }
    if let Some(kept) = session {
        if kept.kind == kind {
            if is_empty_text(api_key.trim()) {
                key = kept.api_key.clone();
            }
            if is_empty_text(base_url.trim()) {
                url = kept.base_url.clone();
            }
        }
    }
    (key, url)
}

/// The name of the file that a run is recorded in.
pub fn output_file_name(run_id: &str) -> (r: String)
    ensures
        r@ == run_id@ + ".json"@,
{
    let mut r: String = run_id.to_owned();
    r.push_str(".json");
    r
}

/// How a run ends for those who follow it.
#[derive(Debug)]
pub enum RunEnding {
    /// This event is taken in.
    Announce(ExperimentEvent),
    /// The run has failed with this error.
    Fail(String),
    /// Nothing more is said.
    Silent,
}

/// How a run ends: its completion is announced only once its record is
/// written; whatever kept it from that is a failure.
pub fn run_ending(written: Result<(), String>, completion: Option<ExperimentEvent>) -> (r: RunEnding)
    ensures
        r == (match (written, completion) {
            (Err(error), _) => RunEnding::Fail(error),
            (Ok(()), Some(event)) => RunEnding::Announce(event),
            (Ok(()), None) => RunEnding::Silent,
        }),
{
    match written {
        Err(error) => RunEnding::Fail(error),
        Ok(()) => match completion {
            Some(event) => RunEnding::Announce(event),
            None => RunEnding::Silent,
        },
    }
}

/// A candidate's answer moves the number of the run and the count of answers by
/// one. Nothing else changes until the last answer: then every pair that waits
/// is being judged, and no other row changes.
pub proof fn the_last_answer_starts_the_judging(state: RunStateView, event: ExperimentEvent)
    requires
        event is CandidateFinished,
        has_room(state, event),
    ensures
        ({
            let after = applied(state, event);
            &&& after.seq == state.seq + 1
            &&& after.candidate_completed == state.candidate_completed + 1
            &&& after == (RunStateView {
                seq: after.seq,
                candidate_completed: after.candidate_completed,
                pairs: after.pairs,
                ..state
            })
            &&& after.pairs.len() == state.pairs.len()
            &&& state.candidate_completed + 1 < state.candidate_total ==> after.pairs
                == state.pairs
            &&& state.candidate_completed + 1 >= state.candidate_total ==> forall|i: int|
                0 <= i < state.pairs.len() ==> {
                    &&& state.pairs[i].status == PairStatus::Waiting
                        ==> #[trigger] after.pairs[i] == (PairRowView {
                        status: PairStatus::Judging,
                        ..state.pairs[i]
                    })
                    &&& state.pairs[i].status != PairStatus::Waiting ==> after.pairs[i]
                        == state.pairs[i]
                }
        }),
{
}

/// The completion of a run gives it its counts and ends it: as complete if no
/// pair failed and as incomplete otherwise. Its rows stay as they are.
pub proof fn completion_ends_a_run(
    state: RunStateView,
    expected: usize,
    resolved: usize,
    failed: usize,
)
    requires
        state.seq < u64::MAX,
    ensures
        ({
            let after = applied(
                state,
                ExperimentEvent::RunComplete {
                    expected_pairs: expected,
                    resolved_pairs: resolved,
                    failed_pairs: failed,
                },
            );
            &&& after == (RunStateView {
                seq: after.seq,
                status: after.status,
                expected_pairs: expected,
                resolved_pairs: resolved,
                failed_pairs: failed,
                ..state
            })
            &&& after.seq == state.seq + 1
            &&& failed == 0 <==> after.status == RunStatus::Complete
            &&& failed > 0 <==> after.status == RunStatus::Incomplete
        }),
{
}

/// A browser is told of an event what the event says: which candidate answered
/// which task and how fast, which judgment or failure a pair came to, or the
/// counts that the run ended with and where its record is.
pub proof fn browsers_are_told_what_happened(after: RunStateView, event: ExperimentEvent)
    ensures
        seq_of(announced(after, event)) == after.seq,
        event matches ExperimentEvent::CandidateFinished { task_id, model, duration_ms } ==> (
        announced(after, event) matches ClientEventView::CandidateFinished {
            task_id: told_task,
            model: told_model,
            duration_ms: told_duration,
            ..
        } && told_task == task_id@ && told_model == model@ && told_duration == duration_ms),
        event matches ExperimentEvent::PairResolved { judgment, .. } ==> (announced(
            after,
            event,
        ) matches ClientEventView::PairResolved { judgment: told_judgment, .. } && told_judgment
            == judgment@),
        event matches ExperimentEvent::PairFailed { failure, .. } ==> (announced(
            after,
            event,
        ) matches ClientEventView::PairFailed { failure: told_failure, .. } && told_failure
            == failure@),
        event matches ExperimentEvent::RunComplete { expected_pairs, resolved_pairs, failed_pairs }
            ==> (announced(after, event) matches ClientEventView::RunComplete {
            expected_pairs: told_expected,
            resolved_pairs: told_resolved,
            failed_pairs: told_failed,
            output_path,
            ..
        } && told_expected == expected_pairs && told_resolved == resolved_pairs && told_failed
            == failed_pairs && output_path == after.output_path),
{
}

/// The rows of a run start with the pairs of its models on its first task, then
/// on its second, and so on: the row of a pair stands at its place among the
/// pairs, names the models in their order, and waits.
pub proof fn rows_start_task_by_task(tasks: Seq<Task>, models: Seq<ModelId>, t: int, p: int)
    requires
        0 <= t < tasks.len(),
        0 <= p < pairs_of(models.len() as int).len(),
    ensures
        ({
            let per_task = pairs_of(models.len() as int).len() as int;
            let rows = waiting_rows(tasks, models);
            let (i, j) = pairs_of(models.len() as int)[p];
            &&& rows.len() == tasks.len() * per_task
            &&& t * per_task + p < rows.len()
            &&& rows[t * per_task + p] == (PairRowView {
                task_id: tasks[t].id@,
                model_a: models[i]@,
                model_b: models[j]@,
                status: PairStatus::Waiting,
                judgment: None,
                failure: None,
            })
        }),
    decreases tasks.len(),
{
    let per_task = pairs_of(models.len() as int).len() as int;
    let head = tasks.drop_last();
    let count = tasks.len() as int;
    rows_per_task(head, models);
    rows_per_task(tasks, models);
    assert(count * per_task == (count - 1) * per_task + per_task) by (nonlinear_arith);
    if t < count - 1 {
        rows_start_task_by_task(head, models, t, p);
        assert(waiting_rows(tasks, models)[t * per_task + p] == waiting_rows(head, models)[t
            * per_task + p]);
        assert(head[t] == tasks[t]);
    } else {
        assert(waiting_rows(head, models).len() == t * per_task);
    }
}

proof fn rows_per_task(tasks: Seq<Task>, models: Seq<ModelId>)
    ensures
        waiting_rows(tasks, models).len() == tasks.len() * pairs_of(models.len() as int).len(),
    decreases tasks.len(),
{
    let per_task = pairs_of(models.len() as int).len() as int;
    if tasks.len() > 0 {
        rows_per_task(tasks.drop_last(), models);
        let count = tasks.len() as int;
        assert(count * per_task == (count - 1) * per_task + per_task) by (nonlinear_arith);
    } else {
        assert(0 * per_task == 0);
    }
}

/// A run starts running, with nothing answered, resolved or failed. It expects
/// an answer of every model to every task, and of a judge every pair on every
/// task; without a judge it expects no pairs and has no rows.
pub proof fn runs_start_with_nothing_done(config: ExecConfig)
    requires
        config.tasks@.len() <= usize::MAX,
        config.models@.len() <= usize::MAX,
        config.tasks@.len() * config.models@.len() <= usize::MAX,
        expected_pairs_spec(config.tasks@.len() as int, config.models@.len() as int) <= usize::MAX,
    ensures
        ({
            let state = initial_state(config);
            &&& state.seq == 0
            &&& state.status == RunStatus::Running
            &&& state.error is None
            &&& state.output_path is None
            &&& state.candidate_completed == 0
            &&& state.resolved_pairs == 0
            &&& state.failed_pairs == 0
            &&& state.candidate_count == config.models@.len()
            &&& state.task_count == config.tasks@.len()
            &&& state.candidate_total == config.tasks@.len() * config.models@.len()
            &&& state.started_at == config.started_at@
            &&& config.judge is None ==> {
                &&& state.judge is None
                &&& state.expected_pairs == 0
                &&& state.pairs.len() == 0
            }
            &&& config.judge matches Some(judge) ==> {
                &&& state.judge == Some(judge@)
                &&& state.expected_pairs == config.tasks@.len() * pairs_of(
                    config.models@.len() as int,
                ).len()
                &&& state.pairs == waiting_rows(config.tasks@, config.models@)
                &&& state.pairs.len() == state.expected_pairs
            }
        }),
{
    let n = config.models@.len() as int;
    let tasks = config.tasks@.len() as int;
    rows_per_task(config.tasks@, config.models@);
    pair_count(n);
    assert(n * (n - 1) / 2 == pairs_of(n).len());
    assert(expected_pairs_spec(tasks, n) == tasks * pairs_of(n).len());
    assert(tasks * pairs_of(n).len() >= 0) by (nonlinear_arith)
        requires
            tasks >= 0,
    ;
}

/// The row that is found for a pair is the first of it, whichever way round its
/// models are named, and there is none only if no row is of the pair on that
/// task.
pub proof fn rows_are_found_by_task_and_models(
    rows: Seq<PairRowView>,
    task_id: Seq<char>,
    model_a: Seq<char>,
    model_b: Seq<char>,
)
    ensures
        ({
            let k = row_of_pair(rows, task_id, model_a, model_b, 0);
            let same = |row: PairRowView|
                row.task_id == task_id && ((row.model_a == model_a && row.model_b == model_b) || (
                row.model_a == model_b && row.model_b == model_a));
            &&& 0 <= k <= rows.len()
            &&& k < rows.len() ==> same(rows[k])
            &&& forall|i: int| 0 <= i < k ==> !same(#[trigger] rows[i])
        }),
{
    found_row(rows, task_id, model_a, model_b, 0);
    let k = row_of_pair(rows, task_id, model_a, model_b, 0);
    assert forall|i: int| 0 <= i < k implies !is_pair(
        #[trigger] rows[i],
        task_id,
        model_a,
        model_b,
    ) by {}
}

/// What was entered is used unless it is blank; what is kept is used in place of
/// it only if it is kept for the same provider.
pub proof fn kept_values_stay_with_their_provider(
    kind: WebProviderKind,
    entered: Seq<char>,
    kept_kind: Option<WebProviderKind>,
    kept: Seq<char>,
)
    ensures
        trimmed(entered).len() > 0 ==> entered_or_kept(kind, entered, kept_kind, kept) == entered,
        trimmed(entered).len() == 0 && kept_kind == Some(kind) ==> entered_or_kept(
            kind,
            entered,
            kept_kind,
            kept,
        ) == kept,
        trimmed(entered).len() == 0 && kept_kind != Some(kind) ==> entered_or_kept(
            kind,
            entered,
            kept_kind,
            kept,
        ).len() == 0,
{
}

/// Only a compatible service has an address of its own choice.
pub proof fn known_providers_have_fixed_addresses(kind: WebProviderKind)
    ensures
        fixed_url(kind) is None <==> kind == WebProviderKind::Compatible,
        kind == WebProviderKind::Openai ==> fixed_url(kind) == Some(
            "https://api.openai.com/v1"@,
        ),
        kind == WebProviderKind::Claude ==> fixed_url(kind) == Some(
            "https://api.anthropic.com/v1"@,
        ),
        kind == WebProviderKind::Gemini ==> fixed_url(kind) == Some(
            "https://generativelanguage.googleapis.com/v1beta"@,
        ),
{
}

/// Whatever `run_ending` returns: a run is announced as completed only if its
/// record was written; if it was not, the run fails with the reason for it,
/// whatever it came to.
pub proof fn completion_waits_for_the_record(
    written: Result<(), String>,
    completion: Option<ExperimentEvent>,
    r: RunEnding,
)
    requires
        call_ensures(run_ending, (written, completion), r),
    ensures
        r is Announce <==> written is Ok && completion is Some,
        r is Fail <==> written is Err,
        r matches RunEnding::Fail(error) ==> written == Err::<(), String>(error),
        r matches RunEnding::Announce(event) ==> completion == Some(event),
{
}

/// Whatever `stream_step` returns: an event is sent exactly if it is later than
/// the snapshot, and the stream stops exactly at the end of the run.
pub proof fn browsers_get_what_they_missed(
    event: &ClientEvent,
    seen: u64,
    r: StreamStep,
    number: u64,
    last: bool,
)
    requires
        call_ensures(ClientEvent::stream_step, (event, seen), r),
        call_ensures(ClientEvent::seq, (event,), number),
        call_ensures(ClientEvent::is_terminal, (event,), last),
    ensures
        r == StreamStep::Skip <==> number <= seen,
        r == StreamStep::SendAndStop <==> number > seen && last,
        event@ is RunComplete || event@ is RunFailed ==> last,
        event@ is CandidateFinished || event@ is PairResolved || event@ is PairFailed ==> !last,
        event@ matches ClientEventView::Snapshot { state, .. } ==> (last <==> state.status
            != RunStatus::Running),
{
}

/// Whatever `same_unordered_pair` returns: a row is of the pair in either order
/// of its models, and only of the same task.
pub proof fn pairs_have_no_order(
    row: &PairRow,
    task_id: &str,
    model_a: &str,
    model_b: &str,
    r: bool,
    back: bool,
)
    requires
        call_ensures(same_unordered_pair, (row, task_id, model_a, model_b), r),
        call_ensures(same_unordered_pair, (row, task_id, model_b, model_a), back),
    ensures
        r == back,
        r <==> row@.task_id == task_id@ && ((row@.model_a == model_a@ && row@.model_b == model_b@)
            || (row@.model_a == model_b@ && row@.model_b == model_a@)),
{
}

/// What `resolve_web_provider` accepts has a key, and an address where the
/// provider has no fixed one; both are used without the white space around them.
pub proof fn providers_need_a_key(
    kind: WebProviderKind,
    api_key: &str,
    base_url: &str,
    r: Result<ResolvedWebProvider, &'static str>,
    fixed: Option<&'static str>,
)
    requires
        call_ensures(resolve_web_provider, (kind, api_key, base_url), r),
        call_ensures(WebProviderKind::fixed_base_url, (kind,), fixed),
    ensures
        r is Ok <==> trimmed(api_key@).len() > 0 && (fixed is Some || trimmed(base_url@).len() > 0),
        r matches Ok(resolved) ==> {
            &&& resolved.kind == kind
            &&& resolved.api_key@ == trimmed(api_key@)
            &&& fixed is Some ==> resolved.base_url@ == fixed->Some_0@
            &&& fixed is None ==> resolved.base_url@ == trimmed(base_url@)
        },
        fixed is None <==> kind == WebProviderKind::Compatible,
{
    known_providers_have_fixed_addresses(kind);
}

/// What is kept of a session is used only for the provider it was entered for,
/// and only where nothing else is entered.
pub proof fn sessions_fill_in_what_is_blank(
    kept: &ResolvedWebProvider,
    kind: WebProviderKind,
    api_key: &str,
    base_url: &str,
    r: (String, String),
    none: (String, String),
)
    requires
        call_ensures(merge_credentials, (Some(kept), kind, api_key, base_url), r),
        call_ensures(merge_credentials, (None, kind, api_key, base_url), none),
    ensures
        trimmed(api_key@).len() > 0 ==> r.0@ == api_key@ && none.0@ == api_key@,
        trimmed(base_url@).len() > 0 ==> r.1@ == base_url@ && none.1@ == base_url@,
        trimmed(api_key@).len() == 0 ==> {
            &&& kept.kind == kind ==> r.0@ == kept.api_key@
            &&& kept.kind != kind ==> r.0@.len() == 0
            &&& none.0@.len() == 0
        },
        trimmed(base_url@).len() == 0 ==> {
            &&& kept.kind == kind ==> r.1@ == kept.base_url@
            &&& kept.kind != kind ==> r.1@.len() == 0
            &&& none.1@.len() == 0
        },
{
    kept_values_stay_with_their_provider(kind, api_key@, Some(kept.kind), kept.api_key@);
    kept_values_stay_with_their_provider(kind, base_url@, Some(kept.kind), kept.base_url@);
    kept_values_stay_with_their_provider(kind, api_key@, None, seq![]);
    kept_values_stay_with_their_provider(kind, base_url@, None, seq![]);
}

} // verus!
