//! Judging all the pairs of a task: two orientations per pair, whose outcomes
//! arrive in any order.
use crate::evaluate::EvaluatedResult;
use crate::judge::{
    failure_of, orientation_failure, resolve_judgments, resolved, JudgeError, JudgeOrientation,
    JudgePairsOutcome, Judgment, JudgmentFailure, JudgmentFailureView, JudgmentView,
    OrientationFailure, OrientationFailureView,
};
use crate::provider::ModelId;
use crate::slots::{filled_places_keep_their_order, present};
use crate::task::Task;
use vstd::prelude::*;

verus! {

/// How an orientation ended: when it started, in milliseconds of a clock that
/// all orientations share, how often it was tried, and what came of it.
#[derive(Debug)]
pub struct OrientationOutcome {
    pub started_ms: u64,
    pub attempts: u32,
    pub result: Result<Judgment, JudgeError>,
}

/// A pair of models, the outcomes that are waiting for the other orientation,
/// and what the pair came to.
pub struct PairEntry {
    pub model_a: ModelId,
    pub model_b: ModelId,
    pub original: Option<OrientationOutcome>,
    pub swapped: Option<OrientationOutcome>,
    pub judgment: Option<Judgment>,
    pub failure: Option<JudgmentFailure>,
}

/// A pair entry, with its texts as sequences of characters.
pub struct PairEntryView {
    pub model_a: Seq<char>,
    pub model_b: Seq<char>,
    pub original: Option<OrientationOutcome>,
    pub swapped: Option<OrientationOutcome>,
    pub judgment: Option<JudgmentView>,
    pub failure: Option<JudgmentFailureView>,
}

impl View for PairEntry {
    type V = PairEntryView;

    open spec fn view(&self) -> PairEntryView {
        PairEntryView {
            model_a: self.model_a@,
            model_b: self.model_b@,
            original: self.original,
            swapped: self.swapped,
            judgment: match self.judgment {
                Some(judgment) => Some(judgment@),
                None => None,
            },
            failure: match self.failure {
                Some(failure) => Some(failure@),
                None => None,
            },
        }
    }
}

/// The entry with one more outcome waiting in it.
pub open spec fn waiting(
    entry: PairEntryView,
    orientation: JudgeOrientation,
    outcome: OrientationOutcome,
) -> PairEntryView {
    match orientation {
        JudgeOrientation::Ab => PairEntryView { original: Some(outcome), ..entry },
        JudgeOrientation::Ba => PairEntryView { swapped: Some(outcome), ..entry },
    }
}

/// The failures among the two orientations, the original one first.
pub open spec fn failures_of(original: OrientationOutcome, swapped: OrientationOutcome) -> Seq<
    OrientationFailureView,
> {
    let first = match original.result {
        Err(error) => seq![failure_of(JudgeOrientation::Ab, original.attempts, error)],
        Ok(_) => seq![],
    };
    match swapped.result {
        Err(error) => first.push(failure_of(JudgeOrientation::Ba, swapped.attempts, error)),
        Ok(_) => first,
    }
}

/// The time from the earlier of two starts until `now_ms`.
pub open spec fn elapsed_since_first(one_ms: u64, other_ms: u64, now_ms: u64) -> u64 {
    let first = if one_ms <= other_ms {
        one_ms
    } else {
        other_ms
    };
    if now_ms >= first {
        (now_ms - first) as u64
    } else {
        0
    }
}

/// The entry once both outcomes are in: a judgment if both orientations
/// succeeded, a failure otherwise.
pub open spec fn settled(
    entry: PairEntryView,
    task_id: Seq<char>,
    judge_model: Seq<char>,
    now_ms: u64,
) -> PairEntryView {
    match (entry.original, entry.swapped) {
        (Some(original), Some(swapped)) => match (original.result, swapped.result) {
            (Ok(first), Ok(second)) => PairEntryView {
                original: None,
                swapped: None,
                judgment: Some(
                    resolved(
                        first@,
                        second@,
                        elapsed_since_first(original.started_ms, swapped.started_ms, now_ms),
                    ),
                ),
                ..entry
            },
            _ => PairEntryView {
                original: None,
                swapped: None,
                failure: Some(
                    JudgmentFailureView {
                        task_id,
                        model_a: entry.model_a,
                        model_b: entry.model_b,
                        judge_model,
                        orientations: failures_of(original, swapped),
                    },
                ),
                ..entry
            },
        },
        _ => entry,
    }
}

/// The pairs `(i, j)` of `0..n` with `i < j`, for the first `rows` values of `i`.
pub open spec fn pairs_in_rows(n: int, rows: int) -> Seq<(int, int)>
    decreases rows,
{
    if rows <= 0 {
        seq![]
    } else {
        pairs_in_rows(n, rows - 1) + Seq::new(
            (if n > rows {
                n - rows
            } else {
                0
            }) as nat,
            |k: int| (rows - 1, rows + k),
        )
    }
}

/// The unordered pairs of `0..n`, by their first and then their second member.
pub open spec fn pairs_of(n: int) -> Seq<(int, int)> {
    pairs_in_rows(n, n)
}

/// There are `n * (n - 1) / 2` unordered pairs of `n` results.
pub proof fn pair_count(n: int)
    requires
        n >= 0,
    ensures
        pairs_of(n).len() * 2 == n * (n - 1),
{
    pair_count_in_rows(n, n);
    assert(n * (2 * n - n - 1) == n * (n - 1));
}

proof fn pair_count_in_rows(n: int, rows: int)
    requires
        0 <= rows <= n,
    ensures
        pairs_in_rows(n, rows).len() * 2 == rows * (2 * n - rows - 1),
    decreases rows,
{
    if rows > 0 {
        pair_count_in_rows(n, rows - 1);
        assert(rows * (2 * n - rows - 1) == (rows - 1) * (2 * n - (rows - 1) - 1) + 2 * (n - rows))
            by (nonlinear_arith);
    } else {
        assert(rows * (2 * n - rows - 1) == 0) by (nonlinear_arith)
            requires
                rows == 0,
        ;
    }
}

/// Lists the unordered pairs of `0..n`.
pub fn pair_indices(n: usize) -> (r: Vec<(usize, usize)>)
    ensures
        r@.map_values(|p: (usize, usize)| (p.0 as int, p.1 as int)) == pairs_of(n as int),
{
    let ghost f = |p: (usize, usize)| (p.0 as int, p.1 as int);
    let mut r: Vec<(usize, usize)> = Vec::new();
    let mut i: usize = 0;
    proof {
        assert(r@.map_values(f) =~= pairs_in_rows(n as int, 0));
    }
    while i < n
        invariant
            i <= n,
            f == (|p: (usize, usize)| (p.0 as int, p.1 as int)),
            r@.map_values(f) == pairs_in_rows(n as int, i as int),
        decreases n - i,
    {
        let ghost before = r@.map_values(f);
        let mut j: usize = i + 1;
        while j < n
            invariant
                i < j <= n,
                f == (|p: (usize, usize)| (p.0 as int, p.1 as int)),
                r@.map_values(f) == before + Seq::new(
                    (j - i - 1) as nat,
                    |k: int| (i as int, i + 1 + k),
                ),
            decreases n - j,
        {
            let ghost earlier = r@;
            r.push((i, j));
            proof {
                assert(r@.map_values(f) =~= earlier.map_values(f).push((i as int, j as int)));
                assert(r@.map_values(f) =~= before + Seq::new(
                    (j + 1 - i - 1) as nat,
                    |k: int| (i as int, i + 1 + k),
                ));
            }
            j += 1;
        }
        proof {
            assert(r@.map_values(f) =~= pairs_in_rows(n as int, i + 1));
        }
        i += 1;
    }
    r
}

/// What is asked of the judge: which pair, in which orientation, and which
/// answers are shown first and second.
pub open spec fn presentation_view(p: (usize, JudgeOrientation, usize, usize)) -> (
    int,
    JudgeOrientation,
    int,
    int,
) {
    (p.0 as int, p.1, p.2 as int, p.3 as int)
}

/// Lists what is asked of the judge of `n` answers: every pair twice, as it
/// stands and then with the two answers exchanged.
pub fn presentations(n: usize) -> (r: Vec<(usize, JudgeOrientation, usize, usize)>)
    ensures
        r@.len() == 2 * pairs_of(n as int).len(),
        forall|k: int|
            0 <= k < pairs_of(n as int).len() ==> {
                let (i, j) = #[trigger] pairs_of(n as int)[k];
                &&& presentation_view(r@[2 * k]) == (k, JudgeOrientation::Ab, i, j)
                &&& presentation_view(r@[2 * k + 1]) == (k, JudgeOrientation::Ba, j, i)
            },
{
    let ghost f = |p: (usize, usize)| (p.0 as int, p.1 as int);
    let pairs: Vec<(usize, usize)> = pair_indices(n);
    let mut r: Vec<(usize, JudgeOrientation, usize, usize)> = Vec::new();
    let mut k: usize = 0;
    while k < pairs.len()
        invariant
            k <= pairs@.len(),
            f == (|p: (usize, usize)| (p.0 as int, p.1 as int)),
            pairs@.map_values(f) == pairs_of(n as int),
            r@.len() == 2 * k,
            forall|t: int|
                0 <= t < k ==> {
                    let (i, j) = #[trigger] pairs_of(n as int)[t];
                    &&& presentation_view(r@[2 * t]) == (t, JudgeOrientation::Ab, i, j)
                    &&& presentation_view(r@[2 * t + 1]) == (t, JudgeOrientation::Ba, j, i)
                },
        decreases pairs@.len() - k,
    {
        let (i, j) = pairs[k];
        proof {
            assert(pairs@.map_values(f)[k as int] == (i as int, j as int));
        }
        r.push((k, JudgeOrientation::Ab, i, j));
        r.push((k, JudgeOrientation::Ba, j, i));
        k += 1;
    }
    proof {
        assert(pairs@.map_values(f).len() == pairs@.len());
    }
    r
}

/// What has come in of the pairs of one task.
pub struct PairLedger {
    pub task_id: String,
    pub judge_model: ModelId,
    pub entries: Vec<PairEntry>,
}

/// The entries of a ledger.
pub open spec fn entries_view(entries: Seq<PairEntry>) -> Seq<PairEntryView> {
    entries.map_values(|entry: PairEntry| entry@)
}

/// An entry in which nothing has come in.
pub open spec fn fresh_entry(model_a: Seq<char>, model_b: Seq<char>) -> PairEntryView {
    PairEntryView {
        model_a,
        model_b,
        original: None,
        swapped: None,
        judgment: None,
        failure: None,
    }
}

/// The entry with one more outcome.
pub open spec fn recorded(
    entry: PairEntryView,
    task_id: Seq<char>,
    judge_model: Seq<char>,
    orientation: JudgeOrientation,
    outcome: OrientationOutcome,
    now_ms: u64,
) -> PairEntryView {
    settled(waiting(entry, orientation, outcome), task_id, judge_model, now_ms)
}

/// The judgments of the pairs, where there are any.
pub open spec fn judgments_in(entries: Seq<PairEntryView>) -> Seq<Option<JudgmentView>> {
    entries.map_values(|entry: PairEntryView| entry.judgment)
}

/// The failures of the pairs, where there are any.
pub open spec fn failures_in(entries: Seq<PairEntryView>) -> Seq<Option<JudgmentFailureView>> {
    entries.map_values(|entry: PairEntryView| entry.failure)
}

impl PairLedger {
    /// A ledger for the pairs of the results of one task.
    pub fn new(judge_model: &ModelId, task: &Task, results: &[EvaluatedResult]) -> (r: Self)
        ensures
            r.task_id == task.id,
            r.judge_model == *judge_model,
            entries_view(r.entries@) == pairs_of(results@.len() as int).map_values(
                |p: (int, int)| fresh_entry(results@[p.0].model@, results@[p.1].model@),
            ),
    {
        let pairs: Vec<(usize, usize)> = pair_indices(results.len());
        let ghost f = |p: (int, int)| fresh_entry(results@[p.0].model@, results@[p.1].model@);
        let ghost all = pairs_of(results@.len() as int);
        proof {
            pairs_inside(results@.len() as int, results@.len() as int);
            assert forall|t: int| 0 <= t < pairs@.len() implies (#[trigger] pairs@[t]).0
                < results@.len() && pairs@[t].1 < results@.len() && all[t] == (
                pairs@[t].0 as int,
                pairs@[t].1 as int,
            ) by {
                assert(all[t] == (pairs@[t].0 as int, pairs@[t].1 as int));
            }
        }
        let mut entries: Vec<PairEntry> = Vec::new();
        let mut k: usize = 0;
        while k < pairs.len()
            invariant
                k <= pairs@.len(),
                pairs@.len() == all.len(),
                f == (|p: (int, int)| fresh_entry(results@[p.0].model@, results@[p.1].model@)),
                forall|t: int|
                    0 <= t < pairs@.len() ==> (#[trigger] pairs@[t]).0 < results@.len()
                        && pairs@[t].1 < results@.len() && all[t] == (
                        pairs@[t].0 as int,
                        pairs@[t].1 as int,
                    ),
                entries_view(entries@) == all.take(k as int).map_values(f),
            decreases pairs@.len() - k,
        {
            let (i, j) = pairs[k];
            let entry: PairEntry = PairEntry {
                model_a: results[i].model.clone(),
                model_b: results[j].model.clone(),
                original: None,
                swapped: None,
                judgment: None,
                failure: None,
            };
            proof {
                assert(pairs@[k as int] == (i, j));
                assert(entry@ == f(all[k as int]));
            }
            let ghost earlier = entries@;
            entries.push(entry);
            proof {
                assert(entries_view(entries@) =~= entries_view(earlier).push(entry@));
                assert(all.take(k + 1) =~= all.take(k as int).push(all[k as int]));
                assert(entries_view(entries@) =~= all.take(k + 1).map_values(f));
            }
            k += 1;
        }
        proof {
            assert(all.take(all.len() as int) =~= all);
        }
        PairLedger { task_id: task.id.clone(), judge_model: judge_model.clone(), entries }
    }

    /// Records how an orientation of the pair `index` ended. Results of
    /// different tasks end the whole judging.
    pub fn record(
        &mut self,
        index: usize,
        orientation: JudgeOrientation,
        outcome: OrientationOutcome,
        now_ms: u64,
    ) -> (r: Result<(), JudgeError>)
        requires
            index < old(self).entries@.len(),
        ensures
            final(self).task_id == old(self).task_id,
            final(self).judge_model == old(self).judge_model,
            r is Err <==> outcome.result == Err::<Judgment, JudgeError>(JudgeError::DifferentTasks),
            r matches Err(error) ==> error == JudgeError::DifferentTasks && *final(self) == *old(
                self,
            ),
            r is Ok ==> entries_view(final(self).entries@) == entries_view(
                old(self).entries@,
            ).update(
                index as int,
                recorded(
                    old(self).entries@[index as int]@,
                    old(self).task_id@,
                    old(self).judge_model@,
                    orientation,
                    outcome,
                    now_ms,
                ),
            ),
    {
        if let Err(JudgeError::DifferentTasks) = &outcome.result {
            return Err(JudgeError::DifferentTasks);
        }
        let ghost before = self.entries@;
        let entry: PairEntry = self.entries.remove(index);
        let ghost entry0 = entry@;
        let mut original: Option<OrientationOutcome> = entry.original;
        let mut swapped: Option<OrientationOutcome> = entry.swapped;
        match orientation {
            JudgeOrientation::Ab => {
                original = Some(outcome);
            },
            JudgeOrientation::Ba => {
                swapped = Some(outcome);
            },
        }
        let entry: PairEntry = settle(
            PairEntry {
                model_a: entry.model_a,
                model_b: entry.model_b,
                original,
                swapped,
                judgment: entry.judgment,
                failure: entry.failure,
            },
            &self.task_id,
            &self.judge_model,
            now_ms,
        );
        self.entries.insert(index, entry);
        proof {
            assert(entries_view(self.entries@) =~= entries_view(before).update(
                index as int,
                recorded(entry0, self.task_id@, self.judge_model@, orientation, outcome, now_ms),
            ));
        }
        Ok(())
    }

    /// What the pairs came to, in their order. Pairs without both outcomes are
    /// in neither list.
    pub fn finish(self) -> (r: JudgePairsOutcome)
        ensures
            r.judgments@.map_values(|judgment: Judgment| judgment@) == present(
                judgments_in(entries_view(self.entries@)),
            ),
            r.failures@.map_values(|failure: JudgmentFailure| failure@) == present(
                failures_in(entries_view(self.entries@)),
            ),
    {
        let ghost all = self.entries@;
        let ghost views = entries_view(all);
        let mut judgments: Vec<Judgment> = Vec::new();
        let mut failures: Vec<JudgmentFailure> = Vec::new();
        proof {
            assert(judgments@.map_values(|judgment: Judgment| judgment@) =~= present(
                judgments_in(views.take(0)),
            ));
            assert(failures@.map_values(|failure: JudgmentFailure| failure@) =~= present(
                failures_in(views.take(0)),
            ));
        }
        for entry in it: self.entries
            invariant
                it.seq() == all,
                views == entries_view(all),
                judgments@.map_values(|judgment: Judgment| judgment@) == present(
                    judgments_in(views.take(it.index() as int)),
                ),
                failures@.map_values(|failure: JudgmentFailure| failure@) == present(
                    failures_in(views.take(it.index() as int)),
                ),
        {
            let ghost seen = views.take(it.index() as int);
            let ghost more = views.take(it.index() + 1);
            proof {
                assert(judgments_in(more).drop_last() =~= judgments_in(seen));
                assert(failures_in(more).drop_last() =~= failures_in(seen));
                assert(more.last() == entry@);
            }
            if let Some(judgment) = entry.judgment {
                judgments.push(judgment);
            }
            if let Some(failure) = entry.failure {
                failures.push(failure);
            }
            proof {
                assert(judgments@.map_values(|judgment: Judgment| judgment@) =~= present(
                    judgments_in(more),
                ));
                assert(failures@.map_values(|failure: JudgmentFailure| failure@) =~= present(
                    failures_in(more),
                ));
            }
        }
        proof {
            assert(views.take(views.len() as int) =~= views);
        }
        JudgePairsOutcome { judgments, failures }
    }
}

pub(crate) proof fn pairs_inside(n: int, rows: int)
    requires
        0 <= rows <= n,
    ensures
        forall|t: int|
            0 <= t < pairs_in_rows(n, rows).len() ==> 0 <= (#[trigger] pairs_in_rows(n, rows)[t]).0
                < pairs_in_rows(n, rows)[t].1 < n,
    decreases rows,
{
    if rows > 0 {
        pairs_inside(n, rows - 1);
        let head = pairs_in_rows(n, rows - 1);
        let all = pairs_in_rows(n, rows);
        assert forall|t: int| 0 <= t < all.len() implies 0 <= (#[trigger] all[t]).0 < all[t].1
            < n by {
            if t < head.len() {
                assert(all[t] == head[t]);
            }
        }
    }
}

/// Settles the entry if both outcomes are in.
fn settle(entry: PairEntry, task_id: &String, judge_model: &ModelId, now_ms: u64) -> (r: PairEntry)
    ensures
        r@ == settled(entry@, task_id@, judge_model@, now_ms),
{
    if entry.original.is_none() || entry.swapped.is_none() {
        return entry;
    }
    match (entry.original, entry.swapped) {
        (Some(original), Some(swapped)) => {
            let first_ms: u64 = if original.started_ms <= swapped.started_ms {
                original.started_ms
            } else {
                swapped.started_ms
            };
            let duration_ms: u64 = if now_ms >= first_ms {
                now_ms - first_ms
            } else {
                0
            };
            match (original.result, swapped.result) {
                (Ok(first), Ok(second)) => PairEntry {
                    model_a: entry.model_a,
                    model_b: entry.model_b,
                    original: None,
                    swapped: None,
                    judgment: Some(resolve_judgments(first, second, duration_ms)),
                    failure: entry.failure,
                },
                (first, second) => {
                    let mut orientations: Vec<OrientationFailure> = Vec::new();
                    if let Err(error) = &first {
                        orientations.push(
                            orientation_failure(JudgeOrientation::Ab, original.attempts, error),
                        );
                    }
                    if let Err(error) = &second {
                        orientations.push(
                            orientation_failure(JudgeOrientation::Ba, swapped.attempts, error),
                        );
                    }
                    let failure: JudgmentFailure = JudgmentFailure {
                        task_id: task_id.clone(),
                        model_a: entry.model_a.clone(),
                        model_b: entry.model_b.clone(),
                        judge_model: judge_model.clone(),
                        orientations,
                    };
                    proof {
                        assert(failure@.orientations =~= failures_of(original, swapped));
                    }
                    PairEntry {
                        model_a: entry.model_a,
                        model_b: entry.model_b,
                        original: None,
                        swapped: None,
                        judgment: entry.judgment,
                        failure: Some(failure),
                    }
                },
            }
        },
        (original, swapped) => PairEntry {
            model_a: entry.model_a,
            model_b: entry.model_b,
            original,
            swapped,
            judgment: entry.judgment,
            failure: entry.failure,
        },
    }
}

/// One outcome that comes in.
pub struct PairEvent {
    pub index: int,
    pub orientation: JudgeOrientation,
    pub outcome: OrientationOutcome,
    pub now_ms: u64,
}

/// The entries after these outcomes have come in, one after the other.
pub open spec fn replay(
    entries: Seq<PairEntryView>,
    task_id: Seq<char>,
    judge_model: Seq<char>,
    events: Seq<PairEvent>,
) -> Seq<PairEntryView>
    decreases events.len(),
{
    if events.len() == 0 {
        entries
    } else {
        let before = replay(entries, task_id, judge_model, events.drop_last());
        let event = events.last();
        before.update(
            event.index,
            recorded(
                before[event.index],
                task_id,
                judge_model,
                event.orientation,
                event.outcome,
                event.now_ms,
            ),
        )
    }
}

/// An outcome of this orientation of the pair is among the events.
pub open spec fn came_in(events: Seq<PairEvent>, index: int, orientation: JudgeOrientation) -> bool {
    exists|t: int|
        0 <= t < events.len() && (#[trigger] events[t]).index == index && events[t].orientation
            == orientation
}

/// No orientation of a pair comes in twice, and all are of pairs of `0..n`.
pub open spec fn at_most_once(events: Seq<PairEvent>, n: int) -> bool {
    &&& forall|t: int| 0 <= t < events.len() ==> 0 <= (#[trigger] events[t]).index < n
    &&& forall|t: int, u: int|
        0 <= t < u < events.len() && (#[trigger] events[t]).index == (#[trigger] events[u]).index
            ==> events[t].orientation != events[u].orientation
}

/// Nothing has come in for any of the pairs.
pub open spec fn all_fresh(entries: Seq<PairEntryView>) -> bool {
    forall|i: int|
        0 <= i < entries.len() ==> #[trigger] entries[i] == fresh_entry(
            entries[i].model_a,
            entries[i].model_b,
        )
}

/// Where a pair stands when these outcomes have come in: with one of them it
/// waits, with both it has either a judgment or a failure.
pub open spec fn stands(entry: PairEntryView, original_in: bool, swapped_in: bool) -> bool {
    &&& entry.original is Some <==> original_in && !swapped_in
    &&& entry.swapped is Some <==> swapped_in && !original_in
    &&& !(original_in && swapped_in) ==> entry.judgment is None && entry.failure is None
    &&& original_in && swapped_in ==> (entry.judgment is Some <==> entry.failure is None)
}

proof fn pair_stands(
    entries: Seq<PairEntryView>,
    task_id: Seq<char>,
    judge_model: Seq<char>,
    events: Seq<PairEvent>,
    i: int,
)
    requires
        all_fresh(entries),
        at_most_once(events, entries.len() as int),
        0 <= i < entries.len(),
    ensures
        replay(entries, task_id, judge_model, events).len() == entries.len(),
        stands(
            replay(entries, task_id, judge_model, events)[i],
            came_in(events, i, JudgeOrientation::Ab),
            came_in(events, i, JudgeOrientation::Ba),
        ),
    decreases events.len(),
{
    if events.len() > 0 {
        let head = events.drop_last();
        let event = events.last();
        let last = events.len() - 1;
        assert(at_most_once(head, entries.len() as int)) by {
            assert forall|t: int| 0 <= t < head.len() implies 0 <= (#[trigger] head[t]).index
                < entries.len() by {
                assert(head[t] == events[t]);
            }
            assert forall|t: int, u: int|
                0 <= t < u < head.len() && (#[trigger] head[t]).index == (
                #[trigger] head[u]).index implies head[t].orientation != head[u].orientation by {
                assert(head[t] == events[t] && head[u] == events[u]);
            }
        }
        pair_stands(entries, task_id, judge_model, head, i);
        assert(events[last] == event);
        assert forall|o: JudgeOrientation|
            came_in(events, i, o) == (came_in(head, i, o) || (event.index == i
                && event.orientation == o)) by {
            if came_in(events, i, o) {
                let t = choose|t: int|
                    0 <= t < events.len() && (#[trigger] events[t]).index == i
                        && events[t].orientation == o;
                if t < last {
                    assert(head[t] == events[t]);
                }
            }
            if came_in(head, i, o) {
                let t = choose|t: int|
                    0 <= t < head.len() && (#[trigger] head[t]).index == i && head[t].orientation
                        == o;
                assert(events[t] == head[t]);
            }
        }
        if event.index == i && came_in(head, i, event.orientation) {
            let t = choose|t: int|
                0 <= t < head.len() && (#[trigger] head[t]).index == i && head[t].orientation
                    == event.orientation;
            assert(events[t] == head[t]);
            assert(events[t].orientation != events[last].orientation);
        }
    } else {
        assert(entries[i] == fresh_entry(entries[i].model_a, entries[i].model_b));
    }
}

proof fn one_of_each(entries: Seq<PairEntryView>)
    requires
        forall|i: int|
            0 <= i < entries.len() ==> ((#[trigger] entries[i]).judgment is Some
                <==> entries[i].failure is None),
    ensures
        present(judgments_in(entries)).len() + present(failures_in(entries)).len()
            == entries.len(),
    decreases entries.len(),
{
    if entries.len() > 0 {
        let head = entries.drop_last();
        assert forall|i: int| 0 <= i < head.len() implies ((#[trigger] head[i]).judgment is Some
            <==> head[i].failure is None) by {
            assert(head[i] == entries[i]);
        }
        one_of_each(head);
        assert(judgments_in(entries).drop_last() =~= judgments_in(head));
        assert(failures_in(entries).drop_last() =~= failures_in(head));
        assert(entries[entries.len() - 1] == entries.last());
    }
}

/// Once each orientation of every pair has come in, in whatever order, every
/// pair has either a judgment or a failure and not both: judgments and failures
/// together are as many as the pairs.
pub proof fn every_pair_is_accounted_for(
    entries: Seq<PairEntryView>,
    task_id: Seq<char>,
    judge_model: Seq<char>,
    events: Seq<PairEvent>,
)
    requires
        all_fresh(entries),
        at_most_once(events, entries.len() as int),
        forall|i: int, o: JudgeOrientation|
            0 <= i < entries.len() ==> #[trigger] came_in(events, i, o),
    ensures
        ({
            let after = replay(entries, task_id, judge_model, events);
            present(judgments_in(after)).len() + present(failures_in(after)).len() == entries.len()
        }),
{
    let after = replay(entries, task_id, judge_model, events);
    assert(after.len() == entries.len()) by {
        replay_keeps_length(entries, task_id, judge_model, events);
    }
    assert forall|i: int| 0 <= i < after.len() implies ((#[trigger] after[i]).judgment is Some
        <==> after[i].failure is None) by {
        pair_stands(entries, task_id, judge_model, events, i);
        assert(came_in(events, i, JudgeOrientation::Ab));
        assert(came_in(events, i, JudgeOrientation::Ba));
    }
    one_of_each(after);
}

proof fn replay_keeps_length(
    entries: Seq<PairEntryView>,
    task_id: Seq<char>,
    judge_model: Seq<char>,
    events: Seq<PairEvent>,
)
    requires
        forall|t: int|
            0 <= t < events.len() ==> 0 <= (#[trigger] events[t]).index < entries.len(),
    ensures
        replay(entries, task_id, judge_model, events).len() == entries.len(),
    decreases events.len(),
{
    if events.len() > 0 {
        let head = events.drop_last();
        assert forall|t: int| 0 <= t < head.len() implies 0 <= (#[trigger] head[t]).index
            < entries.len() by {
            assert(head[t] == events[t]);
        }
        assert(events[events.len() - 1] == events.last());
        replay_keeps_length(entries, task_id, judge_model, events.drop_last());
    }
}

/// Outcomes of different pairs do not affect each other: their order does not
/// matter.
pub proof fn pairs_are_independent(
    entries: Seq<PairEntryView>,
    task_id: Seq<char>,
    judge_model: Seq<char>,
    one: PairEvent,
    other: PairEvent,
)
    requires
        0 <= one.index < entries.len(),
        0 <= other.index < entries.len(),
        one.index != other.index,
    ensures
        replay(entries, task_id, judge_model, seq![one, other]) == replay(
            entries,
            task_id,
            judge_model,
            seq![other, one],
        ),
{
    reveal_with_fuel(replay, 3);
    assert(seq![one, other].drop_last() =~= seq![one]);
    assert(seq![other, one].drop_last() =~= seq![other]);
    assert(seq![one].drop_last() =~= Seq::<PairEvent>::empty());
    assert(seq![other].drop_last() =~= Seq::<PairEvent>::empty());
    assert(replay(entries, task_id, judge_model, seq![one, other]) =~= replay(
        entries,
        task_id,
        judge_model,
        seq![other, one],
    ));
}

/// A pair is judged only if both of its orientations succeed, whichever comes
/// in first; otherwise it is no draw but a failure that lists the orientations
/// that failed.
pub proof fn judged_only_if_both_succeed(
    model_a: Seq<char>,
    model_b: Seq<char>,
    task_id: Seq<char>,
    judge_model: Seq<char>,
    original: OrientationOutcome,
    swapped: OrientationOutcome,
    earlier_ms: u64,
    now_ms: u64,
)
    ensures
        ({
            let fresh = fresh_entry(model_a, model_b);
            let ab = JudgeOrientation::Ab;
            let ba = JudgeOrientation::Ba;
            let first = recorded(fresh, task_id, judge_model, ab, original, earlier_ms);
            let last = recorded(first, task_id, judge_model, ba, swapped, now_ms);
            let other_first = recorded(fresh, task_id, judge_model, ba, swapped, earlier_ms);
            &&& last == recorded(other_first, task_id, judge_model, ab, original, now_ms)
            &&& last.judgment is Some <==> original.result is Ok && swapped.result is Ok
            &&& last.failure is Some <==> original.result is Err || swapped.result is Err
            &&& last.failure matches Some(failure) ==> failure.orientations == failures_of(
                original,
                swapped,
            )
        }),
{
}

/// Every unordered pair of `0..n` is listed once, with the lower place first:
/// the pairs are sorted by their first and then by their second place.
pub proof fn every_pair_is_listed_once(n: int)
    requires
        0 <= n,
    ensures
        forall|i: int, j: int| pairs_of(n).contains((i, j)) <==> 0 <= i < j < n,
        forall|s: int, t: int|
            0 <= s < t < pairs_of(n).len() ==> {
                let (one, two) = (#[trigger] pairs_of(n)[s], #[trigger] pairs_of(n)[t]);
                one.0 < two.0 || (one.0 == two.0 && one.1 < two.1)
            },
{
    rows_are_sorted(n, n);
    assert forall|i: int, j: int| pairs_of(n).contains((i, j)) <==> 0 <= i < j < n by {
        if pairs_of(n).contains((i, j)) {
            let t = choose|t: int| 0 <= t < pairs_of(n).len() && pairs_of(n)[t] == (i, j);
            pairs_inside(n, n);
            assert(pairs_of(n)[t].0 == i);
        }
        if 0 <= i < j < n {
            pair_in_rows(n, n, i, j);
        }
    }
}

proof fn pair_in_rows(n: int, rows: int, i: int, j: int)
    requires
        0 <= i < rows <= n,
        i < j < n,
    ensures
        pairs_in_rows(n, rows).contains((i, j)),
    decreases rows,
{
    let head = pairs_in_rows(n, rows - 1);
    let all = pairs_in_rows(n, rows);
    if i < rows - 1 {
        pair_in_rows(n, rows - 1, i, j);
        let t = choose|t: int| 0 <= t < head.len() && head[t] == (i, j);
        assert(all[t] == (i, j));
    } else {
        assert(all[head.len() + (j - i - 1)] == (i, j));
    }
}

proof fn rows_are_sorted(n: int, rows: int)
    requires
        0 <= rows <= n,
    ensures
        forall|s: int| 0 <= s < pairs_in_rows(n, rows).len() ==> (#[trigger] pairs_in_rows(
            n,
            rows,
        )[s]).0 < rows,
        forall|s: int, t: int|
            0 <= s < t < pairs_in_rows(n, rows).len() ==> {
                let (one, two) = (
                    #[trigger] pairs_in_rows(n, rows)[s],
                    #[trigger] pairs_in_rows(n, rows)[t],
                );
                one.0 < two.0 || (one.0 == two.0 && one.1 < two.1)
            },
    decreases rows,
{
    if rows > 0 {
        rows_are_sorted(n, rows - 1);
        let head = pairs_in_rows(n, rows - 1);
        let all = pairs_in_rows(n, rows);
        assert forall|s: int| 0 <= s < all.len() implies (#[trigger] all[s]).0 < rows by {
            if s < head.len() {
                assert(all[s] == head[s]);
            }
        }
        assert forall|s: int, t: int| 0 <= s < t < all.len() implies {
            let (one, two) = (#[trigger] all[s], #[trigger] all[t]);
            one.0 < two.0 || (one.0 == two.0 && one.1 < two.1)
        } by {
            if s < head.len() {
                assert(all[s] == head[s]);
                assert(head[s].0 < rows - 1);
                if t < head.len() {
                    assert(all[t] == head[t]);
                }
            }
        }
    }
}

/// The time of a pair runs from the start of the order that started first.
pub proof fn pair_time_runs_from_the_first_start(one_ms: u64, other_ms: u64, now_ms: u64)
    ensures
        one_ms <= now_ms && one_ms <= other_ms ==> elapsed_since_first(one_ms, other_ms, now_ms)
            == now_ms - one_ms,
        other_ms <= now_ms && other_ms <= one_ms ==> elapsed_since_first(one_ms, other_ms, now_ms)
            == now_ms - other_ms,
        now_ms < one_ms && now_ms < other_ms ==> elapsed_since_first(one_ms, other_ms, now_ms) == 0,
{
}

/// A failed pair lists the orders that failed and no others, the original one
/// first, each with its own attempts and its own error.
pub proof fn failed_orders_are_listed(original: OrientationOutcome, swapped: OrientationOutcome)
    ensures
        failures_of(original, swapped).len() == (if original.result is Err {
            1int
        } else {
            0
        }) + (if swapped.result is Err {
            1int
        } else {
            0
        }),
        original.result matches Err(error) ==> failures_of(original, swapped)[0] == failure_of(
            JudgeOrientation::Ab,
            original.attempts,
            error,
        ),
        swapped.result matches Err(error) ==> failures_of(original, swapped)[failures_of(
            original,
            swapped,
        ).len() - 1] == failure_of(JudgeOrientation::Ba, swapped.attempts, error),
{
}

/// What a pair comes to once both of its orders are in, whichever came first. If
/// both succeeded it is the judgment that they resolve to, timed from the first
/// start, and otherwise a failure under the pair's own models and task; it never
/// is both.
pub proof fn pairs_come_to_what_their_orders_do(
    model_a: Seq<char>,
    model_b: Seq<char>,
    task_id: Seq<char>,
    judge_model: Seq<char>,
    original: OrientationOutcome,
    swapped: OrientationOutcome,
    earlier_ms: u64,
    now_ms: u64,
)
    ensures
        ({
            let fresh = fresh_entry(model_a, model_b);
            let ab = JudgeOrientation::Ab;
            let ba = JudgeOrientation::Ba;
            let first = recorded(fresh, task_id, judge_model, ab, original, earlier_ms);
            let other_first = recorded(fresh, task_id, judge_model, ba, swapped, earlier_ms);
            let last = recorded(first, task_id, judge_model, ba, swapped, now_ms);
            &&& first == (PairEntryView { original: Some(original), ..fresh })
            &&& other_first == (PairEntryView { swapped: Some(swapped), ..fresh })
            &&& last == recorded(other_first, task_id, judge_model, ab, original, now_ms)
            &&& last.model_a == model_a && last.model_b == model_b
            &&& last.original is None && last.swapped is None
            &&& last.judgment is Some <==> last.failure is None
            &&& original.result is Ok && swapped.result is Ok ==> last.judgment == Some(
                resolved(
                    original.result->Ok_0@,
                    swapped.result->Ok_0@,
                    elapsed_since_first(original.started_ms, swapped.started_ms, now_ms),
                ),
            )
            &&& last.failure matches Some(failure) ==> {
                &&& original.result is Err || swapped.result is Err
                &&& failure.task_id == task_id
                &&& failure.model_a == model_a
                &&& failure.model_b == model_b
                &&& failure.judge_model == judge_model
                &&& failure.orientations == failures_of(original, swapped)
            }
        }),
{
}

/// `pair_indices` lists every two of `n` places once, the earlier one first, row
/// by row.
pub proof fn indices_list_every_pair(n: usize, r: Vec<(usize, usize)>)
    requires
        call_ensures(pair_indices, (n,), r),
    ensures
        forall|i: usize, j: usize| r@.contains((i, j)) <==> i < j < n,
        forall|s: int, t: int|
            0 <= s < t < r@.len() ==> {
                let (one, two) = (#[trigger] r@[s], #[trigger] r@[t]);
                one.0 < two.0 || (one.0 == two.0 && one.1 < two.1)
            },
{
    let listed = r@.map_values(|p: (usize, usize)| (p.0 as int, p.1 as int));
    every_pair_is_listed_once(n as int);
    assert forall|i: usize, j: usize| r@.contains((i, j)) <==> i < j < n by {
        if r@.contains((i, j)) {
            let k = choose|k: int| 0 <= k < r@.len() && r@[k] == (i, j);
            assert(listed[k] == (i as int, j as int));
            assert(pairs_of(n as int).contains((i as int, j as int)));
        }
        if i < j < n {
            assert(pairs_of(n as int).contains((i as int, j as int)));
            let k = choose|k: int| 0 <= k < listed.len() && listed[k] == (i as int, j as int);
            assert(r@[k] == (i, j));
        }
    }
    assert forall|s: int, t: int| 0 <= s < t < r@.len() implies {
        let (one, two) = (#[trigger] r@[s], #[trigger] r@[t]);
        one.0 < two.0 || (one.0 == two.0 && one.1 < two.1)
    } by {
        assert(listed[s] == (r@[s].0 as int, r@[s].1 as int));
        assert(listed[t] == (r@[t].0 as int, r@[t].1 as int));
    }
}

/// Every pair is shown to the judge twice, once in each order.
pub proof fn pairs_are_shown_in_both_orders(
    n: usize,
    pairs: Vec<(usize, usize)>,
    r: Vec<(usize, JudgeOrientation, usize, usize)>,
    k: int,
)
    requires
        call_ensures(pair_indices, (n,), pairs),
        call_ensures(presentations, (n,), r),
        0 <= k < pairs@.len(),
    ensures
        r@.len() == 2 * pairs@.len(),
        r@[2 * k] == (k as usize, JudgeOrientation::Ab, pairs@[k].0, pairs@[k].1),
        r@[2 * k + 1] == (k as usize, JudgeOrientation::Ba, pairs@[k].1, pairs@[k].0),
{
    let listed = pairs@.map_values(|p: (usize, usize)| (p.0 as int, p.1 as int));
    assert(listed[k] == (pairs@[k].0 as int, pairs@[k].1 as int));
    let (i, j) = pairs_of(n as int)[k];
    assert(presentation_view(r@[2 * k]) == (k, JudgeOrientation::Ab, i, j));
    assert(presentation_view(r@[2 * k + 1]) == (k, JudgeOrientation::Ba, j, i));
}

/// A new ledger has an entry for every two results, the earlier one first, and
/// nothing has come in.
pub proof fn ledgers_start_with_every_pair(
    judge_model: &ModelId,
    task: &Task,
    results: &[EvaluatedResult],
    pairs: Vec<(usize, usize)>,
    r: PairLedger,
    k: int,
)
    requires
        call_ensures(PairLedger::new, (judge_model, task, results), r),
        results@.len() <= usize::MAX,
        call_ensures(pair_indices, (results@.len() as usize,), pairs),
        0 <= k < pairs@.len(),
    ensures
        r.task_id == task.id,
        r.judge_model == *judge_model,
        r.entries@.len() == pairs@.len(),
        r.entries@[k]@.model_a == results@[pairs@[k].0 as int].model@,
        r.entries@[k]@.model_b == results@[pairs@[k].1 as int].model@,
        r.entries@[k]@.original is None && r.entries@[k]@.swapped is None,
        r.entries@[k]@.judgment is None && r.entries@[k]@.failure is None,
{
    let all = pairs_of(results@.len() as int);
    let listed = pairs@.map_values(|p: (usize, usize)| (p.0 as int, p.1 as int));
    assert(listed[k] == (pairs@[k].0 as int, pairs@[k].1 as int));
    let entries = entries_view(r.entries@);
    assert(entries.len() == all.len());
    assert(entries[k] == fresh_entry(results@[all[k].0].model@, results@[all[k].1].model@));
    assert(entries[k] == r.entries@[k]@);
}

/// Whatever `finish` hands out are the judgments and the failures of the pairs,
/// all of them and in the order of the pairs.
pub proof fn ledgers_hand_out_what_came_in(ledger: PairLedger, r: JudgePairsOutcome)
    requires
        call_ensures(PairLedger::finish, (ledger,), r),
    ensures
        r.judgments@.map_values(|judgment: Judgment| judgment@) == ledger.entries@.map_values(
            |entry: PairEntry| entry@.judgment,
        ).filter(|judgment: Option<JudgmentView>| judgment is Some).map_values(
            |judgment: Option<JudgmentView>| judgment->Some_0,
        ),
        r.failures@.map_values(|failure: JudgmentFailure| failure@) == ledger.entries@.map_values(
            |entry: PairEntry| entry@.failure,
        ).filter(|failure: Option<JudgmentFailureView>| failure is Some).map_values(
            |failure: Option<JudgmentFailureView>| failure->Some_0,
        ),
{
    let entries = entries_view(ledger.entries@);
    filled_places_keep_their_order(judgments_in(entries));
    filled_places_keep_their_order(failures_in(entries));
    assert(judgments_in(entries) =~= ledger.entries@.map_values(
        |entry: PairEntry| entry@.judgment,
    ));
    assert(failures_in(entries) =~= ledger.entries@.map_values(|entry: PairEntry| entry@.failure));
}

} // verus!
