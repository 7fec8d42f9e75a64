//! Wins, losses, draws and agreement per model, and agreement per pair.
use crate::judge::{JudgeDecision, Judgment};
use crate::provider::ModelId;
use crate::roster::{
    is_roster, is_sorted, lists_model, place, place_unique, roster, takes_part,
};
use vstd::prelude::*;

verus! {

/// A share of a whole; zero where the whole is nothing.
#[derive(Debug, Clone, Copy, PartialEq, Eq, Structural)]
pub struct Rate {
    pub part: u64,
    pub whole: u64,
}

/// The record of one model. The rate is that of agreement among all its
/// judgments.
#[derive(Debug, PartialEq, Eq)]
pub struct ModelStats {
    pub model: ModelId,
    pub wins: u32,
    pub losses: u32,
    pub draws: u32,
    pub total: u32,
    pub agreement_count: u32,
    pub disagreement_count: u32,
    pub agreement_rate: Rate,
}

impl Clone for ModelStats {
    fn clone(&self) -> (r: Self)
        ensures
            r == *self,
    {
        ModelStats {
            model: self.model.clone(),
            wins: self.wins,
            losses: self.losses,
            draws: self.draws,
            total: self.total,
            agreement_count: self.agreement_count,
            disagreement_count: self.disagreement_count,
            agreement_rate: self.agreement_rate,
        }
    }
}

/// What is counted of a judgment for a model.
pub enum Counted {
    Win,
    Loss,
    Draw,
    Agreement,
    Disagreement,
}

/// How many sides of the judgment the model is on.
pub open spec fn sides(judgment: Judgment, name: Seq<char>) -> nat {
    (if judgment.model_a@ == name {
        1nat
    } else {
        0nat
    }) + (if judgment.model_b@ == name {
        1nat
    } else {
        0nat
    })
}

/// What one judgment adds to a count of the model.
pub open spec fn counted_in(judgment: Judgment, name: Seq<char>, what: Counted) -> nat {
    match what {
        Counted::Win => if (judgment.winner == JudgeDecision::A && judgment.model_a@ == name) || (
        judgment.winner == JudgeDecision::B && judgment.model_b@ == name) {
            1
        } else {
            0
        },
        Counted::Loss => if (judgment.winner == JudgeDecision::A && judgment.model_b@ == name) || (
        judgment.winner == JudgeDecision::B && judgment.model_a@ == name) {
            1
        } else {
            0
        },
        Counted::Draw => if judgment.winner == JudgeDecision::Draw {
            sides(judgment, name)
        } else {
            0
        },
        Counted::Agreement => if judgment.agreement {
            sides(judgment, name)
        } else {
            0
        },
        Counted::Disagreement => if judgment.agreement {
            0
        } else {
            sides(judgment, name)
        },
    }
}

/// A count of the model over all the judgments.
pub open spec fn count(judgments: Seq<Judgment>, name: Seq<char>, what: Counted) -> nat
    decreases judgments.len(),
{
    if judgments.len() == 0 {
        0
    } else {
        count(judgments.drop_last(), name, what) + counted_in(judgments.last(), name, what)
    }
}

/// The counters of the entry are those of its model over the judgments.
pub open spec fn counts_match(entry: ModelStats, judgments: Seq<Judgment>) -> bool {
    let name = entry.model@;
    &&& entry.wins == count(judgments, name, Counted::Win)
    &&& entry.losses == count(judgments, name, Counted::Loss)
    &&& entry.draws == count(judgments, name, Counted::Draw)
    &&& entry.agreement_count == count(judgments, name, Counted::Agreement)
    &&& entry.disagreement_count == count(judgments, name, Counted::Disagreement)
}

/// The entry is the full record of its model.
pub open spec fn is_record(entry: ModelStats, judgments: Seq<Judgment>) -> bool {
    &&& counts_match(entry, judgments)
    &&& entry.total == entry.wins + entry.losses + entry.draws
    &&& entry.agreement_rate == (Rate {
        part: entry.agreement_count as u64,
        whole: entry.total as u64,
    })
}

/// The models of the entries.
pub open spec fn counted_models(stats: Seq<ModelStats>) -> Seq<ModelId> {
    Seq::new(stats.len(), |i: int| stats[i].model)
}

proof fn counts_bounded(judgments: Seq<Judgment>, name: Seq<char>)
    ensures
        count(judgments, name, Counted::Win) + count(judgments, name, Counted::Loss) + count(
            judgments,
            name,
            Counted::Draw,
        ) <= 2 * judgments.len(),
        count(judgments, name, Counted::Agreement) + count(judgments, name, Counted::Disagreement)
            <= 2 * judgments.len(),
    decreases judgments.len(),
{
    if judgments.len() > 0 {
        counts_bounded(judgments.drop_last(), name);
    }
}

/// Every judgment of a model is a win, a loss or a draw, and its orientations
/// either agreed or did not: both ways of counting come to the same total.
pub proof fn totals_agree(judgments: Seq<Judgment>, name: Seq<char>)
    ensures
        count(judgments, name, Counted::Win) + count(judgments, name, Counted::Loss) + count(
            judgments,
            name,
            Counted::Draw,
        ) == count(judgments, name, Counted::Agreement) + count(
            judgments,
            name,
            Counted::Disagreement,
        ),
    decreases judgments.len(),
{
    if judgments.len() > 0 {
        totals_agree(judgments.drop_last(), name);
    }
}

proof fn count_without(judgments: Seq<Judgment>, k: int, name: Seq<char>, what: Counted)
    requires
        0 <= k < judgments.len(),
    ensures
        count(judgments, name, what) == count(judgments.remove(k), name, what) + counted_in(
            judgments[k],
            name,
            what,
        ),
    decreases judgments.len(),
{
    if k == judgments.len() - 1 {
        assert(judgments.remove(k) =~= judgments.drop_last());
    } else {
        count_without(judgments.drop_last(), k, name, what);
        assert(judgments.remove(k).drop_last() =~= judgments.drop_last().remove(k));
        assert(judgments.remove(k).last() == judgments.last());
        assert(judgments.drop_last()[k] == judgments[k]);
    }
}

/// The order of the judgments does not matter to any count.
pub proof fn counts_ignore_order(
    one: Seq<Judgment>,
    two: Seq<Judgment>,
    name: Seq<char>,
    what: Counted,
)
    requires
        one.to_multiset() == two.to_multiset(),
    ensures
        count(one, name, what) == count(two, name, what),
    decreases one.len(),
{
    one.to_multiset_ensures();
    two.to_multiset_ensures();
    if one.len() > 0 {
        let x = one.last();
        assert(one.contains(x));
        assert(two.to_multiset().count(x) > 0);
        let k = choose|k: int| 0 <= k < two.len() && two[k] == x;
        let last = one.len() - 1;
        assert(one.remove(last).to_multiset() == two.remove(k).to_multiset());
        counts_ignore_order(one.remove(last), two.remove(k), name, what);
        count_without(one, last, name, what);
        count_without(two, k, name, what);
    }
}

/// The counts of all the models of the list together.
pub open spec fn sum_over(list: Seq<ModelId>, judgments: Seq<Judgment>, what: Counted) -> nat
    decreases list.len(),
{
    if list.len() == 0 {
        0
    } else {
        sum_over(list.drop_last(), judgments, what) + count(judgments, list.last()@, what)
    }
}

proof fn sum_over_step(list: Seq<ModelId>, judgments: Seq<Judgment>, what: Counted)
    requires
        judgments.len() > 0,
    ensures
        sum_over(list, judgments, what) == sum_over(list, judgments.drop_last(), what) + sum_over(
            list,
            seq![judgments.last()],
            what,
        ),
    decreases list.len(),
{
    if list.len() > 0 {
        sum_over_step(list.drop_last(), judgments, what);
        let one = seq![judgments.last()];
        assert(one.drop_last() =~= Seq::<Judgment>::empty());
        reveal_with_fuel(count, 2);
        assert(count(one, list.last()@, what) == counted_in(judgments.last(), list.last()@, what));
    }
}

proof fn listed_once(list: Seq<ModelId>, judgment: Judgment, what: Counted, name: Seq<char>)
    requires
        is_sorted(list),
        what is Win || what is Loss,
        judgment.winner != JudgeDecision::Draw,
        name == (if (what is Win) == (judgment.winner == JudgeDecision::A) {
            judgment.model_a@
        } else {
            judgment.model_b@
        }),
    ensures
        sum_over(list, seq![judgment], what) == (if lists_model(list, name) {
            1nat
        } else {
            0nat
        }),
    decreases list.len(),
{
    let one = seq![judgment];
    assert(one.drop_last() =~= Seq::<Judgment>::empty());
    reveal_with_fuel(count, 2);
    if list.len() > 0 {
        let head = list.drop_last();
        let last = list.len() - 1;
        assert(is_sorted(head)) by {
            assert forall|i: int, j: int| 0 <= i < j < head.len() implies crate::text::lex_less(
                (#[trigger] head[i])@,
                (#[trigger] head[j])@,
            ) by {
                assert(head[i] == list[i] && head[j] == list[j]);
            }
        }
        listed_once(head, judgment, what, name);
        assert(count(one, list.last()@, what) == counted_in(judgment, list.last()@, what));
        if lists_model(list, name) {
            let i = choose|i: int| 0 <= i < list.len() && (#[trigger] list[i])@ == name;
            if i < last {
                assert(head[i]@ == name);
            }
        }
        if lists_model(head, name) {
            let i = choose|i: int| 0 <= i < head.len() && (#[trigger] head[i])@ == name;
            assert(list[i]@ == name);
            place_unique(list, i);
            place_unique(list, last);
            assert(list[last]@ != name);
        }
        assert(list[last] == list.last());
    }
}

/// Every win is another model's loss: over a list that holds all the judged
/// models, wins and losses are equally many.
pub proof fn wins_balance_losses(list: Seq<ModelId>, judgments: Seq<Judgment>)
    requires
        is_sorted(list),
        forall|k: int|
            0 <= k < judgments.len() ==> lists_model(list, (#[trigger] judgments[k]).model_a@)
                && lists_model(list, judgments[k].model_b@),
    ensures
        sum_over(list, judgments, Counted::Win) == sum_over(list, judgments, Counted::Loss),
    decreases judgments.len(),
{
    if judgments.len() == 0 {
        sum_over_nothing(list, judgments, Counted::Win);
        sum_over_nothing(list, judgments, Counted::Loss);
    } else {
        let head = judgments.drop_last();
        let last = judgments.last();
        assert forall|k: int| 0 <= k < head.len() implies lists_model(
            list,
            (#[trigger] head[k]).model_a@,
        ) && lists_model(list, head[k].model_b@) by {
            assert(head[k] == judgments[k]);
        }
        wins_balance_losses(list, head);
        sum_over_step(list, judgments, Counted::Win);
        sum_over_step(list, judgments, Counted::Loss);
        assert(judgments[judgments.len() - 1] == last);
        if last.winner == JudgeDecision::Draw {
            sum_over_draw(list, last, Counted::Win);
            sum_over_draw(list, last, Counted::Loss);
        } else {
            let (winner, loser) = if last.winner == JudgeDecision::A {
                (last.model_a@, last.model_b@)
            } else {
                (last.model_b@, last.model_a@)
            };
            listed_once(list, last, Counted::Win, winner);
            listed_once(list, last, Counted::Loss, loser);
        }
    }
}

proof fn sum_over_nothing(list: Seq<ModelId>, judgments: Seq<Judgment>, what: Counted)
    requires
        judgments.len() == 0,
    ensures
        sum_over(list, judgments, what) == 0,
    decreases list.len(),
{
    if list.len() > 0 {
        sum_over_nothing(list.drop_last(), judgments, what);
    }
}

proof fn sum_over_draw(list: Seq<ModelId>, judgment: Judgment, what: Counted)
    requires
        judgment.winner == JudgeDecision::Draw,
        what is Win || what is Loss,
    ensures
        sum_over(list, seq![judgment], what) == 0,
    decreases list.len(),
{
    if list.len() > 0 {
        sum_over_draw(list.drop_last(), judgment, what);
        let one = seq![judgment];
        assert(one.drop_last() =~= Seq::<Judgment>::empty());
        reveal_with_fuel(count, 2);
        assert(count(one, list.last()@, what) == counted_in(judgment, list.last()@, what));
    }
}

/// An entry with nothing counted yet.
fn entry(model: &ModelId) -> (r: ModelStats)
    ensures
        r.model == *model,
        counts_match(r, Seq::empty()),
{
    ModelStats {
        model: model.clone(),
        wins: 0,
        losses: 0,
        draws: 0,
        total: 0,
        agreement_count: 0,
        disagreement_count: 0,
        agreement_rate: Rate { part: 0, whole: 0 },
    }
}

/// Counts one judgment in the entries of its two models.
fn count_judgment(
    stats: &mut Vec<ModelStats>,
    judgment: &Judgment,
    a: usize,
    b: usize,
    Ghost(seen): Ghost<Seq<Judgment>>,
)
    requires
        a < old(stats)@.len(),
        b < old(stats)@.len(),
        old(stats)@[a as int].model@ == judgment.model_a@,
        old(stats)@[b as int].model@ == judgment.model_b@,
        forall|i: int, j: int|
            0 <= i < j < old(stats)@.len() ==> (#[trigger] old(stats)@[i]).model@ != (
            #[trigger] old(stats)@[j]).model@,
        forall|i: int| 0 <= i < old(stats)@.len() ==> counts_match(#[trigger] old(stats)@[i], seen),
        2 * (seen.len() + 1) <= u32::MAX,
    ensures
        final(stats)@.len() == old(stats)@.len(),
        forall|i: int|
            0 <= i < old(stats)@.len() ==> (#[trigger] final(stats)@[i]).model == old(
                stats,
            )@[i].model && counts_match(final(stats)@[i], seen.push(*judgment)),
{
    let ghost before = stats@;
    let ghost more = seen.push(*judgment);
    proof {
        assert(more.drop_last() =~= seen);
        counts_bounded(seen, judgment.model_a@);
        counts_bounded(seen, judgment.model_b@);
        assert(counts_match(before[a as int], seen));
        assert(counts_match(before[b as int], seen));
    }
    match judgment.winner {
        JudgeDecision::A => {
            stats[a].wins = stats[a].wins + 1;
            stats[b].losses = stats[b].losses + 1;
        },
        JudgeDecision::B => {
            stats[b].wins = stats[b].wins + 1;
            stats[a].losses = stats[a].losses + 1;
        },
        JudgeDecision::Draw => {
            stats[a].draws = stats[a].draws + 1;
            stats[b].draws = stats[b].draws + 1;
        },
    }
    if judgment.agreement {
        stats[a].agreement_count = stats[a].agreement_count + 1;
        stats[b].agreement_count = stats[b].agreement_count + 1;
    } else {
        stats[a].disagreement_count = stats[a].disagreement_count + 1;
        stats[b].disagreement_count = stats[b].disagreement_count + 1;
    }
    proof {
        assert forall|i: int| 0 <= i < before.len() implies (#[trigger] stats@[i]).model
            == before[i].model && counts_match(stats@[i], more) by {
            assert(counts_match(before[i], seen));
            if i != a && i != b {
                assert(before[i].model@ != judgment.model_a@);
                assert(before[i].model@ != judgment.model_b@);
            }
        }
    }
}

/// Counts the judgments per model. The requested models are there even if they
/// were never judged.
pub fn aggregate(judgments: &[Judgment], models: &[ModelId]) -> (stats: Vec<ModelStats>)
    requires
        2 * judgments@.len() <= u32::MAX,
    ensures
        is_roster(counted_models(stats@), judgments@, models@),
        forall|i: int| 0 <= i < stats@.len() ==> is_record(#[trigger] stats@[i], judgments@),
{
    let list: Vec<ModelId> = roster(judgments, models);
    let mut stats: Vec<ModelStats> = Vec::new();
    let mut i: usize = 0;
    while i < list.len()
        invariant
            i <= list@.len(),
            stats@.len() == i,
            forall|t: int|
                0 <= t < i ==> (#[trigger] stats@[t]).model == list@[t] && counts_match(
                    stats@[t],
                    Seq::empty(),
                ),
        decreases list@.len() - i,
    {
        stats.push(entry(&list[i]));
        i += 1;
    }
    let mut k: usize = 0;
    proof {
        assert(judgments@.take(0) =~= Seq::empty());
    }
    while k < judgments.len()
        invariant
            k <= judgments@.len(),
            2 * judgments@.len() <= u32::MAX,
            is_roster(list@, judgments@, models@),
            stats@.len() == list@.len(),
            forall|t: int|
                0 <= t < stats@.len() ==> (#[trigger] stats@[t]).model == list@[t]
                    && counts_match(stats@[t], judgments@.take(k as int)),
        decreases judgments@.len() - k,
    {
        proof {
            let j = judgments@[k as int];
            assert(takes_part(judgments@, j.model_a@));
            assert(takes_part(judgments@, j.model_b@));
            assert(lists_model(list@, j.model_a@));
            assert(lists_model(list@, j.model_b@));
            assert forall|x: int, y: int| 0 <= x < y < stats@.len() implies (
            #[trigger] stats@[x]).model@ != (#[trigger] stats@[y]).model@ by {
                place_unique(list@, x);
                place_unique(list@, y);
            }
            assert(judgments@.take(k + 1) =~= judgments@.take(k as int).push(j));
        }
        let a: usize = place(&list, &judgments[k].model_a);
        let b: usize = place(&list, &judgments[k].model_b);
        count_judgment(&mut stats, &judgments[k], a, b, Ghost(judgments@.take(k as int)));
        k += 1;
    }
    proof {
        assert(judgments@.take(judgments@.len() as int) =~= judgments@);
    }
    let mut m: usize = 0;
    while m < stats.len()
        invariant
            m <= stats@.len(),
            stats@.len() == list@.len(),
            2 * judgments@.len() <= u32::MAX,
            forall|t: int|
                0 <= t < stats@.len() ==> (#[trigger] stats@[t]).model == list@[t]
                    && counts_match(stats@[t], judgments@),
            forall|t: int| 0 <= t < m ==> is_record(#[trigger] stats@[t], judgments@),
        decreases stats@.len() - m,
    {
        proof {
            counts_bounded(judgments@, stats@[m as int].model@);
            assert(counts_match(stats@[m as int], judgments@));
        }
        let total: u32 = stats[m].wins + stats[m].losses + stats[m].draws;
        let rate: Rate = Rate {
            part: stats[m].agreement_count as u64,
            whole: total as u64,
        };
        stats[m].total = total;
        stats[m].agreement_rate = rate;
        m += 1;
    }
    proof {
        assert(counted_models(stats@) =~= list@);
    }
    stats
}

/// Agreement of the orientations, each resolved pair counted once.
#[derive(Debug, Clone, Copy, PartialEq, Eq, Structural)]
pub struct PairAgreement {
    pub resolved_pairs: usize,
    pub orientation_agreeing_pairs: usize,
    pub orientation_disagreeing_pairs: usize,
    pub agreement_rate: Rate,
}

/// How many of the judgments have orientations that agree.
pub open spec fn agreeing(judgments: Seq<Judgment>) -> nat
    decreases judgments.len(),
{
    if judgments.len() == 0 {
        0
    } else {
        agreeing(judgments.drop_last()) + if judgments.last().agreement {
            1nat
        } else {
            0nat
        }
    }
}

/// The agreement of these judgments.
pub open spec fn agreement_of(judgments: Seq<Judgment>, agreement: PairAgreement) -> bool {
    &&& agreement.resolved_pairs == judgments.len()
    &&& agreement.orientation_agreeing_pairs == agreeing(judgments)
    &&& agreement.orientation_agreeing_pairs + agreement.orientation_disagreeing_pairs
        == agreement.resolved_pairs
    &&& agreement.agreement_rate == (Rate {
        part: agreement.orientation_agreeing_pairs as u64,
        whole: agreement.resolved_pairs as u64,
    })
}

/// Counts the pairs whose orientations agree.
pub fn pair_agreement(judgments: &[Judgment]) -> (r: PairAgreement)
    ensures
        agreement_of(judgments@, r),
{
    let mut agree: usize = 0;
    let mut k: usize = 0;
    while k < judgments.len()
        invariant
            k <= judgments@.len(),
            agree <= k,
            agree == agreeing(judgments@.take(k as int)),
        decreases judgments@.len() - k,
    {
        proof {
            assert(judgments@.take(k + 1).drop_last() =~= judgments@.take(k as int));
        }
        if judgments[k].agreement {
            agree += 1;
        }
        k += 1;
    }
    proof {
        assert(judgments@.take(judgments@.len() as int) =~= judgments@);
    }
    PairAgreement {
        resolved_pairs: judgments.len(),
        orientation_agreeing_pairs: agree,
        orientation_disagreeing_pairs: judgments.len() - agree,
        agreement_rate: Rate { part: agree as u64, whole: judgments.len() as u64 },
    }
}

/// The counts of a model are numbers of judgments: its wins those that it won
/// on either side, its losses those that the other side won, its draws those
/// without a winner. Agreement is counted of all the judgments it takes part
/// in, whoever won.
pub proof fn counts_are_numbers_of_judgments(judgments: Seq<Judgment>, name: Seq<char>)
    ensures
        count(judgments, name, Counted::Win) == judgments.filter(
            |j: Judgment|
                (j.winner == JudgeDecision::A && j.model_a@ == name) || (j.winner
                    == JudgeDecision::B && j.model_b@ == name),
        ).len(),
        count(judgments, name, Counted::Loss) == judgments.filter(
            |j: Judgment|
                (j.winner == JudgeDecision::A && j.model_b@ == name) || (j.winner
                    == JudgeDecision::B && j.model_a@ == name),
        ).len(),
        count(judgments, name, Counted::Draw) == judgments.filter(
            |j: Judgment| j.winner == JudgeDecision::Draw && j.model_a@ == name,
        ).len() + judgments.filter(
            |j: Judgment| j.winner == JudgeDecision::Draw && j.model_b@ == name,
        ).len(),
        count(judgments, name, Counted::Agreement) == judgments.filter(
            |j: Judgment| j.agreement && j.model_a@ == name,
        ).len() + judgments.filter(|j: Judgment| j.agreement && j.model_b@ == name).len(),
        count(judgments, name, Counted::Disagreement) == judgments.filter(
            |j: Judgment| !j.agreement && j.model_a@ == name,
        ).len() + judgments.filter(|j: Judgment| !j.agreement && j.model_b@ == name).len(),
    decreases judgments.len(),
{
    reveal(Seq::filter);
    if judgments.len() > 0 {
        counts_are_numbers_of_judgments(judgments.drop_last(), name);
    }
}

/// The record of a model: every judgment it takes part in is in its total, and
/// its rate is that of the judgments whose orders agreed among them.
pub proof fn records_cover_all_judgments(entry: ModelStats, judgments: Seq<Judgment>)
    requires
        is_record(entry, judgments),
    ensures
        ({
            let name = entry.model@;
            entry.total == judgments.filter(|j: Judgment| j.model_a@ == name).len()
                + judgments.filter(|j: Judgment| j.model_b@ == name).len()
        }),
        entry.total == entry.wins + entry.losses + entry.draws,
        entry.total == entry.agreement_count + entry.disagreement_count,
        entry.wins == count(judgments, entry.model@, Counted::Win),
        entry.losses == count(judgments, entry.model@, Counted::Loss),
        entry.draws == count(judgments, entry.model@, Counted::Draw),
        entry.agreement_count == count(judgments, entry.model@, Counted::Agreement),
        entry.disagreement_count == count(judgments, entry.model@, Counted::Disagreement),
        entry.agreement_rate.part == entry.agreement_count,
        entry.agreement_rate.whole == entry.total,
{
    totals_agree(judgments, entry.model@);
    sides_are_counted(judgments, entry.model@);
}

proof fn sides_are_counted(judgments: Seq<Judgment>, name: Seq<char>)
    ensures
        count(judgments, name, Counted::Win) + count(judgments, name, Counted::Loss) + count(
            judgments,
            name,
            Counted::Draw,
        ) == judgments.filter(|j: Judgment| j.model_a@ == name).len() + judgments.filter(
            |j: Judgment| j.model_b@ == name,
        ).len(),
    decreases judgments.len(),
{
    reveal(Seq::filter);
    if judgments.len() > 0 {
        sides_are_counted(judgments.drop_last(), name);
    }
}

/// The agreement over all the pairs counts every judgment once: as agreeing if
/// its orders agreed and as disagreeing otherwise.
pub proof fn agreement_counts_every_pair_once(judgments: Seq<Judgment>, agreement: PairAgreement)
    requires
        agreement_of(judgments, agreement),
    ensures
        agreement.resolved_pairs == judgments.len(),
        agreement.orientation_agreeing_pairs == judgments.filter(|j: Judgment| j.agreement).len(),
        agreement.orientation_disagreeing_pairs == judgments.filter(
            |j: Judgment| !j.agreement,
        ).len(),
        agreement.agreement_rate.part == agreement.orientation_agreeing_pairs,
        agreement.agreement_rate.whole == agreement.resolved_pairs,
{
    agreeing_are_filtered(judgments);
}

proof fn agreeing_are_filtered(judgments: Seq<Judgment>)
    ensures
        agreeing(judgments) == judgments.filter(|j: Judgment| j.agreement).len(),
        judgments.len() - agreeing(judgments) == judgments.filter(
            |j: Judgment| !j.agreement,
        ).len(),
    decreases judgments.len(),
{
    reveal(Seq::filter);
    if judgments.len() > 0 {
        agreeing_are_filtered(judgments.drop_last());
    }
}

/// Whatever `aggregate` returns has one record for every model that was
/// requested or judged, in the order of their names, and each record counts the
/// judgments about its model: those it won, those it lost, and those that were
/// drawn.
pub proof fn records_count_the_judgments(
    judgments: &[Judgment],
    models: &[ModelId],
    stats: Vec<ModelStats>,
    i: int,
)
    requires
        call_ensures(aggregate, (judgments, models), stats),
        0 <= i < stats@.len(),
    ensures
        ({
            let entry = stats@[i];
            let name = entry.model@;
            &&& entry.wins == judgments@.filter(
                |j: Judgment|
                    (j.winner == JudgeDecision::A && j.model_a@ == name) || (j.winner
                        == JudgeDecision::B && j.model_b@ == name),
            ).len()
            &&& entry.losses == judgments@.filter(
                |j: Judgment|
                    (j.winner == JudgeDecision::A && j.model_b@ == name) || (j.winner
                        == JudgeDecision::B && j.model_a@ == name),
            ).len()
            &&& entry.total == judgments@.filter(|j: Judgment| j.model_a@ == name).len()
                + judgments@.filter(|j: Judgment| j.model_b@ == name).len()
            &&& entry.total == entry.wins + entry.losses + entry.draws
            &&& entry.total == entry.agreement_count + entry.disagreement_count
            &&& entry.agreement_count == judgments@.filter(
                |j: Judgment| j.agreement && j.model_a@ == name,
            ).len() + judgments@.filter(|j: Judgment| j.agreement && j.model_b@ == name).len()
            &&& entry.agreement_rate.part == entry.agreement_count
            &&& entry.agreement_rate.whole == entry.total
        }),
        forall|s: int, t: int|
            0 <= s < t < stats@.len() ==> (#[trigger] stats@[s]).model@ != (
            #[trigger] stats@[t]).model@,
        forall|k: int|
            0 <= k < models@.len() ==> exists|s: int|
                0 <= s < stats@.len() && (#[trigger] stats@[s]).model@ == (
                #[trigger] models@[k])@,
{
    records_cover_all_judgments(stats@[i], judgments@);
    counts_are_numbers_of_judgments(judgments@, stats@[i].model@);
    let list = counted_models(stats@);
    assert forall|s: int, t: int| 0 <= s < t < stats@.len() implies (
    #[trigger] stats@[s]).model@ != (#[trigger] stats@[t]).model@ by {
        place_unique(list, s);
        place_unique(list, t);
        assert(list[s] == stats@[s].model && list[t] == stats@[t].model);
    }
    assert forall|k: int| 0 <= k < models@.len() implies exists|s: int|
        0 <= s < stats@.len() && (#[trigger] stats@[s]).model@ == (#[trigger] models@[k])@ by {
        assert(lists_model(models@, models@[k]@));
        assert(lists_model(list, models@[k]@));
        let s = choose|s: int| 0 <= s < list.len() && (#[trigger] list[s])@ == models@[k]@;
        assert(stats@[s].model == list[s]);
    }
}

/// Whatever `pair_agreement` returns counts every judgment once.
pub proof fn agreement_is_of_the_judgments(judgments: &[Judgment], r: PairAgreement)
    requires
        call_ensures(pair_agreement, (judgments,), r),
    ensures
        r.resolved_pairs == judgments@.len(),
        r.orientation_agreeing_pairs == judgments@.filter(|j: Judgment| j.agreement).len(),
        r.orientation_disagreeing_pairs == judgments@.filter(|j: Judgment| !j.agreement).len(),
        r.agreement_rate.part == r.orientation_agreeing_pairs,
        r.agreement_rate.whole == r.resolved_pairs,
{
    agreement_counts_every_pair_once(judgments@, r);
}

} // verus!
