//! Comparing exact scores pair by pair.
use crate::evaluate::EvaluatedResult;
use crate::pairs::pairs_in_rows;
use crate::provider::ModelId;
use crate::slots::present;
use crate::text::text_same;
use vstd::prelude::*;

verus! {

/// Which of two models scored higher on a task; a draw has no winner.
#[derive(Debug, PartialEq, Eq)]
pub struct Comparison {
    pub task_id: String,
    pub model_a: ModelId,
    pub model_b: ModelId,
    pub winner: Option<ModelId>,
}

/// The comparison of two scored results of one task.
pub open spec fn comparison_of(a: EvaluatedResult, b: EvaluatedResult) -> Option<Comparison> {
    match (a.evaluation, b.evaluation) {
        (Some(of_a), Some(of_b)) => if a.task_id@ == b.task_id@ {
            Some(
                Comparison {
                    task_id: a.task_id,
                    model_a: a.model,
                    model_b: b.model,
                    winner: if of_a.score > of_b.score {
                        Some(a.model)
                    } else if of_b.score > of_a.score {
                        Some(b.model)
                    } else {
                        None
                    },
                },
            )
        } else {
            None
        },
        _ => None,
    }
}

/// Compares two results, if both are scored and of one task.
pub fn compare(a: &EvaluatedResult, b: &EvaluatedResult) -> (r: Option<Comparison>)
    ensures
        r == comparison_of(*a, *b),
{
    if !text_same(a.task_id.as_str(), b.task_id.as_str()) {
        return None;
    }
    match (a.evaluation, b.evaluation) {
        (Some(of_a), Some(of_b)) => {
            let winner: Option<ModelId> = if of_a.score > of_b.score {
                Some(a.model.clone())
            } else if of_b.score > of_a.score {
                Some(b.model.clone())
            } else {
                None
            };
            Some(
                Comparison {
                    task_id: a.task_id.clone(),
                    model_a: a.model.clone(),
                    model_b: b.model.clone(),
                    winner,
                },
            )
        },
        _ => None,
    }
}

/// Which result comes first makes no difference to the winner.
pub proof fn comparison_is_symmetric(a: EvaluatedResult, b: EvaluatedResult)
    ensures
        comparison_of(a, b) is Some <==> comparison_of(b, a) is Some,
        comparison_of(a, b) is Some ==> comparison_of(a, b)->Some_0.winner == comparison_of(
            b,
            a,
        )->Some_0.winner,
{
}

/// `list` with the comparison at its end, if there is one.
pub open spec fn with(list: Seq<Comparison>, more: Option<Comparison>) -> Seq<Comparison> {
    match more {
        Some(comparison) => list.push(comparison),
        None => list,
    }
}

/// The comparisons of result `i` with those after it and before `end`.
pub open spec fn compared_with(results: Seq<EvaluatedResult>, i: int, end: int) -> Seq<Comparison>
    decreases end - i,
{
    if end <= i + 1 {
        seq![]
    } else {
        with(compared_with(results, i, end - 1), comparison_of(results[i], results[end - 1]))
    }
}

/// The comparisons of the first `count` results with all those after them.
pub open spec fn compared(results: Seq<EvaluatedResult>, count: int) -> Seq<Comparison>
    decreases count,
{
    if count <= 0 {
        seq![]
    } else {
        compared(results, count - 1) + compared_with(results, count - 1, results.len() as int)
    }
}

/// Compares every pair of results, in the order of the results.
pub fn compare_all(results: &[EvaluatedResult]) -> (r: Vec<Comparison>)
    ensures
        r@ == compared(results@, results@.len() as int),
{
    let mut r: Vec<Comparison> = Vec::new();
    let mut i: usize = 0;
    while i < results.len()
        invariant
            i <= results@.len(),
            r@ == compared(results@, i as int),
        decreases results@.len() - i,
    {
        let mut j: usize = i + 1;
        proof {
            assert(r@ =~= compared(results@, i as int) + compared_with(results@, i as int, i + 1));
        }
        while j < results.len()
            invariant
                i < j <= results@.len(),
                r@ == compared(results@, i as int) + compared_with(results@, i as int, j as int),
            decreases results@.len() - j,
        {
            let ghost before = r@;
            if let Some(comparison) = compare(&results[i], &results[j]) {
                r.push(comparison);
            }
            proof {
                assert(r@ =~= compared(results@, i as int) + compared_with(
                    results@,
                    i as int,
                    j + 1,
                ));
            }
            j += 1;
        }
        i += 1;
    }
    r
}

proof fn row_holds(results: Seq<EvaluatedResult>, i: int, end: int, c: Comparison)
    ensures
        compared_with(results, i, end).contains(c) <==> exists|j: int|
            i < j < end && #[trigger] comparison_of(results[i], results[j]) == Some(c),
    decreases end - i,
{
    if end > i + 1 {
        row_holds(results, i, end - 1, c);
        let shorter = compared_with(results, i, end - 1);
        let last = comparison_of(results[i], results[end - 1]);
        let row = compared_with(results, i, end);
        if row.contains(c) {
            let k = choose|k: int| 0 <= k < row.len() && row[k] == c;
            if k < shorter.len() {
                assert(shorter[k] == c);
                assert(shorter.contains(c));
            } else {
                assert(last == Some(c));
            }
        }
        if last == Some(c) {
            assert(row[row.len() - 1] == c);
        } else if shorter.contains(c) {
            let k = choose|k: int| 0 <= k < shorter.len() && shorter[k] == c;
            assert(row[k] == c);
        }
    }
}

/// A comparison is made of every pair of scored results of one task, and of no
/// other pair.
pub proof fn every_pair_is_compared(results: Seq<EvaluatedResult>, count: int, c: Comparison)
    requires
        0 <= count <= results.len(),
    ensures
        compared(results, count).contains(c) <==> exists|i: int, j: int|
            0 <= i < count && i < j < results.len() && #[trigger] comparison_of(
                results[i],
                results[j],
            ) == Some(c),
    decreases count,
{
    if count > 0 {
        every_pair_is_compared(results, count - 1, c);
        row_holds(results, count - 1, results.len() as int, c);
        let head = compared(results, count - 1);
        let row = compared_with(results, count - 1, results.len() as int);
        let all = compared(results, count);
        if all.contains(c) {
            let k = choose|k: int| 0 <= k < all.len() && all[k] == c;
            if k < head.len() {
                assert(head[k] == c);
                assert(head.contains(c));
            } else {
                assert(row[k - head.len()] == c);
                assert(row.contains(c));
            }
        }
        if head.contains(c) {
            let k = choose|k: int| 0 <= k < head.len() && head[k] == c;
            assert(all[k] == c);
        }
        if row.contains(c) {
            let k = choose|k: int| 0 <= k < row.len() && row[k] == c;
            assert(all[head.len() + k] == c);
        }
    }
}

/// Results are compared exactly if both are scored and of one task. The
/// comparison names the two models in their order, and its winner depends on
/// the scores alone: there is one exactly if the scores differ, and then it is
/// the model with the higher score.
pub proof fn only_scores_decide(a: EvaluatedResult, b: EvaluatedResult)
    ensures
        comparison_of(a, b) is Some <==> a.evaluation is Some && b.evaluation is Some
            && a.task_id@ == b.task_id@,
        comparison_of(a, b) matches Some(comparison) ==> {
            let of_a = a.evaluation->Some_0.score;
            let of_b = b.evaluation->Some_0.score;
            &&& comparison.task_id == a.task_id
            &&& comparison.model_a == a.model
            &&& comparison.model_b == b.model
            &&& comparison.winner is None <==> of_a == of_b
            &&& of_a > of_b ==> comparison.winner == Some(a.model)
            &&& of_a < of_b ==> comparison.winner == Some(b.model)
        },
{
}

/// The comparison of two results is the same whatever the responses were and
/// however long they took.
pub proof fn nothing_but_scores_counts(
    a: EvaluatedResult,
    b: EvaluatedResult,
    other_a: EvaluatedResult,
    other_b: EvaluatedResult,
)
    requires
        a.task_id == other_a.task_id,
        b.task_id == other_b.task_id,
        a.model == other_a.model,
        b.model == other_b.model,
        a.evaluation == other_a.evaluation,
        b.evaluation == other_b.evaluation,
    ensures
        comparison_of(a, b) == comparison_of(other_a, other_b),
{
}

/// The comparison of the pair of results with these places.
pub open spec fn comparison_at(results: Seq<EvaluatedResult>, pair: (int, int)) -> Option<
    Comparison,
> {
    comparison_of(results[pair.0], results[pair.1])
}

/// The comparisons of the pairs, where there are any.
pub open spec fn comparisons_at(results: Seq<EvaluatedResult>, pairs: Seq<(int, int)>) -> Seq<
    Option<Comparison>,
> {
    pairs.map_values(|pair: (int, int)| comparison_at(results, pair))
}

proof fn present_add<T>(one: Seq<Option<T>>, two: Seq<Option<T>>)
    ensures
        present(one + two) == present(one) + present(two),
    decreases two.len(),
{
    if two.len() == 0 {
        assert(one + two =~= one);
        assert(present(one) + present(two) =~= present(one));
    } else {
        present_add(one, two.drop_last());
        assert((one + two).drop_last() =~= one + two.drop_last());
        assert(present(one + two) =~= present(one) + present(two));
    }
}

proof fn row_in_order(results: Seq<EvaluatedResult>, i: int, end: int)
    requires
        0 <= i < end,
    ensures
        compared_with(results, i, end) == present(
            Seq::new((end - i - 1) as nat, |t: int| comparison_of(results[i], results[i + 1 + t])),
        ),
    decreases end - i,
{
    let all = Seq::new(
        (end - i - 1) as nat,
        |t: int| comparison_of(results[i], results[i + 1 + t]),
    );
    if end > i + 1 {
        row_in_order(results, i, end - 1);
        let head = Seq::new(
            (end - 1 - i - 1) as nat,
            |t: int| comparison_of(results[i], results[i + 1 + t]),
        );
        assert(all.drop_last() =~= head);
        assert(all.last() == comparison_of(results[i], results[end - 1]));
    }
}

/// The comparisons are those of all the pairs of results, each pair once and in
/// the order of the pairs.
pub proof fn pairs_are_compared_in_order(results: Seq<EvaluatedResult>, count: int)
    requires
        0 <= count <= results.len(),
    ensures
        compared(results, count) == present(
            comparisons_at(results, pairs_in_rows(results.len() as int, count)),
        ),
    decreases count,
{
    let n = results.len() as int;
    if count > 0 {
        pairs_are_compared_in_order(results, count - 1);
        row_in_order(results, count - 1, n);
        let head = comparisons_at(results, pairs_in_rows(n, count - 1));
        let row = Seq::new(
            (n - (count - 1) - 1) as nat,
            |t: int| comparison_of(results[count - 1], results[count - 1 + 1 + t]),
        );
        assert(comparisons_at(results, pairs_in_rows(n, count)) =~= head + row);
        present_add(head, row);
    } else {
        assert(comparisons_at(results, pairs_in_rows(n, count)) =~= Seq::empty());
    }
}

/// Whatever `compare` returns goes by the scores alone: the higher one wins, and
/// equal scores are a draw, however long the responses took and whatever they
/// say. Only scored results of one task are compared.
pub proof fn the_higher_score_wins(
    a: &EvaluatedResult,
    b: &EvaluatedResult,
    r: Option<Comparison>,
)
    requires
        call_ensures(compare, (a, b), r),
    ensures
        r is Some <==> a.evaluation is Some && b.evaluation is Some && a.task_id@ == b.task_id@,
        r matches Some(comparison) ==> {
            let of_a = a.evaluation->Some_0.score;
            let of_b = b.evaluation->Some_0.score;
            &&& comparison.task_id == a.task_id
            &&& comparison.model_a == a.model
            &&& comparison.model_b == b.model
            &&& comparison.winner is None <==> of_a == of_b
            &&& of_a > of_b ==> comparison.winner == Some(a.model)
            &&& of_a < of_b ==> comparison.winner == Some(b.model)
        },
{
}

/// Two results compare alike in either order, and as any two others of the same
/// tasks, models and scores.
pub proof fn comparing_again_gives_the_same_winner(
    a: &EvaluatedResult,
    b: &EvaluatedResult,
    other_a: &EvaluatedResult,
    other_b: &EvaluatedResult,
    r: Option<Comparison>,
    back: Option<Comparison>,
    other: Option<Comparison>,
)
    requires
        call_ensures(compare, (a, b), r),
        call_ensures(compare, (b, a), back),
        call_ensures(compare, (other_a, other_b), other),
        a.task_id == other_a.task_id && b.task_id == other_b.task_id,
        a.model == other_a.model && b.model == other_b.model,
        a.evaluation == other_a.evaluation && b.evaluation == other_b.evaluation,
    ensures
        r == other,
        r is Some <==> back is Some,
        r is Some ==> r->Some_0.winner == back->Some_0.winner,
{
}

/// `compare_all` gives what `compare` gives of each two results, the earlier one
/// first, and nothing else.
pub proof fn all_pairs_are_compared(
    results: &[EvaluatedResult],
    r: Vec<Comparison>,
    i: int,
    j: int,
    one: Option<Comparison>,
)
    requires
        call_ensures(compare_all, (results,), r),
        0 <= i < j < results@.len(),
        call_ensures(compare, (&results@[i], &results@[j]), one),
    ensures
        one matches Some(comparison) ==> r@.contains(comparison),
        forall|k: int|
            0 <= k < r@.len() ==> exists|s: int, t: int|
                0 <= s < t < results@.len() && #[trigger] comparison_of(results@[s], results@[t])
                    == Some(#[trigger] r@[k]),
{
    let n = results@.len() as int;
    if let Some(comparison) = one {
        every_pair_is_compared(results@, n, comparison);
        assert(comparison_of(results@[i], results@[j]) == Some(comparison));
    }
    assert forall|k: int| 0 <= k < r@.len() implies exists|s: int, t: int|
        0 <= s < t < results@.len() && #[trigger] comparison_of(results@[s], results@[t]) == Some(
            #[trigger] r@[k],
        ) by {
        every_pair_is_compared(results@, n, r@[k]);
        assert(r@.contains(r@[k]));
    }
}

} // verus!
