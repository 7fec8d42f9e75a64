//! Relative ratings from pairwise judgments: which models can be placed on one
//! scale, and the counts from which their strengths are fitted.
use crate::graph::{
    add_directed_edge, arc_step, arcs, arcs_inside, are_joined, classes, is_arc, is_linked,
    is_strongly_connected, joined_symmetric, link_step, reaches, reaches_mapped, reaches_reflexive,
    reaches_stays, reaches_step, reaches_transitive, strongly_connected,
};
use crate::judge::{swapped_winner, JudgeDecision, Judgment};
use crate::provider::ModelId;
use crate::roster::{
    is_roster, is_sorted, lists_model, place, place_of, place_unique, roster, sorted_lists_agree,
    takes_part,
};
use vstd::prelude::*;

verus! {

/// Why a model has no rating.
#[derive(Debug, Clone, Copy, PartialEq, Eq, Structural)]
pub enum UnavailableReason {
    NoComparisons,
    Disconnected,
    Separated,
    Nonconvergence,
    NonfiniteResult,
}

/// One judgment between the models with the indices `a` and `b`.
#[derive(Debug, Clone, Copy, PartialEq, Eq, Structural)]
pub struct Bout {
    pub a: usize,
    pub b: usize,
    pub winner: JudgeDecision,
}

/// Every bout is between models of `0..n`.
pub open spec fn bouts_inside(n: int, bouts: Seq<Bout>) -> bool {
    forall|k: int| 0 <= k < bouts.len() ==> (#[trigger] bouts[k]).a < n && bouts[k].b < n
}

/// The pairs of models that met.
pub open spec fn bout_links(bouts: Seq<Bout>) -> Seq<(usize, usize)> {
    Seq::new(bouts.len(), |k: int| (bouts[k].a, bouts[k].b))
}

/// The bout gives `i` a win or half a win over `j`.
pub open spec fn scores_in(bout: Bout, i: int, j: int) -> bool {
    &&& i != j
    &&& {
        ||| bout.a == i && bout.b == j && bout.winner != JudgeDecision::B
        ||| bout.b == i && bout.a == j && bout.winner != JudgeDecision::A
    }
}

/// `i` has a positive win mass against `j`.
pub open spec fn scores(bouts: Seq<Bout>, i: int, j: int) -> bool {
    exists|k: int| 0 <= k < bouts.len() && scores_in(#[trigger] bouts[k], i, j)
}

/// The steps from a model to those that it has a positive win mass against.
pub open spec fn score_step(bouts: Seq<Bout>) -> spec_fn(int, int) -> bool {
    |i: int, j: int| scores(bouts, i, j)
}

/// A chain of bouts joins `i` to another model.
pub open spec fn is_comparable(n: int, bouts: Seq<Bout>, i: int) -> bool {
    exists|j: int| 0 <= j < n && j != i && #[trigger] are_joined(bout_links(bouts), i, j)
}

/// All the comparable models are joined to each other.
pub open spec fn one_group(n: int, bouts: Seq<Bout>) -> bool {
    forall|i: int, j: int|
        0 <= i < n && 0 <= j < n && is_comparable(n, bouts, i) && is_comparable(n, bouts, j)
            ==> #[trigger] are_joined(bout_links(bouts), i, j)
}

/// From every comparable model a chain of scores leads to every other one.
pub open spec fn none_separated(n: int, bouts: Seq<Bout>) -> bool {
    forall|i: int, j: int|
        0 <= i < n && 0 <= j < n && is_comparable(n, bouts, i) && is_comparable(n, bouts, j)
            ==> #[trigger] reaches(score_step(bouts), i, j)
}

/// Whether a model can be placed on the common scale, and if not, why.
#[derive(Debug, Clone, Copy, PartialEq, Eq, Structural)]
pub enum Standing {
    /// Never met another model.
    Unmatched,
    /// Met others, but there are groups of models that no bout links.
    Disconnected,
    /// Met others, but some models are not beaten or drawn against by the rest.
    Separated,
    /// A finite rating exists.
    Identified,
}

/// The standing of model `i`.
pub open spec fn standing_of(n: int, bouts: Seq<Bout>, i: int) -> Standing {
    if !is_comparable(n, bouts, i) {
        Standing::Unmatched
    } else if !one_group(n, bouts) {
        Standing::Disconnected
    } else if !none_separated(n, bouts) {
        Standing::Separated
    } else {
        Standing::Identified
    }
}

/// What one bout adds to the wins of `i`. A model that meets itself wins.
pub open spec fn win_in(bout: Bout, i: int) -> nat {
    if bout.a == bout.b {
        if bout.a == i {
            1
        } else {
            0
        }
    } else if (bout.winner == JudgeDecision::A && bout.a == i) || (bout.winner == JudgeDecision::B
        && bout.b == i) {
        1
    } else {
        0
    }
}

/// What one bout adds to the draws of `i` with other models.
pub open spec fn draw_in(bout: Bout, i: int) -> nat {
    if bout.a != bout.b && bout.winner == JudgeDecision::Draw && (bout.a == i || bout.b == i) {
        1
    } else {
        0
    }
}

/// What one bout adds to the meetings of two different models.
pub open spec fn game_in(bout: Bout, i: int, j: int) -> nat {
    if i != j && ((bout.a == i && bout.b == j) || (bout.a == j && bout.b == i)) {
        1
    } else {
        0
    }
}

/// The wins of `i`.
pub open spec fn wins_of(bouts: Seq<Bout>, i: int) -> nat
    decreases bouts.len(),
{
    if bouts.len() == 0 {
        0
    } else {
        wins_of(bouts.drop_last(), i) + win_in(bouts.last(), i)
    }
}

/// The draws of `i` with other models.
pub open spec fn draws_of(bouts: Seq<Bout>, i: int) -> nat
    decreases bouts.len(),
{
    if bouts.len() == 0 {
        0
    } else {
        draws_of(bouts.drop_last(), i) + draw_in(bouts.last(), i)
    }
}

/// How often the two different models `i` and `j` met.
pub open spec fn games_of(bouts: Seq<Bout>, i: int, j: int) -> nat
    decreases bouts.len(),
{
    if bouts.len() == 0 {
        0
    } else {
        games_of(bouts.drop_last(), i, j) + game_in(bouts.last(), i, j)
    }
}

proof fn counts_bounded(bouts: Seq<Bout>, i: int, j: int)
    ensures
        wins_of(bouts, i) <= bouts.len(),
        draws_of(bouts, i) <= bouts.len(),
        games_of(bouts, i, j) <= bouts.len(),
    decreases bouts.len(),
{
    if bouts.len() > 0 {
        counts_bounded(bouts.drop_last(), i, j);
    }
}

/// The counts of a group of models, by their place in the group. A draw is
/// worth half a win to both.
#[derive(Debug)]
pub struct Tally {
    pub wins: Vec<u64>,
    pub draws: Vec<u64>,
    pub games: Vec<Vec<u64>>,
}

/// The tally holds the counts of `members`.
pub open spec fn is_tally(bouts: Seq<Bout>, members: Seq<usize>, tally: Tally) -> bool {
    &&& tally.wins@.len() == members.len()
    &&& tally.draws@.len() == members.len()
    &&& tally.games@.len() == members.len()
    &&& forall|p: int|
        0 <= p < members.len() ==> (#[trigger] tally.wins@[p]) == wins_of(bouts, members[p] as int)
    &&& forall|p: int|
        0 <= p < members.len() ==> (#[trigger] tally.draws@[p]) == draws_of(
            bouts,
            members[p] as int,
        )
    &&& forall|p: int|
        0 <= p < members.len() ==> (#[trigger] tally.games@[p])@.len() == members.len()
    &&& forall|p: int, q: int|
        0 <= p < members.len() && 0 <= q < members.len() ==> (#[trigger] tally.games@[p]@[q])
            == games_of(bouts, members[p] as int, members[q] as int)
}

/// `members` lists in ascending order the models of `0..n` that `chosen` holds of.
pub open spec fn lists(members: Seq<usize>, n: int, chosen: spec_fn(int) -> bool) -> bool {
    &&& forall|p: int| 0 <= p < members.len() ==> (#[trigger] members[p]) < n && chosen(members[p] as int)
    &&& forall|p: int, q: int| 0 <= p < q < members.len() ==> (#[trigger] members[p]) < (
    #[trigger] members[q])
    &&& forall|i: int| 0 <= i < n && #[trigger] chosen(i) ==> members.contains(i as usize)
}

fn tally_members(bouts: &Vec<Bout>, n: usize, members: &Vec<usize>) -> (tally: Tally)
    requires
        bouts_inside(n as int, bouts@),
        forall|p: int| 0 <= p < members@.len() ==> (#[trigger] members@[p]) < n,
        forall|p: int, q: int| 0 <= p < q < members@.len() ==> (#[trigger] members@[p]) < (
        #[trigger] members@[q]),
    ensures
        is_tally(bouts@, members@, tally),
{
    let m: usize = members.len();
    let local: Vec<Option<usize>> = places(n, members);
    let mut wins: Vec<u64> = Vec::new();
    let mut draws: Vec<u64> = Vec::new();
    let mut games: Vec<Vec<u64>> = Vec::new();
    let mut p: usize = 0;
    while p < m
        invariant
            m == members@.len(),
            p <= m,
            wins@.len() == p,
            draws@.len() == p,
            games@.len() == p,
            forall|t: int| 0 <= t < p ==> (#[trigger] wins@[t]) == 0,
            forall|t: int| 0 <= t < p ==> (#[trigger] draws@[t]) == 0,
            forall|t: int| 0 <= t < p ==> (#[trigger] games@[t])@.len() == m,
            forall|t: int, u: int| 0 <= t < p && 0 <= u < m ==> (#[trigger] games@[t]@[u]) == 0,
        decreases m - p,
    {
        wins.push(0);
        draws.push(0);
        let row: Vec<u64> = vec![0u64; m];
        games.push(row);
        p += 1;
    }
    let mut k: usize = 0;
    proof {
        assert(bouts@.take(0).len() == 0);
    }
    while k < bouts.len()
        invariant
            k <= bouts@.len(),
            m == members@.len(),
            bouts_inside(n as int, bouts@),
            forall|t: int| 0 <= t < members@.len() ==> (#[trigger] members@[t]) < n,
            forall|t: int, u: int|
                0 <= t < u < members@.len() ==> (#[trigger] members@[t]) < (#[trigger] members@[u]),
            are_places(local@, n as int, members@),
            wins@.len() == m,
            draws@.len() == m,
            games@.len() == m,
            forall|t: int|
                0 <= t < m ==> (#[trigger] wins@[t]) == wins_of(
                    bouts@.take(k as int),
                    members@[t] as int,
                ),
            forall|t: int|
                0 <= t < m ==> (#[trigger] draws@[t]) == draws_of(
                    bouts@.take(k as int),
                    members@[t] as int,
                ),
            forall|t: int| 0 <= t < m ==> (#[trigger] games@[t])@.len() == m,
            forall|t: int, u: int|
                0 <= t < m && 0 <= u < m ==> (#[trigger] games@[t]@[u]) == games_of(
                    bouts@.take(k as int),
                    members@[t] as int,
                    members@[u] as int,
                ),
        decreases bouts@.len() - k,
    {
        let bout: Bout = bouts[k];
        let place_a: Option<usize> = local[bout.a];
        let place_b: Option<usize> = local[bout.b];
        let ghost seen = bouts@.take(k as int);
        let ghost more = bouts@.take(k + 1);
        let ghost wins0 = wins@;
        let ghost draws0 = draws@;
        let ghost games0 = games@;
        proof {
            assert(more.drop_last() =~= seen);
            assert(more.last() == bout);
            assert forall|i: int, j: int|
                #![trigger wins_of(seen, i), games_of(seen, i, j)]
                wins_of(seen, i) <= seen.len() && draws_of(seen, i) <= seen.len() && games_of(
                    seen,
                    i,
                    j,
                ) <= seen.len() by {
                counts_bounded(seen, i, j);
            }
        }
        if bout.a == bout.b {
            if let Some(x) = place_a {
                proof {
                    counts_bounded(seen, members@[x as int] as int, 0);
                }
                wins.set(x, wins[x] + 1);
            }
        } else {
            if bout.winner == JudgeDecision::A {
                if let Some(x) = place_a {
                    proof {
                        counts_bounded(seen, members@[x as int] as int, 0);
                    }
                    wins.set(x, wins[x] + 1);
                }
            } else if bout.winner == JudgeDecision::B {
                if let Some(y) = place_b {
                    proof {
                        counts_bounded(seen, members@[y as int] as int, 0);
                    }
                    wins.set(y, wins[y] + 1);
                }
            } else {
                if let Some(x) = place_a {
                    proof {
                        counts_bounded(seen, members@[x as int] as int, 0);
                    }
                    draws.set(x, draws[x] + 1);
                }
                if let Some(y) = place_b {
                    proof {
                        counts_bounded(seen, members@[y as int] as int, 0);
                    }
                    draws.set(y, draws[y] + 1);
                }
            }
            if let Some(x) = place_a {
                if let Some(y) = place_b {
                    proof {
                        counts_bounded(seen, members@[x as int] as int, members@[y as int] as int);
                        counts_bounded(seen, members@[y as int] as int, members@[x as int] as int);
                    }
                    let forth: u64 = games[x][y] + 1;
                    games[x].set(y, forth);
                    let back: u64 = games[y][x] + 1;
                    games[y].set(x, back);
                }
            }
        }
        proof {
            assert forall|t: int| 0 <= t < m implies (#[trigger] wins@[t]) == wins_of(
                more,
                members@[t] as int,
            ) by {
                assert(wins0[t] == wins_of(seen, members@[t] as int));
                assert(local@[members@[t] as int] == Some(t as usize));
            }
            assert forall|t: int| 0 <= t < m implies (#[trigger] draws@[t]) == draws_of(
                more,
                members@[t] as int,
            ) by {
                assert(draws0[t] == draws_of(seen, members@[t] as int));
                assert(local@[members@[t] as int] == Some(t as usize));
            }
            assert forall|t: int, u: int| 0 <= t < m && 0 <= u < m implies (
            #[trigger] games@[t]@[u]) == games_of(
                more,
                members@[t] as int,
                members@[u] as int,
            ) by {
                assert(games0[t]@[u] == games_of(seen, members@[t] as int, members@[u] as int));
                assert(local@[members@[t] as int] == Some(t as usize));
                assert(local@[members@[u] as int] == Some(u as usize));
            }
        }
        k += 1;
    }
    proof {
        assert(bouts@.take(bouts@.len() as int) =~= bouts@);
    }
    Tally { wins, draws, games }
}

/// `local` gives every member its place in the list, and nothing to others.
spec fn are_places(local: Seq<Option<usize>>, n: int, members: Seq<usize>) -> bool {
    &&& local.len() == n
    &&& forall|p: int| 0 <= p < members.len() ==> local[(#[trigger] members[p]) as int] == Some(
        p as usize,
    )
    &&& forall|i: int|
        0 <= i < n ==> ((#[trigger] local[i]) matches Some(p) ==> p < members.len() && members[p as int]
            == i)
}

fn places(n: usize, members: &Vec<usize>) -> (local: Vec<Option<usize>>)
    requires
        forall|p: int| 0 <= p < members@.len() ==> (#[trigger] members@[p]) < n,
        forall|p: int, q: int| 0 <= p < q < members@.len() ==> (#[trigger] members@[p]) < (
        #[trigger] members@[q]),
    ensures
        are_places(local@, n as int, members@),
{
    let mut local: Vec<Option<usize>> = Vec::new();
    let mut i: usize = 0;
    while i < n
        invariant
            i <= n,
            local@.len() == i,
            forall|t: int| 0 <= t < i ==> (#[trigger] local@[t]) is None,
        decreases n - i,
    {
        local.push(None);
        i += 1;
    }
    let mut p: usize = 0;
    while p < members.len()
        invariant
            p <= members@.len(),
            local@.len() == n,
            forall|t: int| 0 <= t < members@.len() ==> (#[trigger] members@[t]) < n,
            forall|t: int, u: int|
                0 <= t < u < members@.len() ==> (#[trigger] members@[t]) < (#[trigger] members@[u]),
            forall|t: int| 0 <= t < p ==> local@[(#[trigger] members@[t]) as int] == Some(t as usize),
            forall|t: int|
                0 <= t < n ==> ((#[trigger] local@[t]) matches Some(q) ==> q < p
                    && members@[q as int] == t),
        decreases members@.len() - p,
    {
        local.set(members[p], Some(p));
        p += 1;
    }
    local
}

/// What the rating of the models `0..n` comes down to: where each of them
/// stands, and the counts of those that can be rated.
pub struct RatingPlan {
    pub standings: Vec<Standing>,
    pub members: Vec<usize>,
    pub tally: Tally,
}

/// The plan says of every model where it stands, lists the identified ones and
/// holds their counts.
pub open spec fn is_plan(n: int, bouts: Seq<Bout>, plan: RatingPlan) -> bool {
    &&& plan.standings@.len() == n
    &&& forall|i: int| 0 <= i < n ==> (#[trigger] plan.standings@[i]) == standing_of(n, bouts, i)
    &&& lists(plan.members@, n, |i: int| standing_of(n, bouts, i) == Standing::Identified)
    &&& is_tally(bouts, plan.members@, plan.tally)
}

/// Whether a chain of bouts joins each model to another one.
fn comparable_models(n: usize, bouts: &Vec<Bout>, class: &Vec<usize>) -> (r: Vec<bool>)
    requires
        class@.len() == n,
        forall|i: int, j: int|
            0 <= i < n && 0 <= j < n ==> ((#[trigger] class@[i]) == (#[trigger] class@[j])
                <==> are_joined(bout_links(bouts@), i, j)),
    ensures
        r@.len() == n,
        forall|i: int| 0 <= i < n ==> (#[trigger] r@[i]) == is_comparable(n as int, bouts@, i),
{
    let mut r: Vec<bool> = Vec::new();
    let mut i: usize = 0;
    while i < n
        invariant
            i <= n,
            class@.len() == n,
            forall|x: int, y: int|
                0 <= x < n && 0 <= y < n ==> ((#[trigger] class@[x]) == (#[trigger] class@[y])
                    <==> are_joined(bout_links(bouts@), x, y)),
            r@.len() == i,
            forall|x: int| 0 <= x < i ==> (#[trigger] r@[x]) == is_comparable(n as int, bouts@, x),
        decreases n - i,
    {
        let mut found: bool = false;
        let mut j: usize = 0;
        while j < n
            invariant
                i < n,
                j <= n,
                class@.len() == n,
                found <==> exists|y: int|
                    0 <= y < j && y != i && #[trigger] class@[y] == class@[i as int],
            decreases n - j,
        {
            if j != i && class[j] == class[i] {
                found = true;
                assert(class@[j as int] == class@[i as int]);
            }
            j += 1;
        }
        proof {
            if found {
                let y = choose|y: int|
                    0 <= y < n && y != i && #[trigger] class@[y] == class@[i as int];
                assert(are_joined(bout_links(bouts@), i as int, y));
            }
            if is_comparable(n as int, bouts@, i as int) {
                let y = choose|y: int|
                    0 <= y < n && y != i && #[trigger] are_joined(
                        bout_links(bouts@),
                        i as int,
                        y,
                    );
                assert(class@[y] == class@[i as int]);
            }
        }
        r.push(found);
        i += 1;
    }
    r
}

/// The indices at which `chosen` is true.
fn indices(chosen: &Vec<bool>) -> (r: Vec<usize>)
    ensures
        lists(r@, chosen@.len() as int, |i: int| chosen@[i]),
{
    let mut r: Vec<usize> = Vec::new();
    let mut i: usize = 0;
    while i < chosen.len()
        invariant
            i <= chosen@.len(),
            forall|p: int| 0 <= p < r@.len() ==> (#[trigger] r@[p]) < i && chosen@[r@[p] as int],
            forall|p: int, q: int| 0 <= p < q < r@.len() ==> (#[trigger] r@[p]) < (#[trigger] r@[q]),
            forall|x: int| 0 <= x < i && #[trigger] chosen@[x] ==> r@.contains(x as usize),
        decreases chosen@.len() - i,
    {
        let ghost before = r@;
        if chosen[i] {
            r.push(i);
            proof {
                assert forall|x: int| 0 <= x < i + 1 && #[trigger] chosen@[x] implies r@.contains(
                    x as usize,
                ) by {
                    if x < i {
                        let p = choose|p: int| 0 <= p < before.len() && before[p] == x as usize;
                        assert(r@[p] == x as usize);
                    } else {
                        assert(r@[before.len() as int] == x as usize);
                    }
                }
            }
        }
        i += 1;
    }
    r
}

/// Whether all the models of the list are in one class.
fn one_class(class: &Vec<usize>, members: &Vec<usize>) -> (r: bool)
    requires
        forall|p: int| 0 <= p < members@.len() ==> (#[trigger] members@[p]) < class@.len(),
    ensures
        r <==> forall|p: int, q: int|
            0 <= p < members@.len() && 0 <= q < members@.len() ==> class@[(
            #[trigger] members@[p]) as int] == class@[(#[trigger] members@[q]) as int],
{
    let mut p: usize = 0;
    while p < members.len()
        invariant
            p <= members@.len(),
            forall|t: int| 0 <= t < members@.len() ==> (#[trigger] members@[t]) < class@.len(),
            forall|t: int|
                0 <= t < p ==> class@[(#[trigger] members@[t]) as int] == class@[members@[0] as int],
        decreases members@.len() - p,
    {
        if class[members[p]] != class[members[0]] {
            assert(class@[members@[p as int] as int] != class@[members@[0] as int]);
            return false;
        }
        p += 1;
    }
    true
}

/// The arcs of the win masses between the members, by their places.
fn score_arcs(bouts: &Vec<Bout>, n: usize, members: &Vec<usize>) -> (adj: Vec<Vec<usize>>)
    requires
        bouts_inside(n as int, bouts@),
        forall|p: int| 0 <= p < members@.len() ==> (#[trigger] members@[p]) < n,
        forall|p: int, q: int| 0 <= p < q < members@.len() ==> (#[trigger] members@[p]) < (
        #[trigger] members@[q]),
    ensures
        adj@.len() == members@.len(),
        arcs_inside(arcs(adj@)),
        forall|p: int, q: int|
            0 <= p < members@.len() && 0 <= q < members@.len() ==> (#[trigger] is_arc(
                arcs(adj@),
                p,
                q,
            ) <==> scores(bouts@, members@[p] as int, members@[q] as int)),
{
    let local: Vec<Option<usize>> = places(n, members);
    let m: usize = members.len();
    let mut adj: Vec<Vec<usize>> = Vec::new();
    let mut p: usize = 0;
    while p < m
        invariant
            p <= m,
            adj@.len() == p,
            forall|t: int| 0 <= t < p ==> (#[trigger] adj@[t])@.len() == 0,
        decreases m - p,
    {
        adj.push(Vec::new());
        p += 1;
    }
    let mut k: usize = 0;
    proof {
        assert forall|a: int, b: int| 0 <= a < m && 0 <= b < m implies (#[trigger] is_arc(
            arcs(adj@),
            a,
            b,
        ) <==> scores(bouts@.take(0), members@[a] as int, members@[b] as int)) by {
            assert(adj@[a]@.len() == 0);
        }
    }
    while k < bouts.len()
        invariant
            k <= bouts@.len(),
            m == members@.len(),
            adj@.len() == m,
            bouts_inside(n as int, bouts@),
            are_places(local@, n as int, members@),
            forall|t: int| 0 <= t < members@.len() ==> (#[trigger] members@[t]) < n,
            arcs_inside(arcs(adj@)),
            forall|a: int, b: int|
                0 <= a < m && 0 <= b < m ==> (#[trigger] is_arc(arcs(adj@), a, b) <==> scores(
                    bouts@.take(k as int),
                    members@[a] as int,
                    members@[b] as int,
                )),
        decreases bouts@.len() - k,
    {
        let bout: Bout = bouts[k];
        let ghost seen = bouts@.take(k as int);
        let ghost more = bouts@.take(k + 1);
        let ghost adj0 = arcs(adj@);
        if let Some(x) = local[bout.a] {
            if let Some(y) = local[bout.b] {
                if bout.winner != JudgeDecision::B {
                    add_directed_edge(&mut adj, x, y);
                }
                if bout.winner != JudgeDecision::A {
                    add_directed_edge(&mut adj, y, x);
                }
            }
        }
        proof {
            assert forall|a: int, b: int| 0 <= a < m && 0 <= b < m implies (#[trigger] is_arc(
                arcs(adj@),
                a,
                b,
            ) <==> scores(more, members@[a] as int, members@[b] as int)) by {
                let i = members@[a] as int;
                let j = members@[b] as int;
                assert(local@[i] == Some(a as usize));
                assert(local@[j] == Some(b as usize));
                assert(is_arc(adj0, a, b) <==> scores(seen, i, j));
                if scores(seen, i, j) {
                    let t = choose|t: int| 0 <= t < seen.len() && scores_in(#[trigger] seen[t], i, j);
                    assert(scores_in(more[t], i, j));
                }
                if scores(more, i, j) {
                    let t = choose|t: int| 0 <= t < more.len() && scores_in(#[trigger] more[t], i, j);
                    if t < k {
                        assert(scores_in(seen[t], i, j));
                    } else {
                        assert(more[t] == bout);
                    }
                }
                assert(more[k as int] == bout);
                if scores_in(bout, i, j) {
                    assert(scores(more, i, j));
                }
            }
        }
        k += 1;
    }
    proof {
        assert(bouts@.take(bouts@.len() as int) =~= bouts@);
    }
    adj
}

/// A model that scores against another one is joined to it.
proof fn score_joins(n: int, bouts: Seq<Bout>, i: int, j: int)
    requires
        bouts_inside(n, bouts),
        scores(bouts, i, j),
    ensures
        0 <= i < n,
        0 <= j < n,
        are_joined(bout_links(bouts), i, j),
        is_comparable(n, bouts, i),
        is_comparable(n, bouts, j),
{
    let k = choose|k: int| 0 <= k < bouts.len() && scores_in(#[trigger] bouts[k], i, j);
    let links = bout_links(bouts);
    assert(links[k] == (bouts[k].a, bouts[k].b));
    assert(is_linked(links, i, j));
    assert(link_step(links)(i, j));
    reaches_step(link_step(links), i, j);
    assert(are_joined(links, i, j));
    joined_symmetric(links, i, j);
    assert(are_joined(links, j, i));
}

/// The members' arcs are strongly connected when no comparable model is
/// separated from another.
proof fn arcs_show_separation(n: int, bouts: Seq<Bout>, members: Seq<usize>, adj: Seq<Seq<usize>>)
    requires
        n <= usize::MAX,
        bouts_inside(n, bouts),
        lists(members, n, |i: int| is_comparable(n, bouts, i)),
        adj.len() == members.len(),
        arcs_inside(adj),
        forall|p: int, q: int|
            0 <= p < members.len() && 0 <= q < members.len() ==> (#[trigger] is_arc(adj, p, q)
                <==> scores(bouts, members[p] as int, members[q] as int)),
    ensures
        is_strongly_connected(adj) == none_separated(n, bouts),
{
    let local = |i: int| choose|p: int| 0 <= p < members.len() && #[trigger] members[p] == i;
    let global = |p: int| members[p] as int;
    let arc = arc_step(adj);
    let score = score_step(bouts);
    let place = |p: int| 0 <= p < members.len();
    let comparable = |i: int| 0 <= i < n && is_comparable(n, bouts, i);
    assert forall|i: int| #[trigger] comparable(i) implies 0 <= local(i) < members.len()
        && members[local(i)] == i by {
        let chosen = |i: int| is_comparable(n, bouts, i);
        assert(chosen(i));
        assert(members.contains(i as usize));
        let p = choose|p: int| 0 <= p < members.len() && members[p] == i as usize;
        assert(members[p] == i);
    }
    assert forall|p: int| #[trigger] place(p) implies local(global(p)) == p && comparable(
        global(p),
    ) by {
        assert(members[p] < n);
        assert((|i: int| is_comparable(n, bouts, i))(members[p] as int));
        let q = local(global(p));
        assert(comparable(global(p)));
        assert(members[q] == members[p]);
        if q < p {
            assert(members[q] < members[p]);
        }
        if p < q {
            assert(members[p] < members[q]);
        }
    }
    if is_strongly_connected(adj) {
        assert forall|i: int, j: int|
            0 <= i < n && 0 <= j < n && is_comparable(n, bouts, i) && is_comparable(
                n,
                bouts,
                j,
            ) implies #[trigger] reaches(score, i, j) by {
            assert(comparable(i) && comparable(j));
            let p = local(i);
            let q = local(j);
            assert(reaches(arc, p, q));
            assert forall|a: int, b: int| place(a) && #[trigger] arc(a, b) implies place(b) && score(
                global(a),
                global(b),
            ) by {
                assert(is_arc(adj, a, b));
                let k = choose|k: int| 0 <= k < adj[a].len() && #[trigger] adj[a][k] == b;
                assert(adj[a][k] < adj.len());
                assert(scores(bouts, members[a] as int, members[b] as int));
            }
            reaches_mapped(arc, score, place, global, p, q);
        }
    }
    if none_separated(n, bouts) {
        assert forall|p: int, q: int|
            0 <= p < adj.len() && 0 <= q < adj.len() implies #[trigger] reaches(arc, p, q) by {
            assert(place(p) && place(q));
            let i = global(p);
            let j = global(q);
            assert(comparable(i) && comparable(j));
            assert(reaches(score, i, j));
            assert forall|a: int, b: int|
                comparable(a) && #[trigger] score(a, b) implies comparable(b) && arc(
                local(a),
                local(b),
            ) by {
                assert(scores(bouts, a, b));
                score_joins(n, bouts, a, b);
                assert(comparable(b));
                assert(is_arc(adj, local(a), local(b)));
            }
            reaches_mapped(score, arc, comparable, local, i, j);
        }
    }
}

/// Finds out where each of the models `0..n` stands.
pub fn plan_ratings(n: usize, bouts: &Vec<Bout>) -> (plan: RatingPlan)
    requires
        bouts_inside(n as int, bouts@),
    ensures
        is_plan(n as int, bouts@, plan),
{
    let mut links: Vec<(usize, usize)> = Vec::new();
    let mut k: usize = 0;
    while k < bouts.len()
        invariant
            k <= bouts@.len(),
            links@.len() == k,
            forall|t: int| 0 <= t < k ==> #[trigger] links@[t] == (bouts@[t].a, bouts@[t].b),
        decreases bouts@.len() - k,
    {
        links.push((bouts[k].a, bouts[k].b));
        k += 1;
    }
    proof {
        assert(links@ =~= bout_links(bouts@));
    }
    let class: Vec<usize> = classes(n, &links);
    let comparable: Vec<bool> = comparable_models(n, bouts, &class);
    let group: Vec<usize> = indices(&comparable);
    proof {
        let mark = |i: int| comparable@[i];
        let chosen = |i: int| is_comparable(n as int, bouts@, i);
        assert forall|p: int| 0 <= p < group@.len() implies (#[trigger] group@[p]) < n && chosen(
            group@[p] as int,
        ) by {
            assert(mark(group@[p] as int));
        }
        assert forall|i: int| 0 <= i < n && #[trigger] chosen(i) implies group@.contains(
            i as usize,
        ) by {
            assert(mark(i));
        }
        assert(lists(group@, n as int, chosen));
    }
    let together: bool = one_class(&class, &group);
    proof {
        one_class_is_one_group(n as int, bouts@, class@, group@);
    }
    let mut identified: bool = false;
    if together {
        let adj: Vec<Vec<usize>> = score_arcs(bouts, n, &group);
        identified = strongly_connected(&adj);
        proof {
            arcs_show_separation(n as int, bouts@, group@, arcs(adj@));
        }
    }
    let mut standings: Vec<Standing> = Vec::new();
    let mut i: usize = 0;
    while i < n
        invariant
            i <= n,
            standings@.len() == i,
            comparable@.len() == n,
            forall|x: int|
                0 <= x < n ==> (#[trigger] comparable@[x]) == is_comparable(n as int, bouts@, x),
            together == one_group(n as int, bouts@),
            together ==> identified == none_separated(n as int, bouts@),
            forall|x: int|
                0 <= x < i ==> (#[trigger] standings@[x]) == standing_of(n as int, bouts@, x),
        decreases n - i,
    {
        let standing: Standing = if !comparable[i] {
            Standing::Unmatched
        } else if !together {
            Standing::Disconnected
        } else if !identified {
            Standing::Separated
        } else {
            Standing::Identified
        };
        standings.push(standing);
        i += 1;
    }
    let members: Vec<usize> = if together && identified {
        group
    } else {
        Vec::new()
    };
    proof {
        let mark = |i: int| is_comparable(n as int, bouts@, i);
        let chosen = |i: int| standing_of(n as int, bouts@, i) == Standing::Identified;
        if together && identified {
            assert forall|p: int| 0 <= p < members@.len() implies (#[trigger] members@[p]) < n
                && chosen(members@[p] as int) by {
                assert(mark(members@[p] as int));
            }
            assert forall|x: int| 0 <= x < n && #[trigger] chosen(x) implies members@.contains(
                x as usize,
            ) by {
                assert(mark(x));
            }
        }
        assert(lists(members@, n as int, chosen));
    }
    let tally: Tally = tally_members(bouts, n, &members);
    RatingPlan { standings, members, tally }
}

/// All comparable models have one class when they are all joined.
proof fn one_class_is_one_group(n: int, bouts: Seq<Bout>, class: Seq<usize>, group: Seq<usize>)
    requires
        n <= usize::MAX,
        class.len() == n,
        forall|i: int, j: int|
            0 <= i < n && 0 <= j < n ==> ((#[trigger] class[i]) == (#[trigger] class[j])
                <==> are_joined(bout_links(bouts), i, j)),
        lists(group, n, |i: int| is_comparable(n, bouts, i)),
    ensures
        one_group(n, bouts) <==> forall|p: int, q: int|
            0 <= p < group.len() && 0 <= q < group.len() ==> class[(
            #[trigger] group[p]) as int] == class[(#[trigger] group[q]) as int],
{
    let chosen = |i: int| is_comparable(n, bouts, i);
    if one_group(n, bouts) {
        assert forall|p: int, q: int| 0 <= p < group.len() && 0 <= q < group.len() implies class[(
        #[trigger] group[p]) as int] == class[(#[trigger] group[q]) as int] by {
            assert(chosen(group[p] as int));
            assert(chosen(group[q] as int));
            assert(are_joined(bout_links(bouts), group[p] as int, group[q] as int));
        }
    }
    if forall|p: int, q: int|
        0 <= p < group.len() && 0 <= q < group.len() ==> class[(
        #[trigger] group[p]) as int] == class[(#[trigger] group[q]) as int] {
        assert forall|i: int, j: int|
            0 <= i < n && 0 <= j < n && is_comparable(n, bouts, i) && is_comparable(
                n,
                bouts,
                j,
            ) implies #[trigger] are_joined(bout_links(bouts), i, j) by {
            assert(chosen(i));
            assert(chosen(j));
            let p = choose|p: int| 0 <= p < group.len() && group[p] == i as usize;
            let q = choose|q: int| 0 <= q < group.len() && group[q] == j as usize;
            assert(group[p] == i && group[q] == j);
            assert(class[group[p] as int] == class[group[q] as int]);
        }
    }
}

/// The rating of one model, or why there is none. The bounds are those of an
/// interval around the rating, where one was computed.
#[derive(Debug, PartialEq)]
pub struct ModelRating<R> {
    pub model: ModelId,
    pub rating: Option<R>,
    pub rating_lower: Option<R>,
    pub rating_upper: Option<R>,
    pub unavailable: Option<UnavailableReason>,
}

impl<R: Copy> Clone for ModelRating<R> {
    fn clone(&self) -> (r: Self)
        ensures
            r == *self,
    {
        ModelRating {
            model: self.model.clone(),
            rating: self.rating,
            rating_lower: self.rating_lower,
            rating_upper: self.rating_upper,
            unavailable: self.unavailable,
        }
    }
}

/// Why strengths could not be fitted to a tally.
#[derive(Debug, Clone, Copy, PartialEq, Eq, Structural)]
pub enum FitFailure {
    /// The iteration did not meet its tolerance.
    Nonconvergence,
    /// The iteration met its tolerance, but not at finite positive values.
    NonfiniteResult,
}

/// What the fit of the identified models came to, value by value.
pub open spec fn outcome_of<R>(outcome: Result<Vec<R>, FitFailure>) -> Result<Seq<R>, FitFailure> {
    match outcome {
        Ok(values) => Ok(values@),
        Err(failure) => Err(failure),
    }
}

/// The rating of a model, or the reason for its absence; `at` is the model's
/// place among the fitted ones.
pub open spec fn verdict<R>(
    standing: Standing,
    at: int,
    outcome: Result<Seq<R>, FitFailure>,
) -> (Option<R>, Option<UnavailableReason>) {
    match standing {
        Standing::Unmatched => (None, Some(UnavailableReason::NoComparisons)),
        Standing::Disconnected => (None, Some(UnavailableReason::Disconnected)),
        Standing::Separated => (None, Some(UnavailableReason::Separated)),
        Standing::Identified => match outcome {
            Ok(values) => (Some(values[at]), None),
            Err(FitFailure::Nonconvergence) => (None, Some(UnavailableReason::Nonconvergence)),
            Err(FitFailure::NonfiniteResult) => (None, Some(UnavailableReason::NonfiniteResult)),
        },
    }
}

/// The models that the ratings are of.
pub open spec fn rated_models<R>(ratings: Seq<ModelRating<R>>) -> Seq<ModelId> {
    Seq::new(ratings.len(), |i: int| ratings[i].model)
}

/// The ratings say of every model what the plan and the fit give it, and hold
/// no intervals.
pub open spec fn are_ratings<R>(
    ratings: Seq<ModelRating<R>>,
    plan: RatingPlan,
    outcome: Result<Seq<R>, FitFailure>,
) -> bool {
    &&& ratings.len() == plan.standings@.len()
    &&& forall|i: int|
        0 <= i < ratings.len() ==> {
            let (rating, unavailable) = verdict(
                plan.standings@[i],
                plan.members@.index_of(i as usize),
                outcome,
            );
            &&& (#[trigger] ratings[i]).rating == rating
            &&& ratings[i].unavailable == unavailable
            &&& ratings[i].rating_lower is None
            &&& ratings[i].rating_upper is None
        }
}

/// The judgments as bouts between places of the list.
pub open spec fn bouts_of(judgments: Seq<Judgment>, list: Seq<ModelId>) -> Seq<Bout> {
    Seq::new(
        judgments.len(),
        |k: int|
            Bout {
                a: place_of(list, judgments[k].model_a@) as usize,
                b: place_of(list, judgments[k].model_b@) as usize,
                winner: judgments[k].winner,
            },
    )
}

/// The judgments as bouts between places of the list.
pub fn bouts(judgments: &[Judgment], list: &Vec<ModelId>) -> (r: Vec<Bout>)
    requires
        is_sorted(list@),
        forall|k: int|
            0 <= k < judgments@.len() ==> lists_model(list@, (#[trigger] judgments@[k]).model_a@)
                && lists_model(list@, judgments@[k].model_b@),
    ensures
        r@ == bouts_of(judgments@, list@),
        bouts_inside(list@.len() as int, r@),
{
    let mut r: Vec<Bout> = Vec::new();
    let mut k: usize = 0;
    while k < judgments.len()
        invariant
            k <= judgments@.len(),
            is_sorted(list@),
            forall|t: int|
                0 <= t < judgments@.len() ==> lists_model(
                    list@,
                    (#[trigger] judgments@[t]).model_a@,
                ) && lists_model(list@, judgments@[t].model_b@),
            r@ == bouts_of(judgments@, list@).take(k as int),
            bouts_inside(list@.len() as int, r@),
        decreases judgments@.len() - k,
    {
        let a: usize = place(list, &judgments[k].model_a);
        let b: usize = place(list, &judgments[k].model_b);
        r.push(Bout { a, b, winner: judgments[k].winner });
        proof {
            assert(r@ =~= bouts_of(judgments@, list@).take(k + 1));
        }
        k += 1;
    }
    proof {
        assert(r@ =~= bouts_of(judgments@, list@));
    }
    r
}

/// Every tally can be fitted, and a fit that succeeds gives as many values as
/// the tally counts models.
pub open spec fn is_fit<R, F: Fn(&Tally) -> Result<Vec<R>, FitFailure>>(fit: F) -> bool {
    &&& forall|tally: Tally| #[trigger] fit.requires((&tally,))
    &&& forall|tally: Tally, outcome: Result<Vec<R>, FitFailure>| #[trigger]
        fit.ensures((&tally,), outcome) ==> gives_values(outcome, tally.wins@.len())
}

/// A fit that succeeded gave so many values.
pub open spec fn gives_values<R>(outcome: Result<Vec<R>, FitFailure>, count: nat) -> bool {
    outcome matches Ok(values) ==> values@.len() == count
}

/// Gives every model of the list what the plan and the fit give it.
pub fn apply_fit<R: Copy>(
    list: &Vec<ModelId>,
    plan: &RatingPlan,
    outcome: &Result<Vec<R>, FitFailure>,
) -> (ratings: Vec<ModelRating<R>>)
    requires
        plan.standings@.len() == list@.len(),
        lists(
            plan.members@,
            list@.len() as int,
            |i: int| plan.standings@[i] == Standing::Identified,
        ),
        gives_values(*outcome, plan.members@.len()),
    ensures
        rated_models(ratings@) == list@,
        are_ratings(ratings@, *plan, outcome_of(*outcome)),
{
    let n: usize = list.len();
    let local: Vec<Option<usize>> = places(n, &plan.members);
    let mut ratings: Vec<ModelRating<R>> = Vec::new();
    let mut i: usize = 0;
    while i < n
        invariant
            n == list@.len(),
            i <= n,
            plan.standings@.len() == n,
            lists(plan.members@, n as int, |x: int| plan.standings@[x] == Standing::Identified),
            gives_values(*outcome, plan.members@.len()),
            are_places(local@, n as int, plan.members@),
            ratings@.len() == i,
            forall|x: int|
                0 <= x < i ==> {
                    let (rating, unavailable) = verdict(
                        plan.standings@[x],
                        plan.members@.index_of(x as usize),
                        outcome_of(*outcome),
                    );
                    &&& (#[trigger] ratings@[x]).rating == rating
                    &&& ratings@[x].unavailable == unavailable
                    &&& ratings@[x].rating_lower is None
                    &&& ratings@[x].rating_upper is None
                    &&& ratings@[x].model == list@[x]
                },
        decreases n - i,
    {
        let mut rating: Option<R> = None;
        let mut unavailable: Option<UnavailableReason> = Some(UnavailableReason::NoComparisons);
        match plan.standings[i] {
            Standing::Unmatched => {},
            Standing::Disconnected => {
                unavailable = Some(UnavailableReason::Disconnected);
            },
            Standing::Separated => {
                unavailable = Some(UnavailableReason::Separated);
            },
            Standing::Identified => {
                proof {
                    let chosen = |x: int| plan.standings@[x] == Standing::Identified;
                    assert(chosen(i as int));
                    assert(plan.members@.contains(i));
                    let p = plan.members@.index_of(i);
                    assert(plan.members@[p] == i);
                    assert(local@[plan.members@[p] as int] == Some(p as usize));
                }
                match outcome {
                    Ok(values) => {
                        if let Some(p) = local[i] {
                            rating = Some(values[p]);
                            unavailable = None;
                        }
                    },
                    Err(FitFailure::Nonconvergence) => {
                        unavailable = Some(UnavailableReason::Nonconvergence);
                    },
                    Err(FitFailure::NonfiniteResult) => {
                        unavailable = Some(UnavailableReason::NonfiniteResult);
                    },
                }
            },
        }
        ratings.push(
            ModelRating {
                model: list[i].clone(),
                rating,
                rating_lower: None,
                rating_upper: None,
                unavailable,
            },
        );
        i += 1;
    }
    proof {
        assert(rated_models(ratings@) =~= list@);
    }
    ratings
}

/// The ratings are those of the requested and the judged models, where the
/// identified ones have what `fit` may return for their counts.
pub open spec fn are_rated<R, F: Fn(&Tally) -> Result<Vec<R>, FitFailure>>(
    ratings: Seq<ModelRating<R>>,
    judgments: Seq<Judgment>,
    models: Seq<ModelId>,
    fit: F,
) -> bool {
    &&& is_roster(rated_models(ratings), judgments, models)
    &&& exists|plan: RatingPlan, outcome: Result<Vec<R>, FitFailure>|
        {
            &&& is_plan(ratings.len() as int, bouts_of(judgments, rated_models(ratings)), plan)
            &&& plan.members@.len() > 0 ==> fit.ensures((&plan.tally,), outcome)
            &&& gives_values(outcome, plan.members@.len())
            &&& #[trigger] are_ratings(ratings, plan, outcome_of(outcome))
        }
}

/// A model is without a rating for the reason that its standing gives, and an
/// identified one only where the fit failed.
pub open spec fn are_reasons<R>(ratings: Seq<ModelRating<R>>, judgments: Seq<Judgment>) -> bool {
    let bouts = bouts_of(judgments, rated_models(ratings));
    forall|i: int|
        0 <= i < ratings.len() ==> {
            let standing = standing_of(ratings.len() as int, bouts, i);
            let reason = (#[trigger] ratings[i]).unavailable;
            &&& reason == Some(UnavailableReason::NoComparisons) <==> standing
                == Standing::Unmatched
            &&& reason == Some(UnavailableReason::Disconnected) <==> standing
                == Standing::Disconnected
            &&& reason == Some(UnavailableReason::Separated) <==> standing == Standing::Separated
            &&& ratings[i].rating is None <==> reason is Some
        }
}

/// Rates the requested and the judged models. `fit` turns the counts of the
/// identified models into their ratings, in the order of the tally.
pub fn rate<R: Copy, F: Fn(&Tally) -> Result<Vec<R>, FitFailure>>(
    judgments: &[Judgment],
    models: &[ModelId],
    fit: &F,
) -> (ratings: Vec<ModelRating<R>>)
    requires
        is_fit(*fit),
    ensures
        are_rated(ratings@, judgments@, models@, *fit),
        are_reasons(ratings@, judgments@),
        forall|i: int|
            0 <= i < ratings@.len() ==> (#[trigger] ratings@[i]).rating_lower is None
                && ratings@[i].rating_upper is None,
{
    let list: Vec<ModelId> = roster(judgments, models);
    proof {
        assert forall|k: int| 0 <= k < judgments@.len() implies lists_model(
            list@,
            (#[trigger] judgments@[k]).model_a@,
        ) && lists_model(list@, judgments@[k].model_b@) by {
            assert(takes_part(judgments@, judgments@[k].model_a@));
            assert(takes_part(judgments@, judgments@[k].model_b@));
        }
    }
    let fights: Vec<Bout> = bouts(judgments, &list);
    let plan: RatingPlan = plan_ratings(list.len(), &fights);
    let outcome: Result<Vec<R>, FitFailure> = if plan.members.len() > 0 {
        fit(&plan.tally)
    } else {
        Ok(Vec::new())
    };
    proof {
        let n = list@.len() as int;
        let mark = |i: int| standing_of(n, fights@, i) == Standing::Identified;
        let chosen = |i: int| plan.standings@[i] == Standing::Identified;
        assert forall|p: int| 0 <= p < plan.members@.len() implies (#[trigger] plan.members@[p])
            < n && chosen(plan.members@[p] as int) by {
            assert(mark(plan.members@[p] as int));
        }
        assert forall|i: int| 0 <= i < n && #[trigger] chosen(i) implies plan.members@.contains(
            i as usize,
        ) by {
            assert(mark(i));
        }
        assert(lists(plan.members@, n, chosen));
    }
    let ratings: Vec<ModelRating<R>> = apply_fit(&list, &plan, &outcome);
    proof {
        assert(is_plan(
            ratings@.len() as int,
            bouts_of(judgments@, rated_models(ratings@)),
            plan,
        ));
        assert(are_ratings(ratings@, plan, outcome_of(outcome)));
    }
    ratings
}

proof fn counts_without(bouts: Seq<Bout>, k: int, i: int, j: int)
    requires
        0 <= k < bouts.len(),
    ensures
        wins_of(bouts, i) == wins_of(bouts.remove(k), i) + win_in(bouts[k], i),
        draws_of(bouts, i) == draws_of(bouts.remove(k), i) + draw_in(bouts[k], i),
        games_of(bouts, i, j) == games_of(bouts.remove(k), i, j) + game_in(bouts[k], i, j),
    decreases bouts.len(),
{
    if k == bouts.len() - 1 {
        assert(bouts.remove(k) =~= bouts.drop_last());
    } else {
        counts_without(bouts.drop_last(), k, i, j);
        assert(bouts.remove(k).drop_last() =~= bouts.drop_last().remove(k));
        assert(bouts.remove(k).last() == bouts.last());
        assert(bouts.drop_last()[k] == bouts[k]);
    }
}

proof fn counts_ignore_order(
    one: Seq<Judgment>,
    two: Seq<Judgment>,
    list: Seq<ModelId>,
    i: int,
    j: int,
)
    requires
        one.to_multiset() == two.to_multiset(),
    ensures
        wins_of(bouts_of(one, list), i) == wins_of(bouts_of(two, list), i),
        draws_of(bouts_of(one, list), i) == draws_of(bouts_of(two, list), i),
        games_of(bouts_of(one, list), i, j) == games_of(bouts_of(two, list), i, j),
    decreases one.len(),
{
    one.to_multiset_ensures();
    two.to_multiset_ensures();
    if one.len() > 0 {
        let x = one.last();
        assert(one.contains(x));
        assert(two.to_multiset().count(x) > 0);
        let k = choose|k: int| 0 <= k < two.len() && two[k] == x;
        let last = one.len() - 1;
        assert(one.remove(last).to_multiset() == two.remove(k).to_multiset());
        counts_ignore_order(one.remove(last), two.remove(k), list, i, j);
        counts_without(bouts_of(one, list), last, i, j);
        counts_without(bouts_of(two, list), k, i, j);
        assert(bouts_of(one, list).remove(last) =~= bouts_of(one.remove(last), list));
        assert(bouts_of(two, list).remove(k) =~= bouts_of(two.remove(k), list));
    } else {
        assert(bouts_of(one, list) =~= bouts_of(two, list));
    }
}

proof fn same_steps(one: Seq<Judgment>, two: Seq<Judgment>, list: Seq<ModelId>)
    requires
        forall|x: Judgment| one.contains(x) <==> two.contains(x),
    ensures
        link_step(bout_links(bouts_of(one, list))) == link_step(bout_links(bouts_of(two, list))),
        score_step(bouts_of(one, list)) == score_step(bouts_of(two, list)),
{
    let b1 = bouts_of(one, list);
    let b2 = bouts_of(two, list);
    let l1 = bout_links(b1);
    let l2 = bout_links(b2);
    assert forall|k: int| 0 <= k < b1.len() implies b2.contains(#[trigger] b1[k]) && l2.contains(
        l1[k],
    ) by {
        assert(one.contains(one[k]));
        let t = choose|t: int| 0 <= t < two.len() && two[t] == one[k];
        assert(b2[t] == b1[k]);
        assert(l2[t] == l1[k]);
    }
    assert forall|k: int| 0 <= k < b2.len() implies b1.contains(#[trigger] b2[k]) && l1.contains(
        l2[k],
    ) by {
        assert(two.contains(two[k]));
        let t = choose|t: int| 0 <= t < one.len() && one[t] == two[k];
        assert(b1[t] == b2[k]);
        assert(l1[t] == l2[k]);
    }
    assert forall|i: int, j: int| is_linked(l1, i, j) == is_linked(l2, i, j) by {
        if is_linked(l1, i, j) {
            let k = choose|k: int|
                0 <= k < l1.len() && {
                    ||| (#[trigger] l1[k]).0 == i && l1[k].1 == j
                    ||| l1[k].0 == j && l1[k].1 == i
                };
            assert(b2.contains(b1[k]));
            let t = choose|t: int| 0 <= t < l2.len() && l2[t] == l1[k];
            assert(l2[t] == l1[k]);
        }
        if is_linked(l2, i, j) {
            let k = choose|k: int|
                0 <= k < l2.len() && {
                    ||| (#[trigger] l2[k]).0 == i && l2[k].1 == j
                    ||| l2[k].0 == j && l2[k].1 == i
                };
            assert(b1.contains(b2[k]));
            let t = choose|t: int| 0 <= t < l1.len() && l1[t] == l2[k];
            assert(l1[t] == l2[k]);
        }
    }
    assert forall|i: int, j: int| scores(b1, i, j) == scores(b2, i, j) by {
        if scores(b1, i, j) {
            let k = choose|k: int| 0 <= k < b1.len() && scores_in(#[trigger] b1[k], i, j);
            let t = choose|t: int| 0 <= t < b2.len() && b2[t] == b1[k];
            assert(scores_in(b2[t], i, j));
        }
        if scores(b2, i, j) {
            let k = choose|k: int| 0 <= k < b2.len() && scores_in(#[trigger] b2[k], i, j);
            let t = choose|t: int| 0 <= t < b1.len() && b1[t] == b2[k];
            assert(scores_in(b1[t], i, j));
        }
    }
    assert(link_step(l1) =~= link_step(l2));
    assert(score_step(b1) =~= score_step(b2));
}

proof fn same_steps_same_standing(n: int, one: Seq<Bout>, two: Seq<Bout>, i: int)
    requires
        link_step(bout_links(one)) == link_step(bout_links(two)),
        score_step(one) == score_step(two),
    ensures
        standing_of(n, one, i) == standing_of(n, two, i),
{
    let l1 = bout_links(one);
    let l2 = bout_links(two);
    assert forall|a: int, b: int| are_joined(l1, a, b) == are_joined(l2, a, b) by {}
    assert forall|a: int| #[trigger] is_comparable(n, one, a) == is_comparable(n, two, a) by {
        if is_comparable(n, one, a) {
            let b = choose|b: int| 0 <= b < n && b != a && #[trigger] are_joined(l1, a, b);
            assert(are_joined(l2, a, b));
        }
        if is_comparable(n, two, a) {
            let b = choose|b: int| 0 <= b < n && b != a && #[trigger] are_joined(l2, a, b);
            assert(are_joined(l1, a, b));
        }
    }
    assert(one_group(n, one) == one_group(n, two)) by {
        assert forall|a: int, b: int|
            #![trigger are_joined(l1, a, b)]
            #![trigger are_joined(l2, a, b)]
            are_joined(l1, a, b) == are_joined(l2, a, b) && is_comparable(n, one, a)
                == is_comparable(n, two, a) && is_comparable(n, one, b) == is_comparable(
                n,
                two,
                b,
            ) by {}
    }
    assert(none_separated(n, one) == none_separated(n, two)) by {
        assert forall|a: int, b: int|
            #![trigger reaches(score_step(one), a, b)]
            is_comparable(n, one, a) == is_comparable(n, two, a) && is_comparable(n, one, b)
                == is_comparable(n, two, b) by {}
    }
}

proof fn same_people(one: Seq<Judgment>, two: Seq<Judgment>)
    requires
        one.to_multiset() == two.to_multiset(),
    ensures
        forall|name: Seq<char>| #[trigger] takes_part(one, name) == takes_part(two, name),
{
    one.to_multiset_ensures();
    two.to_multiset_ensures();
    assert forall|x: Judgment| one.contains(x) <==> two.contains(x) by {
        assert(one.contains(x) <==> one.to_multiset().count(x) > 0);
        assert(two.contains(x) <==> two.to_multiset().count(x) > 0);
    }
    assert forall|name: Seq<char>| #[trigger] takes_part(one, name) == takes_part(two, name) by {
        if takes_part(one, name) {
            let k = choose|k: int|
                0 <= k < one.len() && ((#[trigger] one[k]).model_a@ == name || one[k].model_b@
                    == name);
            assert(one.contains(one[k]));
            let t = choose|t: int| 0 <= t < two.len() && two[t] == one[k];
            assert(two[t] == one[k]);
        }
        if takes_part(two, name) {
            let k = choose|k: int|
                0 <= k < two.len() && ((#[trigger] two[k]).model_a@ == name || two[k].model_b@
                    == name);
            assert(two.contains(two[k]));
            let t = choose|t: int| 0 <= t < one.len() && one[t] == two[k];
            assert(one[t] == two[k]);
        }
    }
}

/// The order of the judgments does not matter: with the same judgments in
/// another order, the same models are rated, each stands where it stood, and
/// the counts that their strengths are fitted to are the same.
pub proof fn order_does_not_matter(
    one: Seq<Judgment>,
    two: Seq<Judgment>,
    models: Seq<ModelId>,
    list: Seq<ModelId>,
    n: int,
    i: int,
    j: int,
)
    requires
        one.to_multiset() == two.to_multiset(),
    ensures
        is_roster(list, one, models) == is_roster(list, two, models),
        standing_of(n, bouts_of(one, list), i) == standing_of(n, bouts_of(two, list), i),
        wins_of(bouts_of(one, list), i) == wins_of(bouts_of(two, list), i),
        draws_of(bouts_of(one, list), i) == draws_of(bouts_of(two, list), i),
        games_of(bouts_of(one, list), i, j) == games_of(bouts_of(two, list), i, j),
{
    counts_ignore_order(one, two, list, i, j);
    one.to_multiset_ensures();
    two.to_multiset_ensures();
    assert forall|x: Judgment| one.contains(x) <==> two.contains(x) by {
        assert(one.contains(x) <==> one.to_multiset().count(x) > 0);
        assert(two.contains(x) <==> two.to_multiset().count(x) > 0);
    }
    same_steps(one, two, list);
    same_steps_same_standing(n, bouts_of(one, list), bouts_of(two, list), i);
    same_people(one, two);
}

/// Only who met and who won matters. Orientations, reasons, durations and the
/// rest of a judgment neither add nor remove weight.
pub proof fn only_winners_matter(
    one: Seq<Judgment>,
    two: Seq<Judgment>,
    models: Seq<ModelId>,
    list: Seq<ModelId>,
)
    requires
        one.len() == two.len(),
        forall|k: int|
            0 <= k < one.len() ==> (#[trigger] one[k]).model_a@ == two[k].model_a@
                && one[k].model_b@ == two[k].model_b@ && one[k].winner == two[k].winner,
    ensures
        is_roster(list, one, models) == is_roster(list, two, models),
        bouts_of(one, list) == bouts_of(two, list),
{
    assert(bouts_of(one, list) =~= bouts_of(two, list));
    assert forall|name: Seq<char>| takes_part(one, name) == takes_part(two, name) by {
        if takes_part(one, name) {
            let k = choose|k: int|
                0 <= k < one.len() && ((#[trigger] one[k]).model_a@ == name || one[k].model_b@
                    == name);
            assert(two[k].model_a@ == one[k].model_a@);
        }
        if takes_part(two, name) {
            let k = choose|k: int|
                0 <= k < two.len() && ((#[trigger] two[k]).model_a@ == name || two[k].model_b@
                    == name);
            assert(two[k].model_a@ == one[k].model_a@);
        }
    }
}

/// The same bout told from the other side.
pub open spec fn mirrored(bout: Bout) -> Bout {
    Bout { a: bout.b, b: bout.a, winner: swapped_winner(bout.winner) }
}

/// Which of the two models is called the first makes no difference: with any
/// of the bouts told from the other side, every model stands where it stood
/// and has the same counts.
pub proof fn sides_do_not_matter(n: int, one: Seq<Bout>, two: Seq<Bout>, i: int, j: int)
    requires
        one.len() == two.len(),
        forall|k: int|
            0 <= k < one.len() ==> #[trigger] two[k] == one[k] || two[k] == mirrored(one[k]),
    ensures
        standing_of(n, one, i) == standing_of(n, two, i),
        wins_of(one, i) == wins_of(two, i),
        draws_of(one, i) == draws_of(two, i),
        games_of(one, i, j) == games_of(two, i, j),
{
    mirrored_counts(one, two, i, j);
    let l1 = bout_links(one);
    let l2 = bout_links(two);
    assert forall|a: int, b: int| is_linked(l1, a, b) == is_linked(l2, a, b) by {
        if is_linked(l1, a, b) {
            let k = choose|k: int|
                0 <= k < l1.len() && {
                    ||| (#[trigger] l1[k]).0 == a && l1[k].1 == b
                    ||| l1[k].0 == b && l1[k].1 == a
                };
            assert(two[k] == one[k] || two[k] == mirrored(one[k]));
            assert(l2[k] == (two[k].a, two[k].b));
        }
        if is_linked(l2, a, b) {
            let k = choose|k: int|
                0 <= k < l2.len() && {
                    ||| (#[trigger] l2[k]).0 == a && l2[k].1 == b
                    ||| l2[k].0 == b && l2[k].1 == a
                };
            assert(two[k] == one[k] || two[k] == mirrored(one[k]));
            assert(l1[k] == (one[k].a, one[k].b));
        }
    }
    assert forall|a: int, b: int| scores(one, a, b) == scores(two, a, b) by {
        if scores(one, a, b) {
            let k = choose|k: int| 0 <= k < one.len() && scores_in(#[trigger] one[k], a, b);
            assert(two[k] == one[k] || two[k] == mirrored(one[k]));
            assert(scores_in(two[k], a, b));
        }
        if scores(two, a, b) {
            let k = choose|k: int| 0 <= k < two.len() && scores_in(#[trigger] two[k], a, b);
            assert(two[k] == one[k] || two[k] == mirrored(one[k]));
            assert(scores_in(one[k], a, b));
        }
    }
    assert(link_step(l1) =~= link_step(l2));
    assert(score_step(one) =~= score_step(two));
    same_steps_same_standing(n, one, two, i);
}

proof fn mirrored_counts(one: Seq<Bout>, two: Seq<Bout>, i: int, j: int)
    requires
        one.len() == two.len(),
        forall|k: int|
            0 <= k < one.len() ==> #[trigger] two[k] == one[k] || two[k] == mirrored(one[k]),
    ensures
        wins_of(one, i) == wins_of(two, i),
        draws_of(one, i) == draws_of(two, i),
        games_of(one, i, j) == games_of(two, i, j),
    decreases one.len(),
{
    if one.len() > 0 {
        let last = one.len() - 1;
        assert(two[last] == one[last] || two[last] == mirrored(one[last]));
        assert forall|k: int| 0 <= k < one.drop_last().len() implies #[trigger] two.drop_last()[k]
            == one.drop_last()[k] || two.drop_last()[k] == mirrored(one.drop_last()[k]) by {
            assert(two[k] == one[k] || two[k] == mirrored(one[k]));
        }
        mirrored_counts(one.drop_last(), two.drop_last(), i, j);
    }
}

/// The fit depends on the counts alone.
pub open spec fn is_steady<R, F: Fn(&Tally) -> Result<Vec<R>, FitFailure>>(fit: F) -> bool {
    forall|
        one: Tally,
        two: Tally,
        first: Result<Vec<R>, FitFailure>,
        second: Result<Vec<R>, FitFailure>,
    |
        same_tally(one, two) && #[trigger] fit.ensures((&one,), first) && #[trigger] fit.ensures(
            (&two,),
            second,
        ) ==> outcome_of(first) == outcome_of(second)
}

/// Both tallies hold the same counts.
pub open spec fn same_tally(one: Tally, two: Tally) -> bool {
    &&& one.wins@ == two.wins@
    &&& one.draws@ == two.draws@
    &&& one.games@.len() == two.games@.len()
    &&& forall|p: int| 0 <= p < one.games@.len() ==> (#[trigger] one.games@[p])@ == two.games@[p]@
}

/// The ratings are of the same models and have the same values.
pub open spec fn same_ratings<R>(one: Seq<ModelRating<R>>, two: Seq<ModelRating<R>>) -> bool {
    &&& one.len() == two.len()
    &&& forall|i: int|
        0 <= i < one.len() ==> (#[trigger] one[i]).model@ == two[i].model@ && one[i].rating
            == two[i].rating && one[i].unavailable == two[i].unavailable
}

/// The judgments are about the same models, and lead to the same standings and
/// counts.
pub open spec fn count_alike(one: Seq<Judgment>, two: Seq<Judgment>) -> bool {
    &&& forall|name: Seq<char>| #[trigger] takes_part(one, name) == takes_part(two, name)
    &&& forall|list: Seq<ModelId>, n: int, i: int|
        #[trigger] standing_of(n, bouts_of(one, list), i) == standing_of(n, bouts_of(two, list), i)
    &&& forall|list: Seq<ModelId>, i: int| #[trigger]
        wins_of(bouts_of(one, list), i) == wins_of(bouts_of(two, list), i)
    &&& forall|list: Seq<ModelId>, i: int| #[trigger]
        draws_of(bouts_of(one, list), i) == draws_of(bouts_of(two, list), i)
    &&& forall|list: Seq<ModelId>, i: int, j: int| #[trigger]
        games_of(bouts_of(one, list), i, j) == games_of(bouts_of(two, list), i, j)
}

proof fn listed_up_to(
    one: Seq<usize>,
    two: Seq<usize>,
    n: int,
    chosen: spec_fn(int) -> bool,
    k: int,
)
    requires
        n <= usize::MAX,
        lists(one, n, chosen),
        lists(two, n, chosen),
        0 <= k <= one.len(),
    ensures
        k <= two.len(),
        forall|p: int| 0 <= p < k ==> #[trigger] one[p] == two[p],
    decreases k,
{
    if k > 0 {
        listed_up_to(one, two, n, chosen, k - 1);
        let x = one[k - 1];
        assert(chosen(x as int));
        let p = choose|p: int| 0 <= p < two.len() && two[p] == x as int as usize;
        assert(two[p] == x);
        if p < k - 1 {
            assert(one[p] == two[p]);
            assert(one[p] < one[k - 1]);
        }
        let y = two[k - 1];
        assert(chosen(y as int));
        let q = choose|q: int| 0 <= q < one.len() && one[q] == y as int as usize;
        assert(one[q] == y);
        if q < k - 1 {
            assert(one[q] == two[q]);
            assert(two[q] < two[k - 1]);
        }
        if p > k - 1 {
            assert(two[k - 1] < two[p]);
        }
        if q > k - 1 {
            assert(one[k - 1] < one[q]);
        }
    }
}

proof fn listed_once(one: Seq<usize>, two: Seq<usize>, n: int, chosen: spec_fn(int) -> bool)
    requires
        n <= usize::MAX,
        lists(one, n, chosen),
        lists(two, n, chosen),
    ensures
        one == two,
{
    listed_up_to(one, two, n, chosen, one.len() as int);
    listed_up_to(two, one, n, chosen, two.len() as int);
    assert(one =~= two);
}

/// The same places in lists of the same names.
proof fn bouts_by_name(judgments: Seq<Judgment>, one: Seq<ModelId>, two: Seq<ModelId>)
    requires
        is_sorted(one),
        is_sorted(two),
        one.len() == two.len(),
        forall|i: int| 0 <= i < one.len() ==> (#[trigger] one[i])@ == two[i]@,
        forall|k: int|
            0 <= k < judgments.len() ==> lists_model(one, (#[trigger] judgments[k]).model_a@)
                && lists_model(one, judgments[k].model_b@),
    ensures
        bouts_of(judgments, one) == bouts_of(judgments, two),
{
    assert forall|name: Seq<char>| #[trigger] lists_model(one, name) implies place_of(one, name)
        == place_of(two, name) by {
        let p = place_of(one, name);
        assert(0 <= p < one.len() && one[p]@ == name);
        assert(two[p]@ == name);
        place_unique(two, p);
    }
    assert forall|k: int| 0 <= k < judgments.len() implies #[trigger] bouts_of(judgments, one)[k]
        == bouts_of(judgments, two)[k] by {
        assert(lists_model(one, judgments[k].model_a@));
        assert(lists_model(one, judgments[k].model_b@));
    }
    assert(bouts_of(judgments, one) =~= bouts_of(judgments, two));
}

proof fn tallies_agree(
    bouts_one: Seq<Bout>,
    bouts_two: Seq<Bout>,
    members: Seq<usize>,
    one: Tally,
    two: Tally,
)
    requires
        is_tally(bouts_one, members, one),
        is_tally(bouts_two, members, two),
        forall|i: int| #[trigger] wins_of(bouts_one, i) == wins_of(bouts_two, i),
        forall|i: int| #[trigger] draws_of(bouts_one, i) == draws_of(bouts_two, i),
        forall|i: int, j: int| #[trigger] games_of(bouts_one, i, j) == games_of(bouts_two, i, j),
    ensures
        same_tally(one, two),
{
    assert forall|p: int| 0 <= p < members.len() implies one.wins@[p] == two.wins@[p] by {
        assert(wins_of(bouts_one, members[p] as int) == wins_of(bouts_two, members[p] as int));
    }
    assert forall|p: int| 0 <= p < members.len() implies one.draws@[p] == two.draws@[p] by {
        assert(draws_of(bouts_one, members[p] as int) == draws_of(bouts_two, members[p] as int));
    }
    assert(one.wins@ =~= two.wins@);
    assert(one.draws@ =~= two.draws@);
    assert forall|p: int| 0 <= p < one.games@.len() implies (#[trigger] one.games@[p])@
        == two.games@[p]@ by {
        assert forall|q: int| 0 <= q < members.len() implies one.games@[p]@[q]
            == two.games@[p]@[q] by {
            assert(games_of(bouts_one, members[p] as int, members[q] as int) == games_of(
                bouts_two,
                members[p] as int,
                members[q] as int,
            ));
        }
        assert(one.games@[p]@ =~= two.games@[p]@);
    }
}

/// Judgments that count alike lead to the same ratings, as long as the fit
/// depends on the counts alone.
pub proof fn ratings_depend_on_counts<R, F: Fn(&Tally) -> Result<Vec<R>, FitFailure>>(
    ratings_one: Seq<ModelRating<R>>,
    ratings_two: Seq<ModelRating<R>>,
    one: Seq<Judgment>,
    two: Seq<Judgment>,
    models: Seq<ModelId>,
    fit: F,
)
    requires
        is_steady(fit),
        count_alike(one, two),
        are_rated(ratings_one, one, models, fit),
        are_rated(ratings_two, two, models, fit),
    ensures
        same_ratings(ratings_one, ratings_two),
{
    let list_one = rated_models(ratings_one);
    let list_two = rated_models(ratings_two);
    assert forall|name: Seq<char>| #[trigger]
        lists_model(list_one, name) <==> lists_model(list_two, name) by {
        assert(takes_part(one, name) == takes_part(two, name));
        assert(lists_model(list_two, name) <==> lists_model(models, name) || takes_part(two, name));
    }
    sorted_lists_agree(list_one, list_two);
    let n = ratings_one.len() as int;
    assert forall|k: int| 0 <= k < two.len() implies lists_model(
        list_one,
        (#[trigger] two[k]).model_a@,
    ) && lists_model(list_one, two[k].model_b@) by {
        assert(takes_part(two, two[k].model_a@));
        assert(takes_part(two, two[k].model_b@));
        assert(takes_part(one, two[k].model_a@));
        assert(takes_part(one, two[k].model_b@));
    }
    bouts_by_name(two, list_one, list_two);
    let b1 = bouts_of(one, list_one);
    let b2 = bouts_of(two, list_two);
    let (p1, o1) = choose|plan: RatingPlan, outcome: Result<Vec<R>, FitFailure>|
        {
            &&& is_plan(n, b1, plan)
            &&& plan.members@.len() > 0 ==> fit.ensures((&plan.tally,), outcome)
            &&& gives_values(outcome, plan.members@.len())
            &&& #[trigger] are_ratings(ratings_one, plan, outcome_of(outcome))
        };
    let (p2, o2) = choose|plan: RatingPlan, outcome: Result<Vec<R>, FitFailure>|
        {
            &&& is_plan(ratings_two.len() as int, b2, plan)
            &&& plan.members@.len() > 0 ==> fit.ensures((&plan.tally,), outcome)
            &&& gives_values(outcome, plan.members@.len())
            &&& #[trigger] are_ratings(ratings_two, plan, outcome_of(outcome))
        };
    assert forall|i: int| standing_of(n, b1, i) == standing_of(n, b2, i) by {
        assert(standing_of(n, bouts_of(one, list_one), i) == standing_of(
            n,
            bouts_of(two, list_one),
            i,
        ));
    }
    assert(p1.standings@.len() == p1.standings.len());
    let first = |i: int| standing_of(n, b1, i) == Standing::Identified;
    let second = |i: int| standing_of(n, b2, i) == Standing::Identified;
    assert(first =~= second);
    listed_once(p1.members@, p2.members@, n, first);
    assert forall|i: int| #[trigger] wins_of(b1, i) == wins_of(b2, i) by {
        assert(wins_of(bouts_of(one, list_one), i) == wins_of(bouts_of(two, list_one), i));
    }
    assert forall|i: int| #[trigger] draws_of(b1, i) == draws_of(b2, i) by {
        assert(draws_of(bouts_of(one, list_one), i) == draws_of(bouts_of(two, list_one), i));
    }
    assert forall|i: int, j: int| #[trigger] games_of(b1, i, j) == games_of(b2, i, j) by {
        assert(games_of(bouts_of(one, list_one), i, j) == games_of(bouts_of(two, list_one), i, j));
    }
    tallies_agree(b1, b2, p1.members@, p1.tally, p2.tally);
    if p1.members@.len() > 0 {
        assert(fit.ensures((&p1.tally,), o1));
        assert(fit.ensures((&p2.tally,), o2));
        assert(outcome_of(o1) == outcome_of(o2));
    }
    assert forall|i: int| 0 <= i < n implies (#[trigger] ratings_one[i]).model@
        == ratings_two[i].model@ && ratings_one[i].rating == ratings_two[i].rating
        && ratings_one[i].unavailable == ratings_two[i].unavailable by {
        assert(list_one[i]@ == list_two[i]@);
        assert(p1.standings@[i] == p2.standings@[i]);
        assert(ratings_two[i].rating == ratings_two[i].rating);
        if p1.standings@[i] == Standing::Identified {
            assert(first(i));
            assert(p1.members@.contains(i as usize));
        }
    }
}

/// Rating the same judgments in another order gives the same ratings.
pub proof fn reordering_keeps_ratings<R, F: Fn(&Tally) -> Result<Vec<R>, FitFailure>>(
    ratings_one: Seq<ModelRating<R>>,
    ratings_two: Seq<ModelRating<R>>,
    one: Seq<Judgment>,
    two: Seq<Judgment>,
    models: Seq<ModelId>,
    fit: F,
)
    requires
        is_steady(fit),
        one.to_multiset() == two.to_multiset(),
        are_rated(ratings_one, one, models, fit),
        are_rated(ratings_two, two, models, fit),
    ensures
        same_ratings(ratings_one, ratings_two),
{
    reordered_judgments_count_alike(one, two);
    ratings_depend_on_counts(ratings_one, ratings_two, one, two, models, fit);
}

/// The same judgments in another order count alike.
pub proof fn reordered_judgments_count_alike(one: Seq<Judgment>, two: Seq<Judgment>)
    requires
        one.to_multiset() == two.to_multiset(),
    ensures
        count_alike(one, two),
{
    same_people(one, two);
    assert forall|list: Seq<ModelId>, n: int, i: int|
        #[trigger] standing_of(n, bouts_of(one, list), i) == standing_of(
            n,
            bouts_of(two, list),
            i,
        ) by {
        order_does_not_matter(one, two, seq![], list, n, i, i);
    }
    assert forall|list: Seq<ModelId>, i: int| #[trigger]
        wins_of(bouts_of(one, list), i) == wins_of(bouts_of(two, list), i) by {
        counts_ignore_order(one, two, list, i, i);
    }
    assert forall|list: Seq<ModelId>, i: int| #[trigger]
        draws_of(bouts_of(one, list), i) == draws_of(bouts_of(two, list), i) by {
        counts_ignore_order(one, two, list, i, i);
    }
    assert forall|list: Seq<ModelId>, i: int, j: int| #[trigger]
        games_of(bouts_of(one, list), i, j) == games_of(bouts_of(two, list), i, j) by {
        counts_ignore_order(one, two, list, i, j);
    }
}

/// Both judgments say who met and who won, and the same of it: with the models
/// on the same sides and the same winner, or both the other way round.
pub open spec fn says_the_same(one: Judgment, two: Judgment) -> bool {
    ||| one.model_a@ == two.model_a@ && one.model_b@ == two.model_b@ && one.winner == two.winner
    ||| one.model_a@ == two.model_b@ && one.model_b@ == two.model_a@ && one.winner == swapped_winner(
        two.winner,
    )
}

/// `two` is `one` in any order, with any of its judgments told from the other
/// side and with anything besides who met and who won.
pub open spec fn is_retold(one: Seq<Judgment>, two: Seq<Judgment>) -> bool {
    exists|reordered: Seq<Judgment>|
        {
            &&& #[trigger] reordered.to_multiset() == one.to_multiset()
            &&& reordered.len() == two.len()
            &&& forall|k: int|
                0 <= k < two.len() ==> says_the_same(reordered[k], #[trigger] two[k])
        }
}

/// Judgments that say the same one by one count alike.
pub proof fn judgments_that_say_the_same_count_alike(one: Seq<Judgment>, two: Seq<Judgment>)
    requires
        one.len() == two.len(),
        forall|k: int| 0 <= k < two.len() ==> says_the_same(one[k], #[trigger] two[k]),
    ensures
        count_alike(one, two),
{
    assert forall|name: Seq<char>| #[trigger] takes_part(one, name) == takes_part(two, name) by {
        if takes_part(one, name) {
            let k = choose|k: int|
                0 <= k < one.len() && ((#[trigger] one[k]).model_a@ == name || one[k].model_b@
                    == name);
            assert(says_the_same(one[k], two[k]));
        }
        if takes_part(two, name) {
            let k = choose|k: int|
                0 <= k < two.len() && ((#[trigger] two[k]).model_a@ == name || two[k].model_b@
                    == name);
            assert(one[k].model_a@ == name || one[k].model_b@ == name);
        }
    }
    assert forall|list: Seq<ModelId>, k: int| 0 <= k < one.len() implies #[trigger] bouts_of(
        two,
        list,
    )[k] == bouts_of(one, list)[k] || bouts_of(two, list)[k] == mirrored(
        bouts_of(one, list)[k],
    ) by {
        assert(says_the_same(one[k], two[k]));
    }
    assert forall|list: Seq<ModelId>, n: int, i: int|
        #[trigger] standing_of(n, bouts_of(one, list), i) == standing_of(
            n,
            bouts_of(two, list),
            i,
        ) by {
        sides_do_not_matter(n, bouts_of(one, list), bouts_of(two, list), i, i);
    }
    assert forall|list: Seq<ModelId>, i: int| #[trigger]
        wins_of(bouts_of(one, list), i) == wins_of(bouts_of(two, list), i) by {
        mirrored_counts(bouts_of(one, list), bouts_of(two, list), i, i);
    }
    assert forall|list: Seq<ModelId>, i: int| #[trigger]
        draws_of(bouts_of(one, list), i) == draws_of(bouts_of(two, list), i) by {
        mirrored_counts(bouts_of(one, list), bouts_of(two, list), i, i);
    }
    assert forall|list: Seq<ModelId>, i: int, j: int| #[trigger]
        games_of(bouts_of(one, list), i, j) == games_of(bouts_of(two, list), i, j) by {
        mirrored_counts(bouts_of(one, list), bouts_of(two, list), i, j);
    }
}

/// Judgments in any order, any of them told from the other side, and whatever
/// their orientations, reasons and durations, lead to the same ratings, as long
/// as the fit depends on the counts alone.
pub proof fn retelling_keeps_ratings<R, F: Fn(&Tally) -> Result<Vec<R>, FitFailure>>(
    ratings_one: Seq<ModelRating<R>>,
    ratings_two: Seq<ModelRating<R>>,
    one: Seq<Judgment>,
    two: Seq<Judgment>,
    models: Seq<ModelId>,
    fit: F,
)
    requires
        is_steady(fit),
        is_retold(one, two),
        are_rated(ratings_one, one, models, fit),
        are_rated(ratings_two, two, models, fit),
    ensures
        same_ratings(ratings_one, ratings_two),
{
    let reordered = choose|reordered: Seq<Judgment>|
        {
            &&& #[trigger] reordered.to_multiset() == one.to_multiset()
            &&& reordered.len() == two.len()
            &&& forall|k: int|
                0 <= k < two.len() ==> says_the_same(reordered[k], #[trigger] two[k])
        };
    reordered_judgments_count_alike(one, reordered);
    judgments_that_say_the_same_count_alike(reordered, two);
    assert(count_alike(one, two)) by {
        assert forall|name: Seq<char>| #[trigger] takes_part(one, name) == takes_part(two, name) by {
            assert(takes_part(one, name) == takes_part(reordered, name));
        }
        assert forall|list: Seq<ModelId>, n: int, i: int|
            #[trigger] standing_of(n, bouts_of(one, list), i) == standing_of(
                n,
                bouts_of(two, list),
                i,
            ) by {
            assert(standing_of(n, bouts_of(one, list), i) == standing_of(
                n,
                bouts_of(reordered, list),
                i,
            ));
        }
        assert forall|list: Seq<ModelId>, i: int| #[trigger]
            wins_of(bouts_of(one, list), i) == wins_of(bouts_of(two, list), i) by {
            assert(wins_of(bouts_of(one, list), i) == wins_of(bouts_of(reordered, list), i));
        }
        assert forall|list: Seq<ModelId>, i: int| #[trigger]
            draws_of(bouts_of(one, list), i) == draws_of(bouts_of(two, list), i) by {
            assert(draws_of(bouts_of(one, list), i) == draws_of(bouts_of(reordered, list), i));
        }
        assert forall|list: Seq<ModelId>, i: int, j: int| #[trigger]
            games_of(bouts_of(one, list), i, j) == games_of(bouts_of(two, list), i, j) by {
            assert(games_of(bouts_of(one, list), i, j) == games_of(
                bouts_of(reordered, list),
                i,
                j,
            ));
        }
    }
    ratings_depend_on_counts(ratings_one, ratings_two, one, two, models, fit);
}

/// The judgments agree on the task, who met and who won.
pub open spec fn alike(one: Seq<Judgment>, two: Seq<Judgment>) -> bool {
    &&& one.len() == two.len()
    &&& forall|k: int|
        0 <= k < one.len() ==> (#[trigger] one[k]).task_id@ == two[k].task_id@ && one[k].model_a@
            == two[k].model_a@ && one[k].model_b@ == two[k].model_b@ && one[k].winner
            == two[k].winner
}

/// Judgments that agree on who met and who won count alike.
pub proof fn alike_judgments_count_alike(one: Seq<Judgment>, two: Seq<Judgment>)
    requires
        alike(one, two),
    ensures
        count_alike(one, two),
{
    assert forall|list: Seq<ModelId>| #[trigger] bouts_of(one, list) == bouts_of(two, list) by {
        only_winners_matter(one, two, seq![], list);
    }
    assert forall|name: Seq<char>| #[trigger] takes_part(one, name) == takes_part(two, name) by {
        if takes_part(one, name) {
            let k = choose|k: int|
                0 <= k < one.len() && ((#[trigger] one[k]).model_a@ == name || one[k].model_b@
                    == name);
            assert(two[k].model_a@ == one[k].model_a@);
        }
        if takes_part(two, name) {
            let k = choose|k: int|
                0 <= k < two.len() && ((#[trigger] two[k]).model_a@ == name || two[k].model_b@
                    == name);
            assert(two[k].model_a@ == one[k].model_a@);
        }
    }
}

/// A model stands unmatched exactly if no bout was between it and another model.
pub proof fn only_models_that_met_nobody_are_unmatched(n: int, bouts: Seq<Bout>, i: int)
    requires
        bouts_inside(n, bouts),
        0 <= i < n,
    ensures
        standing_of(n, bouts, i) == Standing::Unmatched <==> forall|k: int|
            0 <= k < bouts.len() ==> (#[trigger] bouts[k]).a == bouts[k].b || (bouts[k].a != i
                && bouts[k].b != i),
{
    let links = bout_links(bouts);
    if is_comparable(n, bouts, i) {
        let j = choose|j: int| 0 <= j < n && j != i && #[trigger] are_joined(links, i, j);
        if forall|k: int|
            0 <= k < bouts.len() ==> (#[trigger] bouts[k]).a == bouts[k].b || (bouts[k].a != i
                && bouts[k].b != i) {
            let alone = |x: int| x == i;
            assert forall|a: int, b: int|
                alone(a) && #[trigger] link_step(links)(a, b) implies alone(b) by {
                assert(is_linked(links, a, b));
                let k = choose|k: int|
                    0 <= k < links.len() && {
                        ||| (#[trigger] links[k]).0 == a && links[k].1 == b
                        ||| links[k].0 == b && links[k].1 == a
                    };
                assert(links[k] == (bouts[k].a, bouts[k].b));
            }
            reaches_stays(link_step(links), alone, i, j);
        }
    }
    if exists|k: int|
        0 <= k < bouts.len() && (#[trigger] bouts[k]).a != bouts[k].b && (bouts[k].a == i
            || bouts[k].b == i) {
        let k = choose|k: int|
            0 <= k < bouts.len() && (#[trigger] bouts[k]).a != bouts[k].b && (bouts[k].a == i
                || bouts[k].b == i);
        let j = if bouts[k].a == i {
            bouts[k].b as int
        } else {
            bouts[k].a as int
        };
        assert(links[k] == (bouts[k].a, bouts[k].b));
        assert(is_linked(links, i, j));
        assert(link_step(links)(i, j));
        reaches_step(link_step(links), i, j);
        assert(are_joined(links, i, j));
    }
}

/// Where some models are on one scale, however the models that met others are
/// divided into two groups, some bout was won by the first group against the
/// second, or drawn between them.
pub proof fn identified_models_score_across_every_divide(
    n: int,
    bouts: Seq<Bout>,
    i: int,
    first: spec_fn(int) -> bool,
    x: int,
    y: int,
)
    requires
        standing_of(n, bouts, i) == Standing::Identified,
        0 <= x < n,
        0 <= y < n,
        standing_of(n, bouts, x) != Standing::Unmatched,
        standing_of(n, bouts, y) != Standing::Unmatched,
        first(x),
        !first(y),
    ensures
        standing_of(n, bouts, x) == Standing::Identified,
        exists|k: int|
            0 <= k < bouts.len() && {
                ||| (#[trigger] bouts[k]).winner != JudgeDecision::B && first(bouts[k].a as int)
                    && !first(bouts[k].b as int)
                ||| bouts[k].winner != JudgeDecision::A && first(bouts[k].b as int) && !first(
                    bouts[k].a as int,
                )
            },
{
    assert(is_comparable(n, bouts, x) && is_comparable(n, bouts, y));
    assert(reaches(score_step(bouts), x, y));
    if forall|k: int|
        0 <= k < bouts.len() ==> !{
            ||| (#[trigger] bouts[k]).winner != JudgeDecision::B && first(bouts[k].a as int)
                && !first(bouts[k].b as int)
            ||| bouts[k].winner != JudgeDecision::A && first(bouts[k].b as int) && !first(
                bouts[k].a as int,
            )
        } {
        assert forall|a: int, b: int|
            first(a) && #[trigger] score_step(bouts)(a, b) implies first(b) by {
            let k = choose|k: int| 0 <= k < bouts.len() && scores_in(#[trigger] bouts[k], a, b);
            assert(bouts[k].a == bouts[k].a);
        }
        reaches_stays(score_step(bouts), first, x, y);
    }
}

/// Where models are separated, they can be divided into two groups such that the
/// first neither won nor drew any bout against the second.
pub proof fn separated_models_have_a_divide_without_scores(n: int, bouts: Seq<Bout>, i: int) -> (r: (
    spec_fn(int) -> bool,
    int,
    int,
))
    requires
        standing_of(n, bouts, i) == Standing::Separated,
    ensures
        0 <= r.1 < n && 0 <= r.2 < n,
        standing_of(n, bouts, r.1) != Standing::Unmatched,
        standing_of(n, bouts, r.2) != Standing::Unmatched,
        (r.0)(r.1) && !(r.0)(r.2),
        forall|k: int|
            0 <= k < bouts.len() ==> ((r.0)((#[trigger] bouts[k]).a as int) && !(r.0)(
                bouts[k].b as int,
            ) ==> bouts[k].winner == JudgeDecision::B) && ((r.0)(bouts[k].b as int) && !(r.0)(
                bouts[k].a as int,
            ) ==> bouts[k].winner == JudgeDecision::A),
{
    let step = score_step(bouts);
    let (x, y) = choose|x: int, y: int|
        0 <= x < n && 0 <= y < n && is_comparable(n, bouts, x) && is_comparable(n, bouts, y)
            && !#[trigger] reaches(step, x, y);
    let first = |z: int| reaches(step, x, z);
    reaches_reflexive(step, x);
    assert forall|k: int| 0 <= k < bouts.len() implies (first((#[trigger] bouts[k]).a as int)
        && !first(bouts[k].b as int) ==> bouts[k].winner == JudgeDecision::B) && (first(
        bouts[k].b as int,
    ) && !first(bouts[k].a as int) ==> bouts[k].winner == JudgeDecision::A) by {
        let a = bouts[k].a as int;
        let b = bouts[k].b as int;
        if first(a) && !first(b) && bouts[k].winner != JudgeDecision::B {
            assert(scores_in(bouts[k], a, b));
            assert(scores(bouts, a, b));
            assert(step(a, b));
            reaches_step(step, a, b);
            reaches_transitive(step, x, a, b);
        }
        if first(b) && !first(a) && bouts[k].winner != JudgeDecision::A {
            assert(scores_in(bouts[k], b, a));
            assert(scores(bouts, b, a));
            assert(step(b, a));
            reaches_step(step, b, a);
            reaches_transitive(step, x, b, a);
        }
    }
    (first, x, y)
}

/// Where the models form more than one group, they can be divided into two such
/// that no bout was between the first and the second.
pub proof fn disconnected_models_have_a_divide_without_bouts(n: int, bouts: Seq<Bout>, i: int) -> (r: (
    spec_fn(int) -> bool,
    int,
    int,
))
    requires
        standing_of(n, bouts, i) == Standing::Disconnected,
    ensures
        0 <= r.1 < n && 0 <= r.2 < n,
        standing_of(n, bouts, r.1) != Standing::Unmatched,
        standing_of(n, bouts, r.2) != Standing::Unmatched,
        (r.0)(r.1) && !(r.0)(r.2),
        forall|k: int|
            0 <= k < bouts.len() ==> ((r.0)((#[trigger] bouts[k]).a as int) <==> (r.0)(
                bouts[k].b as int,
            )),
{
    let links = bout_links(bouts);
    let step = link_step(links);
    let (x, y) = choose|x: int, y: int|
        0 <= x < n && 0 <= y < n && is_comparable(n, bouts, x) && is_comparable(n, bouts, y)
            && !#[trigger] are_joined(links, x, y);
    let first = |z: int| reaches(step, x, z);
    reaches_reflexive(step, x);
    assert forall|k: int| 0 <= k < bouts.len() implies (first((#[trigger] bouts[k]).a as int)
        <==> first(bouts[k].b as int)) by {
        let a = bouts[k].a as int;
        let b = bouts[k].b as int;
        assert(links[k] == (bouts[k].a, bouts[k].b));
        assert(is_linked(links, a, b) && is_linked(links, b, a));
        assert(step(a, b) && step(b, a));
        reaches_step(step, a, b);
        reaches_step(step, b, a);
        if first(a) {
            reaches_transitive(step, x, a, b);
        }
        if first(b) {
            reaches_transitive(step, x, b, a);
        }
    }
    (first, x, y)
}

/// Where the models that met others form one group, however they are divided
/// into two, some bout was between the two.
pub proof fn connected_models_meet_across_every_divide(
    n: int,
    bouts: Seq<Bout>,
    i: int,
    first: spec_fn(int) -> bool,
    x: int,
    y: int,
)
    requires
        standing_of(n, bouts, i) == Standing::Separated || standing_of(n, bouts, i)
            == Standing::Identified,
        0 <= x < n,
        0 <= y < n,
        standing_of(n, bouts, x) != Standing::Unmatched,
        standing_of(n, bouts, y) != Standing::Unmatched,
        first(x),
        !first(y),
    ensures
        exists|k: int|
            0 <= k < bouts.len() && first((#[trigger] bouts[k]).a as int) != first(
                bouts[k].b as int,
            ),
{
    let links = bout_links(bouts);
    let step = link_step(links);
    assert(is_comparable(n, bouts, x) && is_comparable(n, bouts, y));
    assert(are_joined(links, x, y));
    if forall|k: int|
        0 <= k < bouts.len() ==> first((#[trigger] bouts[k]).a as int) == first(
            bouts[k].b as int,
        ) {
        assert forall|a: int, b: int| first(a) && #[trigger] step(a, b) implies first(b) by {
            assert(is_linked(links, a, b));
            let k = choose|k: int|
                0 <= k < links.len() && {
                    ||| (#[trigger] links[k]).0 == a && links[k].1 == b
                    ||| links[k].0 == b && links[k].1 == a
                };
            assert(links[k] == (bouts[k].a, bouts[k].b));
            assert(first(bouts[k].a as int) == first(bouts[k].b as int));
        }
        reaches_stays(step, first, x, y);
    }
}

/// The wins of a model are the bouts that it won against others, its draws those
/// that it drew with others, and the meetings of two models the bouts between
/// them.
pub proof fn tallies_count_bouts(bouts: Seq<Bout>, i: int, j: int)
    requires
        forall|k: int| 0 <= k < bouts.len() ==> (#[trigger] bouts[k]).a != bouts[k].b,
    ensures
        wins_of(bouts, i) == bouts.filter(
            |bout: Bout|
                (bout.winner == JudgeDecision::A && bout.a == i) || (bout.winner
                    == JudgeDecision::B && bout.b == i),
        ).len(),
        draws_of(bouts, i) == bouts.filter(
            |bout: Bout| bout.winner == JudgeDecision::Draw && (bout.a == i || bout.b == i),
        ).len(),
        i != j ==> games_of(bouts, i, j) == bouts.filter(
            |bout: Bout| (bout.a == i && bout.b == j) || (bout.a == j && bout.b == i),
        ).len(),
        games_of(bouts, i, i) == 0,
    decreases bouts.len(),
{
    reveal(Seq::filter);
    if bouts.len() > 0 {
        let head = bouts.drop_last();
        assert forall|k: int| 0 <= k < head.len() implies (#[trigger] head[k]).a != head[k].b by {
            assert(head[k] == bouts[k]);
        }
        tallies_count_bouts(head, i, j);
        assert(bouts[bouts.len() - 1] == bouts.last());
    }
}

/// A bout is between the models that the judgment names, on the same sides and
/// with the same winner.
pub proof fn bouts_are_of_the_judged_models(
    judgments: Seq<Judgment>,
    models: Seq<ModelId>,
    list: Seq<ModelId>,
    k: int,
)
    requires
        is_roster(list, judgments, models),
        list.len() <= usize::MAX,
        0 <= k < judgments.len(),
    ensures
        bouts_of(judgments, list).len() == judgments.len(),
        bouts_of(judgments, list)[k].a < list.len(),
        bouts_of(judgments, list)[k].b < list.len(),
        list[bouts_of(judgments, list)[k].a as int]@ == judgments[k].model_a@,
        list[bouts_of(judgments, list)[k].b as int]@ == judgments[k].model_b@,
        bouts_of(judgments, list)[k].winner == judgments[k].winner,
{
    assert(takes_part(judgments, judgments[k].model_a@));
    assert(takes_part(judgments, judgments[k].model_b@));
    assert(lists_model(list, judgments[k].model_a@));
    assert(lists_model(list, judgments[k].model_b@));
    let a = place_of(list, judgments[k].model_a@);
    let b = place_of(list, judgments[k].model_b@);
    assert(0 <= a < list.len() && list[a]@ == judgments[k].model_a@);
    assert(0 <= b < list.len() && list[b]@ == judgments[k].model_b@);
}

/// What a model is rated is what the fit gives it: the fit is handed the counts
/// of the identified models, and the value at the place of a model's counts is
/// its rating. Where the fit fails, its reason is that of every identified
/// model; where a model is not identified, its standing is the reason.
pub proof fn ratings_stand_where_the_counts_do<R, F: Fn(&Tally) -> Result<Vec<R>, FitFailure>>(
    ratings: Seq<ModelRating<R>>,
    judgments: Seq<Judgment>,
    models: Seq<ModelId>,
    fit: F,
) -> (r: (Seq<usize>, Tally, Result<Vec<R>, FitFailure>))
    requires
        are_rated(ratings, judgments, models, fit),
        ratings.len() <= usize::MAX,
    ensures
        ({
            let n = ratings.len() as int;
            let bouts = bouts_of(judgments, rated_models(ratings));
            let (members, tally, outcome) = r;
            &&& forall|i: int|
                0 <= i < n ==> rated_models(ratings)[i] == (#[trigger] ratings[i]).model
            &&& members.len() > 0 ==> fit.ensures((&tally,), outcome)
            &&& forall|i: int|
                0 <= i < n ==> (members.contains(i as usize) <==> standing_of(n, bouts, i)
                    == Standing::Identified)
            &&& forall|p: int, q: int|
                0 <= p < q < members.len() ==> (#[trigger] members[p]) < (#[trigger] members[q])
            &&& forall|p: int|
                0 <= p < members.len() ==> {
                    let i = (#[trigger] members[p]) as int;
                    &&& 0 <= i < n
                    &&& tally.wins@[p] == wins_of(bouts, i)
                    &&& tally.draws@[p] == draws_of(bouts, i)
                    &&& forall|q: int|
                        0 <= q < members.len() ==> tally.games@[p]@[q] == games_of(
                            bouts,
                            i,
                            (#[trigger] members[q]) as int,
                        )
                    &&& outcome matches Ok(values) ==> ratings[i].rating == Some(values@[p])
                        && ratings[i].unavailable is None
                    &&& outcome == Err::<Vec<R>, FitFailure>(FitFailure::Nonconvergence)
                        ==> ratings[i].rating is None && ratings[i].unavailable == Some(
                        UnavailableReason::Nonconvergence,
                    )
                    &&& outcome == Err::<Vec<R>, FitFailure>(FitFailure::NonfiniteResult)
                        ==> ratings[i].rating is None && ratings[i].unavailable == Some(
                        UnavailableReason::NonfiniteResult,
                    )
                }
            &&& forall|i: int|
                0 <= i < n && !members.contains(i as usize) ==> {
                    &&& (#[trigger] ratings[i]).rating is None
                    &&& standing_of(n, bouts, i) == Standing::Unmatched ==> ratings[i].unavailable
                        == Some(UnavailableReason::NoComparisons)
                    &&& standing_of(n, bouts, i) == Standing::Disconnected
                        ==> ratings[i].unavailable == Some(UnavailableReason::Disconnected)
                    &&& standing_of(n, bouts, i) == Standing::Separated ==> ratings[i].unavailable
                        == Some(UnavailableReason::Separated)
                }
        }),
{
    let n = ratings.len() as int;
    let bouts = bouts_of(judgments, rated_models(ratings));
    let (plan, outcome) = choose|plan: RatingPlan, outcome: Result<Vec<R>, FitFailure>|
        {
            &&& is_plan(n, bouts, plan)
            &&& plan.members@.len() > 0 ==> fit.ensures((&plan.tally,), outcome)
            &&& gives_values(outcome, plan.members@.len())
            &&& #[trigger] are_ratings(ratings, plan, outcome_of(outcome))
        };
    let members = plan.members@;
    let chosen = |i: int| standing_of(n, bouts, i) == Standing::Identified;
    assert forall|i: int| 0 <= i < n implies (members.contains(i as usize) <==> standing_of(
        n,
        bouts,
        i,
    ) == Standing::Identified) by {
        if members.contains(i as usize) {
            let p = choose|p: int| 0 <= p < members.len() && members[p] == i as usize;
            assert(chosen(members[p] as int));
        }
        if standing_of(n, bouts, i) == Standing::Identified {
            assert(chosen(i));
        }
    }
    assert forall|p: int| 0 <= p < members.len() implies {
        let i = (#[trigger] members[p]) as int;
        &&& 0 <= i < n
        &&& tally_at(plan.tally, bouts, members, p)
        &&& outcome matches Ok(values) ==> ratings[i].rating == Some(values@[p])
            && ratings[i].unavailable is None
        &&& outcome == Err::<Vec<R>, FitFailure>(FitFailure::Nonconvergence) ==> ratings[i].rating
            is None && ratings[i].unavailable == Some(UnavailableReason::Nonconvergence)
        &&& outcome == Err::<Vec<R>, FitFailure>(FitFailure::NonfiniteResult) ==> ratings[i].rating
            is None && ratings[i].unavailable == Some(UnavailableReason::NonfiniteResult)
    } by {
        let i = members[p] as int;
        assert(chosen(i));
        assert(plan.standings@[i] == Standing::Identified);
        let q = members.index_of(i as usize);
        assert(members[p] == i as usize);
        assert(0 <= q < members.len() && members[q] == i as usize);
        if p < q {
            assert(members[p] < members[q]);
        }
        if q < p {
            assert(members[q] < members[p]);
        }
        assert(ratings[i].rating == ratings[i].rating);
    }
    assert forall|p: int| 0 <= p < members.len() implies tally_at(
        plan.tally,
        bouts,
        members,
        p,
    ) by {
        assert(members[p] == members[p]);
    }
    (members, plan.tally, outcome)
}

spec fn tally_at(tally: Tally, bouts: Seq<Bout>, members: Seq<usize>, p: int) -> bool {
    let i = members[p] as int;
    &&& tally.wins@[p] == wins_of(bouts, i)
    &&& tally.draws@[p] == draws_of(bouts, i)
    &&& forall|q: int|
        0 <= q < members.len() ==> tally.games@[p]@[q] == games_of(
            bouts,
            i,
            (#[trigger] members[q]) as int,
        )
}

/// Whatever `rate` returns has every requested or judged model once, and a rating
/// for each model exactly if it gives no reason for having none. Intervals are
/// not its business.
pub proof fn models_are_rated_or_told_why<R: Copy, F: Fn(&Tally) -> Result<Vec<R>, FitFailure>>(
    judgments: &[Judgment],
    models: &[ModelId],
    fit: &F,
    ratings: Vec<ModelRating<R>>,
    i: int,
)
    requires
        call_ensures(rate::<R, F>, (judgments, models, fit), ratings),
        0 <= i < ratings@.len() <= usize::MAX,
    ensures
        ratings@[i].rating is Some <==> ratings@[i].unavailable is None,
        ratings@[i].rating_lower is None && ratings@[i].rating_upper is None,
        is_roster(rated_models(ratings@), judgments@, models@),
        ratings@[i].rating is Some ==> exists|k: int|
            0 <= k < judgments@.len() && ((#[trigger] judgments@[k]).model_a@
                == ratings@[i].model@ || judgments@[k].model_b@ == ratings@[i].model@),
{
    let n = ratings@.len() as int;
    let list = rated_models(ratings@);
    let met = bouts_of(judgments@, list);
    let (members, tally, outcome) = ratings_stand_where_the_counts_do(
        ratings@,
        judgments@,
        models@,
        *fit,
    );
    if members.contains(i as usize) {
        let p = choose|p: int| 0 <= p < members.len() && members[p] == i as usize;
        assert(members[p] == i);
        assert forall|k: int| 0 <= k < met.len() implies (#[trigger] met[k]).a < n && met[k].b
            < n by {
            bouts_are_of_the_judged_models(judgments@, models@, list, k);
        }
        only_models_that_met_nobody_are_unmatched(n, met, i);
        let k = choose|k: int|
            0 <= k < met.len() && ((#[trigger] met[k]).a == i || met[k].b == i);
        bouts_are_of_the_judged_models(judgments@, models@, list, k);
        assert(judgments@[k].model_a@ == list[i]@ || judgments@[k].model_b@ == list[i]@);
    }
}

/// A bout of a model with itself is a win of that model, and neither a draw nor a
/// meeting.
pub proof fn meeting_oneself_is_a_win(bouts: Seq<Bout>, bout: Bout, i: int, j: int)
    requires
        bout.a == bout.b,
    ensures
        wins_of(bouts.push(bout), i) == wins_of(bouts, i) + (if bout.a == i {
            1int
        } else {
            0
        }),
        draws_of(bouts.push(bout), i) == draws_of(bouts, i),
        games_of(bouts.push(bout), i, j) == games_of(bouts, i, j),
{
    assert(bouts.push(bout).drop_last() =~= bouts);
}

} // verus!
