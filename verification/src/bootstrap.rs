//! Uncertainty of the ratings from resampling whole tasks.
use crate::judge::Judgment;
use crate::provider::ModelId;
use crate::rating::{
    alike, alike_judgments_count_alike, are_rated, is_fit, is_steady, rate, rated_models,
    ratings_depend_on_counts, reordered_judgments_count_alike, same_ratings, FitFailure,
    ModelRating, Tally,
};
use crate::roster::{is_sorted, place_unique};
use crate::text::{
    lex_irreflexive, lex_less, lex_total, lex_transitive, sorted_texts_agree, text_less, text_same,
};
use rand::rngs::StdRng;
use rand::{Rng, SeedableRng};
use vstd::prelude::*;

verus! {

/// How many times the tasks are resampled.
pub const BOOTSTRAP_REPLICATES: u32 = 1_000;

/// Where the interval of a rating starts, in thousandths of its samples.
pub const LOWER_PERMILLE: u32 = 25;

/// Where the interval of a rating ends, in thousandths of its samples.
pub const UPPER_PERMILLE: u32 = 975;

/// Why there are no intervals.
#[derive(Debug, Clone, Copy, PartialEq, Eq, Structural)]
pub enum BootstrapUnavailable {
    TooFewTasks,
    OriginalUnrated,
    InvalidReplicates,
}

/// What resampling was asked for and came to. `valid` is the number of
/// replicates in which every model was rated, if resampling ran.
#[derive(Debug, Clone, Copy, PartialEq, Eq, Structural)]
pub struct BootstrapMeta {
    pub seed: u64,
    pub replicates: u32,
    pub valid: Option<u32>,
    pub clusters: usize,
    pub ran: bool,
    pub unavailable: Option<BootstrapUnavailable>,
}

/// The judgments of one task, in their order.
pub open spec fn of_task(judgments: Seq<Judgment>, id: Seq<char>) -> Seq<Judgment>
    decreases judgments.len(),
{
    if judgments.len() == 0 {
        seq![]
    } else if judgments.last().task_id@ == id {
        of_task(judgments.drop_last(), id).push(judgments.last())
    } else {
        of_task(judgments.drop_last(), id)
    }
}

/// Some judgment is on the task.
pub open spec fn has_task(judgments: Seq<Judgment>, id: Seq<char>) -> bool {
    exists|k: int| 0 <= k < judgments.len() && (#[trigger] judgments[k]).task_id@ == id
}

/// The task of a cluster.
pub open spec fn task_of(cluster: Vec<Judgment>) -> Seq<char> {
    cluster@[0].task_id@
}

/// One cluster has the given task.
pub open spec fn clusters_task(clusters: Seq<Vec<Judgment>>, id: Seq<char>) -> bool {
    exists|c: int| 0 <= c < clusters.len() && task_of(#[trigger] clusters[c]) == id
}

/// The clusters are the judgments of each task, sorted by the tasks' ids.
pub open spec fn is_grouping(clusters: Seq<Vec<Judgment>>, judgments: Seq<Judgment>) -> bool {
    &&& forall|c: int|
        0 <= c < clusters.len() ==> (#[trigger] clusters[c])@.len() > 0 && clusters[c]@ == of_task(
            judgments,
            task_of(clusters[c]),
        )
    &&& forall|c: int, d: int|
        0 <= c < d < clusters.len() ==> lex_less(
            task_of(#[trigger] clusters[c]),
            task_of(#[trigger] clusters[d]),
        )
    &&& forall|id: Seq<char>| #[trigger] clusters_task(clusters, id) <==> has_task(judgments, id)
}

/// How many clusters have tasks before this one.
fn cluster_rank(clusters: &Vec<Vec<Judgment>>, id: &str) -> (at: usize)
    requires
        forall|c: int| 0 <= c < clusters@.len() ==> (#[trigger] clusters@[c])@.len() > 0,
        forall|c: int, d: int|
            0 <= c < d < clusters@.len() ==> lex_less(
                task_of(#[trigger] clusters@[c]),
                task_of(#[trigger] clusters@[d]),
            ),
    ensures
        at <= clusters@.len(),
        forall|c: int| 0 <= c < at ==> lex_less(task_of(#[trigger] clusters@[c]), id@),
        forall|c: int|
            at <= c < clusters@.len() ==> !lex_less(task_of(#[trigger] clusters@[c]), id@),
{
    let mut low: usize = 0;
    let mut high: usize = clusters.len();
    while low < high
        invariant
            low <= high <= clusters@.len(),
            forall|c: int| 0 <= c < clusters@.len() ==> (#[trigger] clusters@[c])@.len() > 0,
            forall|c: int, d: int|
                0 <= c < d < clusters@.len() ==> lex_less(
                    task_of(#[trigger] clusters@[c]),
                    task_of(#[trigger] clusters@[d]),
                ),
            forall|c: int| 0 <= c < low ==> lex_less(task_of(#[trigger] clusters@[c]), id@),
            forall|c: int|
                high <= c < clusters@.len() ==> !lex_less(task_of(#[trigger] clusters@[c]), id@),
        decreases high - low,
    {
        let mid: usize = low + (high - low) / 2;
        if text_less(clusters[mid][0].task_id.as_str(), id) {
            proof {
                assert forall|c: int| 0 <= c < mid + 1 implies lex_less(
                    task_of(#[trigger] clusters@[c]),
                    id@,
                ) by {
                    if c < mid {
                        lex_transitive(task_of(clusters@[c]), task_of(clusters@[mid as int]), id@);
                    }
                }
            }
            low = mid + 1;
        } else {
            proof {
                assert forall|c: int| mid <= c < clusters@.len() implies !lex_less(
                    task_of(#[trigger] clusters@[c]),
                    id@,
                ) by {
                    if mid < c && lex_less(task_of(clusters@[c]), id@) {
                        lex_transitive(task_of(clusters@[mid as int]), task_of(clusters@[c]), id@);
                    }
                }
            }
            high = mid;
        }
    }
    low
}

proof fn no_judgments_of_task(judgments: Seq<Judgment>, id: Seq<char>)
    requires
        !has_task(judgments, id),
    ensures
        of_task(judgments, id).len() == 0,
    decreases judgments.len(),
{
    if judgments.len() > 0 {
        let head = judgments.drop_last();
        assert(judgments[judgments.len() - 1] == judgments.last());
        if has_task(head, id) {
            let k = choose|k: int| 0 <= k < head.len() && (#[trigger] head[k]).task_id@ == id;
            assert(judgments[k].task_id@ == id);
        }
        no_judgments_of_task(head, id);
    }
}

/// Groups the judgments by task.
pub fn group_by_task(judgments: &[Judgment]) -> (clusters: Vec<Vec<Judgment>>)
    ensures
        is_grouping(clusters@, judgments@),
{
    let mut clusters: Vec<Vec<Judgment>> = Vec::new();
    let mut k: usize = 0;
    proof {
        assert forall|id: Seq<char>| #[trigger]
            clusters_task(clusters@, id) <==> has_task(judgments@.take(0), id) by {}
    }
    while k < judgments.len()
        invariant
            k <= judgments@.len(),
            is_grouping(clusters@, judgments@.take(k as int)),
        decreases judgments@.len() - k,
    {
        let ghost before = clusters@;
        let ghost seen = judgments@.take(k as int);
        let ghost more = judgments@.take(k + 1);
        let ghost j = judgments@[k as int];
        let id: &str = judgments[k].task_id.as_str();
        let at: usize = cluster_rank(&clusters, id);
        proof {
            assert(more.drop_last() =~= seen);
            assert(more.last() == j);
            assert forall|c: int| at < c < before.len() implies task_of(#[trigger] before[c])
                != id@ by {
                assert(lex_less(task_of(before[at as int]), task_of(before[c])));
                lex_irreflexive(id@);
                if task_of(before[c]) == id@ {
                    assert(lex_less(task_of(before[at as int]), id@));
                }
            }
            assert forall|c: int| 0 <= c < at implies task_of(#[trigger] before[c]) != id@ by {
                lex_irreflexive(id@);
            }
            assert forall|name: Seq<char>| #[trigger]
                has_task(more, name) <==> has_task(seen, name) || name == id@ by {
                if has_task(more, name) {
                    let t = choose|t: int|
                        0 <= t < more.len() && (#[trigger] more[t]).task_id@ == name;
                    if t < k {
                        assert(seen[t].task_id@ == name);
                    }
                }
                if has_task(seen, name) {
                    let t = choose|t: int|
                        0 <= t < seen.len() && (#[trigger] seen[t]).task_id@ == name;
                    assert(more[t].task_id@ == name);
                }
                assert(more[k as int].task_id@ == id@);
            }
        }
        if at < clusters.len() && text_same(clusters[at][0].task_id.as_str(), id) {
            clusters[at].push(judgments[k].clone());
            proof {
                let after = clusters@;
                assert(after.len() == before.len());
                assert(after[at as int]@ =~= before[at as int]@.push(j));
                assert(task_of(after[at as int]) == id@);
                assert forall|c: int| 0 <= c < after.len() implies (#[trigger] after[c])@.len() > 0
                    && after[c]@ == of_task(more, task_of(after[c])) && task_of(after[c])
                    == task_of(before[c]) by {
                    assert(before[c]@ == of_task(seen, task_of(before[c])));
                }
                assert forall|c: int, d: int| 0 <= c < d < after.len() implies lex_less(
                    task_of(#[trigger] after[c]),
                    task_of(#[trigger] after[d]),
                ) by {
                    assert(lex_less(task_of(before[c]), task_of(before[d])));
                }
                assert forall|name: Seq<char>| #[trigger]
                    clusters_task(after, name) <==> has_task(more, name) by {
                    assert(clusters_task(before, name) <==> has_task(seen, name));
                    if clusters_task(after, name) {
                        let c = choose|c: int|
                            0 <= c < after.len() && task_of(#[trigger] after[c]) == name;
                        assert(task_of(before[c]) == name);
                    }
                    if clusters_task(before, name) {
                        let c = choose|c: int|
                            0 <= c < before.len() && task_of(#[trigger] before[c]) == name;
                        assert(task_of(after[c]) == name);
                    }
                    assert(task_of(after[at as int]) == id@);
                }
            }
        } else {
            proof {
                if clusters_task(before, id@) {
                    let c = choose|c: int|
                        0 <= c < before.len() && task_of(#[trigger] before[c]) == id@;
                    assert(c == at);
                }
                assert(!has_task(seen, id@));
                no_judgments_of_task(seen, id@);
            }
            let mut fresh: Vec<Judgment> = Vec::new();
            fresh.push(judgments[k].clone());
            clusters.insert(at, fresh);
            proof {
                let after = clusters@;
                assert(after =~= before.insert(at as int, fresh));
                assert(fresh@ =~= seq![j]);
                assert(of_task(more, id@) =~= seq![j]);
                assert(task_of(after[at as int]) == id@);
                assert forall|c: int| 0 <= c < after.len() implies (#[trigger] after[c])@.len() > 0
                    && after[c]@ == of_task(more, task_of(after[c])) by {
                    if c < at {
                        assert(after[c] == before[c]);
                        assert(before[c]@ == of_task(seen, task_of(before[c])));
                    } else if c > at {
                        assert(after[c] == before[c - 1]);
                        assert(before[c - 1]@ == of_task(seen, task_of(before[c - 1])));
                    }
                }
                assert forall|c: int| at <= c < before.len() implies lex_less(
                    id@,
                    task_of(#[trigger] before[c]),
                ) by {
                    lex_total(id@, task_of(before[c]));
                }
                assert forall|c: int, d: int| 0 <= c < d < after.len() implies lex_less(
                    task_of(#[trigger] after[c]),
                    task_of(#[trigger] after[d]),
                ) by {
                    let x = if c < at { c } else { c - 1 };
                    let y = if d < at { d } else { d - 1 };
                    if c != at {
                        assert(after[c] == before[x]);
                    }
                    if d != at {
                        assert(after[d] == before[y]);
                    }
                    if c != at && d != at {
                        assert(lex_less(task_of(before[x]), task_of(before[y])));
                    }
                }
                assert forall|name: Seq<char>| #[trigger]
                    clusters_task(after, name) <==> has_task(more, name) by {
                    assert(clusters_task(before, name) <==> has_task(seen, name));
                    if clusters_task(after, name) {
                        let c = choose|c: int|
                            0 <= c < after.len() && task_of(#[trigger] after[c]) == name;
                        if c < at {
                            assert(task_of(before[c]) == name);
                        } else if c > at {
                            assert(task_of(before[c - 1]) == name);
                        }
                    }
                    if clusters_task(before, name) {
                        let c = choose|c: int|
                            0 <= c < before.len() && task_of(#[trigger] before[c]) == name;
                        if c < at {
                            assert(task_of(after[c]) == name);
                        } else {
                            assert(task_of(after[c + 1]) == name);
                        }
                    }
                }
            }
        }
        k += 1;
    }
    proof {
        assert(judgments@.take(judgments@.len() as int) =~= judgments@);
    }
    clusters
}

/// The drawn clusters, one after the other.
pub open spec fn replicate_of(clusters: Seq<Vec<Judgment>>, draws: Seq<int>) -> Seq<Judgment>
    decreases draws.len(),
{
    if draws.len() == 0 {
        seq![]
    } else {
        replicate_of(clusters, draws.drop_last()) + clusters[draws.last()]@
    }
}

/// A row of draws as numbers.
pub open spec fn row_of(draws: Seq<usize>) -> Seq<int> {
    draws.map_values(|d: usize| d as int)
}

/// Puts the drawn clusters together, each whole and as often as it was drawn.
pub fn build_replicate(clusters: &[Vec<Judgment>], draws: &[usize]) -> (r: Vec<Judgment>)
    requires
        forall|k: int| 0 <= k < draws@.len() ==> (#[trigger] draws@[k]) < clusters@.len(),
    ensures
        r@ == replicate_of(clusters@, row_of(draws@)),
{
    let mut r: Vec<Judgment> = Vec::new();
    let mut k: usize = 0;
    while k < draws.len()
        invariant
            k <= draws@.len(),
            forall|t: int| 0 <= t < draws@.len() ==> (#[trigger] draws@[t]) < clusters@.len(),
            r@ == replicate_of(clusters@, row_of(draws@).take(k as int)),
        decreases draws@.len() - k,
    {
        let c: usize = draws[k];
        let ghost before = r@;
        let mut i: usize = 0;
        proof {
            assert(before + clusters@[c as int]@.take(0) =~= before);
        }
        while i < clusters[c].len()
            invariant
                c < clusters@.len(),
                i <= clusters@[c as int]@.len(),
                r@ == before + clusters@[c as int]@.take(i as int),
            decreases clusters@[c as int]@.len() - i,
        {
            r.push(clusters[c][i].clone());
            proof {
                assert(r@ =~= before + clusters@[c as int]@.take(i + 1));
            }
            i += 1;
        }
        proof {
            let row = row_of(draws@);
            assert(clusters@[c as int]@.take(clusters@[c as int]@.len() as int)
                =~= clusters@[c as int]@);
            assert(row.take(k + 1).drop_last() =~= row.take(k as int));
            assert(row.take(k + 1).last() == c);
        }
        k += 1;
    }
    proof {
        assert(row_of(draws@).take(draws@.len() as int) =~= row_of(draws@));
    }
    r
}

/// `rand::rngs::StdRng`, the generator that the clusters are drawn with.
#[verifier::external_type_specification]
#[verifier::external_body]
pub struct ExStdRng(rand::rngs::StdRng);

/// The number drawn below `below` after `k` others, from a generator that was
/// seeded with `seed`.
pub uninterp spec fn nth_draw(seed: u64, below: u64, k: nat) -> u64;

/// A seeded generator that draws numbers below one bound.
pub struct Sampler {
    rng: StdRng,
    below: u64,
    seed: Ghost<u64>,
    taken: Ghost<nat>,
}

impl Sampler {
    /// What the generator was seeded with.
    pub closed spec fn origin(&self) -> u64 {
        self.seed@
    }

    /// What every number drawn is below.
    pub closed spec fn bound(&self) -> u64 {
        self.below
    }

    /// How many numbers have been drawn.
    pub closed spec fn count(&self) -> nat {
        self.taken@
    }

    /// `SeedableRng::seed_from_u64` of `StdRng`: a generator from which
    /// nothing has been drawn.
    #[verifier::external_body]
    fn new(seed: u64, below: u64) -> (r: Self)
        ensures
            r.origin() == seed,
            r.bound() == below,
            r.count() == 0,
    {
        Sampler { rng: StdRng::seed_from_u64(seed), below, seed: Ghost(seed), taken: Ghost(0) }
    }

    /// `Rng::gen_range(0..below)` on the `StdRng`: one number below the bound.
    /// Which one depends on the seed, on the bound and on how many were drawn
    /// before it. An empty range would panic.
    #[verifier::external_body]
    fn draw(&mut self) -> (r: u64)
        requires
            old(self).bound() > 0,
        ensures
            r == nth_draw(old(self).origin(), old(self).bound(), old(self).count()),
            r < old(self).bound(),
            final(self).origin() == old(self).origin(),
            final(self).bound() == old(self).bound(),
            final(self).count() == old(self).count() + 1,
    {
        self.rng.gen_range(0..self.below)
    }
}

/// The `k`-th row of draws from a seed: as many as there are clusters, each
/// the place of one.
pub open spec fn drawn_row(seed: u64, clusters: nat, k: nat) -> Seq<int> {
    Seq::new(clusters, |i: int| nth_draw(seed, clusters as u64, (k * clusters + i) as nat) as int)
}

/// Draws one row: as many places as there are clusters.
fn draw_row(sampler: &mut Sampler, clusters: usize) -> (r: Vec<usize>)
    requires
        old(sampler).bound() == clusters,
    ensures
        r@.len() == clusters,
        forall|i: int|
            0 <= i < clusters ==> (#[trigger] r@[i]) == nth_draw(
                old(sampler).origin(),
                clusters as u64,
                (old(sampler).count() + i) as nat,
            ) && r@[i] < clusters,
        final(sampler).origin() == old(sampler).origin(),
        final(sampler).bound() == clusters,
        final(sampler).count() == old(sampler).count() + clusters,
{
    let ghost seed = sampler.origin();
    let ghost start = sampler.count();
    let mut r: Vec<usize> = Vec::new();
    let mut i: usize = 0;
    while i < clusters
        invariant
            i <= clusters,
            sampler.origin() == seed,
            sampler.bound() == clusters,
            sampler.count() == start + i,
            r@.len() == i,
            forall|t: int|
                0 <= t < i ==> (#[trigger] r@[t]) == nth_draw(
                    seed,
                    clusters as u64,
                    (start + t) as nat,
                ) && r@[t] < clusters,
        decreases clusters - i,
    {
        let drawn: u64 = sampler.draw();
        r.push(drawn as usize);
        i += 1;
    }
    r
}

/// The rating under a name: that of the first entry with the name.
pub open spec fn rating_under<R>(ratings: Seq<ModelRating<R>>, name: Seq<char>) -> Option<R>
    decreases ratings.len(),
{
    if ratings.len() == 0 {
        None
    } else if ratings.first().model@ == name {
        ratings.first().rating
    } else {
        rating_under(ratings.drop_first(), name)
    }
}

fn find_rating<R: Copy>(ratings: &[ModelRating<R>], model: &ModelId) -> (r: Option<R>)
    ensures
        r == rating_under(ratings@, model@),
{
    let mut i: usize = 0;
    proof {
        assert(ratings@.skip(0) =~= ratings@);
    }
    while i < ratings.len()
        invariant
            i <= ratings@.len(),
            rating_under(ratings@, model@) == rating_under(ratings@.skip(i as int), model@),
        decreases ratings@.len() - i,
    {
        proof {
            assert(ratings@.skip(i as int).first() == ratings@[i as int]);
            assert(ratings@.skip(i as int).drop_first() =~= ratings@.skip(i + 1));
        }
        if ratings[i].model == *model {
            return ratings[i].rating;
        }
        i += 1;
    }
    None
}

/// Every model of the original has a rating in the replicate.
pub open spec fn rates_all<R>(original: Seq<ModelRating<R>>, replicate: Seq<ModelRating<R>>) -> bool {
    forall|i: int|
        0 <= i < original.len() ==> rating_under(replicate, (#[trigger] original[i]).model@) is Some
}

/// The ratings that a replicate gives the models of the original, if it rates
/// all of them.
pub open spec fn sample_of<R>(
    original: Seq<ModelRating<R>>,
    replicate: Seq<ModelRating<R>>,
) -> Option<Seq<R>> {
    if rates_all(original, replicate) {
        Some(
            Seq::new(
                original.len(),
                |i: int| rating_under(replicate, original[i].model@)->Some_0,
            ),
        )
    } else {
        None
    }
}

/// A sample as a sequence.
pub open spec fn sample_view<R>(sample: Option<Vec<R>>) -> Option<Seq<R>> {
    match sample {
        Some(values) => Some(values@),
        None => None,
    }
}

/// The ratings that the replicate gives the models of the original, if it
/// rates all of them.
pub fn finite_for_all<R: Copy>(original: &[ModelRating<R>], replicate: &[ModelRating<R>]) -> (r:
    Option<Vec<R>>)
    ensures
        sample_view(r) == sample_of(original@, replicate@),
{
    let mut values: Vec<R> = Vec::new();
    let mut i: usize = 0;
    while i < original.len()
        invariant
            i <= original@.len(),
            values@.len() == i,
            forall|t: int|
                0 <= t < i ==> rating_under(replicate@, (#[trigger] original@[t]).model@) == Some(
                    values@[t],
                ),
        decreases original@.len() - i,
    {
        match find_rating(replicate, &original[i].model) {
            Some(value) => values.push(value),
            None => {
                assert(rating_under(replicate@, original@[i as int].model@) is None);
                return None;
            },
        }
        i += 1;
    }
    proof {
        assert(values@ =~= sample_of(original@, replicate@)->Some_0);
    }
    Some(values)
}

/// Whether resampling is pointless, and why.
pub open spec fn obstacle_to<R>(point: Seq<ModelRating<R>>, clusters: int) -> Option<
    BootstrapUnavailable,
> {
    if clusters < 2 {
        Some(BootstrapUnavailable::TooFewTasks)
    } else if point.len() == 0 || exists|i: int|
        0 <= i < point.len() && (#[trigger] point[i]).rating is None {
        Some(BootstrapUnavailable::OriginalUnrated)
    } else {
        None
    }
}

/// Whether resampling is pointless, and why: with fewer than two tasks, or
/// when some model has no rating to begin with.
pub fn obstacle<R: Copy>(point: &Vec<ModelRating<R>>, clusters: usize) -> (r: Option<
    BootstrapUnavailable,
>)
    ensures
        r == obstacle_to(point@, clusters as int),
{
    if clusters < 2 {
        return Some(BootstrapUnavailable::TooFewTasks);
    }
    if point.len() == 0 {
        return Some(BootstrapUnavailable::OriginalUnrated);
    }
    let mut i: usize = 0;
    while i < point.len()
        invariant
            i <= point@.len(),
            clusters >= 2,
            forall|t: int| 0 <= t < i ==> (#[trigger] point@[t]).rating is Some,
        decreases point@.len() - i,
    {
        if point[i].rating.is_none() {
            assert(point@[i as int].rating is None);
            return Some(BootstrapUnavailable::OriginalUnrated);
        }
        i += 1;
    }
    None
}

/// What is recorded of resampling that did not run.
pub open spec fn skipped(seed: u64, clusters: usize, reason: BootstrapUnavailable) -> BootstrapMeta {
    BootstrapMeta {
        seed,
        replicates: BOOTSTRAP_REPLICATES,
        valid: None,
        clusters,
        ran: false,
        unavailable: Some(reason),
    }
}

/// How many of the samples are there.
pub open spec fn valid_count<R>(samples: Seq<Option<Vec<R>>>) -> nat
    decreases samples.len(),
{
    if samples.len() == 0 {
        0
    } else {
        valid_count(samples.drop_last()) + if samples.last() is Some {
            1nat
        } else {
            0nat
        }
    }
}

/// What is recorded of resampling that ran.
pub open spec fn completed(seed: u64, clusters: usize, valid: u32) -> BootstrapMeta {
    BootstrapMeta {
        seed,
        replicates: BOOTSTRAP_REPLICATES,
        valid: Some(valid),
        clusters,
        ran: true,
        unavailable: if valid == BOOTSTRAP_REPLICATES {
            None
        } else {
            Some(BootstrapUnavailable::InvalidReplicates)
        },
    }
}

/// The values that the samples give the model `i`.
pub open spec fn column_of<R>(samples: Seq<Option<Vec<R>>>, i: int) -> Seq<R> {
    Seq::new(samples.len(), |k: int| samples[k]->Some_0@[i])
}

/// `percentile` may return this value for these values.
pub open spec fn may_return<R, P: Fn(&Vec<R>, u32) -> R>(
    percentile: P,
    values: Vec<R>,
    permille: u32,
    value: R,
) -> bool {
    percentile.ensures((&values, permille), value)
}

/// `value` is what `percentile` may return for this column.
pub open spec fn is_percentile<R, P: Fn(&Vec<R>, u32) -> R>(
    value: R,
    column: Seq<R>,
    permille: u32,
    percentile: P,
) -> bool {
    exists|values: Vec<R>|
        values@ == column && #[trigger] may_return(percentile, values, permille, value)
}

/// The rating with the interval of its column added.
pub open spec fn has_interval<R, P: Fn(&Vec<R>, u32) -> R>(
    rating: ModelRating<R>,
    point: ModelRating<R>,
    column: Seq<R>,
    percentile: P,
) -> bool {
    &&& rating.model == point.model
    &&& rating.rating == point.rating
    &&& rating.unavailable == point.unavailable
    &&& rating.rating_lower is Some
    &&& rating.rating_upper is Some
    &&& is_percentile(rating.rating_lower->Some_0, column, LOWER_PERMILLE, percentile)
    &&& is_percentile(rating.rating_upper->Some_0, column, UPPER_PERMILLE, percentile)
}

/// The ratings and the record after resampling: intervals are added only if
/// every replicate rated every model.
pub open spec fn are_resampled<R, P: Fn(&Vec<R>, u32) -> R>(
    ratings: Seq<ModelRating<R>>,
    meta: BootstrapMeta,
    point: Seq<ModelRating<R>>,
    samples: Seq<Option<Vec<R>>>,
    seed: u64,
    clusters: usize,
    percentile: P,
) -> bool {
    &&& meta == completed(seed, clusters, valid_count(samples) as u32)
    &&& valid_count(samples) < samples.len() ==> ratings == point
    &&& valid_count(samples) == samples.len() ==> ratings.len() == point.len() && forall|i: int|
        0 <= i < point.len() ==> has_interval(
            #[trigger] ratings[i],
            point[i],
            column_of(samples, i),
            percentile,
        )
}

proof fn valid_bounded<R>(samples: Seq<Option<Vec<R>>>)
    ensures
        valid_count(samples) <= samples.len(),
        valid_count(samples) == samples.len() <==> forall|k: int|
            0 <= k < samples.len() ==> (#[trigger] samples[k]) is Some,
    decreases samples.len(),
{
    if samples.len() > 0 {
        let head = samples.drop_last();
        valid_bounded(head);
        if valid_count(samples) == samples.len() {
            assert forall|k: int| 0 <= k < samples.len() implies (#[trigger] samples[k]) is Some by {
                if k < head.len() {
                    assert(head[k] == samples[k]);
                }
            }
        }
        if forall|k: int| 0 <= k < samples.len() ==> (#[trigger] samples[k]) is Some {
            assert forall|k: int| 0 <= k < head.len() implies (#[trigger] head[k]) is Some by {
                assert(head[k] == samples[k]);
            }
            assert(samples[samples.len() - 1] == samples.last());
        }
    }
}

fn column<R: Copy>(samples: &Vec<Option<Vec<R>>>, i: usize, Ghost(width): Ghost<int>) -> (r: Vec<R>)
    requires
        i < width,
        forall|k: int|
            0 <= k < samples@.len() ==> ((#[trigger] samples@[k]) matches Some(values)
                && values@.len() == width),
    ensures
        r@ == column_of(samples@, i as int),
{
    let mut r: Vec<R> = Vec::new();
    let mut k: usize = 0;
    while k < samples.len()
        invariant
            k <= samples@.len(),
            i < width,
            forall|t: int|
                0 <= t < samples@.len() ==> ((#[trigger] samples@[t]) matches Some(values)
                    && values@.len() == width),
            r@ == column_of(samples@, i as int).take(k as int),
        decreases samples@.len() - k,
    {
        assert(samples@[k as int] is Some);
        if let Some(values) = &samples[k] {
            r.push(values[i]);
        }
        proof {
            assert(r@ =~= column_of(samples@, i as int).take(k + 1));
        }
        k += 1;
    }
    proof {
        assert(r@ =~= column_of(samples@, i as int));
    }
    r
}

/// Adds to each rating the interval of its samples.
pub fn assign_bounds<R: Copy, P: Fn(&Vec<R>, u32) -> R>(
    point: &Vec<ModelRating<R>>,
    samples: &Vec<Option<Vec<R>>>,
    percentile: &P,
) -> (ratings: Vec<ModelRating<R>>)
    requires
        forall|values: Vec<R>, permille: u32| #[trigger] percentile.requires((&values, permille)),
        forall|k: int|
            0 <= k < samples@.len() ==> ((#[trigger] samples@[k]) matches Some(values)
                && values@.len() == point@.len()),
    ensures
        ratings@.len() == point@.len(),
        forall|i: int|
            0 <= i < point@.len() ==> has_interval(
                #[trigger] ratings@[i],
                point@[i],
                column_of(samples@, i),
                *percentile,
            ),
{
    let mut ratings: Vec<ModelRating<R>> = Vec::new();
    let mut i: usize = 0;
    while i < point.len()
        invariant
            i <= point@.len(),
            forall|values: Vec<R>, permille: u32| #[trigger]
                percentile.requires((&values, permille)),
            forall|k: int|
                0 <= k < samples@.len() ==> ((#[trigger] samples@[k]) matches Some(values)
                    && values@.len() == point@.len()),
            ratings@.len() == i,
            forall|t: int|
                0 <= t < i ==> has_interval(
                    #[trigger] ratings@[t],
                    point@[t],
                    column_of(samples@, t),
                    *percentile,
                ),
        decreases point@.len() - i,
    {
        let values: Vec<R> = column(samples, i, Ghost(point@.len() as int));
        let lower: R = percentile(&values, LOWER_PERMILLE);
        let upper: R = percentile(&values, UPPER_PERMILLE);
        let rating: ModelRating<R> = ModelRating {
            model: point[i].model.clone(),
            rating: point[i].rating,
            rating_lower: Some(lower),
            rating_upper: Some(upper),
            unavailable: point[i].unavailable,
        };
        proof {
            assert(may_return(*percentile, values, LOWER_PERMILLE, lower));
            assert(may_return(*percentile, values, UPPER_PERMILLE, upper));
            assert(is_percentile(lower, values@, LOWER_PERMILLE, *percentile));
            assert(is_percentile(upper, values@, UPPER_PERMILLE, *percentile));
        }
        ratings.push(rating);
        i += 1;
    }
    ratings
}

/// What the samples of all the replicates make of the point ratings.
pub fn apply_samples<R: Copy, P: Fn(&Vec<R>, u32) -> R>(
    point: Vec<ModelRating<R>>,
    samples: &Vec<Option<Vec<R>>>,
    seed: u64,
    clusters: usize,
    percentile: &P,
) -> (r: (Vec<ModelRating<R>>, BootstrapMeta))
    requires
        samples@.len() == BOOTSTRAP_REPLICATES,
        forall|values: Vec<R>, permille: u32| #[trigger] percentile.requires((&values, permille)),
        forall|k: int|
            0 <= k < samples@.len() ==> ((#[trigger] samples@[k]) matches Some(values)
                ==> values@.len() == point@.len()),
    ensures
        are_resampled(r.0@, r.1, point@, samples@, seed, clusters, *percentile),
{
    let mut valid: u32 = 0;
    let mut k: usize = 0;
    while k < samples.len()
        invariant
            k <= samples@.len(),
            samples@.len() == BOOTSTRAP_REPLICATES,
            valid <= k,
            valid == valid_count(samples@.take(k as int)),
        decreases samples@.len() - k,
    {
        proof {
            assert(samples@.take(k + 1).drop_last() =~= samples@.take(k as int));
            assert(samples@.take(k + 1).last() == samples@[k as int]);
        }
        if samples[k].is_some() {
            valid += 1;
        }
        k += 1;
    }
    proof {
        assert(samples@.take(samples@.len() as int) =~= samples@);
        valid_bounded(samples@);
    }
    if valid == BOOTSTRAP_REPLICATES {
        let ratings: Vec<ModelRating<R>> = assign_bounds(&point, samples, percentile);
        (
            ratings,
            BootstrapMeta {
                seed,
                replicates: BOOTSTRAP_REPLICATES,
                valid: Some(valid),
                clusters,
                ran: true,
                unavailable: None,
            },
        )
    } else {
        (
            point,
            BootstrapMeta {
                seed,
                replicates: BOOTSTRAP_REPLICATES,
                valid: Some(valid),
                clusters,
                ran: true,
                unavailable: Some(BootstrapUnavailable::InvalidReplicates),
            },
        )
    }
}

/// Each of the numbers is the place of one of so many.
pub open spec fn are_places(row: Seq<int>, count: nat) -> bool {
    forall|i: int| 0 <= i < row.len() ==> 0 <= (#[trigger] row[i]) < count
}

/// `sample` is what rating the drawn clusters may give.
pub open spec fn is_sample<R, F: Fn(&Tally) -> Result<Vec<R>, FitFailure>>(
    sample: Option<Vec<R>>,
    point: Seq<ModelRating<R>>,
    clusters: Seq<Vec<Judgment>>,
    draws: Seq<int>,
    models: Seq<ModelId>,
    fit: F,
) -> bool {
    exists|replicate: Seq<ModelRating<R>>| #[trigger]
        are_rated(replicate, replicate_of(clusters, draws), models, fit) && sample_view(sample)
            == sample_of(point, replicate)
}

/// `sample` is that of the `k`-th replicate that the seed draws: so many
/// clusters as there are.
pub open spec fn is_nth_sample<R, F: Fn(&Tally) -> Result<Vec<R>, FitFailure>>(
    sample: Option<Vec<R>>,
    k: int,
    point: Seq<ModelRating<R>>,
    clusters: Seq<Vec<Judgment>>,
    seed: u64,
    models: Seq<ModelId>,
    fit: F,
) -> bool {
    let row = drawn_row(seed, clusters.len(), k as nat);
    &&& row.len() == clusters.len()
    &&& are_places(row, clusters.len())
    &&& is_sample(sample, point, clusters, row, models, fit)
}

/// The samples are those of the replicates that the seed draws.
pub open spec fn are_samples<R, F: Fn(&Tally) -> Result<Vec<R>, FitFailure>>(
    samples: Seq<Option<Vec<R>>>,
    point: Seq<ModelRating<R>>,
    clusters: Seq<Vec<Judgment>>,
    seed: u64,
    models: Seq<ModelId>,
    fit: F,
) -> bool {
    &&& samples.len() == BOOTSTRAP_REPLICATES
    &&& forall|k: int|
        0 <= k < samples.len() ==> is_nth_sample(
            #[trigger] samples[k],
            k,
            point,
            clusters,
            seed,
            models,
            fit,
        )
}

/// The ratings of all the judgments, and what resampling adds to them.
pub open spec fn are_uncertain<
    R,
    F: Fn(&Tally) -> Result<Vec<R>, FitFailure>,
    P: Fn(&Vec<R>, u32) -> R,
>(
    ratings: Seq<ModelRating<R>>,
    meta: BootstrapMeta,
    judgments: Seq<Judgment>,
    models: Seq<ModelId>,
    seed: u64,
    fit: F,
    percentile: P,
) -> bool {
    exists|point: Seq<ModelRating<R>>, clusters: Seq<Vec<Judgment>>|
        {
            &&& #[trigger] are_rated(point, judgments, models, fit)
            &&& #[trigger] is_grouping(clusters, judgments)
            &&& meta.clusters == clusters.len()
            &&& match obstacle_to(point, clusters.len() as int) {
                Some(reason) => ratings == point && meta == skipped(seed, meta.clusters, reason),
                None => exists|samples: Seq<Option<Vec<R>>>| #[trigger]
                    are_samples(samples, point, clusters, seed, models, fit) && are_resampled(
                        ratings,
                        meta,
                        point,
                        samples,
                        seed,
                        meta.clusters,
                        percentile,
                    ),
            }
        }
}

/// Rates the models and, where the judgments allow it, resamples whole tasks
/// to give each rating an interval. `percentile` picks the value at so many
/// thousandths of a column.
pub fn rate_with_uncertainty<
    R: Copy,
    F: Fn(&Tally) -> Result<Vec<R>, FitFailure>,
    P: Fn(&Vec<R>, u32) -> R,
>(judgments: &[Judgment], models: &[ModelId], seed: u64, fit: &F, percentile: &P) -> (r: (
    Vec<ModelRating<R>>,
    BootstrapMeta,
))
    requires
        is_fit(*fit),
        forall|values: Vec<R>, permille: u32| #[trigger] percentile.requires((&values, permille)),
    ensures
        are_uncertain(r.0@, r.1, judgments@, models@, seed, *fit, *percentile),
{
    let point: Vec<ModelRating<R>> = rate(judgments, models, fit);
    let clusters: Vec<Vec<Judgment>> = group_by_task(judgments);
    let n: usize = clusters.len();
    let mut samples: Vec<Option<Vec<R>>> = Vec::new();
    if let Some(reason) = obstacle(&point, n) {
        let meta: BootstrapMeta = BootstrapMeta {
            seed,
            replicates: BOOTSTRAP_REPLICATES,
            valid: None,
            clusters: n,
            ran: false,
            unavailable: Some(reason),
        };
        proof {
            assert(are_rated(point@, judgments@, models@, *fit));
            assert(is_grouping(clusters@, judgments@));
        }
        return (point, meta);
    }
    let mut sampler: Sampler = Sampler::new(seed, n as u64);
    let mut k: u32 = 0;
    while k < BOOTSTRAP_REPLICATES
        invariant
            k <= BOOTSTRAP_REPLICATES,
            n == clusters@.len(),
            sampler.origin() == seed,
            sampler.bound() == n,
            sampler.count() == k * n,
            is_fit(*fit),
            samples@.len() == k,
            forall|t: int|
                0 <= t < k ==> is_nth_sample(
                    #[trigger] samples@[t],
                    t,
                    point@,
                    clusters@,
                    seed,
                    models@,
                    *fit,
                ) && (samples@[t] matches Some(values) ==> values@.len() == point@.len()),
        decreases BOOTSTRAP_REPLICATES - k,
    {
        let row: Vec<usize> = draw_row(&mut sampler, n);
        let sampled: Vec<Judgment> = build_replicate(clusters.as_slice(), row.as_slice());
        let replicate: Vec<ModelRating<R>> = rate(sampled.as_slice(), models, fit);
        let sample: Option<Vec<R>> = finite_for_all(point.as_slice(), replicate.as_slice());
        proof {
            let drawn = drawn_row(seed, clusters@.len(), k as nat);
            assert(row_of(row@) =~= drawn);
            assert(are_places(drawn, clusters@.len())) by {
                assert forall|i: int| 0 <= i < drawn.len() implies 0 <= (#[trigger] drawn[i])
                    < clusters@.len() by {
                    assert(row@[i] < n);
                }
            }
            assert(are_rated(replicate@, replicate_of(clusters@, drawn), models@, *fit));
            assert(is_nth_sample(sample, k as int, point@, clusters@, seed, models@, *fit));
            assert((k + 1) * n == k * n + n) by (nonlinear_arith);
        }
        samples.push(sample);
        k += 1;
    }
    let r: (Vec<ModelRating<R>>, BootstrapMeta) = apply_samples(
        point,
        &samples,
        seed,
        n,
        percentile,
    );
    proof {
        assert(are_rated(point@, judgments@, models@, *fit));
        assert(is_grouping(clusters@, judgments@));
        assert(are_samples(samples@, point@, clusters@, seed, models@, *fit));
    }
    r
}

proof fn of_task_is_of_task(judgments: Seq<Judgment>, id: Seq<char>)
    ensures
        forall|i: int|
            0 <= i < of_task(judgments, id).len() ==> (#[trigger] of_task(judgments, id)[i]).task_id@
                == id,
    decreases judgments.len(),
{
    if judgments.len() > 0 {
        let head = judgments.drop_last();
        of_task_is_of_task(head, id);
        let all = of_task(judgments, id);
        assert forall|i: int| 0 <= i < all.len() implies (#[trigger] all[i]).task_id@ == id by {
            if i < of_task(head, id).len() {
                assert(all[i] == of_task(head, id)[i]);
            }
        }
    }
}

proof fn of_task_add(one: Seq<Judgment>, two: Seq<Judgment>, id: Seq<char>)
    ensures
        of_task(one + two, id) == of_task(one, id) + of_task(two, id),
    decreases two.len(),
{
    if two.len() == 0 {
        assert(one + two =~= one);
        assert(of_task(one, id) + of_task(two, id) =~= of_task(one, id));
    } else {
        of_task_add(one, two.drop_last(), id);
        assert((one + two).drop_last() =~= one + two.drop_last());
        assert(of_task(one + two, id) =~= of_task(one, id) + of_task(two, id));
    }
}

proof fn of_one_task(judgments: Seq<Judgment>, task: Seq<char>, id: Seq<char>)
    requires
        forall|i: int| 0 <= i < judgments.len() ==> (#[trigger] judgments[i]).task_id@ == task,
    ensures
        of_task(judgments, id) == (if task == id {
            judgments
        } else {
            seq![]
        }),
    decreases judgments.len(),
{
    if judgments.len() > 0 {
        let head = judgments.drop_last();
        assert forall|i: int| 0 <= i < head.len() implies (#[trigger] head[i]).task_id@ == task by {
            assert(head[i] == judgments[i]);
        }
        of_one_task(head, task, id);
        assert(judgments[judgments.len() - 1] == judgments.last());
        assert(head.push(judgments.last()) =~= judgments);
    }
}

/// A cluster holds the judgments of its task and no others.
pub proof fn clusters_keep_tasks_apart(
    clusters: Seq<Vec<Judgment>>,
    judgments: Seq<Judgment>,
    c: int,
)
    requires
        is_grouping(clusters, judgments),
        0 <= c < clusters.len(),
    ensures
        forall|i: int|
            0 <= i < clusters[c]@.len() ==> (#[trigger] clusters[c]@[i]).task_id@ == task_of(
                clusters[c],
            ),
        forall|k: int|
            0 <= k < judgments.len() && (#[trigger] judgments[k]).task_id@ == task_of(clusters[c])
                ==> clusters[c]@.contains(judgments[k]),
{
    of_task_is_of_task(judgments, task_of(clusters[c]));
    assert(clusters[c]@ == of_task(judgments, task_of(clusters[c])));
    of_task_holds_all(judgments, task_of(clusters[c]));
}

proof fn of_task_holds_all(judgments: Seq<Judgment>, id: Seq<char>)
    ensures
        forall|k: int|
            0 <= k < judgments.len() && (#[trigger] judgments[k]).task_id@ == id ==> of_task(
                judgments,
                id,
            ).contains(judgments[k]),
    decreases judgments.len(),
{
    if judgments.len() > 0 {
        let head = judgments.drop_last();
        of_task_holds_all(head, id);
        let all = of_task(judgments, id);
        assert forall|k: int|
            0 <= k < judgments.len() && (#[trigger] judgments[k]).task_id@ == id implies all.contains(
            judgments[k],
        ) by {
            if k < head.len() {
                assert(head[k] == judgments[k]);
                let p = choose|p: int|
                    0 <= p < of_task(head, id).len() && of_task(head, id)[p] == head[k];
                assert(all[p] == judgments[k]);
            } else {
                assert(all[all.len() - 1] == judgments[k]);
            }
        }
    }
}

/// How many judgments of these tasks there are.
pub open spec fn size_of(judgments: Seq<Judgment>, ids: Seq<Seq<char>>) -> nat
    decreases ids.len(),
{
    if ids.len() == 0 {
        0
    } else {
        size_of(judgments, ids.drop_last()) + of_task(judgments, ids.last()).len()
    }
}

proof fn size_step(judgments: Seq<Judgment>, ids: Seq<Seq<char>>)
    requires
        judgments.len() > 0,
        forall|c: int, d: int| 0 <= c < d < ids.len() ==> #[trigger] ids[c] != #[trigger] ids[d],
    ensures
        size_of(judgments, ids) == size_of(judgments.drop_last(), ids) + (if ids.contains(
            judgments.last().task_id@,
        ) {
            1nat
        } else {
            0nat
        }),
    decreases ids.len(),
{
    if ids.len() > 0 {
        let head = ids.drop_last();
        let id = judgments.last().task_id@;
        assert forall|c: int, d: int| 0 <= c < d < head.len() implies #[trigger] head[c]
            != #[trigger] head[d] by {
            assert(head[c] == ids[c] && head[d] == ids[d]);
        }
        size_step(judgments, head);
        if head.contains(id) {
            let c = choose|c: int| 0 <= c < head.len() && head[c] == id;
            assert(ids[c] == id);
            assert(ids[c] != ids[ids.len() - 1]);
        }
        if ids.contains(id) {
            let c = choose|c: int| 0 <= c < ids.len() && ids[c] == id;
            if c < head.len() {
                assert(head[c] == id);
            }
        }
        if ids.last() == id {
            assert(ids[ids.len() - 1] == id);
        }
    }
}

proof fn size_is_all(judgments: Seq<Judgment>, ids: Seq<Seq<char>>)
    requires
        forall|c: int, d: int| 0 <= c < d < ids.len() ==> #[trigger] ids[c] != #[trigger] ids[d],
        forall|k: int| 0 <= k < judgments.len() ==> ids.contains((#[trigger] judgments[k]).task_id@),
    ensures
        size_of(judgments, ids) == judgments.len(),
    decreases judgments.len(),
{
    if judgments.len() == 0 {
        size_of_nothing(judgments, ids);
    } else {
        let head = judgments.drop_last();
        assert forall|k: int| 0 <= k < head.len() implies ids.contains(
            (#[trigger] head[k]).task_id@,
        ) by {
            assert(head[k] == judgments[k]);
        }
        size_is_all(head, ids);
        size_step(judgments, ids);
        assert(judgments[judgments.len() - 1] == judgments.last());
    }
}

proof fn size_of_nothing(judgments: Seq<Judgment>, ids: Seq<Seq<char>>)
    requires
        judgments.len() == 0,
    ensures
        size_of(judgments, ids) == 0,
    decreases ids.len(),
{
    if ids.len() > 0 {
        size_of_nothing(judgments, ids.drop_last());
    }
}

/// How many judgments the clusters hold together.
pub open spec fn total_size(clusters: Seq<Vec<Judgment>>) -> nat
    decreases clusters.len(),
{
    if clusters.len() == 0 {
        0
    } else {
        total_size(clusters.drop_last()) + clusters.last()@.len()
    }
}

proof fn total_size_is_size(
    clusters: Seq<Vec<Judgment>>,
    judgments: Seq<Judgment>,
    ids: Seq<Seq<char>>,
)
    requires
        ids.len() == clusters.len(),
        forall|c: int|
            0 <= c < clusters.len() ==> (#[trigger] clusters[c])@ == of_task(judgments, ids[c]),
    ensures
        total_size(clusters) == size_of(judgments, ids),
    decreases clusters.len(),
{
    if clusters.len() > 0 {
        let head = clusters.drop_last();
        let front = ids.drop_last();
        assert forall|c: int| 0 <= c < head.len() implies (#[trigger] head[c])@ == of_task(
            judgments,
            front[c],
        ) by {
            assert(head[c] == clusters[c] && front[c] == ids[c]);
        }
        total_size_is_size(head, judgments, front);
        assert(clusters[clusters.len() - 1] == clusters.last());
    }
}

/// No judgment is lost or counted twice by grouping: the clusters together are
/// as many judgments as there were.
pub proof fn clusters_lose_nothing(clusters: Seq<Vec<Judgment>>, judgments: Seq<Judgment>)
    requires
        is_grouping(clusters, judgments),
    ensures
        total_size(clusters) == judgments.len(),
{
    let ids = Seq::new(clusters.len(), |c: int| task_of(clusters[c]));
    assert forall|c: int, d: int| 0 <= c < d < ids.len() implies #[trigger] ids[c]
        != #[trigger] ids[d] by {
        assert(lex_less(task_of(clusters[c]), task_of(clusters[d])));
        lex_irreflexive(ids[c]);
    }
    assert forall|k: int| 0 <= k < judgments.len() implies ids.contains(
        (#[trigger] judgments[k]).task_id@,
    ) by {
        let id = judgments[k].task_id@;
        assert(has_task(judgments, id));
        assert(clusters_task(clusters, id));
        let c = choose|c: int| 0 <= c < clusters.len() && task_of(#[trigger] clusters[c]) == id;
        assert(ids[c] == id);
    }
    size_is_all(judgments, ids);
    total_size_is_size(clusters, judgments, ids);
}

/// The judgments, so many times over.
pub open spec fn repeated(judgments: Seq<Judgment>, times: nat) -> Seq<Judgment>
    decreases times,
{
    if times == 0 {
        seq![]
    } else {
        repeated(judgments, (times - 1) as nat) + judgments
    }
}

/// How often a cluster was drawn.
pub open spec fn times_drawn(draws: Seq<int>, c: int) -> nat
    decreases draws.len(),
{
    if draws.len() == 0 {
        0
    } else {
        times_drawn(draws.drop_last(), c) + if draws.last() == c {
            1nat
        } else {
            0nat
        }
    }
}

/// A replicate holds the judgments of a task whole, once for every time that
/// the task was drawn.
pub proof fn replicates_keep_tasks_whole(
    clusters: Seq<Vec<Judgment>>,
    judgments: Seq<Judgment>,
    draws: Seq<int>,
    c: int,
)
    requires
        is_grouping(clusters, judgments),
        0 <= c < clusters.len(),
        forall|k: int| 0 <= k < draws.len() ==> 0 <= #[trigger] draws[k] < clusters.len(),
    ensures
        of_task(replicate_of(clusters, draws), task_of(clusters[c])) == repeated(
            clusters[c]@,
            times_drawn(draws, c),
        ),
    decreases draws.len(),
{
    if draws.len() > 0 {
        let head = draws.drop_last();
        let d = draws.last();
        assert forall|k: int| 0 <= k < head.len() implies 0 <= #[trigger] head[k]
            < clusters.len() by {
            assert(head[k] == draws[k]);
        }
        assert(draws[draws.len() - 1] == d);
        replicates_keep_tasks_whole(clusters, judgments, head, c);
        let id = task_of(clusters[c]);
        of_task_add(replicate_of(clusters, head), clusters[d]@, id);
        clusters_keep_tasks_apart(clusters, judgments, d);
        of_one_task(clusters[d]@, task_of(clusters[d]), id);
        if d != c {
            lex_irreflexive(id);
            if d < c {
                assert(lex_less(task_of(clusters[d]), task_of(clusters[c])));
            } else {
                assert(lex_less(task_of(clusters[c]), task_of(clusters[d])));
            }
            let head_part = of_task(replicate_of(clusters, head), id);
            assert(head_part + Seq::<Judgment>::empty() =~= head_part);
        }
    }
}

/// The record says whether resampling ran and what came of it: a count of
/// valid replicates exactly if it ran, a reason exactly if there are no
/// intervals. The ratings themselves are those of all the judgments.
pub proof fn record_is_consistent<
    R,
    F: Fn(&Tally) -> Result<Vec<R>, FitFailure>,
    P: Fn(&Vec<R>, u32) -> R,
>(
    ratings: Seq<ModelRating<R>>,
    meta: BootstrapMeta,
    judgments: Seq<Judgment>,
    models: Seq<ModelId>,
    seed: u64,
    fit: F,
    percentile: P,
)
    requires
        are_uncertain(ratings, meta, judgments, models, seed, fit, percentile),
    ensures
        meta.seed == seed,
        meta.replicates == BOOTSTRAP_REPLICATES,
        meta.valid is Some <==> meta.ran,
        meta.valid matches Some(valid) ==> valid <= meta.replicates,
        meta.unavailable is None <==> meta.valid == Some(meta.replicates),
        meta.unavailable == Some(BootstrapUnavailable::TooFewTasks) <==> meta.clusters < 2,
        meta.unavailable == Some(BootstrapUnavailable::InvalidReplicates) ==> meta.ran,
        forall|i: int|
            0 <= i < ratings.len() ==> ((#[trigger] ratings[i]).rating_lower is Some
                <==> meta.unavailable is None) && (ratings[i].rating_upper is Some
                <==> meta.unavailable is None),
        exists|point: Seq<ModelRating<R>>|
            {
                &&& #[trigger] are_rated(point, judgments, models, fit)
                &&& point.len() == ratings.len()
                &&& forall|i: int|
                    0 <= i < ratings.len() ==> (#[trigger] ratings[i]).model == point[i].model
                        && ratings[i].rating == point[i].rating && ratings[i].unavailable
                        == point[i].unavailable
            },
{
    let (point, clusters) = resampled_from(
        ratings,
        meta,
        judgments,
        models,
        seed,
        fit,
        percentile,
    );
    assert(are_rated(point, judgments, models, fit));
    if obstacle_to(point, clusters.len() as int) is None {
        let samples = choose|samples: Seq<Option<Vec<R>>>| #[trigger]
            are_samples(samples, point, clusters, seed, models, fit) && are_resampled(
                ratings,
                meta,
                point,
                samples,
                seed,
                meta.clusters,
                percentile,
            );
        valid_bounded(samples);
        if valid_count(samples) == samples.len() {
            assert forall|i: int| 0 <= i < ratings.len() implies (#[trigger] ratings[i]).model
                == point[i].model && ratings[i].rating == point[i].rating && ratings[i].unavailable
                == point[i].unavailable && ratings[i].rating_lower is Some
                && ratings[i].rating_upper is Some by {
                assert(has_interval(ratings[i], point[i], column_of(samples, i), percentile));
            }
        }
    }
}

/// `percentile` depends on the values alone.
pub open spec fn is_steady_percentile<R, P: Fn(&Vec<R>, u32) -> R>(percentile: P) -> bool {
    forall|one: Vec<R>, two: Vec<R>, permille: u32, first: R, second: R|
        one@ == two@ && #[trigger] may_return(percentile, one, permille, first)
            && #[trigger] may_return(percentile, two, permille, second) ==> first == second
}

proof fn of_task_alike(one: Seq<Judgment>, two: Seq<Judgment>, id: Seq<char>)
    requires
        alike(one, two),
    ensures
        alike(of_task(one, id), of_task(two, id)),
        has_task(one, id) == has_task(two, id),
    decreases one.len(),
{
    if one.len() > 0 {
        let head_one = one.drop_last();
        let head_two = two.drop_last();
        assert(alike(head_one, head_two)) by {
            assert forall|k: int| 0 <= k < head_one.len() implies (#[trigger] head_one[k]).task_id@
                == head_two[k].task_id@ && head_one[k].model_a@ == head_two[k].model_a@
                && head_one[k].model_b@ == head_two[k].model_b@ && head_one[k].winner
                == head_two[k].winner by {
                assert(one[k].task_id@ == two[k].task_id@);
            }
        }
        of_task_alike(head_one, head_two, id);
        let last = one.len() - 1;
        assert(one[last].task_id@ == two[last].task_id@);
        let all_one = of_task(one, id);
        let all_two = of_task(two, id);
        let part_one = of_task(head_one, id);
        let part_two = of_task(head_two, id);
        assert forall|k: int| 0 <= k < all_one.len() implies (#[trigger] all_one[k]).task_id@
            == all_two[k].task_id@ && all_one[k].model_a@ == all_two[k].model_a@
            && all_one[k].model_b@ == all_two[k].model_b@ && all_one[k].winner
            == all_two[k].winner by {
            if k < part_one.len() {
                assert(all_one[k] == part_one[k]);
                assert(all_two[k] == part_two[k]);
            } else {
                assert(all_one[k] == one[last]);
                assert(all_two[k] == two[last]);
            }
        }
    }
    if has_task(one, id) {
        let k = choose|k: int| 0 <= k < one.len() && (#[trigger] one[k]).task_id@ == id;
        assert(two[k].task_id@ == id);
    }
    if has_task(two, id) {
        let k = choose|k: int| 0 <= k < two.len() && (#[trigger] two[k]).task_id@ == id;
        assert(one[k].task_id@ == id);
    }
}

proof fn tasks_contained(clusters: Seq<Vec<Judgment>>, judgments: Seq<Judgment>, id: Seq<char>)
    requires
        is_grouping(clusters, judgments),
    ensures
        Seq::new(clusters.len(), |c: int| task_of(clusters[c])).contains(id) <==> has_task(
            judgments,
            id,
        ),
{
    let ids = Seq::new(clusters.len(), |c: int| task_of(clusters[c]));
    assert(clusters_task(clusters, id) <==> has_task(judgments, id));
    if clusters_task(clusters, id) {
        let c = choose|c: int| 0 <= c < clusters.len() && task_of(#[trigger] clusters[c]) == id;
        assert(ids[c] == id);
    }
    if ids.contains(id) {
        let c = choose|c: int| 0 <= c < ids.len() && ids[c] == id;
        assert(task_of(clusters[c]) == id);
    }
}

proof fn groupings_agree(
    one: Seq<Vec<Judgment>>,
    two: Seq<Vec<Judgment>>,
    judgments_one: Seq<Judgment>,
    judgments_two: Seq<Judgment>,
)
    requires
        alike(judgments_one, judgments_two),
        is_grouping(one, judgments_one),
        is_grouping(two, judgments_two),
    ensures
        one.len() == two.len(),
        forall|c: int| 0 <= c < one.len() ==> alike((#[trigger] one[c])@, two[c]@),
{
    let a = Seq::new(one.len(), |c: int| task_of(one[c]));
    let b = Seq::new(two.len(), |c: int| task_of(two[c]));
    assert forall|id: Seq<char>| a.contains(id) <==> b.contains(id) by {
        tasks_contained(one, judgments_one, id);
        tasks_contained(two, judgments_two, id);
        of_task_alike(judgments_one, judgments_two, id);
    }
    assert forall|c: int, d: int| 0 <= c < d < a.len() implies lex_less(
        #[trigger] a[c],
        #[trigger] a[d],
    ) by {
        assert(lex_less(task_of(one[c]), task_of(one[d])));
    }
    assert forall|c: int, d: int| 0 <= c < d < b.len() implies lex_less(
        #[trigger] b[c],
        #[trigger] b[d],
    ) by {
        assert(lex_less(task_of(two[c]), task_of(two[d])));
    }
    sorted_texts_agree(a, b);
    assert forall|c: int| 0 <= c < one.len() implies alike((#[trigger] one[c])@, two[c]@) by {
        assert(a[c] == b[c]);
        of_task_alike(judgments_one, judgments_two, task_of(one[c]));
        assert(one[c]@ == of_task(judgments_one, task_of(one[c])));
        assert(two[c]@ == of_task(judgments_two, task_of(two[c])));
    }
}

proof fn alike_add(a: Seq<Judgment>, b: Seq<Judgment>, c: Seq<Judgment>, d: Seq<Judgment>)
    requires
        alike(a, b),
        alike(c, d),
    ensures
        alike(a + c, b + d),
{
    let one = a + c;
    let two = b + d;
    assert forall|k: int| 0 <= k < one.len() implies (#[trigger] one[k]).task_id@ == two[k].task_id@
        && one[k].model_a@ == two[k].model_a@ && one[k].model_b@ == two[k].model_b@
        && one[k].winner == two[k].winner by {
        if k < a.len() {
            assert(one[k] == a[k] && two[k] == b[k]);
        } else {
            assert(one[k] == c[k - a.len()] && two[k] == d[k - a.len()]);
        }
    }
}

proof fn replicates_alike(one: Seq<Vec<Judgment>>, two: Seq<Vec<Judgment>>, draws: Seq<int>)
    requires
        one.len() == two.len(),
        forall|c: int| 0 <= c < one.len() ==> alike((#[trigger] one[c])@, two[c]@),
        forall|k: int| 0 <= k < draws.len() ==> 0 <= #[trigger] draws[k] < one.len(),
    ensures
        alike(replicate_of(one, draws), replicate_of(two, draws)),
    decreases draws.len(),
{
    if draws.len() > 0 {
        let head = draws.drop_last();
        assert forall|k: int| 0 <= k < head.len() implies 0 <= #[trigger] head[k] < one.len() by {
            assert(head[k] == draws[k]);
        }
        replicates_alike(one, two, head);
        assert(draws[draws.len() - 1] == draws.last());
        alike_add(
            replicate_of(one, head),
            replicate_of(two, head),
            one[draws.last()]@,
            two[draws.last()]@,
        );
    }
}

proof fn same_rating_under<R>(one: Seq<ModelRating<R>>, two: Seq<ModelRating<R>>, name: Seq<char>)
    requires
        same_ratings(one, two),
    ensures
        rating_under(one, name) == rating_under(two, name),
    decreases one.len(),
{
    if one.len() > 0 {
        assert(one[0].model@ == two[0].model@);
        assert(same_ratings(one.drop_first(), two.drop_first())) by {
            assert forall|i: int| 0 <= i < one.drop_first().len() implies (
            #[trigger] one.drop_first()[i]).model@ == two.drop_first()[i].model@
                && one.drop_first()[i].rating == two.drop_first()[i].rating
                && one.drop_first()[i].unavailable == two.drop_first()[i].unavailable by {
                assert(one[i + 1].model@ == two[i + 1].model@);
            }
        }
        same_rating_under(one.drop_first(), two.drop_first(), name);
    }
}

proof fn same_samples<R>(
    point_one: Seq<ModelRating<R>>,
    point_two: Seq<ModelRating<R>>,
    one: Seq<ModelRating<R>>,
    two: Seq<ModelRating<R>>,
)
    requires
        same_ratings(point_one, point_two),
        same_ratings(one, two),
    ensures
        sample_of(point_one, one) == sample_of(point_two, two),
{
    assert forall|i: int| 0 <= i < point_one.len() implies rating_under(
        one,
        (#[trigger] point_one[i]).model@,
    ) == rating_under(two, point_two[i].model@) by {
        same_rating_under(one, two, point_one[i].model@);
    }
    assert(rates_all(point_one, one) == rates_all(point_two, two)) by {
        if rates_all(point_one, one) {
            assert forall|i: int| 0 <= i < point_two.len() implies rating_under(
                two,
                (#[trigger] point_two[i]).model@,
            ) is Some by {
                assert(rating_under(one, point_one[i].model@) is Some);
            }
        }
        if rates_all(point_two, two) {
            assert forall|i: int| 0 <= i < point_one.len() implies rating_under(
                one,
                (#[trigger] point_one[i]).model@,
            ) is Some by {
                assert(rating_under(two, point_two[i].model@) is Some);
            }
        }
    }
    if rates_all(point_one, one) {
        let a = sample_of(point_one, one)->Some_0;
        let b = sample_of(point_two, two)->Some_0;
        assert forall|i: int| 0 <= i < a.len() implies a[i] == b[i] by {
            assert(rating_under(one, point_one[i].model@) == rating_under(
                two,
                point_two[i].model@,
            ));
        }
        assert(a =~= b);
    }
}

proof fn same_valid_count<R>(one: Seq<Option<Vec<R>>>, two: Seq<Option<Vec<R>>>)
    requires
        one.len() == two.len(),
        forall|k: int| 0 <= k < one.len() ==> ((#[trigger] one[k]) is Some <==> two[k] is Some),
    ensures
        valid_count(one) == valid_count(two),
    decreases one.len(),
{
    if one.len() > 0 {
        assert forall|k: int| 0 <= k < one.drop_last().len() implies ((
        #[trigger] one.drop_last()[k]) is Some <==> two.drop_last()[k] is Some) by {
            assert(one[k] is Some <==> two[k] is Some);
        }
        same_valid_count(one.drop_last(), two.drop_last());
        let last = one.len() - 1;
        assert(one[last] is Some <==> two[last] is Some);
    }
}

/// The ratings are of the same models and have the same values and bounds.
pub open spec fn same_intervals<R>(one: Seq<ModelRating<R>>, two: Seq<ModelRating<R>>) -> bool {
    &&& same_ratings(one, two)
    &&& forall|i: int|
        0 <= i < one.len() ==> (#[trigger] one[i]).rating_lower == two[i].rating_lower
            && one[i].rating_upper == two[i].rating_upper
}

/// The same seed gives the same ratings, the same intervals and the same
/// record, also when only the tasks, the models and the winners of the
/// judgments are kept, as long as the fit depends on the counts and the
/// percentile on the values alone.
pub proof fn same_seed_same_intervals<
    R,
    F: Fn(&Tally) -> Result<Vec<R>, FitFailure>,
    P: Fn(&Vec<R>, u32) -> R,
>(
    ratings_one: Seq<ModelRating<R>>,
    ratings_two: Seq<ModelRating<R>>,
    meta_one: BootstrapMeta,
    meta_two: BootstrapMeta,
    one: Seq<Judgment>,
    two: Seq<Judgment>,
    models: Seq<ModelId>,
    seed: u64,
    fit: F,
    percentile: P,
)
    requires
        alike(one, two),
        is_steady(fit),
        is_steady_percentile(percentile),
        are_uncertain(ratings_one, meta_one, one, models, seed, fit, percentile),
        are_uncertain(ratings_two, meta_two, two, models, seed, fit, percentile),
    ensures
        meta_one == meta_two,
        same_intervals(ratings_one, ratings_two),
{
    let (point_one, clusters_one) = resampled_from(
        ratings_one,
        meta_one,
        one,
        models,
        seed,
        fit,
        percentile,
    );
    let (point_two, clusters_two) = resampled_from(
        ratings_two,
        meta_two,
        two,
        models,
        seed,
        fit,
        percentile,
    );
    alike_judgments_count_alike(one, two);
    ratings_depend_on_counts(point_one, point_two, one, two, models, fit);
    groupings_agree(clusters_one, clusters_two, one, two);
    let count = clusters_one.len() as int;
    assert(obstacle_to(point_one, count) == obstacle_to(point_two, count)) by {
        if exists|i: int| 0 <= i < point_one.len() && (#[trigger] point_one[i]).rating is None {
            let i = choose|i: int| 0 <= i < point_one.len() && (#[trigger] point_one[i]).rating is None;
            assert(point_two[i].rating is None);
        }
        if exists|i: int| 0 <= i < point_two.len() && (#[trigger] point_two[i]).rating is None {
            let i = choose|i: int| 0 <= i < point_two.len() && (#[trigger] point_two[i]).rating is None;
            assert(point_one[i].rating is None);
        }
    }
    if obstacle_to(point_one, count) is None {
        let samples_one = choose|samples: Seq<Option<Vec<R>>>| #[trigger]
            are_samples(samples, point_one, clusters_one, seed, models, fit) && are_resampled(
                ratings_one,
                meta_one,
                point_one,
                samples,
                seed,
                meta_one.clusters,
                percentile,
            );
        let samples_two = choose|samples: Seq<Option<Vec<R>>>| #[trigger]
            are_samples(samples, point_two, clusters_two, seed, models, fit) && are_resampled(
                ratings_two,
                meta_two,
                point_two,
                samples,
                seed,
                meta_two.clusters,
                percentile,
            );
        assert forall|k: int| 0 <= k < samples_one.len() implies sample_view(
            #[trigger] samples_one[k],
        ) == sample_view(samples_two[k]) by {
            let row = drawn_row(seed, clusters_one.len(), k as nat);
            assert(are_places(row, clusters_one.len()));
            assert(is_sample(samples_one[k], point_one, clusters_one, row, models, fit));
            assert(is_sample(samples_two[k], point_two, clusters_two, row, models, fit));
            replicates_alike(clusters_one, clusters_two, row);
            let sampled_one = replicate_of(clusters_one, row);
            let sampled_two = replicate_of(clusters_two, row);
            let replicate_one = choose|replicate: Seq<ModelRating<R>>| #[trigger]
                are_rated(replicate, sampled_one, models, fit) && sample_view(samples_one[k])
                    == sample_of(point_one, replicate);
            let replicate_two = choose|replicate: Seq<ModelRating<R>>| #[trigger]
                are_rated(replicate, sampled_two, models, fit) && sample_view(samples_two[k])
                    == sample_of(point_two, replicate);
            alike_judgments_count_alike(sampled_one, sampled_two);
            ratings_depend_on_counts(
                replicate_one,
                replicate_two,
                sampled_one,
                sampled_two,
                models,
                fit,
            );
            same_samples(point_one, point_two, replicate_one, replicate_two);
        }
        assert forall|k: int| 0 <= k < samples_one.len() implies ((#[trigger] samples_one[k]) is Some
            <==> samples_two[k] is Some) by {
            assert(sample_view(samples_one[k]) == sample_view(samples_two[k]));
        }
        same_valid_count(samples_one, samples_two);
        valid_bounded(samples_one);
        if valid_count(samples_one) == samples_one.len() {
            assert forall|i: int| 0 <= i < ratings_one.len() implies (
            #[trigger] ratings_one[i]).rating_lower == ratings_two[i].rating_lower
                && ratings_one[i].rating_upper == ratings_two[i].rating_upper
                && ratings_one[i].model@ == ratings_two[i].model@ && ratings_one[i].rating
                == ratings_two[i].rating && ratings_one[i].unavailable
                == ratings_two[i].unavailable by {
                let column = column_of(samples_one, i);
                assert(column =~= column_of(samples_two, i)) by {
                    assert forall|k: int| 0 <= k < samples_one.len() implies column[k]
                        == column_of(samples_two, i)[k] by {
                        assert(sample_view(samples_one[k]) == sample_view(samples_two[k]));
                        assert(samples_one[k] is Some);
                    }
                }
                assert(has_interval(ratings_one[i], point_one[i], column, percentile));
                assert(has_interval(ratings_two[i], point_two[i], column, percentile));
                same_percentile(
                    ratings_one[i].rating_lower->Some_0,
                    ratings_two[i].rating_lower->Some_0,
                    column,
                    LOWER_PERMILLE,
                    percentile,
                );
                same_percentile(
                    ratings_one[i].rating_upper->Some_0,
                    ratings_two[i].rating_upper->Some_0,
                    column,
                    UPPER_PERMILLE,
                    percentile,
                );
                assert(point_one[i].model@ == point_two[i].model@);
            }
        }
    }
}

proof fn same_percentile<R, P: Fn(&Vec<R>, u32) -> R>(
    first: R,
    second: R,
    column: Seq<R>,
    permille: u32,
    percentile: P,
)
    requires
        is_steady_percentile(percentile),
        is_percentile(first, column, permille, percentile),
        is_percentile(second, column, permille, percentile),
    ensures
        first == second,
{
    let one = choose|values: Vec<R>|
        values@ == column && #[trigger] may_return(percentile, values, permille, first);
    let two = choose|values: Vec<R>|
        values@ == column && #[trigger] may_return(percentile, values, permille, second);
    assert(may_return(percentile, one, permille, first));
    assert(may_return(percentile, two, permille, second));
}

/// The point ratings and the clusters that uncertain ratings come from.
proof fn resampled_from<
    R,
    F: Fn(&Tally) -> Result<Vec<R>, FitFailure>,
    P: Fn(&Vec<R>, u32) -> R,
>(
    ratings: Seq<ModelRating<R>>,
    meta: BootstrapMeta,
    judgments: Seq<Judgment>,
    models: Seq<ModelId>,
    seed: u64,
    fit: F,
    percentile: P,
) -> (r: (Seq<ModelRating<R>>, Seq<Vec<Judgment>>))
    requires
        are_uncertain(ratings, meta, judgments, models, seed, fit, percentile),
    ensures
        are_rated(r.0, judgments, models, fit),
        is_grouping(r.1, judgments),
        meta.clusters == r.1.len(),
        match obstacle_to(r.0, r.1.len() as int) {
            Some(reason) => ratings == r.0 && meta == skipped(seed, meta.clusters, reason),
            None => exists|samples: Seq<Option<Vec<R>>>| #[trigger]
                are_samples(samples, r.0, r.1, seed, models, fit) && are_resampled(
                    ratings,
                    meta,
                    r.0,
                    samples,
                    seed,
                    meta.clusters,
                    percentile,
                ),
        },
        forall|i: int|
            0 <= i < r.0.len() ==> (#[trigger] r.0[i]).rating_lower is None
                && r.0[i].rating_upper is None,
{
    let (point, clusters) = choose|point: Seq<ModelRating<R>>, clusters: Seq<Vec<Judgment>>|
        {
            &&& #[trigger] are_rated(point, judgments, models, fit)
            &&& #[trigger] is_grouping(clusters, judgments)
            &&& meta.clusters == clusters.len()
            &&& match obstacle_to(point, clusters.len() as int) {
                Some(reason) => ratings == point && meta == skipped(seed, meta.clusters, reason),
                None => exists|samples: Seq<Option<Vec<R>>>| #[trigger]
                    are_samples(samples, point, clusters, seed, models, fit) && are_resampled(
                        ratings,
                        meta,
                        point,
                        samples,
                        seed,
                        meta.clusters,
                        percentile,
                    ),
            }
        };
    (point, clusters)
}

/// The judgments of a task are those with its id, in their order.
pub proof fn a_task_has_the_judgments_with_its_id(judgments: Seq<Judgment>, id: Seq<char>)
    ensures
        of_task(judgments, id) == judgments.filter(|judgment: Judgment| judgment.task_id@ == id),
    decreases judgments.len(),
{
    reveal(Seq::filter);
    if judgments.len() > 0 {
        a_task_has_the_judgments_with_its_id(judgments.drop_last(), id);
    } else {
        assert(judgments =~= Seq::<Judgment>::empty());
    }
}

/// A replicate is made of the drawn clusters, whole and in the order of the
/// draws.
pub proof fn replicates_follow_the_draws(clusters: Seq<Vec<Judgment>>, draws: Seq<int>, more: Seq<int>)
    ensures
        replicate_of(clusters, draws + more) == replicate_of(clusters, draws) + replicate_of(
            clusters,
            more,
        ),
        draws.len() == 1 ==> replicate_of(clusters, draws) == clusters[draws[0]]@,
    decreases more.len(),
{
    if draws.len() == 1 {
        assert(draws.drop_last() =~= Seq::<int>::empty());
        assert(replicate_of(clusters, draws.drop_last()) =~= Seq::<Judgment>::empty());
        assert(Seq::<Judgment>::empty() + clusters[draws[0]]@ =~= clusters[draws[0]]@);
    }
    if more.len() == 0 {
        assert(draws + more =~= draws);
        assert(replicate_of(clusters, draws) + replicate_of(clusters, more) =~= replicate_of(
            clusters,
            draws,
        ));
    } else {
        replicates_follow_the_draws(clusters, draws, more.drop_last());
        assert((draws + more).drop_last() =~= draws + more.drop_last());
        assert(replicate_of(clusters, draws + more) =~= replicate_of(clusters, draws)
            + replicate_of(clusters, more));
    }
}

/// The ratings give the model with this name this value, and no other.
pub open spec fn rates_as<R>(ratings: Seq<ModelRating<R>>, name: Seq<char>, value: R) -> bool {
    &&& exists|j: int| 0 <= j < ratings.len() && (#[trigger] ratings[j]).model@ == name
    &&& forall|j: int|
        0 <= j < ratings.len() && (#[trigger] ratings[j]).model@ == name ==> ratings[j].rating
            == Some(value)
}

/// The ratings have a value for every model that the others are of.
pub open spec fn rates_every<R>(
    replicate: Seq<ModelRating<R>>,
    ratings: Seq<ModelRating<R>>,
) -> bool {
    forall|i: int|
        0 <= i < ratings.len() ==> exists|j: int|
            0 <= j < replicate.len() && (#[trigger] replicate[j]).model@ == (
            #[trigger] ratings[i]).model@ && replicate[j].rating is Some
}

proof fn found_under<R>(ratings: Seq<ModelRating<R>>, name: Seq<char>)
    ensures
        rating_under(ratings, name) is Some ==> exists|j: int|
            {
                &&& 0 <= j < ratings.len()
                &&& (#[trigger] ratings[j]).model@ == name
                &&& ratings[j].rating == rating_under(ratings, name)
            },
        rating_under(ratings, name) is None ==> forall|j: int|
            0 <= j < ratings.len() && (#[trigger] ratings[j]).model@ == name ==> exists|t: int|
                0 <= t <= j && (#[trigger] ratings[t]).model@ == name && ratings[t].rating is None,
    decreases ratings.len(),
{
    if ratings.len() > 0 {
        let rest = ratings.drop_first();
        found_under(rest, name);
        if ratings.first().model@ == name {
            assert(ratings[0].model@ == name);
        } else {
            if rating_under(ratings, name) is Some {
                let j = choose|j: int|
                    {
                        &&& 0 <= j < rest.len()
                        &&& (#[trigger] rest[j]).model@ == name
                        &&& rest[j].rating == rating_under(rest, name)
                    };
                assert(ratings[j + 1] == rest[j]);
            } else {
                assert forall|j: int|
                    0 <= j < ratings.len() && (
                    #[trigger] ratings[j]).model@ == name implies exists|t: int|
                    0 <= t <= j && (#[trigger] ratings[t]).model@ == name && ratings[t].rating
                        is None by {
                    assert(j > 0);
                    assert(rest[j - 1] == ratings[j]);
                    let t = choose|t: int|
                        0 <= t <= j - 1 && (#[trigger] rest[t]).model@ == name && rest[t].rating
                            is None;
                    assert(ratings[t + 1] == rest[t]);
                }
            }
        }
    }
}

proof fn names_stand_once<R>(ratings: Seq<ModelRating<R>>, i: int, j: int)
    requires
        is_sorted(rated_models(ratings)),
        0 <= i < ratings.len(),
        0 <= j < ratings.len(),
        ratings[i].model@ == ratings[j].model@,
    ensures
        i == j,
{
    let list = rated_models(ratings);
    place_unique(list, i);
    place_unique(list, j);
}

proof fn under_is_rates_as<R>(ratings: Seq<ModelRating<R>>, name: Seq<char>)
    requires
        is_sorted(rated_models(ratings)),
    ensures
        rating_under(ratings, name) matches Some(value) ==> rates_as(ratings, name, value),
        rating_under(ratings, name) is Some <==> exists|j: int|
            0 <= j < ratings.len() && (#[trigger] ratings[j]).model@ == name && ratings[j].rating
                is Some,
{
    found_under(ratings, name);
    if let Some(value) = rating_under(ratings, name) {
        let j = choose|j: int|
            {
                &&& 0 <= j < ratings.len()
                &&& (#[trigger] ratings[j]).model@ == name
                &&& ratings[j].rating == rating_under(ratings, name)
            };
        assert forall|i: int|
            0 <= i < ratings.len() && (#[trigger] ratings[i]).model@ == name implies ratings[i].rating
            == Some(value) by {
            names_stand_once(ratings, i, j);
        }
    } else {
        assert forall|i: int|
            0 <= i < ratings.len() && (#[trigger] ratings[i]).model@ == name implies ratings[i].rating
            is None by {
            let t = choose|t: int|
                0 <= t <= i && (#[trigger] ratings[t]).model@ == name && ratings[t].rating is None;
            names_stand_once(ratings, i, t);
        }
    }
}

proof fn valid_are_filtered<R>(
    samples: Seq<Option<Vec<R>>>,
    replicates: Seq<Seq<ModelRating<R>>>,
    holds: spec_fn(Seq<ModelRating<R>>) -> bool,
)
    requires
        samples.len() == replicates.len(),
        forall|k: int|
            0 <= k < samples.len() ==> ((#[trigger] samples[k]) is Some <==> holds(replicates[k])),
    ensures
        valid_count(samples) == replicates.filter(holds).len(),
    decreases samples.len(),
{
    reveal(Seq::filter);
    if samples.len() > 0 {
        let head = samples.drop_last();
        let front = replicates.drop_last();
        assert forall|k: int| 0 <= k < head.len() implies ((#[trigger] head[k]) is Some <==> holds(
            front[k],
        )) by {
            assert(head[k] == samples[k] && front[k] == replicates[k]);
        }
        valid_are_filtered(head, front, holds);
        let last = samples.len() - 1;
        assert(samples[last] is Some <==> holds(replicates[last]));
    }
}

/// How a run was resampled: the clusters, the places drawn for every replicate,
/// the ratings that every replicate gave, and for every model the values that
/// the replicates gave it.
pub struct Resampling<R> {
    pub clusters: Seq<Vec<Judgment>>,
    pub rows: Seq<Seq<int>>,
    pub replicates: Seq<Seq<ModelRating<R>>>,
    pub columns: Seq<Seq<R>>,
}

/// The interval of a model comes from its own ratings in the replicates. There
/// are a thousand replicates, each the rating of as many clusters as there are,
/// drawn one after the other from one seeded generator. Those that rate every
/// model are counted, and intervals are given exactly if all of them do: the
/// bounds are then the percentiles at 25 and 975 thousandths of the values that
/// the replicates give the model itself.
#[verifier::rlimit(50)]
pub proof fn intervals_come_from_a_models_own_replicates<
    R,
    F: Fn(&Tally) -> Result<Vec<R>, FitFailure>,
    P: Fn(&Vec<R>, u32) -> R,
>(
    ratings: Seq<ModelRating<R>>,
    meta: BootstrapMeta,
    judgments: Seq<Judgment>,
    models: Seq<ModelId>,
    seed: u64,
    fit: F,
    percentile: P,
) -> (r: Resampling<R>)
    requires
        are_uncertain(ratings, meta, judgments, models, seed, fit, percentile),
        meta.ran,
    ensures
        is_grouping(r.clusters, judgments),
        meta.clusters == r.clusters.len(),
        r.rows.len() == 1000,
        r.replicates.len() == 1000,
        forall|k: int| 0 <= k < 1000 ==> (#[trigger] r.rows[k]).len() == r.clusters.len(),
        forall|k: int, i: int|
            0 <= k < 1000 && 0 <= i < r.clusters.len() ==> (#[trigger] r.rows[k][i]) == nth_draw(
                seed,
                r.clusters.len() as u64,
                (k * r.clusters.len() + i) as nat,
            ) && 0 <= r.rows[k][i] < r.clusters.len(),
        forall|k: int|
            0 <= k < 1000 ==> are_rated(
                #[trigger] r.replicates[k],
                replicate_of(r.clusters, r.rows[k]),
                models,
                fit,
            ),
        meta.valid is Some,
        meta.valid->Some_0 == r.replicates.filter(
            |replicate: Seq<ModelRating<R>>| rates_every(replicate, ratings),
        ).len(),
        meta.unavailable is None <==> forall|k: int|
            0 <= k < 1000 ==> rates_every(#[trigger] r.replicates[k], ratings),
        meta.unavailable is None ==> {
            &&& r.columns.len() == ratings.len()
            &&& forall|i: int|
                0 <= i < ratings.len() ==> (#[trigger] r.columns[i]).len() == 1000
            &&& forall|i: int, k: int|
                0 <= i < ratings.len() && 0 <= k < 1000 ==> rates_as(
                    #[trigger] r.replicates[k],
                    (#[trigger] ratings[i]).model@,
                    r.columns[i][k],
                )
            &&& forall|i: int|
                0 <= i < ratings.len() ==> {
                    &&& (#[trigger] ratings[i]).rating_lower is Some
                    &&& ratings[i].rating_upper is Some
                    &&& exists|values: Vec<R>|
                        values@ == r.columns[i] && #[trigger] percentile.ensures(
                            (&values, 25),
                            ratings[i].rating_lower->Some_0,
                        )
                    &&& exists|values: Vec<R>|
                        values@ == r.columns[i] && #[trigger] percentile.ensures(
                            (&values, 975),
                            ratings[i].rating_upper->Some_0,
                        )
                }
        },
        meta.unavailable is Some ==> forall|i: int|
            0 <= i < ratings.len() ==> (#[trigger] ratings[i]).rating_lower is None
                && ratings[i].rating_upper is None,
{
    let (point, clusters) = resampled_from(
        ratings,
        meta,
        judgments,
        models,
        seed,
        fit,
        percentile,
    );
    let samples = choose|samples: Seq<Option<Vec<R>>>| #[trigger]
        are_samples(samples, point, clusters, seed, models, fit) && are_resampled(
            ratings,
            meta,
            point,
            samples,
            seed,
            meta.clusters,
            percentile,
        );
    valid_bounded(samples);
    let n = clusters.len();
    let rows = Seq::new(1000, |k: int| drawn_row(seed, n, k as nat));
    let replicates = Seq::new(
        1000,
        |k: int|
            choose|replicate: Seq<ModelRating<R>>| #[trigger]
                are_rated(replicate, replicate_of(clusters, rows[k]), models, fit) && sample_view(
                    samples[k],
                ) == sample_of(point, replicate),
    );
    let columns = Seq::new(
        ratings.len(),
        |i: int| Seq::new(1000, |k: int| samples[k]->Some_0@[i]),
    );
    assert(ratings.len() == point.len());
    assert forall|i: int| 0 <= i < ratings.len() implies (#[trigger] ratings[i]).model
        == point[i].model by {
        if valid_count(samples) == samples.len() {
            assert(has_interval(ratings[i], point[i], column_of(samples, i), percentile));
        }
    }
    assert forall|k: int| 0 <= k < 1000 implies are_rated(
        #[trigger] replicates[k],
        replicate_of(clusters, rows[k]),
        models,
        fit,
    ) && sample_view(samples[k]) == sample_of(point, replicates[k]) by {
        assert(is_nth_sample(samples[k], k, point, clusters, seed, models, fit));
        assert(is_sample(samples[k], point, clusters, rows[k], models, fit));
    }
    assert forall|k: int, i: int| 0 <= k < 1000 && 0 <= i < n implies (#[trigger] rows[k][i])
        == nth_draw(seed, n as u64, (k * n + i) as nat) && 0 <= rows[k][i] < n by {
        assert(is_nth_sample(samples[k], k, point, clusters, seed, models, fit));
        assert(are_places(rows[k], n));
    }
    assert forall|k: int| 0 <= k < 1000 implies ((#[trigger] samples[k]) is Some <==> rates_every(
        replicates[k],
        ratings,
    )) by {
        let replicate = replicates[k];
        assert(sample_view(samples[k]) == sample_of(point, replicate));
        assert(samples[k] is Some <==> rates_all(point, replicate));
        assert forall|i: int| 0 <= i < ratings.len() implies (rating_under(
            replicate,
            (#[trigger] ratings[i]).model@,
        ) is Some <==> exists|j: int|
            0 <= j < replicate.len() && (#[trigger] replicate[j]).model@ == ratings[i].model@
                && replicate[j].rating is Some) by {
            under_is_rates_as(replicate, ratings[i].model@);
        }
        if rates_every(replicate, ratings) {
            assert forall|i: int| 0 <= i < point.len() implies rating_under(
                replicate,
                (#[trigger] point[i]).model@,
            ) is Some by {
                assert(ratings[i].model == point[i].model);
            }
        }
        if rates_all(point, replicate) {
            assert forall|i: int| 0 <= i < ratings.len() implies exists|j: int|
                0 <= j < replicate.len() && (#[trigger] replicate[j]).model@ == (
                #[trigger] ratings[i]).model@ && replicate[j].rating is Some by {
                assert(rating_under(replicate, point[i].model@) is Some);
            }
        }
    }
    valid_are_filtered(
        samples,
        replicates,
        |replicate: Seq<ModelRating<R>>| rates_every(replicate, ratings),
    );
    if meta.unavailable is None {
        assert(valid_count(samples) == samples.len());
        assert forall|i: int, k: int| 0 <= i < ratings.len() && 0 <= k < 1000 implies rates_as(
            #[trigger] replicates[k],
            (#[trigger] ratings[i]).model@,
            columns[i][k],
        ) by {
            assert(samples[k] is Some);
            assert(sample_view(samples[k]) == sample_of(point, replicates[k]));
            assert(rating_under(replicates[k], point[i].model@) is Some);
            under_is_rates_as(replicates[k], point[i].model@);
        }
        assert forall|i: int| 0 <= i < ratings.len() implies {
            &&& (#[trigger] ratings[i]).rating_lower is Some
            &&& ratings[i].rating_upper is Some
            &&& exists|values: Vec<R>|
                values@ == columns[i] && #[trigger] percentile.ensures(
                    (&values, 25),
                    ratings[i].rating_lower->Some_0,
                )
            &&& exists|values: Vec<R>|
                values@ == columns[i] && #[trigger] percentile.ensures(
                    (&values, 975),
                    ratings[i].rating_upper->Some_0,
                )
        } by {
            assert(has_interval(ratings[i], point[i], column_of(samples, i), percentile));
            assert(columns[i] =~= column_of(samples, i));
            let low = ratings[i].rating_lower->Some_0;
            let high = ratings[i].rating_upper->Some_0;
            let lower = choose|values: Vec<R>|
                values@ == column_of(samples, i) && #[trigger] may_return(
                    percentile,
                    values,
                    LOWER_PERMILLE,
                    low,
                );
            let upper = choose|values: Vec<R>|
                values@ == column_of(samples, i) && #[trigger] may_return(
                    percentile,
                    values,
                    UPPER_PERMILLE,
                    high,
                );
            assert(percentile.ensures((&lower, 25), low));
            assert(percentile.ensures((&upper, 975), high));
        }
    } else {
        assert(valid_count(samples) < samples.len());
    }
    if forall|k: int| 0 <= k < 1000 ==> rates_every(#[trigger] replicates[k], ratings) {
        assert forall|k: int| 0 <= k < samples.len() implies (#[trigger] samples[k]) is Some by {
            assert(rates_every(replicates[k], ratings));
        }
    }
    Resampling { clusters, rows, replicates, columns }
}

/// Resampling is left out exactly with fewer than two tasks among the judgments,
/// or where some model has no rating, or there is none to rate; the ratings then
/// have no intervals and are those of all the judgments.
pub proof fn resampling_needs_tasks_and_ratings<
    R,
    F: Fn(&Tally) -> Result<Vec<R>, FitFailure>,
    P: Fn(&Vec<R>, u32) -> R,
>(
    ratings: Seq<ModelRating<R>>,
    meta: BootstrapMeta,
    judgments: Seq<Judgment>,
    models: Seq<ModelId>,
    seed: u64,
    fit: F,
    percentile: P,
)
    requires
        are_uncertain(ratings, meta, judgments, models, seed, fit, percentile),
    ensures
        ({
            let unrated = ratings.len() == 0 || exists|i: int|
                0 <= i < ratings.len() && (#[trigger] ratings[i]).rating is None;
            &&& meta.ran <==> meta.clusters >= 2 && !unrated
            &&& meta.unavailable == Some(BootstrapUnavailable::TooFewTasks) <==> meta.clusters < 2
            &&& meta.unavailable == Some(BootstrapUnavailable::OriginalUnrated) <==> meta.clusters
                >= 2 && unrated
            &&& !meta.ran ==> are_rated(ratings, judgments, models, fit) && meta.valid is None
            &&& !meta.ran ==> forall|i: int|
                0 <= i < ratings.len() ==> (#[trigger] ratings[i]).rating_lower is None
                    && ratings[i].rating_upper is None
        }),
        meta.seed == seed,
        meta.replicates == 1000,
{
    let (point, clusters) = resampled_from(
        ratings,
        meta,
        judgments,
        models,
        seed,
        fit,
        percentile,
    );
    if obstacle_to(point, clusters.len() as int) is None {
        let samples = choose|samples: Seq<Option<Vec<R>>>| #[trigger]
            are_samples(samples, point, clusters, seed, models, fit) && are_resampled(
                ratings,
                meta,
                point,
                samples,
                seed,
                meta.clusters,
                percentile,
            );
        valid_bounded(samples);
        assert forall|i: int| 0 <= i < ratings.len() implies (#[trigger] ratings[i]).rating
            is Some by {
            if valid_count(samples) == samples.len() {
                assert(has_interval(ratings[i], point[i], column_of(samples, i), percentile));
            }
            assert(point[i].rating is Some);
        }
    }
}

/// Whatever `group_by_task` returns has the judgments of each task together, all
/// of them and in their order, and no two groups of one task.
#[verifier::spinoff_prover]
#[verifier::rlimit(40)]
pub proof fn groups_are_the_tasks(judgments: &[Judgment], clusters: Vec<Vec<Judgment>>)
    requires
        call_ensures(group_by_task, (judgments,), clusters),
    ensures
        forall|c: int|
            0 <= c < clusters@.len() ==> {
                let id = (#[trigger] clusters@[c])@[0].task_id@;
                &&& clusters@[c]@.len() > 0
                &&& clusters@[c]@ == judgments@.filter(
                    |judgment: Judgment| judgment.task_id@ == id,
                )
            },
        forall|c: int, d: int|
            0 <= c < d < clusters@.len() ==> (#[trigger] clusters@[c])@[0].task_id@ != (
            #[trigger] clusters@[d])@[0].task_id@,
        forall|k: int|
            0 <= k < judgments@.len() ==> exists|c: int|
                0 <= c < clusters@.len() && (#[trigger] clusters@[c])@[0].task_id@ == (
                #[trigger] judgments@[k]).task_id@,
        total_size(clusters@) == judgments@.len(),
{
    assert forall|c: int| 0 <= c < clusters@.len() implies {
        let id = (#[trigger] clusters@[c])@[0].task_id@;
        &&& clusters@[c]@.len() > 0
        &&& clusters@[c]@ == judgments@.filter(|judgment: Judgment| judgment.task_id@ == id)
    } by {
        a_task_has_the_judgments_with_its_id(judgments@, task_of(clusters@[c]));
    }
    assert forall|c: int, d: int| 0 <= c < d < clusters@.len() implies (
    #[trigger] clusters@[c])@[0].task_id@ != (#[trigger] clusters@[d])@[0].task_id@ by {
        lex_irreflexive(task_of(clusters@[c]));
        assert(lex_less(task_of(clusters@[c]), task_of(clusters@[d])));
    }
    assert forall|k: int| 0 <= k < judgments@.len() implies exists|c: int|
        0 <= c < clusters@.len() && (#[trigger] clusters@[c])@[0].task_id@ == (
        #[trigger] judgments@[k]).task_id@ by {
        let id = judgments@[k].task_id@;
        assert(has_task(judgments@, id));
        assert(clusters_task(clusters@, id));
        let c = choose|c: int|
            0 <= c < clusters@.len() && task_of(#[trigger] clusters@[c]) == id;
        assert(clusters@[c]@[0].task_id@ == id);
    }
    clusters_lose_nothing(clusters@, judgments@);
}

/// Whatever `assign_bounds` returns has for every model the percentiles of its
/// own values: those that stand at its place in each sample.
pub proof fn bounds_come_from_a_models_own_values<R: Copy, P: Fn(&Vec<R>, u32) -> R>(
    point: &Vec<ModelRating<R>>,
    samples: &Vec<Option<Vec<R>>>,
    percentile: &P,
    ratings: Vec<ModelRating<R>>,
    i: int,
) -> (values: (Vec<R>, Vec<R>))
    requires
        call_ensures(assign_bounds::<R, P>, (point, samples, percentile), ratings),
        0 <= i < point@.len(),
    ensures
        ratings@.len() == point@.len(),
        ratings@[i].model == point@[i].model,
        ratings@[i].rating == point@[i].rating,
        ratings@[i].unavailable == point@[i].unavailable,
        ratings@[i].rating_lower is Some && ratings@[i].rating_upper is Some,
        values.0@ == values.1@,
        values.0@.len() == samples@.len(),
        forall|k: int|
            0 <= k < samples@.len() ==> #[trigger] values.0@[k] == samples@[k]->Some_0@[i],
        percentile.ensures((&values.0, 25), ratings@[i].rating_lower->Some_0),
        percentile.ensures((&values.1, 975), ratings@[i].rating_upper->Some_0),
{
    let column = column_of(samples@, i);
    assert(has_interval(ratings@[i], point@[i], column, *percentile));
    let low = ratings@[i].rating_lower->Some_0;
    let high = ratings@[i].rating_upper->Some_0;
    let lower = choose|values: Vec<R>|
        values@ == column && #[trigger] may_return(*percentile, values, LOWER_PERMILLE, low);
    let upper = choose|values: Vec<R>|
        values@ == column && #[trigger] may_return(*percentile, values, UPPER_PERMILLE, high);
    assert(may_return(*percentile, lower, 25, low));
    assert(may_return(*percentile, upper, 975, high));
    (lower, upper)
}

/// Whatever `finite_for_all` returns of a replicate that lists each model once
/// has at every model's place the rating that the replicate gives to the model of
/// that name, and nothing comes back if the replicate leaves one of them without
/// a rating.
#[verifier::spinoff_prover]
#[verifier::rlimit(40)]
pub proof fn samples_are_in_the_order_of_the_models<R: Copy>(
    original: &[ModelRating<R>],
    replicate: &[ModelRating<R>],
    r: Option<Vec<R>>,
)
    requires
        call_ensures(finite_for_all::<R>, (original, replicate), r),
        forall|s: int, t: int|
            0 <= s < t < replicate@.len() ==> (#[trigger] replicate@[s]).model@ != (
            #[trigger] replicate@[t]).model@,
    ensures
        r is Some <==> rates_every(replicate@, original@),
        r matches Some(values) ==> {
            &&& values@.len() == original@.len()
            &&& forall|i: int|
                0 <= i < original@.len() ==> rates_as(
                    replicate@,
                    (#[trigger] original@[i]).model@,
                    values@[i],
                )
        },
{
    let ratings = replicate@;
    assert forall|i: int| 0 <= i < original@.len() implies {
        let name = (#[trigger] original@[i]).model@;
        &&& rating_under(ratings, name) is Some ==> rates_as(
            ratings,
            name,
            rating_under(ratings, name)->Some_0,
        )
        &&& rating_under(ratings, name) is Some <==> exists|j: int|
            0 <= j < ratings.len() && (#[trigger] ratings[j]).model@ == name && ratings[j].rating
                is Some
    } by {
        let name = original@[i].model@;
        found_under(ratings, name);
        if rating_under(ratings, name) is Some {
            let j = choose|j: int|
                {
                    &&& 0 <= j < ratings.len()
                    &&& (#[trigger] ratings[j]).model@ == name
                    &&& ratings[j].rating == rating_under(ratings, name)
                };
            assert forall|t: int| 0 <= t < ratings.len() && (
            #[trigger] ratings[t]).model@ == name implies t == j by {
                assert(!(t < j) && !(j < t));
            }
        } else if exists|j: int|
            0 <= j < ratings.len() && (#[trigger] ratings[j]).model@ == name && ratings[j].rating
                is Some {
            let j = choose|j: int|
                0 <= j < ratings.len() && (#[trigger] ratings[j]).model@ == name
                    && ratings[j].rating is Some;
            let t = choose|t: int|
                0 <= t <= j && (#[trigger] ratings[t]).model@ == name && ratings[t].rating is None;
            assert(t == j || ratings[t].model@ != ratings[j].model@);
        }
    }
    if rates_every(ratings, original@) {
        assert forall|i: int| 0 <= i < original@.len() implies rating_under(
            ratings,
            (#[trigger] original@[i]).model@,
        ) is Some by {
            let name = original@[i].model@;
            assert(exists|j: int|
                0 <= j < ratings.len() && (#[trigger] ratings[j]).model@ == name
                    && ratings[j].rating is Some);
        }
        assert(rates_all(original@, ratings));
    }
}

/// What `rate_with_uncertainty` returns is judged by the same ratings as what
/// `rate` returns, with intervals added to all of them or to none.
pub proof fn uncertainty_leaves_the_ratings<
    R: Copy,
    F: Fn(&Tally) -> Result<Vec<R>, FitFailure>,
    P: Fn(&Vec<R>, u32) -> R,
>(
    judgments: &[Judgment],
    models: &[ModelId],
    seed: u64,
    fit: &F,
    percentile: &P,
    r: (Vec<ModelRating<R>>, BootstrapMeta),
    plain: Vec<ModelRating<R>>,
)
    requires
        call_ensures(
            rate_with_uncertainty::<R, F, P>,
            (judgments, models, seed, fit, percentile),
            r,
        ),
        call_ensures(rate::<R, F>, (judgments, models, fit), plain),
        is_steady(*fit),
    ensures
        r.0@.len() == plain@.len(),
        forall|i: int|
            0 <= i < plain@.len() ==> {
                &&& (#[trigger] r.0@[i]).model@ == plain@[i].model@
                &&& r.0@[i].rating == plain@[i].rating
                &&& r.0@[i].unavailable == plain@[i].unavailable
                &&& r.0@[i].rating_lower is Some <==> r.1.unavailable is None
                &&& r.0@[i].rating_upper is Some <==> r.1.unavailable is None
            },
        r.1.seed == seed,
        r.1.replicates == 1000,
{
    record_is_consistent(r.0@, r.1, judgments@, models@, seed, *fit, *percentile);
    let ratings = r.0@;
    let point = choose|point: Seq<ModelRating<R>>|
        {
            &&& #[trigger] are_rated(point, judgments@, models@, *fit)
            &&& point.len() == ratings.len()
            &&& forall|i: int|
                0 <= i < ratings.len() ==> (#[trigger] ratings[i]).model == point[i].model
                    && ratings[i].rating == point[i].rating && ratings[i].unavailable
                    == point[i].unavailable
        };
    reordered_judgments_count_alike(judgments@, judgments@);
    ratings_depend_on_counts(point, plain@, judgments@, judgments@, models@, *fit);
    assert(same_ratings(point, plain@));
}

/// Whatever `rate_with_uncertainty` returns after resampling has for every model
/// the interval of the ratings that the model itself has in the replicates: each
/// replicate has the judgments of as many tasks as there are, drawn anew, and a
/// model's interval goes by its own ratings in all of them.
pub proof fn intervals_are_the_models_own<
    R: Copy,
    F: Fn(&Tally) -> Result<Vec<R>, FitFailure>,
    P: Fn(&Vec<R>, u32) -> R,
>(
    judgments: &[Judgment],
    models: &[ModelId],
    seed: u64,
    fit: &F,
    percentile: &P,
    r: (Vec<ModelRating<R>>, BootstrapMeta),
    i: int,
) -> (s: Resampling<R>)
    requires
        call_ensures(
            rate_with_uncertainty::<R, F, P>,
            (judgments, models, seed, fit, percentile),
            r,
        ),
        r.1.ran,
        r.1.unavailable is None,
        0 <= i < r.0@.len(),
    ensures
        s.replicates.len() == 1000 && s.rows.len() == 1000,
        forall|k: int|
            0 <= k < 1000 ==> (#[trigger] s.rows[k]).len() == s.clusters.len() && are_rated(
                s.replicates[k],
                replicate_of(s.clusters, s.rows[k]),
                models@,
                *fit,
            ),
        s.columns[i].len() == 1000,
        forall|k: int|
            0 <= k < 1000 ==> rates_as(
                #[trigger] s.replicates[k],
                r.0@[i].model@,
                s.columns[i][k],
            ),
        r.0@[i].rating_lower is Some && r.0@[i].rating_upper is Some,
        exists|values: Vec<R>|
            values@ == s.columns[i] && #[trigger] percentile.ensures(
                (&values, 25),
                r.0@[i].rating_lower->Some_0,
            ),
        exists|values: Vec<R>|
            values@ == s.columns[i] && #[trigger] percentile.ensures(
                (&values, 975),
                r.0@[i].rating_upper->Some_0,
            ),
{
    let s = intervals_come_from_a_models_own_replicates(
        r.0@,
        r.1,
        judgments@,
        models@,
        seed,
        *fit,
        *percentile,
    );
    assert(r.0@[i].rating_lower is Some);
    assert forall|k: int| 0 <= k < 1000 implies (#[trigger] s.rows[k]).len() == s.clusters.len()
        && are_rated(s.replicates[k], replicate_of(s.clusters, s.rows[k]), models@, *fit) by {
        assert(are_rated(s.replicates[k], replicate_of(s.clusters, s.rows[k]), models@, *fit));
    }
    s
}

/// Whatever `build_replicate` returns has the judgments of the drawn groups, one
/// group after the other.
pub proof fn replicates_are_the_drawn_groups(
    clusters: &[Vec<Judgment>],
    draws: &[usize],
    more: &[usize],
    r: Vec<Judgment>,
    longer: Vec<Judgment>,
    c: usize,
)
    requires
        call_ensures(build_replicate, (clusters, draws), r),
        call_ensures(build_replicate, (clusters, more), longer),
        more@ == draws@.push(c),
    ensures
        longer@ == r@ + clusters@[c as int]@,
        draws@.len() == 0 ==> r@.len() == 0,
{
    let one = row_of(draws@);
    let two = seq![c as int];
    assert(row_of(more@) =~= one + two);
    replicates_follow_the_draws(clusters@, one, two);
    replicates_follow_the_draws(clusters@, two, seq![]);
}

} // verus!
