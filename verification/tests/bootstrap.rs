use arena::bootstrap::{
    build_replicate, finite_for_all, group_by_task, rate_with_uncertainty, BootstrapUnavailable,
    BOOTSTRAP_REPLICATES,
};
use arena::judge::{JudgeDecision, Judgment};
use arena::provider::ModelId;
use arena::rating::{rate, FitFailure, ModelRating, Tally};
use rand::rngs::StdRng;
use rand::{Rng, SeedableRng};

const CENTER: f64 = 1500.0;

fn fit(tally: &Tally) -> Result<Vec<f64>, FitFailure> {
    let m = tally.wins.len();
    let mut strength = vec![1.0; m];
    let mut converged = false;
    for _ in 0..10_000 {
        let mut next = vec![0.0; m];
        let mut delta = 0.0_f64;
        for i in 0..m {
            let mut denom = 0.0;
            for j in 0..m {
                if i != j && tally.games[i][j] > 0 {
                    denom += tally.games[i][j] as f64 / (strength[i] + strength[j]);
                }
            }
            let wins = tally.wins[i] as f64 + 0.5 * tally.draws[i] as f64;
            next[i] = if denom > 0.0 { wins / denom } else { 0.0 };
            delta = delta.max((next[i] - strength[i]).abs());
        }
        let total: f64 = next.iter().sum();
        if total > 0.0 {
            for value in &mut next {
                *value /= total;
            }
        }
        strength = next;
        if delta < 1e-12 {
            converged = true;
            break;
        }
    }
    if !converged {
        return Err(FitFailure::Nonconvergence);
    }
    let logs: Vec<f64> = strength.iter().map(|value| value.ln()).collect();
    let mean = logs.iter().sum::<f64>() / m as f64;
    let scale = 400.0 / std::f64::consts::LN_10;
    Ok(logs.into_iter().map(|value| CENTER + scale * (value - mean)).collect())
}

fn percentile(values: &Vec<f64>, permille: u32) -> f64 {
    let p = permille as f64 / 1000.0;
    let mut xs = values.clone();
    xs.sort_by(f64::total_cmp);
    let n = xs.len();
    if n == 1 {
        return xs[0];
    }
    let index = (n - 1) as f64 * p;
    let lo = index.floor() as usize;
    let hi = (index.ceil() as usize).min(n - 1);
    let weight = index - lo as f64;
    xs[lo].mul_add(1.0 - weight, xs[hi] * weight)
}

fn judgment(task: &str, model_a: &str, model_b: &str, winner: JudgeDecision) -> Judgment {
    Judgment {
        task_id: task.into(),
        model_a: ModelId::new(model_a),
        model_b: ModelId::new(model_b),
        judge_model: ModelId::new("judge"),
        winner,
        reason: String::new(),
        duration_ms: 0,
        agreement: true,
        orientation_ab: None,
        orientation_ba: None,
        reason_ab: None,
        reason_ba: None,
        raw_ab: None,
        raw_ba: None,
        raw: None,
    }
}

fn cycle(task: &str) -> Vec<Judgment> {
    vec![
        judgment(task, "a", "b", JudgeDecision::A),
        judgment(task, "b", "c", JudgeDecision::A),
        judgment(task, "c", "a", JudgeDecision::A),
    ]
}

fn draws(task: &str) -> Vec<Judgment> {
    vec![
        judgment(task, "a", "b", JudgeDecision::Draw),
        judgment(task, "a", "c", JudgeDecision::Draw),
        judgment(task, "b", "c", JudgeDecision::Draw),
    ]
}

fn hierarchy(task: &str) -> Vec<Judgment> {
    vec![
        judgment(task, "a", "b", JudgeDecision::A),
        judgment(task, "a", "c", JudgeDecision::A),
        judgment(task, "b", "c", JudgeDecision::A),
    ]
}

fn rating_of(ratings: &[ModelRating<f64>], model: &str) -> Option<f64> {
    ratings.iter().find(|r| r.model == ModelId::new(model)).and_then(|r| r.rating)
}

fn all_bounds_absent(ratings: &[ModelRating<f64>]) -> bool {
    ratings.iter().all(|r| r.rating_lower.is_none() && r.rating_upper.is_none())
}

#[test]
fn cluster_multiplicity_repeats_every_judgment_in_a_selected_task() {
    let mut judgments = cycle("t1");
    judgments.extend(draws("t2"));
    let clusters = group_by_task(&judgments);
    assert_eq!(clusters.len(), 2);

    let first = &clusters[0];
    let sampled = build_replicate(&clusters, &[0, 0]);
    assert_eq!(sampled.len(), first.len() * 2);
    assert_eq!(&sampled[..first.len()], first.as_slice());
    assert_eq!(&sampled[first.len()..], first.as_slice());
    assert!(sampled.iter().all(|j| j.task_id == first[0].task_id));
}

#[test]
fn task_integrity_keeps_a_task_cluster_together() {
    let mut judgments = cycle("t1");
    judgments.extend(draws("t2"));
    let clusters = group_by_task(&judgments);
    assert_eq!(build_replicate(&clusters, &[0]), clusters[0]);
    assert_eq!(build_replicate(&clusters, &[1]), clusters[1]);

    let sampled = build_replicate(&clusters, &[0, 1]);
    assert_eq!(&sampled[..clusters[0].len()], clusters[0].as_slice());
    assert_eq!(&sampled[clusters[0].len()..], clusters[1].as_slice());
}

#[test]
fn orientation_fields_do_not_change_bootstrap_input() {
    let mut judgments = cycle("t1");
    judgments.extend(draws("t2"));
    let mut oriented = judgments.clone();
    for judgment in &mut oriented {
        judgment.orientation_ab = Some(JudgeDecision::B);
        judgment.orientation_ba = Some(JudgeDecision::A);
        judgment.agreement = false;
    }

    let clusters = group_by_task(&judgments);
    let oriented_clusters = group_by_task(&oriented);
    let first = build_replicate(&clusters, &[0, 1]);
    let second = build_replicate(&oriented_clusters, &[0, 1]);
    assert_eq!(
        first
            .iter()
            .map(|j| (&j.task_id, &j.model_a, &j.model_b, &j.winner))
            .collect::<Vec<_>>(),
        second
            .iter()
            .map(|j| (&j.task_id, &j.model_a, &j.model_b, &j.winner))
            .collect::<Vec<_>>(),
    );

    assert_eq!(
        rate_with_uncertainty(&judgments, &[], 0, &fit, &percentile),
        rate_with_uncertainty(&oriented, &[], 0, &fit, &percentile)
    );
}

#[test]
fn one_task_keeps_point_ratings_without_bounds() {
    let judgments = draws("t1");
    let (ratings, meta) = rate_with_uncertainty(&judgments, &[], 0, &fit, &percentile);
    assert_eq!(rate(&judgments, &[], &fit), ratings);
    assert_eq!(rating_of(&ratings, "a"), Some(1500.0));
    assert!(all_bounds_absent(&ratings));
    assert!(!meta.ran);
    assert_eq!(meta.valid, None);
    assert_eq!(meta.clusters, 1);
    assert_eq!(meta.unavailable, Some(BootstrapUnavailable::TooFewTasks));
}

#[test]
fn original_invalid_ratings_skip_bootstrap() {
    let judgments = [
        judgment("t1", "a", "b", JudgeDecision::A),
        judgment("t2", "c", "d", JudgeDecision::A),
    ];
    let (ratings, meta) = rate_with_uncertainty(&judgments, &[], 0, &fit, &percentile);
    assert_eq!(rate(&judgments, &[], &fit), ratings);
    assert!(ratings.iter().all(|r| r.rating.is_none()));
    assert!(all_bounds_absent(&ratings));
    assert!(!meta.ran);
    assert_eq!(meta.valid, None);
    assert_eq!(meta.clusters, 2);
    assert_eq!(meta.unavailable, Some(BootstrapUnavailable::OriginalUnrated));
}

#[test]
fn invalid_replicate_omits_all_bounds_and_keeps_point_ratings() {
    let mut judgments = cycle("t1");
    judgments.extend(hierarchy("t2"));
    let point = rate(&judgments, &[], &fit);
    assert!(point.iter().all(|r| r.rating.is_some()));

    let (ratings, meta) = rate_with_uncertainty(&judgments, &[], 0, &fit, &percentile);
    assert!(meta.ran);
    assert_eq!(meta.seed, 0);
    assert_eq!(meta.replicates, BOOTSTRAP_REPLICATES);
    assert!(meta.valid.unwrap() < BOOTSTRAP_REPLICATES);
    assert_eq!(meta.unavailable, Some(BootstrapUnavailable::InvalidReplicates));
    assert_eq!(
        ratings.iter().map(|r| (r.model.clone(), r.rating)).collect::<Vec<_>>(),
        point.iter().map(|r| (r.model.clone(), r.rating)).collect::<Vec<_>>()
    );
    assert!(all_bounds_absent(&ratings));
}

#[test]
fn same_seed_is_deterministic() {
    let mut judgments = cycle("t1");
    judgments.extend(draws("t2"));
    let first = rate_with_uncertainty(&judgments, &[], 0, &fit, &percentile);
    let second = rate_with_uncertainty(&judgments, &[], 0, &fit, &percentile);
    assert_eq!(first, second);
    let meta = first.1;
    assert!(meta.ran);
    assert_eq!(meta.seed, 0);
    assert_eq!(meta.replicates, BOOTSTRAP_REPLICATES);
    assert_eq!(meta.valid, Some(BOOTSTRAP_REPLICATES));
    assert_eq!(meta.unavailable, None);
    assert!(first.0.iter().all(|r| r.rating_lower.is_some() && r.rating_upper.is_some()));
}

#[test]
fn resampling_draws_clusters_unevenly() {
    // With two clusters, about a quarter of the replicates draw only the
    // hierarchy, which cannot be rated; the others can.
    let mut judgments = cycle("t1");
    judgments.extend(hierarchy("t2"));
    let (_, meta) = rate_with_uncertainty(&judgments, &[], 0, &fit, &percentile);
    let valid = meta.valid.unwrap();
    assert!(valid > 650 && valid < 850, "{valid}");
    let (_, other) = rate_with_uncertainty(&judgments, &[], 1, &fit, &percentile);
    assert_eq!(other.seed, 1);
    assert_ne!(other.valid, None);
}

#[test]
fn rows_are_drawn_one_after_the_other_from_one_generator() {
    // A replicate can be rated if its row holds the cycle, which is the first
    // cluster.
    let mut judgments = cycle("t1");
    judgments.extend(hierarchy("t2"));
    judgments.extend(hierarchy("t3"));
    for seed in [0, 1, 7] {
        let mut rng = StdRng::seed_from_u64(seed);
        let mut rated: u32 = 0;
        for _ in 0..BOOTSTRAP_REPLICATES {
            let row: Vec<u64> = (0..3).map(|_| rng.gen_range(0..3)).collect();
            if row.contains(&0) {
                rated += 1;
            }
        }
        let (_, meta) = rate_with_uncertainty(&judgments, &[], seed, &fit, &percentile);
        assert_eq!(meta.clusters, 3);
        assert_eq!(meta.valid, Some(rated));
    }
}

#[test]
fn clusters_are_sorted_and_lose_nothing() {
    let judgments = vec![
        judgment("t2", "a", "b", JudgeDecision::A),
        judgment("t1", "a", "b", JudgeDecision::B),
        judgment("t10", "a", "b", JudgeDecision::A),
        judgment("t2", "b", "c", JudgeDecision::Draw),
    ];
    let clusters = group_by_task(&judgments);
    let ids: Vec<_> = clusters.iter().map(|c| c[0].task_id.clone()).collect();
    assert_eq!(ids, vec!["t1", "t10", "t2"]);
    assert_eq!(clusters.iter().map(Vec::len).sum::<usize>(), judgments.len());
    assert_eq!(clusters[2], vec![judgments[0].clone(), judgments[3].clone()]);
    assert!(group_by_task(&[]).is_empty());
}

#[test]
fn replicates_hold_a_task_once_per_draw() {
    let mut judgments = cycle("t1");
    judgments.extend(draws("t2"));
    let clusters = group_by_task(&judgments);
    let sampled = build_replicate(&clusters, &[1, 0, 1, 1]);
    assert_eq!(sampled.iter().filter(|j| j.task_id == "t2").count(), 9);
    assert_eq!(sampled.iter().filter(|j| j.task_id == "t1").count(), 3);
    assert!(build_replicate(&clusters, &[]).is_empty());
}

fn rated(model: &str, rating: Option<u32>) -> ModelRating<u32> {
    ModelRating {
        model: ModelId::new(model),
        rating,
        rating_lower: None,
        rating_upper: None,
        unavailable: None,
    }
}

#[test]
fn a_sample_needs_every_model_of_the_original() {
    let original = [rated("a", Some(1)), rated("b", Some(2))];
    assert_eq!(
        finite_for_all(&original, &[rated("b", Some(20)), rated("a", Some(10))]),
        Some(vec![10, 20])
    );
    assert_eq!(finite_for_all(&original, &[rated("a", Some(10))]), None);
    assert_eq!(finite_for_all(&original, &[rated("a", Some(10)), rated("b", None)]), None);
    assert_eq!(finite_for_all::<u32>(&[], &[]), Some(vec![]));
}

#[test]
fn bounds_are_the_percentiles_of_the_samples() {
    let mut judgments = cycle("t1");
    judgments.extend(draws("t2"));
    let constant = |tally: &Tally| -> Result<Vec<u32>, FitFailure> { Ok(vec![7; tally.wins.len()]) };
    let position = |values: &Vec<u32>, permille: u32| values.len() as u32 * permille;
    let (ratings, meta) = rate_with_uncertainty(&judgments, &[], 3, &constant, &position);
    assert_eq!(meta.valid, Some(1000));
    for rating in &ratings {
        assert_eq!(rating.rating, Some(7));
        assert_eq!(rating.rating_lower, Some(25_000));
        assert_eq!(rating.rating_upper, Some(975_000));
    }
}

#[test]
fn persisted_judgments_reproduce_the_intervals() {
    let mut judgments = cycle("t1");
    judgments.extend(draws("t2"));
    judgments.extend(cycle("t3"));
    let first = rate_with_uncertainty(&judgments, &[], 42, &fit, &percentile);
    for judgment in &mut judgments {
        judgment.raw = Some("not persisted".into());
        judgment.reason = "reworded".into();
    }
    assert_eq!(rate_with_uncertainty(&judgments, &[], 42, &fit, &percentile), first);
    assert_eq!(first.1.clusters, 3);
}
