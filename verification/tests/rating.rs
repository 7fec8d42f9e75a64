use arena::graph::{add_directed_edge, classes, reachable_count, strongly_connected};
use arena::judge::{JudgeDecision, Judgment};
use arena::provider::ModelId;
use arena::rating::{
    apply_fit, bouts, plan_ratings, rate, Bout, FitFailure, ModelRating, Standing, Tally,
    UnavailableReason,
};
use arena::roster::roster;

const CENTER: f64 = 1500.0;
const MAX_ITERS: u32 = 10_000;

fn fit_within(tally: &Tally, max_iters: u32) -> Result<Vec<f64>, FitFailure> {
    let m = tally.wins.len();
    let mut strength = vec![1.0; m];
    let mut converged = false;
    for _ in 0..max_iters {
        let mut next = vec![0.0; m];
        let mut delta = 0.0_f64;
        for i in 0..m {
            let mut denom = 0.0;
            for j in 0..m {
                if i != j && tally.games[i][j] > 0 {
                    denom += tally.games[i][j] as f64 / (strength[i] + strength[j]);
                }
            }
            let wins = tally.wins[i] as f64 + 0.5 * tally.draws[i] as f64;
            next[i] = if denom > 0.0 { wins / denom } else { 0.0 };
            delta = delta.max((next[i] - strength[i]).abs());
        }
        let total: f64 = next.iter().sum();
        if total > 0.0 {
            for value in &mut next {
                *value /= total;
            }
        }
        strength = next;
        if delta < 1e-12 {
            converged = true;
            break;
        }
    }
    if !converged {
        return Err(FitFailure::Nonconvergence);
    }
    if strength.iter().any(|value| !value.is_finite() || *value <= 0.0) {
        return Err(FitFailure::NonfiniteResult);
    }
    let logs: Vec<f64> = strength.iter().map(|value| value.ln()).collect();
    let mean = logs.iter().sum::<f64>() / m as f64;
    let scale = 400.0 / std::f64::consts::LN_10;
    Ok(logs.into_iter().map(|value| CENTER + scale * (value - mean)).collect())
}

fn fit(tally: &Tally) -> Result<Vec<f64>, FitFailure> {
    fit_within(tally, MAX_ITERS)
}

fn judgment(model_a: &str, model_b: &str, winner: JudgeDecision) -> Judgment {
    Judgment {
        task_id: "t1".into(),
        model_a: ModelId::new(model_a),
        model_b: ModelId::new(model_b),
        judge_model: ModelId::new("judge"),
        winner,
        reason: String::new(),
        duration_ms: 0,
        agreement: true,
        orientation_ab: None,
        orientation_ba: None,
        reason_ab: None,
        reason_ba: None,
        raw_ab: None,
        raw_ba: None,
        raw: None,
    }
}

fn rating_of<'a>(ratings: &'a [ModelRating<f64>], model: &str) -> Option<&'a ModelRating<f64>> {
    ratings.iter().find(|r| r.model == ModelId::new(model))
}

fn rating(ratings: &[ModelRating<f64>], model: &str) -> Option<f64> {
    rating_of(ratings, model).and_then(|r| r.rating)
}

fn unavailable(ratings: &[ModelRating<f64>], model: &str) -> Option<UnavailableReason> {
    rating_of(ratings, model).and_then(|r| r.unavailable)
}

fn all_unavailable(ratings: &[ModelRating<f64>], models: &[&str], reason: UnavailableReason) {
    for model in models {
        assert_eq!(rating(ratings, model), None, "{model}");
        assert_eq!(unavailable(ratings, model), Some(reason), "{model}");
    }
}

#[test]
fn two_player_strict_win_has_no_finite_ratings() {
    for judgments in [
        vec![judgment("a", "b", JudgeDecision::A)],
        vec![
            judgment("a", "b", JudgeDecision::A),
            judgment("a", "b", JudgeDecision::A),
        ],
    ] {
        let ratings = rate(&judgments, &[], &fit);
        all_unavailable(&ratings, &["a", "b"], UnavailableReason::Separated);
    }
}

#[test]
fn all_draws_produce_equal_ratings() {
    let ratings = rate(
        &[
            judgment("a", "b", JudgeDecision::Draw),
            judgment("a", "c", JudgeDecision::Draw),
            judgment("b", "c", JudgeDecision::Draw),
        ],
        &[],
        &fit,
    );
    assert_eq!(rating(&ratings, "a"), Some(CENTER));
    assert_eq!(rating(&ratings, "b"), Some(CENTER));
    assert_eq!(rating(&ratings, "c"), Some(CENTER));
    assert_eq!(unavailable(&ratings, "a"), None);
    assert_eq!(unavailable(&ratings, "b"), None);
    assert_eq!(unavailable(&ratings, "c"), None);
}

#[test]
fn reordering_judgments_preserves_ratings() {
    let first = rate(
        &[
            judgment("a", "b", JudgeDecision::A),
            judgment("b", "c", JudgeDecision::B),
            judgment("a", "c", JudgeDecision::Draw),
        ],
        &[],
        &fit,
    );
    let second = rate(
        &[
            judgment("a", "c", JudgeDecision::Draw),
            judgment("b", "c", JudgeDecision::B),
            judgment("a", "b", JudgeDecision::A),
        ],
        &[],
        &fit,
    );
    assert_eq!(first, second);
}

#[test]
fn agreed_orientations_do_not_double_count_a_resolved_win() {
    let ab = judgment("a", "b", JudgeDecision::A);
    let bc = judgment("b", "c", JudgeDecision::A);
    let ca = judgment("c", "a", JudgeDecision::A);
    let mut agreed_ab = ab.clone();
    agreed_ab.orientation_ab = Some(JudgeDecision::A);
    agreed_ab.orientation_ba = Some(JudgeDecision::A);

    let one_resolved = rate(&[ab.clone(), bc.clone(), ca.clone()], &[], &fit);
    let one_agreed = rate(&[agreed_ab, bc.clone(), ca.clone()], &[], &fit);
    assert_eq!(one_resolved, one_agreed);
    assert!(one_agreed.iter().all(|r| r.unavailable.is_none()));

    let two_resolved = rate(&[ab.clone(), ab, bc, ca], &[], &fit);
    assert!(
        rating(&two_resolved, "a").unwrap() - rating(&two_resolved, "b").unwrap()
            > rating(&one_agreed, "a").unwrap() - rating(&one_agreed, "b").unwrap()
    );
}

#[test]
fn three_model_complete_separation_has_no_finite_ratings() {
    let with_draw = rate(
        &[
            judgment("a", "b", JudgeDecision::A),
            judgment("a", "c", JudgeDecision::A),
            judgment("b", "c", JudgeDecision::Draw),
        ],
        &[],
        &fit,
    );
    all_unavailable(&with_draw, &["a", "b", "c"], UnavailableReason::Separated);

    let with_split = rate(
        &[
            judgment("a", "b", JudgeDecision::A),
            judgment("a", "c", JudgeDecision::A),
            judgment("b", "c", JudgeDecision::A),
            judgment("b", "c", JudgeDecision::B),
        ],
        &[],
        &fit,
    );
    all_unavailable(&with_split, &["a", "b", "c"], UnavailableReason::Separated);
}

#[test]
fn disconnected_draw_pairs_do_not_share_a_rating_scale() {
    let connected = rate(&[judgment("a", "b", JudgeDecision::Draw)], &[], &fit);
    assert_eq!(rating(&connected, "a"), Some(CENTER));
    assert_eq!(rating(&connected, "b"), Some(CENTER));
    assert_eq!(unavailable(&connected, "a"), None);
    assert_eq!(unavailable(&connected, "b"), None);

    let ratings = rate(
        &[
            judgment("a", "b", JudgeDecision::Draw),
            judgment("c", "d", JudgeDecision::Draw),
        ],
        &[],
        &fit,
    );
    assert_eq!(ratings.len(), 4);
    all_unavailable(&ratings, &["a", "b", "c", "d"], UnavailableReason::Disconnected);
}

#[test]
fn requested_model_without_judgments_is_present_and_unrated() {
    let ratings = rate(
        &[judgment("a", "b", JudgeDecision::Draw)],
        &[ModelId::new("a"), ModelId::new("b"), ModelId::new("c")],
        &fit,
    );
    assert_eq!(ratings.len(), 3);
    assert_eq!(rating(&ratings, "a"), Some(CENTER));
    assert_eq!(rating(&ratings, "b"), Some(CENTER));
    assert_eq!(unavailable(&ratings, "a"), None);
    assert_eq!(unavailable(&ratings, "c"), Some(UnavailableReason::NoComparisons));
    assert_eq!(rating(&ratings, "c"), None);
}

#[test]
fn iteration_limit_without_convergence_returns_no_finite_ratings() {
    let judgments = [
        judgment("a", "b", JudgeDecision::A),
        judgment("a", "b", JudgeDecision::A),
        judgment("b", "c", JudgeDecision::A),
        judgment("c", "a", JudgeDecision::A),
    ];
    let ratings = rate(&judgments, &[], &fit);
    assert!(
        ratings.iter().all(|model| model.rating.is_some() && model.unavailable.is_none()),
        "identified cycle should fit with the default iteration limit"
    );

    let hasty = |tally: &Tally| fit_within(tally, 1);
    let ratings = rate(&judgments, &[], &hasty);
    all_unavailable(&ratings, &["a", "b", "c"], UnavailableReason::Nonconvergence);
}

#[test]
fn fits_without_finite_values_are_reported() {
    let failing = |_: &Tally| -> Result<Vec<f64>, FitFailure> { Err(FitFailure::NonfiniteResult) };
    let ratings = rate(&[judgment("a", "b", JudgeDecision::Draw)], &[], &failing);
    all_unavailable(&ratings, &["a", "b"], UnavailableReason::NonfiniteResult);
}

#[test]
fn a_draw_counts_as_win_mass_for_both_sides() {
    // A win chain that only draws close: strict wins alone would separate it.
    let ratings = rate(
        &[
            judgment("a", "b", JudgeDecision::A),
            judgment("b", "c", JudgeDecision::A),
            judgment("a", "c", JudgeDecision::Draw),
        ],
        &[],
        &fit,
    );
    assert!(ratings.iter().all(|r| r.rating.is_some()));
    assert!(rating(&ratings, "a").unwrap() > rating(&ratings, "c").unwrap());
}

#[test]
fn nobody_is_rated_without_judgments() {
    assert!(rate(&[], &[], &fit).is_empty());
    let ratings = rate(&[], &[ModelId::new("b"), ModelId::new("a"), ModelId::new("b")], &fit);
    let order: Vec<_> = ratings.iter().map(|r| r.model.as_str().to_string()).collect();
    assert_eq!(order, vec!["a", "b"]);
    all_unavailable(&ratings, &["a", "b"], UnavailableReason::NoComparisons);
}

#[test]
fn tallies_count_wins_draws_and_games() {
    let judgments = [
        judgment("a", "b", JudgeDecision::A),
        judgment("b", "a", JudgeDecision::A),
        judgment("a", "b", JudgeDecision::Draw),
        judgment("b", "b", JudgeDecision::Draw),
    ];
    let list = roster(&judgments, &[ModelId::new("0")]);
    let plan = plan_ratings(list.len(), &bouts(&judgments, &list));
    assert_eq!(
        plan.standings,
        vec![Standing::Unmatched, Standing::Identified, Standing::Identified]
    );
    assert_eq!(plan.members, vec![1, 2]);
    assert_eq!(plan.tally.wins, vec![1, 2]);
    assert_eq!(plan.tally.draws, vec![1, 1]);
    assert_eq!(plan.tally.games, vec![vec![0, 3], vec![3, 0]]);
    let ratings = apply_fit(&list, &plan, &Ok(vec![10u8, 20u8]));
    let values: Vec<_> = ratings.iter().map(|r| r.rating).collect();
    assert_eq!(values, vec![None, Some(10), Some(20)]);
}

#[test]
fn standings_name_the_first_obstacle() {
    let bout = |a: usize, b: usize, winner: JudgeDecision| Bout { a, b, winner };
    let plan = plan_ratings(
        5,
        &vec![bout(0, 1, JudgeDecision::Draw), bout(2, 3, JudgeDecision::A)],
    );
    assert_eq!(
        plan.standings,
        vec![
            Standing::Disconnected,
            Standing::Disconnected,
            Standing::Disconnected,
            Standing::Disconnected,
            Standing::Unmatched,
        ]
    );
    let plan = plan_ratings(3, &vec![bout(0, 2, JudgeDecision::A), bout(1, 1, JudgeDecision::A)]);
    assert_eq!(
        plan.standings,
        vec![Standing::Separated, Standing::Unmatched, Standing::Separated]
    );
    assert!(plan.members.is_empty());
}

#[test]
fn graphs_are_searched_along_links_and_arcs() {
    let class = classes(5, &vec![(0, 1), (3, 4), (4, 0)]);
    assert_eq!(class[0], class[1]);
    assert_eq!(class[0], class[3]);
    assert_eq!(class[3], class[4]);
    assert_ne!(class[0], class[2]);

    let mut adj = vec![vec![], vec![], vec![]];
    add_directed_edge(&mut adj, 0, 1);
    add_directed_edge(&mut adj, 0, 1);
    add_directed_edge(&mut adj, 1, 1);
    add_directed_edge(&mut adj, 1, 2);
    assert_eq!(adj, vec![vec![1], vec![2], vec![]]);
    assert_eq!(reachable_count(&adj, 0), 3);
    assert_eq!(reachable_count(&adj, 2), 1);
    assert!(!strongly_connected(&adj));
    add_directed_edge(&mut adj, 2, 0);
    assert!(strongly_connected(&adj));
    assert!(strongly_connected(&vec![]));
}

#[test]
fn ratings_do_not_depend_on_which_model_comes_first() {
    let one = rate(
        &[
            judgment("a", "b", JudgeDecision::A),
            judgment("b", "c", JudgeDecision::A),
            judgment("c", "a", JudgeDecision::Draw),
        ],
        &[],
        &fit,
    );
    let two = rate(
        &[
            judgment("b", "a", JudgeDecision::B),
            judgment("b", "c", JudgeDecision::A),
            judgment("a", "c", JudgeDecision::Draw),
        ],
        &[],
        &fit,
    );
    assert_eq!(one, two);
    assert!(one.iter().all(|r| r.rating.is_some()));
}

#[test]
fn retold_judgments_give_the_same_ratings() {
    let one = vec![
        judgment("a", "b", JudgeDecision::A),
        judgment("b", "c", JudgeDecision::A),
        judgment("c", "a", JudgeDecision::A),
        judgment("a", "c", JudgeDecision::Draw),
    ];
    let mut two = vec![
        judgment("c", "a", JudgeDecision::Draw),
        judgment("c", "a", JudgeDecision::A),
        judgment("b", "a", JudgeDecision::B),
        judgment("c", "b", JudgeDecision::B),
    ];
    two[0].reason = "another".into();
    two[1].duration_ms = 99;
    two[2].agreement = false;
    two[3].orientation_ab = Some(JudgeDecision::Draw);
    assert_eq!(rate(&one, &[], &fit), rate(&two, &[], &fit));
}

#[test]
fn only_models_that_met_nobody_lack_comparisons() {
    let ratings = rate(
        &[judgment("a", "b", JudgeDecision::Draw)],
        &[ModelId::new("c")],
        &fit,
    );
    assert_eq!(unavailable(&ratings, "a"), None);
    assert_eq!(unavailable(&ratings, "b"), None);
    assert_eq!(unavailable(&ratings, "c"), Some(UnavailableReason::NoComparisons));
}
