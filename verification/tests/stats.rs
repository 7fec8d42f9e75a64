use arena::judge::{JudgeDecision, Judgment};
use arena::provider::ModelId;
use arena::stats::{aggregate, pair_agreement, Rate};

fn value(rate: Rate) -> f64 {
    if rate.whole == 0 {
        0.0
    } else {
        rate.part as f64 / rate.whole as f64
    }
}

fn judgment(model_a: &str, model_b: &str, winner: JudgeDecision, agreement: bool) -> Judgment {
    Judgment {
        task_id: "t1".into(),
        model_a: ModelId::new(model_a),
        model_b: ModelId::new(model_b),
        judge_model: ModelId::new("judge"),
        winner,
        reason: String::new(),
        duration_ms: 0,
        agreement,
        orientation_ab: None,
        orientation_ba: None,
        reason_ab: None,
        reason_ba: None,
        raw_ab: None,
        raw_ba: None,
        raw: None,
    }
}

#[test]
fn empty_judgments_produce_no_stats() {
    assert!(aggregate(&[], &[]).is_empty());
}

#[test]
fn requested_models_are_present_without_inferring_outcomes() {
    let stats = aggregate(&[], &[ModelId::new("a")]);
    assert_eq!(stats.len(), 1);
    assert_eq!(stats[0].model, ModelId::new("a"));
    assert_eq!(
        (stats[0].wins, stats[0].losses, stats[0].draws, stats[0].total),
        (0, 0, 0, 0)
    );
    assert_eq!((stats[0].agreement_count, stats[0].disagreement_count), (0, 0));
    assert_eq!(value(stats[0].agreement_rate), 0.0);

    let stats = aggregate(
        &[judgment("a", "b", JudgeDecision::A, true)],
        &[ModelId::new("a"), ModelId::new("b"), ModelId::new("c")],
    );
    assert_eq!(stats.len(), 3);
    let a = stats.iter().find(|s| s.model == ModelId::new("a")).unwrap();
    assert_eq!(a.wins, 1);
    let c = stats.iter().find(|s| s.model == ModelId::new("c")).unwrap();
    assert_eq!((c.wins, c.losses, c.draws, c.total), (0, 0, 0, 0));
    assert_eq!(value(c.agreement_rate), 0.0);
}

#[test]
fn counts_wins_losses_and_draws() {
    let judgments = vec![
        judgment("a", "b", JudgeDecision::A, true),
        judgment("a", "b", JudgeDecision::B, true),
        judgment("a", "b", JudgeDecision::Draw, true),
    ];

    let stats = aggregate(&judgments, &[]);

    let a = stats.iter().find(|s| s.model == ModelId::new("a")).unwrap();
    assert_eq!((a.wins, a.losses, a.draws, a.total), (1, 1, 1, 3));
    assert_eq!((a.agreement_count, a.disagreement_count), (3, 0));
    assert_eq!(value(a.agreement_rate), 1.0);

    let b = stats.iter().find(|s| s.model == ModelId::new("b")).unwrap();
    assert_eq!((b.wins, b.losses, b.draws, b.total), (1, 1, 1, 3));
    assert_eq!((b.agreement_count, b.disagreement_count), (3, 0));
    assert_eq!(value(b.agreement_rate), 1.0);
}

#[test]
fn counts_disagreement_without_changing_outcome_tallies() {
    let judgments = vec![
        judgment("a", "b", JudgeDecision::A, true),
        judgment("a", "b", JudgeDecision::Draw, false),
    ];

    let stats = aggregate(&judgments, &[]);

    let a = stats.iter().find(|s| s.model == ModelId::new("a")).unwrap();
    assert_eq!((a.wins, a.losses, a.draws, a.total), (1, 0, 1, 2));
    assert_eq!((a.agreement_count, a.disagreement_count), (1, 1));
    assert_eq!(value(a.agreement_rate), 0.5);

    let b = stats.iter().find(|s| s.model == ModelId::new("b")).unwrap();
    assert_eq!((b.wins, b.losses, b.draws, b.total), (0, 1, 1, 2));
    assert_eq!((b.agreement_count, b.disagreement_count), (1, 1));
    assert_eq!(value(b.agreement_rate), 0.5);
}

#[test]
fn records_are_sorted_and_balanced() {
    let judgments = vec![
        judgment("zeta", "Alpha", JudgeDecision::B, true),
        judgment("beta", "zeta", JudgeDecision::A, false),
        judgment("é", "beta", JudgeDecision::Draw, true),
    ];
    let stats = aggregate(&judgments, &[ModelId::new("beta2")]);
    let order: Vec<_> = stats.iter().map(|s| s.model.as_str().to_string()).collect();
    assert_eq!(order, vec!["Alpha", "beta", "beta2", "zeta", "é"]);
    let wins: u32 = stats.iter().map(|s| s.wins).sum();
    let losses: u32 = stats.iter().map(|s| s.losses).sum();
    assert_eq!((wins, losses), (2, 2));
    for entry in &stats {
        assert_eq!(entry.total, entry.wins + entry.losses + entry.draws);
        assert_eq!(entry.total, entry.agreement_count + entry.disagreement_count);
    }
}

#[test]
fn pair_agreement_counts_each_pair_once() {
    let judgments = vec![
        judgment("a", "b", JudgeDecision::A, true),
        judgment("a", "c", JudgeDecision::Draw, false),
        judgment("b", "c", JudgeDecision::B, true),
        judgment("b", "d", JudgeDecision::B, true),
    ];
    let agreement = pair_agreement(&judgments);
    assert_eq!(agreement.resolved_pairs, 4);
    assert_eq!(agreement.orientation_agreeing_pairs, 3);
    assert_eq!(agreement.orientation_disagreeing_pairs, 1);
    assert_eq!(value(agreement.agreement_rate), 0.75);
    assert_eq!(value(pair_agreement(&[]).agreement_rate), 0.0);
}

#[test]
fn counts_do_not_depend_on_the_order_of_the_judgments() {
    let mut judgments = vec![
        judgment("a", "b", JudgeDecision::A, true),
        judgment("b", "c", JudgeDecision::Draw, false),
        judgment("c", "a", JudgeDecision::B, true),
    ];
    let forth = aggregate(&judgments, &[]);
    judgments.reverse();
    assert_eq!(aggregate(&judgments, &[]), forth);
}
