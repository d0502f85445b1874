//! The history of drills.

use poker_trainer::bits::F32;
use poker_trainer::stats::{
    aggregate, band, skip_count, trend, trend_word, worst_first, GroupBy, GroupStats, StatRecord,
};

fn num(x: f32) -> F32 {
    F32::from_bits(x.to_bits())
}

fn val(x: F32) -> f32 {
    f32::from_bits(x.bits)
}

fn rec(bucket: &str, street: &str, ev_loss: f32, gto_freq: f32) -> StatRecord {
    StatRecord {
        bucket: bucket.into(),
        street: street.into(),
        ev_loss: Some(num(ev_loss)),
        gto_freq: Some(num(gto_freq)),
        ..StatRecord::new("gto", 0)
    }
}

fn mean(v: &[F32]) -> f32 {
    if v.is_empty() {
        0.0
    } else {
        v.iter().map(|x| val(*x)).sum::<f32>() / v.len() as f32
    }
}

fn sorted(records: &Vec<StatRecord>, by: GroupBy) -> Vec<GroupStats> {
    let groups = aggregate(records, by);
    let averages: Vec<F32> = groups.iter().map(|g| num(mean(&g.losses))).collect();
    worst_first(&averages)
        .into_iter()
        .map(|i| groups[i].clone())
        .collect()
}

#[test]
fn bands_have_the_designed_boundaries() {
    assert_eq!(band(num(0.04)), "ok");
    assert_eq!(band(num(0.05)), "error");
    assert_eq!(band(num(0.30)), "error");
    assert_eq!(band(num(0.31)), "blunder");
}

#[test]
fn aggregate_groups_and_sorts_worst_first() {
    let records = vec![
        rec("Air", "flop", 0.50, 0.01),
        rec("Air", "flop", 0.10, 0.40),
        rec("Value", "turn", 0.02, 0.90),
    ];
    let groups = sorted(&records, GroupBy::Bucket);
    assert_eq!(groups.len(), 2);
    assert_eq!(groups[0].key, "Air");
    assert_eq!(groups[0].count, 2);
    assert!((mean(&groups[0].losses) - 0.30).abs() < 1e-6);
    assert_eq!(groups[0].blunders, 1);
    assert!((groups[0].accurate as f64 / groups[0].count as f64 - 0.5).abs() < 1e-12);
    assert_eq!(groups[1].key, "Value");
    let by_street = sorted(&records, GroupBy::Street);
    assert_eq!(by_street.len(), 2);
}

#[test]
fn aggregate_handles_missing_ev_and_empty_keys() {
    let mut r = rec("", "flop", 0.0, 0.0);
    r.ev_loss = None;
    r.gto_freq = None;
    let groups = sorted(&vec![r], GroupBy::Bucket);
    assert_eq!(groups[0].key, "(none)");
    assert_eq!(mean(&groups[0].losses), 0.0);
    assert_eq!(groups[0].accurate, 0);
}

#[test]
fn trend_needs_enough_history_then_compares_windows() {
    let bad: Vec<StatRecord> = (0..20).map(|_| rec("Air", "flop", 0.4, 0.0)).collect();
    let good: Vec<StatRecord> = (0..20).map(|_| rec("Air", "flop", 0.1, 0.5)).collect();
    assert!(trend(&bad).is_none());
    let both: Vec<StatRecord> = bad.iter().chain(&good).cloned().collect();
    let (prior, recent) = trend(&both).unwrap();
    assert!((mean(&prior) - 0.4).abs() < 1e-6);
    assert!((mean(&recent) - 0.1).abs() < 1e-6);
    assert_eq!(trend_word(num(0.4), num(0.1)), "improving");
    assert_eq!(trend_word(num(0.1), num(0.4)), "worsening");
    assert_eq!(trend_word(num(0.1), num(0.1)), "flat");
}

#[test]
fn only_the_last_records_count_when_asked() {
    assert_eq!(skip_count(10, None), 0);
    assert_eq!(skip_count(10, Some(4)), 6);
    assert_eq!(skip_count(3, Some(4)), 0);
}
