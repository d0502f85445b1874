//! Aggregate reports and range equities.

use poker_trainer::bits::F32;
use poker_trainer::range::{live_combos, parse_range};
use poker_trainer::report::{
    bar_length, combo_equities, csv_field, csv_line, equity_setup, facing_pct, histogram,
    is_aggressive, keeps, node_label, rollup, sort_rows, summarize, EquityError, NodeSide, RowKey,
    Sort,
};
use poker_trainer::solution::{HandStrategy, NodeStrategy, SolvedSpot};
use poker_trainer::texture::parse_flop;

fn num(x: f32) -> F32 {
    F32::from_bits(x.to_bits())
}

fn val(x: F32) -> f32 {
    f32::from_bits(x.bits)
}

fn spot(hero_oop: bool, villain_action: &str, strategies: Vec<HandStrategy>) -> SolvedSpot {
    SolvedSpot {
        label: "t".into(),
        board: vec!["Td".into(), "9d".into(), "6h".into()],
        pot_bb: num(6.0),
        hero_oop,
        villain_action: villain_action.into(),
        config: None,
        generator: None,
        strategies,
    }
}

fn hs(hand: &str, freqs: &[f32], evs: &[f32], actions: &[&str]) -> HandStrategy {
    HandStrategy {
        hand: hand.into(),
        strategy: NodeStrategy {
            actions: actions.iter().map(|s| s.to_string()).collect(),
            frequencies: freqs.iter().map(|&x| num(x)).collect(),
            action_ev: evs.iter().map(|&x| num(x)).collect(),
        },
    }
}

#[test]
fn aggression_is_by_first_word() {
    assert!(is_aggressive("Bet 2.0bb"));
    assert!(is_aggressive("Raise to 4.9bb"));
    assert!(!is_aggressive("Check"));
    assert!(!is_aggressive("Call"));
    assert!(!is_aggressive("Fold"));
}

#[test]
fn facing_pct_pulls_the_size_or_none() {
    assert_eq!(
        facing_pct("You check, villain bets 4.5bb (75% pot)"),
        Some(75)
    );
    assert_eq!(facing_pct("Villain (BB) checks to you"), None);
    assert_eq!(node_label(&spot(false, "Villain checks", vec![])), "IP");
    assert_eq!(
        node_label(&spot(true, "villain bets (33% pot)", vec![])),
        "OOP v33"
    );
}

#[test]
fn summarize_means_freqs_and_equilibrium_ev() {
    let actions = ["Check", "Bet 2.0bb"];
    let s = spot(
        false,
        "checks",
        vec![
            hs("AsKs", &[1.0, 0.0], &[1.0, 0.5], &actions),
            hs("AhKh", &[0.5, 0.5], &[2.0, 4.0], &actions),
        ],
    );
    let row = summarize(&s).unwrap();
    assert_eq!(row.combos, 2);
    assert_eq!(row.node, "IP");
    assert_eq!(row.texture, "two-tone");
    let n = row.combos as f32;
    let mut bet = 0.0;
    let mut ev = 0.0;
    for &i in &row.summed {
        let ns = &s.strategies[i].strategy;
        for &b in &row.bets {
            bet += val(ns.frequencies[b]);
        }
        for a in 0..row.actions.len() {
            ev += val(ns.frequencies[a]) * val(ns.action_ev[a]);
        }
    }
    assert!((bet / n - 0.25).abs() < 1e-6);
    assert!((ev / n - 2.0).abs() < 1e-6);
    assert!(summarize(&spot(false, "checks", vec![])).is_none());
}

fn row(texture: &str, flop: &str, bet: f32, ev: f32) -> RowKey {
    RowKey {
        texture: texture.into(),
        flop: flop.into(),
        bet: num(bet),
        ev: num(ev),
    }
}

#[test]
fn sort_by_bet_is_descending() {
    let rows = vec![
        row("x", "a", 0.2, 0.0),
        row("x", "b", 0.9, 0.0),
        row("x", "c", 0.5, 0.0),
    ];
    let order = sort_rows(&rows, Sort::Bet);
    assert_eq!(
        order.iter().map(|&i| rows[i].flop.as_str()).collect::<Vec<_>>(),
        ["b", "c", "a"]
    );
}

#[test]
fn sorting_by_texture_and_ev() {
    let rows = vec![
        row("two-tone", "a", 0.0, 1.0),
        row("paired", "z", 0.0, -1.0),
        row("paired", "b", 0.0, 2.0),
    ];
    assert_eq!(sort_rows(&rows, Sort::Texture), vec![2, 1, 0]);
    assert_eq!(sort_rows(&rows, Sort::Flop), vec![0, 2, 1]);
    assert_eq!(sort_rows(&rows, Sort::Ev), vec![2, 0, 1]);
}

#[test]
fn csv_field_quotes_only_when_needed() {
    assert_eq!(csv_field("Check"), "Check");
    assert_eq!(csv_field("a · b"), "a · b");
    assert_eq!(csv_field("Check 55%, Bet 45%"), "\"Check 55%, Bet 45%\"");
    assert_eq!(csv_field("say \"hi\""), "\"say \"\"hi\"\"\"");
}

#[test]
fn csv_lines_join_their_fields() {
    assert_eq!(
        csv_line("Td9d6h", "two-tone", "IP", 2, "25.0", "2.00", "Check 75%, Bet 25%"),
        "Td9d6h,two-tone,IP,2,25.0,2.00,\"Check 75%, Bet 25%\"\n"
    );
}

#[test]
fn parse_range_expands_to_combos() {
    assert_eq!(parse_range("AA").unwrap().len(), 6);
    assert_eq!(parse_range("AKs").unwrap().len(), 4);
    assert!(parse_range("ZZ").is_err());
}

#[test]
fn live_combos_drops_board_collisions() {
    let flop = parse_flop("Td9d6h").unwrap();
    assert_eq!(live_combos(&parse_range("AA").unwrap(), flop).len(), 6);
    assert_eq!(live_combos(&parse_range("TT").unwrap(), flop).len(), 3);
}

#[test]
fn parse_flop_needs_three_cards() {
    assert!(parse_flop("Td9d6h").is_some());
    assert!(parse_flop("Td9d").is_none());
    assert!(parse_flop("Td9d6h2c").is_none());
    assert!(parse_flop("zz9d6h").is_none());
}

fn tenths(v: &[f64]) -> Vec<usize> {
    v.iter().map(|e| (e * 10.0) as usize).collect()
}

#[test]
fn histogram_bins_by_tenths() {
    let bins = histogram(&tenths(&[0.0, 0.05, 0.5, 0.99, 1.0]));
    assert_eq!(bins[0], 2);
    assert_eq!(bins[5], 1);
    assert_eq!(bins[9], 2);
    assert_eq!(bar_length(5, 10), 20);
    assert_eq!(bar_length(0, 0), 0);
}

#[test]
fn reports_keep_what_is_asked_for() {
    let s = spot(true, "x", vec![]);
    assert!(keeps(&s, None, None));
    assert!(keeps(&s, Some("srp-btn-bb"), Some(NodeSide::Oop)));
    assert!(!keeps(&s, Some("srp-co-bb"), None));
    assert!(!keeps(&s, None, Some(NodeSide::Ip)));
}

#[test]
fn rows_roll_up_by_texture() {
    let t = ["two-tone", "paired", "two-tone"].map(String::from).to_vec();
    let groups = rollup(&t);
    assert_eq!(groups.len(), 2);
    assert_eq!((groups[0].texture.as_str(), groups[0].rows.clone()), ("paired", vec![1]));
    assert_eq!((groups[1].texture.as_str(), groups[1].rows.clone()), ("two-tone", vec![0, 2]));
}

/// The equity of each hand of a range.
fn equities(v: &[Vec<poker_trainer::eval::Equity>]) -> Vec<f64> {
    v.iter()
        .map(|e| {
            let each = e.iter().map(|q| q.half_points as f64 / (2 * q.trials) as f64);
            each.sum::<f64>() / e.len() as f64
        })
        .collect()
}

#[test]
fn equity_report_favors_aces() {
    let s = equity_setup("AA", "KK", "Td9d6h").unwrap();
    assert_eq!((s.oop.len(), s.ip.len()), (6, 6));
    let oop = equities(&combo_equities(&s.oop, &s.ip, s.flop));
    let ip = equities(&combo_equities(&s.ip, &s.oop, s.flop));
    let mean = oop.iter().sum::<f64>() / oop.len() as f64;
    assert!(mean > 0.7, "AA vs KK mean was {mean}");
    assert_eq!(histogram(&tenths(&oop)).iter().sum::<usize>(), s.oop.len());
    assert_eq!(histogram(&tenths(&ip)).iter().sum::<usize>(), s.ip.len());
}

#[test]
fn each_hand_of_a_range_is_set_up_once() {
    let s = equity_setup("AA,AA,AKs,22+", "KK,KK", "Td9d6h").unwrap();
    for v in [&s.oop, &s.ip] {
        for (i, a) in v.iter().enumerate() {
            assert!(v[..i].iter().all(|b| a != b));
        }
    }
    assert_eq!(s.ip.len(), 6);
}

#[test]
fn equity_report_rejects_bad_input() {
    assert!(matches!(
        equity_setup("AA", "KK", "Td9d"),
        Err(EquityError::Flop)
    ));
    assert!(matches!(
        equity_setup("not a range", "KK", "Td9d6h"),
        Err(EquityError::Range { .. })
    ));
    assert!(matches!(
        equity_setup("AA", "ZZ", "Td9d6h"),
        Err(EquityError::Range { .. })
    ));
}
