//! Tables for the browser, and what the browser asks for.

use poker_trainer::bits::F32;
use poker_trainer::export::{flop_stems, header_hash, titlecase_flop, web_node, web_rows};
use poker_trainer::postflop_table::TableNode;
use poker_trainer::tree::TreeNode;
use poker_trainer::web::{deal_pot_odds, equity_of};
use std::collections::HashSet;

fn num(x: f32) -> F32 {
    F32::from_bits(x.to_bits())
}

fn nums(v: &[f32]) -> Vec<F32> {
    v.iter().map(|&x| num(x)).collect()
}

fn vals(v: &[F32]) -> Vec<f32> {
    v.iter().map(|x| f32::from_bits(x.bits)).collect()
}

fn texts(v: &[&str]) -> Vec<String> {
    v.iter().map(|s| s.to_string()).collect()
}

fn table_node(player: &str, line: &[&str]) -> TableNode {
    TableNode {
        reach: num(1.0),
        node: TreeNode {
            player: player.into(),
            board: texts(&["6h", "9d", "Td"]),
            pot_bb: num(6.0),
            line: texts(line),
            actions: texts(&["Check", "Bet 2.0bb"]),
            dealable: vec![],
            hands: texts(&["AsKs", "QdQc"]),
            freqs: vec![nums(&[0.6, 0.3]), nums(&[0.4, 0.7])],
            evs: vec![nums(&[1.0, 2.0]), nums(&[1.5, 2.4])],
            weights: nums(&[1.0, 1.0]),
            equity: nums(&[0.55, 0.6]),
        },
    }
}

#[test]
fn web_node_transposes_and_labels() {
    let w = web_node("srp-btn-bb", "td9d6h", &table_node("oop", &[]));
    assert_eq!(w.actions, vec!["Check", "Bet 2.0bb"]);
    assert_eq!(vals(&w.strategies[0].freqs), vec![0.6, 0.4]);
    assert_eq!(vals(&w.strategies[0].evs), vec![1.0, 1.5]);
    assert_eq!(vals(&w.strategies[1].freqs), vec![0.3, 0.7]);
    assert_eq!(vals(&w.strategies[1].evs), vec![2.0, 2.4]);
    assert!(w.hero_oop);
    assert_eq!(w.label, "SRP BTN vs BB, Td9d6h");
    assert_eq!(w.villain_action, "BB to act (first decision)");
}

#[test]
fn later_nodes_say_what_came_before() {
    let w = web_node("nope", "td9d6h", &table_node("ip", &["Check", "Bet 2.0bb"]));
    assert!(!w.hero_oop);
    assert_eq!(w.label, "nope, Td9d6h");
    assert_eq!(w.villain_action, "after Check, Bet 2.0bb — IP to act");
}

#[test]
fn titlecase_flop_uppercases_ranks_not_suits() {
    assert_eq!(titlecase_flop("td9d6h"), "Td9d6h");
    assert_eq!(titlecase_flop("ahad8c"), "AhAd8c");
    assert_eq!(titlecase_flop("4s3s2d"), "4s3s2d");
}

#[test]
fn exported_rows_are_ordered_by_depth() {
    let nodes = vec![
        table_node("oop", &["Check", "Bet 2.0bb"]),
        table_node("chance", &["Check", "Check"]),
        table_node("ip", &["Check"]),
        table_node("ip", &["Bet 2.0bb"]),
        table_node("oop", &[]),
    ];
    assert_eq!(web_rows(&nodes), vec![4, 3, 2, 0]);
}

#[test]
fn files_are_sorted_out_by_name() {
    let names = texts(&[
        "td9d6h-bb.jsonl",
        "header-bb.json",
        "header-aa.json",
        "2c2d2h-bb.jsonl",
        "2c2d2h-aa.jsonl",
        "notes.txt",
    ]);
    assert_eq!(header_hash(&names).as_deref(), Some("aa"));
    assert_eq!(flop_stems(&names, "bb"), vec!["2c2d2h", "td9d6h"]);
    assert_eq!(header_hash(&texts(&["notes.txt"])), None);
}

fn value(e: &poker_trainer::eval::Equity) -> f64 {
    e.half_points as f64 / (2 * e.trials) as f64
}

#[test]
fn equity_of_is_sane() {
    let e = value(&equity_of("AhAs", "2c2d", "AdKhQs").unwrap());
    assert!(e > 0.9, "trip aces vs 22 should crush: {e}");
    assert_eq!(
        equity_of("AhAs", "2c2d", "AdKh").unwrap_err(),
        "\"AdKh\" needs 3 cards"
    );
    assert_eq!(
        equity_of("Zz", "2c2d", "AdKhQs").unwrap_err(),
        "\"Zz\" needs 2 cards"
    );
    assert_eq!(
        equity_of("ZzAs", "2c2d", "AdKhQs").unwrap_err(),
        "bad card in \"ZzAs\""
    );
}

#[test]
fn pot_odds_spot_is_consistent() {
    let s = deal_pot_odds();
    let d = s.deal;
    let cards: HashSet<String> = d
        .first
        .iter()
        .chain(d.second.iter())
        .chain(d.flop.iter())
        .map(|c| c.text())
        .collect();
    assert_eq!(cards.len(), 7, "cards collide");
    let e = value(&s.equity);
    assert!(e > 0.0 && e < 1.0);
}
