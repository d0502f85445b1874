//! Equities and strength buckets.

use poker_trainer::board::{parse_card, Card};
use poker_trainer::eval::{
    classify_hand, equity, equity_vs_range, hero_makes_pair, rest_of_deck, showdown, Bucket,
    Equity,
};

fn card(s: &str) -> Card {
    parse_card(s).unwrap()
}

fn hole(a: &str, b: &str) -> [Card; 2] {
    [card(a), card(b)]
}

fn flop(a: &str, b: &str, c: &str) -> [Card; 3] {
    [card(a), card(b), card(c)]
}

fn value(e: &Equity) -> f64 {
    e.half_points as f64 / (2 * e.trials) as f64
}

fn mean(v: &[Equity]) -> f64 {
    if v.is_empty() {
        0.5
    } else {
        v.iter().map(value).sum::<f64>() / v.len() as f64
    }
}

#[test]
fn locked_equity_is_one() {
    let hero = hole("As", "Ks");
    let villain = hole("2c", "2d");
    let flop = flop("Qs", "Js", "Ts");
    assert_eq!(value(&equity(hero, villain, &flop, 1000)), 1.0);
}

#[test]
fn nuts_beats_whole_range() {
    let hero = hole("As", "Ks");
    let flop = flop("Qs", "Js", "Ts");
    let range = [
        hole("2c", "2d"),
        hole("9h", "9c"),
        hole("Ad", "Kd"),
        hole("As", "2h"),
    ];
    let all = equity_vs_range(hero, &flop, &range, 200);
    assert_eq!(all.len(), 3);
    assert_eq!(mean(&all), 1.0);
    assert_eq!(mean(&equity_vs_range(hero, &flop, &[], 200)), 0.5);
}

#[test]
fn turn_and_river_boards_are_exact() {
    let hero = hole("As", "Ks");
    let villain = hole("Qh", "Jd");
    let river = [card("Ah"), card("7c"), card("2d"), card("5s"), card("9h")];
    assert_eq!(value(&equity(hero, villain, &river, 1)), 1.0);
    assert_eq!(value(&equity(hero, villain, &river, 1000)), 1.0);
    let turn = [card("Ah"), card("7c"), card("2d"), card("5s")];
    assert_eq!(value(&equity(hero, villain, &turn, 500)), 1.0);
}

#[test]
fn equal_hands_split() {
    let river = [card("Ah"), card("Kc"), card("Qd"), card("Js"), card("Th")];
    assert_eq!(showdown(hole("2c", "3c"), hole("2d", "3d"), &river, &[]), 1);
    assert_eq!(showdown(hole("2c", "2s"), hole("3c", "3s"), &river[..3], &river[3..]), 1);
}

#[test]
fn the_rest_of_the_deck_leaves_out_known_cards() {
    let known = [card("As"), card("Kd"), card("2c")];
    let rest = rest_of_deck(&known);
    assert_eq!(rest.len(), 49);
    assert!(rest.iter().all(|c| !known.contains(c)));
}

#[test]
fn classify_buckets() {
    let board = flop("Td", "9d", "6h");
    assert_eq!(classify_hand(hole("Ts", "Tc"), board), Bucket::Value);
    assert_eq!(classify_hand(hole("Th", "9s"), board), Bucket::Value);
    assert_eq!(classify_hand(hole("Tc", "2s"), board), Bucket::TopPair);
    assert_eq!(classify_hand(hole("Js", "Jc"), board), Bucket::Overpair);
    assert_eq!(classify_hand(hole("9s", "2c"), board), Bucket::Pair);
    assert_eq!(classify_hand(hole("4s", "4c"), board), Bucket::Pair);
    assert_eq!(classify_hand(hole("Js", "8c"), board), Bucket::Draw);
    assert_eq!(classify_hand(hole("Ad", "2d"), board), Bucket::Draw);
    assert_eq!(classify_hand(hole("Ks", "2c"), board), Bucket::Air);
}

#[test]
fn paired_board_air_is_not_a_pair() {
    let board = flop("8h", "8c", "3d");
    assert_eq!(classify_hand(hole("As", "Kc"), board), Bucket::Air);
    assert!(!hero_makes_pair(hole("As", "Kc"), board));
    assert_eq!(classify_hand(hole("Ah", "3c"), board), Bucket::Value);
}
