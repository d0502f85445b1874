//! Hand histories.

use poker_trainer::analyze::{
    coverage, last_bracket, normalize, parse_act, parse_amount, parse_file, positions, settle,
    sorted_flop, street_totals, Act, Action, Matched, RawHand, Skip,
};
use poker_trainer::bits::F32;

fn num(x: f32) -> F32 {
    F32::from_bits(x.to_bits())
}

fn val(x: F32) -> f32 {
    f32::from_bits(x.bits)
}

fn chars(s: &str) -> Vec<char> {
    s.chars().collect()
}

fn amount(s: &str) -> Option<f32> {
    parse_amount(&chars(s)).map(|t| t.parse().unwrap())
}

fn act(s: &str) -> Option<Act> {
    parse_act(&chars(s))
}

fn total(ledger: &[String]) -> f32 {
    ledger.iter().map(|t| t.parse::<f32>().unwrap()).sum()
}

fn matched(h: &RawHand) -> Result<Matched, Skip> {
    let bb: f32 = h.bb.parse().unwrap();
    let c = normalize(h, bb > 0.0)?;
    let stack = c
        .players
        .iter()
        .map(|(name, start)| {
            let paid = c.paid.get(name).map_or(0.0, |l| total(l));
            (start.parse::<f32>().unwrap() - paid) / bb
        })
        .fold(f32::INFINITY, f32::min);
    let pot = c.paid.values.iter().map(|l| total(l)).sum::<f32>() / bb;
    let gap = (pot - val(c.formation.pot_bb)).abs();
    settle(c, num(stack), num(pot), num(gap))
}

const SEATS: &str = "Table 'Vega' 6-max Seat #3 is the button\n\
    Seat 1: utg ($100 in chips)\n\
    Seat 2: hj player ($100 in chips)\n\
    Seat 3: Hero ($100 in chips)\n\
    Seat 4: sb_villain ($100 in chips)\n\
    Seat 5: bb_villain ($100 in chips)\n\
    Seat 6: co (fish) ($43 in chips) is sitting out\n\
    sb_villain: posts small blind $0.50\n\
    bb_villain: posts big blind $1\n\
    *** HOLE CARDS ***\n";

fn hand(id: &str, body: &str) -> String {
    format!("PokerStars Hand #{id}:  Hold'em No Limit ($0.50/$1.00 USD) - x\n{SEATS}{body}\n\n")
}

fn golden() -> String {
    let mut s = hand(
        "1001",
        "Dealt to Hero [As Kh]\n\
         utg: folds\n\
         hj player: folds\n\
         Hero: raises $1.50 to $2.50\n\
         sb_villain: folds\n\
         bb_villain: calls $1.50\n\
         *** FLOP *** [Td 9d 6h]\n\
         bb_villain: checks\n\
         Hero: bets $2\n\
         bb_villain: calls $2\n\
         *** TURN *** [Td 9d 6h] [2c]\n\
         bb_villain: checks\n\
         Hero: checks\n\
         *** RIVER *** [Td 9d 6h 2c] [7s]\n\
         bb_villain: bets $6\n\
         Hero: folds\n\
         *** SUMMARY ***\n\
         Seat 1: utg folded before Flop",
    );
    s += &hand(
        "1002",
        "Dealt to bb_villain [As Kh]\n\
         utg: folds\nhj player: folds\nHero: raises $1.50 to $2.50\nsb_villain: folds\n\
         bb_villain: raises $7.50 to $10\nHero: calls $7.50\n\
         *** FLOP *** [Td 9d 6h]\nbb_villain: bets $5\nHero: folds",
    );
    s += "PokerStars Hand #broken: no stakes here\nSeat 1: a ($1 in chips)\n\n";
    s += &hand(
        "1003",
        "Dealt to Hero [As Kh]\n\
         utg: folds\nhj player: calls $1\nHero: raises $1 to $2\nsb_villain: folds\n\
         bb_villain: calls $1\nhj player: calls $1\n*** FLOP *** [Td 9d 6h]",
    );
    s += &hand(
        "1004",
        "Dealt to Hero [As Kh]\n\
         utg: folds\nhj player: folds\nHero: calls $1\nsb_villain: folds\nbb_villain: checks\n\
         *** FLOP *** [Td 9d 6h]",
    );
    s += &format!(
        "PokerStars Hand #1005: Tournament #9, $1+$0.10 USD Hold'em No Limit - Level I (10/20) - x\n\
         {SEATS}Dealt to Hero [As Kh]\nHero: raises $1 to $2\nbb_villain: calls $1\n\
         *** FLOP *** [Td 9d 6h]\n\n"
    );
    s += &hand(
        "1006",
        "utg: folds\nhj player: folds\nHero: raises $1.50 to $2.50\nsb_villain: folds\n\
         bb_villain: calls $1.50\n*** FLOP *** [Td 9d 6h]",
    );
    s += &hand(
        "1007",
        "Dealt to Hero [As Kh]\nutg: folds\nhj player: folds\nHero: raises $1.50 to $2.50\n\
         sb_villain: folds\nbb_villain: folds",
    );
    s += &hand(
        "1008",
        "Dealt to utg [As Kh]\nutg: folds\nhj player: folds\nHero: raises $1.50 to $2.50\n\
         sb_villain: folds\nbb_villain: calls $1.50\n*** FLOP *** [Td 9d 6h]",
    );
    s += &hand(
        "1009",
        "Dealt to Hero [As Kh]\nutg: folds\nhj player: folds\nHero: raises $1.50 to $2.50\n\
         sb_villain: folds\nbb_villain: calls $1.50\n*** FLOP *** [Td 9d 6h]",
    )
    .replace("Hero ($100 in chips)", "Hero ($30 in chips)");
    s += &hand(
        "1010",
        "Dealt to hj player [As Kh]\nutg: folds\nhj player: raises $1.50 to $2.50\n\
         Hero: calls $2.50\nsb_villain: folds\nbb_villain: folds\n*** FLOP *** [Td 9d 6h]",
    );
    s += &hand(
        "1011",
        "Dealt to Hero [As Kh]\nutg: folds\nhj player: folds\nHero: raises $4 to $5\n\
         sb_villain: folds\nbb_villain: calls $4\n*** FLOP *** [Td 9d 6h]",
    );
    s
}

#[test]
fn golden_parses_hand_fields() {
    let (hands, _) = parse_file(&golden());
    let h = &hands[0];
    assert_eq!(h.id, "1001");
    assert!(h.nlhe_cash);
    assert!((h.bb.parse::<f32>().unwrap() - 1.0).abs() < 1e-6);
    assert_eq!(h.button_seat, 3);
    assert_eq!(h.seats.len(), 6);
    assert_eq!(h.seats[1].name, "hj player");
    assert_eq!(h.seats[5].name, "co (fish)");
    assert!((h.seats[5].stack.parse::<f32>().unwrap() - 43.0).abs() < 1e-6);
    assert_eq!(h.hero.as_deref(), Some("Hero"));
    assert_eq!(h.hero_cards, vec!["As", "Kh"]);
    assert_eq!(h.board, vec!["Td", "9d", "6h", "2c", "7s"]);
    assert_eq!(h.sb_player.as_deref(), Some("sb_villain"));
    assert_eq!(h.bb_player.as_deref(), Some("bb_villain"));
    assert_eq!(h.preflop.len(), 7);
    assert_eq!(h.flop.len(), 3);
    assert!(matches!(h.river.last().unwrap().act, Act::Fold));
}

#[test]
fn golden_matches_and_skips_every_hand() {
    let (hands, failed) = parse_file(&golden());
    assert_eq!((hands.len(), failed), (11, 1));
    let m = matched(&hands[0]).unwrap();
    assert_eq!(m.formation.id, "srp-btn-bb");
    assert_eq!(m.flop, "td9d6h");
    assert!(!m.hero_oop);
    assert_eq!(m.decisions, 3);
    assert!((val(m.pot_bb) - 5.5).abs() < 1e-4);
    assert!((val(m.stack_bb) - 97.5).abs() < 1e-4);
    let m = matched(&hands[1]).unwrap();
    assert_eq!(m.formation.id, "3bp-bb-btn");
    assert!(m.hero_oop);
    assert_eq!(m.decisions, 1);
    let expect = [
        Skip::Multiway,
        Skip::PotType,
        Skip::NotNlheCash,
        Skip::NoHero,
        Skip::NoFlop,
        Skip::HeroNotOnFlop,
        Skip::Stack,
        Skip::Formation,
        Skip::Pot,
    ];
    for (h, want) in hands[2..].iter().zip(expect) {
        assert_eq!(matched(h).err(), Some(want), "hand #{}", h.id);
    }
}

#[test]
fn every_hand_is_matched_or_skipped() {
    let (hands, _) = parse_file(&golden());
    let all: Vec<Result<Matched, Skip>> = hands.iter().map(matched).collect();
    let c = coverage(&all);
    assert_eq!((c.matched, c.skipped, c.decisions), (2, 9, 4));
    assert_eq!(c.gap, 2);
    assert_eq!(c.skips.iter().map(|s| s.1).sum::<usize>(), 9);
    assert_eq!(c.formations.len(), 2);
    assert_eq!(Skip::Pot.label(), "pot mismatch > 25%");
    assert_eq!(sorted_flop("td9d6h"), "6h9dtd");
}

#[test]
fn amounts_parse_across_currencies() {
    assert_eq!(amount("$1.50"), Some(1.5));
    assert_eq!(amount("1.00 USD"), Some(1.0));
    assert_eq!(amount("€0.55"), Some(0.55));
    assert_eq!(amount("30"), Some(30.0));
    assert_eq!(amount("garbage"), None);
}

#[test]
fn verbs_parse_including_all_in_suffixes() {
    assert!(matches!(
        act("raises $4 to $6 and is all-in"),
        Some(Act::RaiseTo(x)) if x.parse::<f32>() == Ok(6.0)
    ));
    assert!(matches!(
        act("calls $20 and is all-in"),
        Some(Act::Call(x)) if x.parse::<f32>() == Ok(20.0)
    ));
    assert!(matches!(
        act("posts small & big blinds $1.50"),
        Some(Act::Post(x)) if x.parse::<f32>() == Ok(1.5)
    ));
    assert!(matches!(act("folds [Ah 2h]"), Some(Act::Fold)));
    assert!(matches!(act("checks"), Some(Act::Check)));
    assert!(act("shows [Ah Ad] (a pair of Aces)").is_none());
    assert!(act("said, \"nice hand\"").is_none());
    assert_eq!(last_bracket(&chars("x [a] [b c] y")), vec!["b", "c"]);
}

#[test]
fn street_totals_raise_to_replaces_and_calls_add() {
    let a = |player: &str, act| Action {
        player: player.into(),
        act,
    };
    let actions = vec![
        a("sb", Act::Post("0.5".into())),
        a("bb", Act::Post("1.0".into())),
        a("btn", Act::RaiseTo("2.5".into())),
        a("sb", Act::Call("2.0".into())),
        a("bb", Act::RaiseTo("10.0".into())),
        a("btn", Act::Call("7.5".into())),
        a("sb", Act::Fold),
    ];
    let paid = street_totals(&actions);
    assert!((total(paid.get("sb").unwrap()) - 2.5).abs() < 1e-6);
    assert!((total(paid.get("bb").unwrap()) - 10.0).abs() < 1e-6);
    assert!((total(paid.get("btn").unwrap()) - 10.0).abs() < 1e-6);
}

#[test]
fn heads_up_button_is_the_small_blind() {
    let text = "PokerStars Hand #1: Hold'em No Limit ($0.50/$1.00) - x\n\
        Table 'T' 2-max Seat #1 is the button\n\
        Seat 1: a ($100 in chips)\n\
        Seat 2: b ($100 in chips)\n\
        a: posts small blind $0.50\n\
        b: posts big blind $1\n\
        *** HOLE CARDS ***\n\
        Dealt to a [As Ks]\n\
        a: raises $1.50 to $2.50\n\
        b: calls $1.50\n\
        *** FLOP *** [Ah 7h 2c]\n";
    let (hands, failed) = parse_file(text);
    assert_eq!(failed, 0);
    let pos = positions(&hands[0]);
    assert_eq!(pos.get("a"), Some(&"SB"));
    assert_eq!(pos.get("b"), Some(&"BB"));
    let m = matched(&hands[0]).unwrap();
    assert_eq!(m.formation.id, "srp-sb-bb");
    assert!(m.hero_oop);
    assert_eq!(m.decisions, 0);
}
