//! Classes of hands and solved preflop charts.

use poker_trainer::bits::F32;
use poker_trainer::board::{parse_card, parse_cards, Card};
use poker_trainer::corpus::range_tokens;
use poker_trainer::deck::deal_heads_up;
use poker_trainer::preflop::{
    class_combos, class_combos_cards, class_index, class_index_of, class_name, label_token,
    line_commitment, range_scale, reach_combos, weighted_range_string, FlopPot, PreflopCharts,
    PreflopGenInfo, PreflopHeader, PreflopNode, RulesetEcho, CLASSES, FORMAT_VERSION,
};
use poker_trainer::{eval, export, ground, trainer};

fn num(x: f32) -> F32 {
    F32::from_bits(x.to_bits())
}

fn val(x: F32) -> f32 {
    f32::from_bits(x.bits)
}

fn texts(v: &[&str]) -> Vec<String> {
    v.iter().map(|s| s.to_string()).collect()
}

fn echo(seats: Option<&[&str]>, stack: f32) -> RulesetEcho {
    RulesetEcho {
        seats: seats.map(texts),
        stack_bb: Some(num(stack)),
        bb: None,
        ante_bb: None,
        rake_rate: None,
        rake_cap_bb: None,
    }
}

fn sample_header() -> PreflopHeader {
    PreflopHeader {
        version: FORMAT_VERSION,
        ruleset: "test".into(),
        label: "test ruleset".into(),
        config: echo(None, 100.0),
        config_hash: "00000000".into(),
        ev_unit: "bb".into(),
        generator: PreflopGenInfo {
            version: "0.1.0".into(),
            traversals: 1,
            seed: 1,
            strategy_drift: None,
        },
    }
}

fn sample_node(path: &str, evs: bool) -> PreflopNode {
    PreflopNode {
        path: path.into(),
        seat: "BB".into(),
        pot_bb: num(3.5),
        to_call_bb: num(1.5),
        reach: num(0.4),
        actions: texts(&["Fold", "Call"]),
        freqs: vec![vec![num(0.25); CLASSES], vec![num(0.75); CLASSES]],
        evs: evs.then(|| vec![vec![num(0.0); CLASSES], vec![num(1.5); CLASSES]]),
    }
}

fn charts_of(header: PreflopHeader, nodes: Vec<PreflopNode>) -> PreflopCharts {
    let mut charts = PreflopCharts::new(header).unwrap();
    for n in nodes {
        assert!(charts.add_node(n));
    }
    charts
}

fn mk(path: &str, seat: &str, pot: f32, to_call: f32, actions: &[&str], freqs: &[f32]) -> PreflopNode {
    PreflopNode {
        path: path.into(),
        seat: seat.into(),
        pot_bb: num(pot),
        to_call_bb: num(to_call),
        reach: num(1.0),
        actions: texts(actions),
        freqs: freqs.iter().map(|&f| vec![num(f); CLASSES]).collect(),
        evs: None,
    }
}

fn hu_charts() -> PreflopCharts {
    let mut header = sample_header();
    header.ruleset = "hu".into();
    header.config = RulesetEcho {
        seats: Some(texts(&["SB", "BB"])),
        stack_bb: Some(num(55.0)),
        bb: Some(num(1.0)),
        ante_bb: Some(num(0.0)),
        rake_rate: Some(num(0.05)),
        rake_cap_bb: Some(num(3.0)),
    };
    charts_of(
        header,
        vec![
            mk("", "SB", 3.5, 0.0, &["Fold", "Raise to 2.5bb"], &[0.4, 0.6]),
            mk("r2.5", "BB", 3.5, 1.5, &["Fold", "Call"], &[0.3, 0.7]),
        ],
    )
}

/// What the rows of a seat multiply up to, class by class.
fn product(rows: &[Vec<F32>]) -> Vec<f32> {
    let mut out = vec![1.0f32; CLASSES];
    for row in rows {
        for (o, f) in out.iter_mut().zip(row) {
            *o *= val(*f);
        }
    }
    out
}

fn pot_of(p: FlopPot) -> f32 {
    match p {
        FlopPot::Pot(a) => val(a),
        FlopPot::PotAndCall(a, b) => val(a) + val(b),
    }
}

#[test]
fn class_names_round_trip_in_grid_order() {
    for i in 0..CLASSES {
        let name = class_name(i);
        assert_eq!(class_index_of(&name), Some(i), "class {i} = {name}");
    }
    assert_eq!(class_name(0), "AA");
    assert_eq!(class_name(1), "AKs");
    assert_eq!(class_name(13), "AKo");
    assert_eq!(class_name(168), "22");
    assert_eq!(class_index_of("KAs"), None);
    assert_eq!(class_index_of("AKx"), None);
    assert_eq!(class_index_of("AAs"), None);
}

#[test]
fn class_index_maps_combos_to_cells() {
    let idx = |a, b| class_index([parse_card(a).unwrap(), parse_card(b).unwrap()]);
    assert_eq!(idx("As", "Ah"), 0);
    assert_eq!(idx("As", "Ks"), 1);
    assert_eq!(idx("Ks", "Ad"), 13);
    assert_eq!(idx("7d", "2c"), class_index_of("72o").unwrap());
    assert_eq!(idx("2c", "2d"), 168);
}

#[test]
fn parse_cards_reads_hands_and_boards() {
    assert_eq!(parse_cards("AhKh").map(|c| c.len()), Some(2));
    assert_eq!(parse_cards("Td 9d 6h").map(|c| c.len()), Some(3));
    assert_eq!(parse_cards("AhK"), None);
    assert_eq!(parse_cards("Zx"), None);
    assert_eq!(parse_cards(""), None);
    let h = parse_cards("AsKs").unwrap();
    assert_eq!(class_index([h[0], h[1]]), class_index_of("AKs").unwrap());
}

#[test]
fn class_combos_partition_the_deck() {
    let total: u32 = (0..CLASSES).map(class_combos).sum();
    assert_eq!(total, 1326);
    assert_eq!(class_combos(0), 6);
    assert_eq!(class_combos(1), 4);
    assert_eq!(class_combos(13), 12);
}

#[test]
fn class_combos_cards_round_trip() {
    for i in 0..CLASSES {
        let combos = class_combos_cards(i);
        assert_eq!(combos.len() as u32, class_combos(i), "class {i} combo count");
        for combo in combos {
            let idx = class_index(combo);
            assert_eq!(idx, i, "{combo:?} should map back to class {i}");
        }
    }
}

#[test]
fn equity_vs_reach_reads_the_range() {
    let card = |s| parse_card(s).unwrap();
    let hero: [Card; 2] = [card("Ah"), card("As")];
    let flop = [card("Kd"), card("Qc"), card("7h")];
    let mut reach = vec![num(0.0); CLASSES];
    reach[class_index_of("22").unwrap()] = num(1.0);
    let live = reach_combos(hero, &flop, &reach);
    assert_eq!(live.len(), 6);
    let hands: Vec<[Card; 2]> = live.iter().map(|c| c.0).collect();
    let eqs = eval::equity_vs_range(hero, &flop, &hands, 200);
    let eq = eqs
        .iter()
        .map(|e| e.half_points as f64 / (2 * e.trials) as f64)
        .sum::<f64>()
        / eqs.len() as f64;
    assert!(eq > 0.8, "AA vs a pure-22 range on K Q 7 should dominate: {eq}");
    let zero = vec![num(0.0); CLASSES];
    assert!(reach_combos(hero, &flop, &zero).is_empty());
}

#[test]
fn load_round_trips_and_scores_ev_loss() {
    let charts = charts_of(
        sample_header(),
        vec![sample_node("", true), sample_node("f-f", false)],
    );
    assert_eq!(charts.header.ruleset, "test");
    assert_eq!(charts.nodes().len(), 2);
    let ns = charts.node("").unwrap().strategy_for(0).unwrap();
    assert_eq!(ns.best(), 1);
    assert!((val(ns.action_ev[1]) - val(ns.action_ev[0]) - 1.5).abs() < 1e-6);
    assert!(charts.node("f-f").unwrap().strategy_for(0).is_none());
    assert_eq!(
        charts.node("f-f").unwrap().freqs_for(3).iter().map(|x| val(*x)).collect::<Vec<_>>(),
        vec![0.25, 0.75]
    );
    assert!(charts.node("nope").is_none());
}

#[test]
fn load_rejects_bad_shapes_and_newer_versions() {
    let mut charts = PreflopCharts::new(sample_header()).unwrap();
    let mut node = sample_node("", true);
    node.freqs.pop();
    assert!(!charts.add_node(node));
    assert!(charts.node("").is_none());
    let mut header = sample_header();
    header.version = FORMAT_VERSION + 1;
    assert!(PreflopCharts::new(header).is_none());
}

#[test]
fn a_later_node_takes_the_place_of_an_earlier_one() {
    let charts = charts_of(
        sample_header(),
        vec![sample_node("f", false), sample_node("f", true)],
    );
    assert_eq!(charts.nodes().len(), 1);
    assert!(charts.node("f").unwrap().evs.is_some());
}

#[test]
fn label_tokens_invert_the_labels() {
    for (label, tok) in [
        ("Fold", "f"),
        ("Call", "c"),
        ("Check", "x"),
        ("All-in", "ai"),
        ("Raise to 2.5bb", "r2.5"),
        ("Raise to 17.25bb", "r17.25"),
    ] {
        assert_eq!(label_token(label), tok);
    }
}

#[test]
fn class_reach_multiplies_own_past_frequencies() {
    let mut root = sample_node("", false);
    root.seat = "SB".into();
    let mut mid = sample_node("c", false);
    mid.seat = "BB".into();
    let mut back = sample_node("c-c", false);
    back.seat = "SB".into();
    let charts = charts_of(sample_header(), vec![root, mid, back]);
    let reach = product(&charts.class_reach("c-c").unwrap());
    assert!((reach[0] - 0.75).abs() < 1e-6);
    assert!(product(&charts.class_reach("c").unwrap()).iter().all(|&r| r == 1.0));
    assert!(charts.class_reach("nope").is_none());
}

#[test]
fn export_range_bridges_a_hu_line() {
    let charts = hu_charts();
    let line = "r2.5-c";
    assert!(product(&charts.seat_reach(line, "SB").unwrap())
        .iter()
        .all(|&r| (r - 0.6).abs() < 1e-6));
    assert!(product(&charts.seat_reach(line, "BB").unwrap())
        .iter()
        .all(|&r| (r - 0.7).abs() < 1e-6));
    assert_eq!(charts.flop_seats(line), Some(("BB".into(), "SB".into())));
    let pot = pot_of(charts.flop_pot_bb(line).unwrap());
    assert!((pot - 5.0).abs() < 1e-6);
    assert_eq!(line_commitment(line), vec!["2.5"]);
    assert!((val(charts.stack_bb().unwrap()) - pot / 2.0 - 52.5).abs() < 1e-6);
    let (rate, cap) = charts.rake();
    assert_eq!((val(rate), val(cap)), (0.05, 3.0));
    let lines: Vec<(String, f32)> = charts
        .flop_lines()
        .into_iter()
        .map(|(l, p)| (l, pot_of(p)))
        .collect();
    assert_eq!(lines, vec![("r2.5-c".to_string(), 5.0)]);
    assert!(charts.flop_pot_bb("r2.5").is_none());
    assert!(charts.flop_seats("r2.5-f").is_none());
}

#[test]
fn cold_caller_leaves_a_two_player_flop_when_blinds_fold_behind() {
    let mut header = sample_header();
    header.config = echo(Some(&["BTN", "SB", "BB"]), 100.0);
    let charts = charts_of(
        header,
        vec![
            mk("", "BTN", 1.5, 0.0, &["Fold", "Raise to 2bb"], &[0.5, 0.5]),
            mk("r2", "SB", 3.5, 1.5, &["Fold", "Call"], &[0.5, 0.5]),
            mk("r2-c", "BB", 5.0, 1.0, &["Fold", "Call"], &[0.5, 0.5]),
        ],
    );
    assert_eq!(charts.flop_pot_bb("r2-c-f").map(pot_of), Some(5.0));
    assert_eq!(
        charts.flop_seats("r2-c-f"),
        Some(("SB".into(), "BTN".into()))
    );
    let lines: Vec<(String, f32)> = charts
        .flop_lines()
        .into_iter()
        .map(|(l, p)| (l, pot_of(p)))
        .collect();
    assert_eq!(lines, vec![("r2-c-f".to_string(), 5.0)]);
    assert!(charts.flop_pot_bb("r2-c").is_none());
}

#[test]
fn line_commitment_is_max_bet_to_plus_ante() {
    let charts = hu_charts();
    let bb = val(charts.header.config.bb.unwrap());
    let ante = val(charts.header.config.ante_bb.unwrap());
    let commitment = |line: &str| {
        line_commitment(line)
            .iter()
            .filter_map(|t| t.parse::<f32>().ok())
            .fold(bb, f32::max)
            + ante
    };
    assert!((commitment("f-f-f-r2.5-f-c") - 2.5).abs() < 1e-6);
    assert!((commitment("r2.5-r8-c") - 8.0).abs() < 1e-6);
    assert!((commitment("c-x") - 1.0).abs() < 1e-6);
}

fn range_text(reach: &[f32]) -> String {
    let all: Vec<F32> = reach.iter().map(|&x| num(x)).collect();
    let (scaled, shown) = match range_scale(&all) {
        Some(max) => reach
            .iter()
            .map(|w| {
                let s = w / val(max);
                (num(s), format!("{s:.4}"))
            })
            .unzip(),
        None => (vec![], vec![]),
    };
    weighted_range_string(&scaled, &shown)
}

#[test]
fn weighted_range_string_scales_to_max_one() {
    let mut reach = vec![0.0f32; CLASSES];
    reach[0] = 0.6;
    reach[1] = 0.3;
    assert_eq!(range_text(&reach), "AA:1.0000,AKs:0.5000");
    assert_eq!(range_text(&vec![0.0; CLASSES]), "");
}

#[test]
fn ground_builds_the_spec_named_config() {
    let charts = hu_charts();
    let spec = "cash-hu55:r2.5-c";
    let (ruleset, line) = ground::split_spec(spec).unwrap();
    assert_eq!((ruleset.as_str(), line.as_str()), ("cash-hu55", "r2.5-c"));
    let spot = ground::derive_line_spot(&charts, &line).unwrap();
    let config = ground::grounded_config(
        spec,
        &range_text(&product(&spot.oop_reach)),
        &range_text(&product(&spot.ip_reach)),
        charts.stack_bb(),
        num(pot_of(spot.pot)),
        charts.rake(),
    )
    .unwrap();
    assert_eq!(config.formation, "cash-hu55:r2.5-c");
    assert_eq!(config.flop_sizes, "33%, 75%");
    assert!(!config.oop_range.is_empty() && !config.ip_range.is_empty());
    assert!(val(config.pot_bb) > 0.0 && val(config.stack_bb) > 0.0);
    assert_eq!(spot.oop_seat, "BB");
    assert_eq!(spot.ip_seat, "SB");
}

#[test]
fn ground_rejects_bad_specs() {
    assert!(ground::split_spec("cash-hu55").is_none());
    let charts = hu_charts();
    let refused = |line: &str| ground::derive_line_spot(&charts, line).unwrap_err();
    assert_eq!(refused("r2.5-f"), ground::LineError::NotTwoPlayers);
    assert_eq!(refused("r2.5"), ground::LineError::NotClosed);
    let zero = num(0.0);
    assert_eq!(
        ground::grounded_config("a:b", "", "AA", Some(zero), zero, (zero, zero)).unwrap_err(),
        ground::LineError::Unreachable
    );
    assert_eq!(
        ground::grounded_config("a:b", "AA", "AA", None, zero, (zero, zero)).unwrap_err(),
        ground::LineError::NoStack
    );
    assert_eq!(
        ground::LineError::Pruned.text("r2"),
        "\"r2\" has a pruned/missing ancestor node"
    );
}

#[test]
fn preflop_lines_render_seats_and_verbs() {
    let mut header = sample_header();
    header.ruleset = "t".into();
    let charts = charts_of(
        header,
        vec![
            mk("", "UTG", 4.0, 2.5, &["Fold", "Raise to 2.5bb"], &[0.5, 0.5]),
            mk("f", "CO", 4.0, 2.5, &["Fold", "Raise to 2.5bb", "All-in"], &[0.5, 0.5, 0.5]),
            mk("f-r2.5", "BB", 4.0, 2.5, &["Fold", "Call"], &[0.5, 0.5]),
        ],
    );
    assert_eq!(
        trainer::preflop_line(&charts, "f-r2.5"),
        vec!["UTG folds", "CO raises to 2.5bb"]
    );
    assert_eq!(trainer::preflop_line(&charts, ""), Vec::<String>::new());
    assert_eq!(trainer::preflop_line(&charts, "f-ai"), vec!["UTG folds", "CO jams"]);
    assert_eq!(trainer::drill_pool(&charts), vec![0, 1, 2]);
}

#[test]
fn hero_sides_and_hands_are_checked() {
    assert_eq!(export::hero_side("sb", "BB", "SB"), export::HeroSide::Ip);
    assert_eq!(export::hero_side("BB", "BB", "SB"), export::HeroSide::Oop);
    assert_eq!(export::hero_side("CO", "BB", "SB"), export::HeroSide::NotLive);
    assert_eq!(export::hero_class("AhKh", Some("Td9d6h")), Ok(1));
    assert_eq!(export::hero_class("AhAh", None), Err(export::HandError::NotTwoCards));
    assert_eq!(
        export::hero_class("AhKh", Some("Ah9d6h")),
        Err(export::HandError::OnTheFlop)
    );
    assert_eq!(
        export::solve_arguments("AA", "KK", "5.00", "52.50", "0.05", "3"),
        "--oop \"AA\" --ip \"KK\" --pot 5.00 --stack 52.50 --rake-rate 0.05 --rake-cap 3"
    );
}

#[test]
fn line_mass_lists_what_each_seat_played() {
    let charts = hu_charts();
    let seats = charts.line_mass("r2.5-c").unwrap();
    assert_eq!(seats.len(), 2);
    assert_eq!(product(&seats[0])[0], 0.6);
    assert_eq!(product(&seats[1])[0], 0.7);
    assert!(charts.line_mass("r2.5-c-x").is_none());
    assert!(charts.line_mass("r9-c").is_none());
}

#[test]
fn written_ranges_are_read_back() {
    let mut scaled = vec![num(0.0); CLASSES];
    let mut shown = vec!["0.0000".to_string(); CLASSES];
    (scaled[0], shown[0]) = (num(1.0), "1.0000".into());
    (scaled[13], shown[13]) = (num(0.5), "0.5000".into());
    let text = weighted_range_string(&scaled, &shown);
    assert_eq!(text, "AA:1.0000,AKo:0.5000");
    let tokens = range_tokens(&text);
    assert_eq!(tokens.len(), 2);
    assert_eq!(tokens[1].hands, "AKo");
    assert_eq!(tokens[1].weight.as_deref(), Some("0.5000"));
}

#[test]
fn listed_lines_start_a_flop() {
    let charts = hu_charts();
    let lines = charts.flop_lines();
    assert!(!lines.is_empty());
    for (line, pot) in lines {
        let spot = ground::derive_line_spot(&charts, &line).unwrap();
        assert_eq!(spot.pot, pot);
    }
}

#[test]
fn a_called_jam_closes_to_no_flop() {
    let charts = charts_of(
        sample_header(),
        vec![
            mk("", "SB", 1.5, 0.5, &["Fold", "All-in"], &[0.5, 0.5]),
            mk("ai", "BB", 11.0, 9.0, &["Fold", "Call"], &[0.5, 0.5]),
        ],
    );
    assert_eq!(charts.flop_pot_bb("ai-c"), None);
    assert_eq!(charts.flop_pot_bb("ai-f"), None);
    assert!(charts.flop_lines().is_empty());

    let mut header = sample_header();
    header.config = echo(Some(&["SB", "BB"]), 10.0);
    let charts = charts_of(
        header,
        vec![
            mk("", "SB", 1.5, 0.5, &["Fold", "All-in"], &[0.5, 0.5]),
            mk("ai", "BB", 11.0, 9.0, &["Fold", "Call"], &[0.5, 0.5]),
        ],
    );
    let err = ground::derive_line_spot(&charts, "ai-c").unwrap_err();
    assert_eq!(err, ground::LineError::NotClosed);
}

#[test]
fn rows_of_a_played_hand_are_its_reach() {
    let charts = hu_charts();
    let deal = deal_heads_up();
    let mut hand = trainer::HuHand::start(deal);
    hand.act(&charts, 1);
    assert_eq!(hand.path, "r2.5");
    hand.act(&charts, 1);
    assert_eq!(hand.path, "r2.5-c");
    let sb = charts.seat_reach("r2.5-c", "SB").unwrap();
    let bb = charts.seat_reach("r2.5-c", "BB").unwrap();
    assert_eq!(product(&hand.sb_rows), product(&sb));
    assert_eq!(product(&hand.bb_rows), product(&bb));
    assert_eq!(product(&hand.sb_rows)[0], 0.6);
    assert_eq!(product(&hand.bb_rows)[0], 0.7);
}
