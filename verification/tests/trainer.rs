//! The drills.

use poker_trainer::bits::F32;
use poker_trainer::board::{parse_card, Card};
use poker_trainer::deck::deal_heads_up;
use poker_trainer::eval::Bucket;
use poker_trainer::preflop::{class_index, PreflopCharts, PreflopGenInfo, PreflopHeader, PreflopNode, RulesetEcho, CLASSES};
use poker_trainer::solution::{HandStrategy, NodeStrategy, SolvedSpot};
use poker_trainer::stats::worst_first;
use poker_trainer::trainer::{
    blocks, card_chunks, class_combo, deal_class_combo, descend, find_table, first_flop,
    flop_context, fmt, fmt_hand_str, fmt_mix, group_by_subrange, gto_record, hand_record,
    hero_decision, hu_step, is_heads_up, line_steps, live_hands, matched, not_heads_up, play_hand,
    preflop_record, range_record, read_assignment, read_call, read_pick, shares_card,
    split_by_median, strategy_at, street_name, villain_range, CallAnswer, Half, HandMove, HuHand,
    Pick, Scored, Step, Subrange,
};
use poker_trainer::tree::{Replay, TreeNode};
use rand::rngs::SmallRng;

fn num(x: f32) -> F32 {
    F32::from_bits(x.to_bits())
}

fn nums(v: &[f32]) -> Vec<F32> {
    v.iter().map(|&x| num(x)).collect()
}

fn val(x: F32) -> f32 {
    f32::from_bits(x.bits)
}

fn texts(v: &[&str]) -> Vec<String> {
    v.iter().map(|s| s.to_string()).collect()
}

fn seeded(seed: u64) -> SmallRng {
    <SmallRng as rand::SeedableRng>::seed_from_u64(seed)
}

#[test]
fn find_table_serves_isomorphs_and_legacy_stems() {
    let hash = "f55543b1";
    let names = texts(&[
        "header-f55543b1.json",
        "td9d6h-f55543b1.jsonl",
        "td9d6h-00000000.jsonl",
    ]);
    // The tables that can be read, in the order they are tried.
    let stored = |stem: &str, hash: &str| {
        names.contains(&format!("{}-{hash}.jsonl", stem.to_lowercase()))
    };
    let serve = |flop: &str, hash: &str| {
        find_table(flop, hash, &names)
            .into_iter()
            .find(|c| stored(&c.stem, hash))
    };
    assert!(serve("Td9d6h", hash).unwrap().perm.is_none());
    assert!(serve("9dTd6h", hash).unwrap().perm.is_none());
    let q = serve("Ts9s6h", hash).unwrap().perm.expect("isomorph needs a translation");
    assert_eq!(q.card("2s").as_deref(), Some("2d"), "user s → stored d");
    assert!(serve("Th9d6c", hash).is_none());
    assert!(serve("Td9d6h", "deadbeef").is_none());
    assert_eq!(find_table("bogus", hash, &names).len(), 1);
}

#[test]
fn dealt_class_combos_map_back_to_their_class() {
    let mut rng = seeded(7);
    for class in [0, 1, 13, 84, 168] {
        for _ in 0..20 {
            let combo = deal_class_combo(class, &mut rng);
            assert_ne!(combo[0], combo[1]);
            assert_eq!(class_index(combo), class, "class {class}");
        }
    }
}

#[test]
fn class_combos_take_their_suits_in_order() {
    let text = |h: [Card; 2]| format!("{}{}", h[0].text(), h[1].text());
    assert_eq!(text(class_combo(1, 0, 2)), "AsKs");
    assert_eq!(text(class_combo(13, 1, 0)), "AhKs");
    assert_eq!(text(class_combo(0, 1, 1)), "AhAd");
}

#[test]
fn hu_step_closes_only_on_call_or_check() {
    let pot = |step: Step, pot: f32, to_call: f32| match step {
        Step::Flop { called: true } => Some(pot + to_call),
        Step::Flop { called: false } => Some(pot),
        _ => None,
    };
    assert!(matches!(hu_step("r2.5", "Fold"), Step::Dead));
    assert!(matches!(hu_step("", "All-in"), Step::Dead));
    assert!((pot(hu_step("c", "Check"), 2.0, 0.0).unwrap() - 2.0).abs() < 1e-9);
    assert!(matches!(hu_step("", "Call"), Step::Continue));
    assert!((pot(hu_step("r2.5", "Call"), 2.5, 2.5).unwrap() - 5.0).abs() < 1e-9);
    assert!(matches!(hu_step("", "Raise to 2.5bb"), Step::Continue));
}

fn hu_charts(seats: &[&str]) -> PreflopCharts {
    let mk = |path: &str, seat: &str, actions: &[&str], freqs: &[f32]| PreflopNode {
        path: path.into(),
        seat: seat.into(),
        pot_bb: num(3.5),
        to_call_bb: num(1.5),
        reach: num(1.0),
        actions: texts(actions),
        freqs: freqs.iter().map(|&f| vec![num(f); CLASSES]).collect(),
        evs: None,
    };
    let mut charts = PreflopCharts::new(PreflopHeader {
        version: 1,
        ruleset: "t".into(),
        label: "t".into(),
        config: RulesetEcho {
            seats: Some(texts(seats)),
            stack_bb: None,
            bb: None,
            ante_bb: None,
            rake_rate: None,
            rake_cap_bb: None,
        },
        config_hash: "00000000".into(),
        ev_unit: "bb".into(),
        generator: PreflopGenInfo {
            version: "0".into(),
            traversals: 1,
            seed: 1,
            strategy_drift: None,
        },
    })
    .unwrap();
    assert!(charts.add_node(mk("", "SB", &["Fold", "Raise to 2.5bb"], &[0.25, 0.75])));
    assert!(charts.add_node(mk("r2.5", "BB", &["Fold", "Call"], &[0.5, 0.5])));
    charts
}

#[test]
fn preflop_flop_spots_are_heads_up_consistent() {
    let charts = hu_charts(&["SB", "BB"]);
    assert!(is_heads_up(&charts.header.config));
    assert!(!is_heads_up(&hu_charts(&["CO", "SB", "BB"]).header.config));
    assert_eq!(
        not_heads_up("cash89"),
        "pot-odds --preflop supports heads-up rulesets only (cash-hu*, mtt-hu*); cash89 is not heads-up"
    );
    let mut hand = HuHand::start(deal_heads_up());
    let weights = hand.weights(&charts).unwrap();
    assert_eq!(weights.iter().map(|x| val(*x)).collect::<Vec<_>>(), vec![0.25, 0.75]);
    assert_eq!(hand.act(&charts, 1), Step::Continue);
    assert_eq!(hand.path, "r2.5");
    assert_eq!(hand.act(&charts, 1), Step::Flop { called: true });
    assert_eq!(hand.path, "r2.5-c");
    assert_eq!((hand.sb_rows.len(), hand.bb_rows.len()), (1, 1));
    assert_eq!(val(hand.sb_rows[0][0]), 0.75);
    assert!(hand.weights(&charts).is_none());
    let d = hand.deal;
    let cards = [
        d.first[0], d.first[1], d.second[0], d.second[1], d.flop[0], d.flop[1], d.flop[2],
    ];
    for (i, a) in cards.iter().enumerate() {
        for b in &cards[i + 1..] {
            assert_ne!(a, b, "duplicate card {a:?}");
        }
    }
    let mut folded = HuHand::start(deal_heads_up());
    assert_eq!(folded.act(&charts, 0), Step::Dead);
    assert_eq!(folded.path, "");
}

fn ns(freqs: &[f32], evs: &[f32]) -> NodeStrategy {
    NodeStrategy {
        actions: texts(&["Check", "Bet"]),
        frequencies: nums(freqs),
        action_ev: nums(evs),
    }
}

#[test]
fn score_sums_ev_loss_over_combos_in_a_bucket() {
    let hands = vec![
        HandStrategy {
            hand: "AsKs".into(),
            strategy: ns(&[0.0, 1.0], &[1.0, 3.0]),
        },
        HandStrategy {
            hand: "AhKh".into(),
            strategy: ns(&[0.10, 0.90], &[2.0, 5.0]),
        },
    ];
    let flop = [
        parse_card("Td").unwrap(),
        parse_card("9d").unwrap(),
        parse_card("6h").unwrap(),
    ];
    let groups = group_by_subrange(&hands, flop, &None);
    assert_eq!(groups.len(), 1);
    assert_eq!(
        groups[0].subrange,
        Subrange {
            bucket: Bucket::Air,
            half: Half::Whole
        }
    );
    assert_eq!(groups[0].places, vec![0, 1]);
    let loss: f32 = groups[0]
        .places
        .iter()
        .map(|&i| {
            let s = &hands[i].strategy;
            (val(s.action_ev[s.best()]) - val(s.action_ev[0])).max(0.0)
        })
        .sum();
    assert!((loss - 5.0).abs() < 1e-6);
    assert_eq!(matched(&hands, &groups[0].places, 0), 1);
    assert_eq!(worst_first(&nums(&[0.5, 2.5])), vec![1, 0]);
}

fn equity_bits(v: &[f64]) -> Vec<u64> {
    v.iter().map(|x| x.to_bits()).collect()
}

#[test]
fn split_by_median_partitions_strong_and_weak() {
    let (strong, weak) = split_by_median(&equity_bits(&[0.2, 0.5, 0.6, 0.9]));
    assert_eq!(strong, vec![2, 3]);
    assert_eq!(weak, vec![0, 1]);
    let (strong, weak) = split_by_median(&equity_bits(&[0.5, 0.5]));
    assert_eq!(strong.len(), 2);
    assert_eq!(weak.len(), 0);
}

#[test]
fn large_buckets_are_split_by_equity() {
    let hands: Vec<HandStrategy> = ["AsKs", "AhKh", "AcKc", "QsJc", "Qs2c", "Ks2c", "??"]
        .iter()
        .map(|h| HandStrategy {
            hand: h.to_string(),
            strategy: ns(&[1.0, 0.0], &[0.0, 0.0]),
        })
        .collect();
    let flop = [
        parse_card("8h").unwrap(),
        parse_card("8c").unwrap(),
        parse_card("3d").unwrap(),
    ];
    let eqs = Some(equity_bits(&[0.9, 0.1, 0.8, 0.2, 0.3, 0.7, 0.0]));
    let groups = group_by_subrange(&hands, flop, &eqs);
    assert_eq!(groups.len(), 2);
    assert_eq!(groups[0].subrange.text(), "Air ▲");
    assert_eq!(groups[0].places, vec![0, 2, 5]);
    assert_eq!(groups[1].subrange.text(), "Air ▽");
    assert_eq!(groups[1].places, vec![1, 3, 4]);
}

#[test]
fn the_other_side_is_read_off_the_sibling() {
    let spot = |oop: bool, hands: &[&str]| SolvedSpot {
        label: "t".into(),
        board: texts(&["Td", "9d", "6h"]),
        pot_bb: num(6.0),
        hero_oop: oop,
        villain_action: "x".into(),
        config: None,
        generator: None,
        strategies: hands
            .iter()
            .map(|h| HandStrategy {
                hand: h.to_string(),
                strategy: ns(&[1.0, 0.0], &[0.0, 0.0]),
            })
            .collect(),
    };
    let spots = vec![spot(true, &["AsKs"]), spot(false, &["QsQd", "??"])];
    assert_eq!(villain_range(&spots, &spots[0]).len(), 1);
    assert_eq!(villain_range(&spots[..1].to_vec(), &spots[0]).len(), 0);
}

#[test]
fn card_blocking_on_packed_hand_strings() {
    assert!(shares_card("AsKh", "KhQd"));
    assert!(!shares_card("AsKh", "QdQc"));
    assert!(blocks("AsKh", "As"));
    assert!(!blocks("AsKh", "Ad"));
}

#[test]
fn packed_hands_are_cut_into_cards() {
    assert_eq!(card_chunks("AsKh"), vec!["As", "Kh"]);
    assert_eq!(card_chunks("AsK"), vec!["As"]);
    assert_eq!(fmt_hand_str("Td9d6h"), "T♦ 9♦ 6♥");
    assert_eq!(fmt_hand_str("As??Kc"), "A♠ K♣");
    assert_eq!(fmt(parse_card("2s").unwrap()), "2♠");
    assert!(shares_card("KhQd", "AsKh") == shares_card("AsKh", "KhQd"));
}

#[test]
fn street_names_follow_board_length() {
    assert_eq!(street_name(3), "flop");
    assert_eq!(street_name(4), "turn");
    assert_eq!(street_name(5), "river");
}

#[test]
fn fmt_mix_hides_actions_gto_never_uses() {
    let freqs = [0.02f32, 0.68, 0.30];
    let percents: Vec<String> = freqs.iter().map(|f| format!("{:.0}", f * 100.0)).collect();
    assert_eq!(
        fmt_mix(&texts(&["Fold", "Call", "Raise"]), &nums(&freqs), &percents),
        "Call 68% / Raise 30%"
    );
}

#[test]
fn flop_context_classifies_and_survives_garbage() {
    let board = texts(&["Td", "9d", "6h"]);
    let (texture, bucket) = flop_context(&board, "Tc2s");
    assert_eq!(texture, "two-tone");
    assert_eq!(bucket, "TopPair");
    let paired = texts(&["8h", "8c", "3d"]);
    assert_eq!(flop_context(&paired, "").0, "paired");
    assert_eq!(
        flop_context(&texts(&["xx"]), "??"),
        (String::new(), String::new())
    );
    assert!(first_flop(&texts(&["Td", "9d"])).is_none());
}

#[test]
fn answers_are_read_as_typed() {
    assert_eq!(read_pick(" 2 \n", 3), Pick::At(1));
    assert_eq!(read_pick("+3", 3), Pick::At(2));
    assert_eq!(read_pick("0", 3), Pick::Retry);
    assert_eq!(read_pick("4", 3), Pick::Retry);
    assert_eq!(read_pick("x", 3), Pick::Retry);
    assert_eq!(read_pick("\n", 3), Pick::Quit);
    assert_eq!(read_pick("QUIT\n", 3), Pick::Quit);
    assert_eq!(read_assignment("", 3), Pick::Retry);
    assert_eq!(read_assignment("q", 3), Pick::Quit);
    assert_eq!(read_assignment("1", 3), Pick::At(0));
    assert_eq!(read_call(" Call"), CallAnswer::Call);
    assert_eq!(read_call("F\n"), CallAnswer::Fold);
    assert_eq!(read_call(""), CallAnswer::Quit);
    assert_eq!(read_call("maybe"), CallAnswer::Retry);
}

#[test]
fn lines_are_descended_step_by_step() {
    let steps = line_steps("Check, Bet 3.0bb,, deal 2c ");
    assert_eq!(steps, vec!["Check", "Bet 3.0bb", "deal 2c"]);
    let actions = texts(&["Check", "Bet 3.0bb"]);
    assert!(matches!(descend("bet 3.0BB", &actions), Ok(Replay::Play(1))));
    match descend("deal  2c", &actions) {
        Ok(Replay::Deal(c)) => assert_eq!(c, "2c"),
        other => panic!("{other:?}"),
    }
    assert_eq!(
        descend("Bet 99.0bb", &actions).unwrap_err(),
        "no action \"Bet 99.0bb\" at this node (available: Check, Bet 3.0bb)"
    );
}

#[test]
fn hands_are_played_out_by_their_nodes() {
    let range = texts(&["QsQd", "AsKd", "JhJd"]);
    assert_eq!(live_hands(&range, "AsKs"), vec!["QsQd", "JhJd"]);
    let chance = TreeNode {
        player: "chance".into(),
        dealable: texts(&["2c", "As", "Qd"]),
        ..Default::default()
    };
    match play_hand(&chance, "oop", "AsKs", "QsQd") {
        HandMove::Deal(c) => assert_eq!(c, vec!["2c"]),
        other => panic!("{other:?}"),
    }
    let node = TreeNode {
        player: "oop".into(),
        board: texts(&["Td", "9d", "6h", "2c"]),
        line: texts(&["Check", "deal 2c"]),
        actions: texts(&["Check", "Bet 2.0bb"]),
        hands: texts(&["AsKs", "QsQd"]),
        freqs: vec![nums(&[0.4, 0.0]), nums(&[0.6, 1.0])],
        evs: vec![nums(&[1.0, 0.0]), nums(&[2.0, 3.0])],
        ..Default::default()
    };
    assert!(matches!(play_hand(&node, "oop", "AsKs", "QsQd"), HandMove::Hero(0)));
    assert!(matches!(play_hand(&node, "ip", "AsKs", "QsQd"), HandMove::Villain(1)));
    assert!(matches!(play_hand(&node, "oop", "2s2d", "QsQd"), HandMove::Missing));
    let over = TreeNode {
        player: "terminal".into(),
        ..Default::default()
    };
    assert!(matches!(play_hand(&over, "oop", "AsKs", "QsQd"), HandMove::Over));
    let s = strategy_at(&node, 0);
    let d = hero_decision(&node, &s, 0);
    assert_eq!((d.street, d.line.as_str()), ("turn", "Check · deal 2c"));
    assert_eq!((d.chosen.as_str(), d.best.as_str()), ("Check", "Bet 2.0bb"));
    assert_eq!(val(d.freq), 0.4);
    let r = hand_record(5, &texts(&["Td", "9d", "6h"]), "AsKs", "srp-btn-bb", &node, &d, num(1.0));
    assert_eq!((r.drill.as_str(), r.street.as_str(), r.ts), ("hand", "turn", 5));
    assert_eq!((r.flop.as_str(), r.texture.as_str(), r.bucket.as_str()), ("td9d6h", "two-tone", "Air"));
    assert_eq!(r.line, vec!["Check", "deal 2c"]);
}

#[test]
fn records_say_where_a_decision_was_made() {
    let scored = || Scored {
        chosen: "Check".into(),
        best: "Bet".into(),
        ev_loss: Some(num(0.5)),
        gto_freq: Some(num(0.1)),
    };
    let hero = [parse_card("As").unwrap(), parse_card("Kd").unwrap()];
    let r = preflop_record(9, "cash89", hero, texts(&["UTG folds"]), scored());
    assert_eq!((r.formation.as_str(), r.hand.as_str(), r.bucket.as_str()), ("cash89", "AsKd", "AKo"));
    assert_eq!((r.chosen.as_str(), r.best.as_str(), r.v), ("Check", "Bet", 1));
    let spot = SolvedSpot {
        label: "t".into(),
        board: texts(&["Td", "9d", "6h"]),
        pot_bb: num(6.0),
        hero_oop: false,
        villain_action: "checks".into(),
        config: None,
        generator: None,
        strategies: vec![],
    };
    let r = gto_record(1, &spot, "TcTs", scored());
    assert_eq!((r.drill.as_str(), r.bucket.as_str(), r.formation.as_str()), ("gto", "Value", "srp-btn-bb"));
    assert_eq!(r.line, vec!["checks"]);
    let sub = Subrange {
        bucket: Bucket::Draw,
        half: Half::Weak,
    };
    let r = range_record(1, &spot, sub, "Bet", num(0.2), num(0.3));
    assert_eq!((r.hand.as_str(), r.best.as_str(), r.bucket.as_str()), ("", "", "Draw"));
    assert_eq!(r.ev_loss.map(val), Some(0.2));
}
