//! Cards, suit relabelings and canonical flops.

use poker_trainer::bits::F32;
use poker_trainer::board::{parse_card, Card};
use poker_trainer::iso::{
    canonical_flop, card_id, card_str, parse_flop, perms, translate_node, SuitPerm,
};
use poker_trainer::texture::{class, sizing_class, specialize};
use poker_trainer::solution::{SpotConfig, DEFAULT_FLOP_SIZES};
use poker_trainer::tree::TreeNode;

fn num(x: f32) -> F32 {
    F32::from_bits(x.to_bits())
}

fn nums(v: &[f32]) -> Vec<F32> {
    v.iter().map(|&x| num(x)).collect()
}

fn bits(v: &[F32]) -> Vec<u32> {
    v.iter().map(|x| x.bits).collect()
}

fn texts(v: &[&str]) -> Vec<String> {
    v.iter().map(|s| s.to_string()).collect()
}

fn flop(a: &str, b: &str, c: &str) -> [Card; 3] {
    [
        parse_card(a).unwrap(),
        parse_card(b).unwrap(),
        parse_card(c).unwrap(),
    ]
}

#[test]
fn codec_round_trips_and_rejects_garbage() {
    assert_eq!(card_id("2c"), Some(0));
    assert_eq!(card_id("As"), Some(51));
    assert_eq!(card_id("Td"), Some(33));
    assert_eq!(card_id("td"), Some(33));
    assert_eq!(card_id("TD"), Some(33));
    assert_eq!(card_str(33), "Td");
    assert_eq!(card_str(0), "2c");
    assert_eq!(card_str(51), "As");
    for bad in ["T", "Txd", "1c", "Tx", "", "Tdd"] {
        assert_eq!(card_id(bad), None, "{bad:?}");
    }
    assert_eq!(parse_flop("Td 9d 6h"), parse_flop("td9d6h"));
    assert_eq!(parse_flop("TdTd6h"), None, "duplicate card");
    assert_eq!(parse_flop("Td9d"), None);
    assert_eq!(parse_flop("Td9d6h2c"), None);
}

#[test]
fn every_card_has_one_id() {
    for id in 0..52u8 {
        assert_eq!(card_id(&card_str(id)), Some(id));
    }
    assert_eq!(card_id("Té"), None);
}

#[test]
fn perm_inverse_compose_and_hand_rendering() {
    let swap_cd_hs = SuitPerm([1, 0, 3, 2]);
    assert_eq!(swap_cd_hs.inverse(), swap_cd_hs);
    assert!(swap_cd_hs.compose(&swap_cd_hs.inverse()).is_identity());
    assert_eq!(swap_cd_hs.card("Td").as_deref(), Some("Tc"));
    assert_eq!(swap_cd_hs.hand("AsKs").as_deref(), Some("AhKh"));
    assert_eq!(SuitPerm::identity().hand("QcQd").as_deref(), Some("QdQc"));
    assert_eq!(swap_cd_hs.card("garbage"), None);
}

#[test]
fn canonical_flop_pins_known_values() {
    let (canon, p) = canonical_flop("2d2h2s").unwrap();
    assert_eq!(canon, "2c2d2h");
    assert_eq!(p.card("2d").as_deref(), Some("2c"));
    let (canon, p) = canonical_flop("2c2d2h").unwrap();
    assert_eq!(canon, "2c2d2h");
    assert!(p.is_identity());
    let (canon, _) = canonical_flop("Td9d6h").unwrap();
    assert_eq!(canon, "6c9dTd");
    assert_eq!(canonical_flop("9dTD6h").unwrap().0, "6c9dTd");
    assert_eq!(canonical_flop("bogus"), None);
}

#[test]
fn canonical_flop_is_deterministic_on_stabilizer_boards() {
    let (canon, p) = canonical_flop("8h8c3d").unwrap();
    let (canon2, p2) = canonical_flop("8h8c3d").unwrap();
    assert_eq!(canon, canon2);
    assert_eq!(p, p2);
    let mut mapped: Vec<String> = ["8h", "8c", "3d"]
        .iter()
        .map(|c| p.card(c).unwrap())
        .collect();
    mapped.sort_by_key(|c| card_id(c).unwrap());
    assert_eq!(mapped.join(""), canon);
}

#[test]
fn relabeled_flops_share_their_canonical_flop() {
    let ps = perms();
    assert_eq!(ps.len(), 24);
    for flop in ["Td9d6h", "8h8c3d", "As Ks Qs", "Kh7c2d"] {
        let want = canonical_flop(flop).unwrap().0;
        let cards: Vec<String> = flop
            .replace(' ', "")
            .as_bytes()
            .chunks(2)
            .map(|c| String::from_utf8(c.to_vec()).unwrap())
            .collect();
        for p in &ps {
            let moved: String = cards.iter().map(|c| p.card(c).unwrap()).collect();
            assert_eq!(canonical_flop(&moved).unwrap().0, want, "{flop} {p:?}");
        }
    }
}

#[test]
fn translate_node_reorders_everything_in_lockstep() {
    let to_stored = SuitPerm([0, 3, 2, 1]);
    let stored = TreeNode {
        player: "oop".into(),
        board: texts(&["6h", "9d", "Td"]),
        pot_bb: num(6.0),
        line: texts(&["Check", "deal 2d"]),
        actions: texts(&["Check", "Bet 2.0bb"]),
        dealable: texts(&["2c", "2d"]),
        hands: texts(&["2d2c", "2s2c"]),
        freqs: vec![nums(&[0.6, 0.4]), nums(&[0.4, 0.6])],
        evs: vec![nums(&[1.0, 2.0]), nums(&[3.0, 4.0])],
        weights: nums(&[0.1, 0.2]),
        equity: nums(&[0.5, 0.7]),
    };
    let user = translate_node(stored, &to_stored);
    assert_eq!(user.board, vec!["6h", "9s", "Ts"]);
    assert_eq!(user.line, vec!["Check", "deal 2s"]);
    assert_eq!(user.actions, vec!["Check", "Bet 2.0bb"], "labels untouched");
    assert_eq!(user.dealable, vec!["2c", "2s"], "translated and sorted");
    assert_eq!(user.hands, vec!["2d2c", "2s2c"]);
    assert_eq!(bits(&user.weights), bits(&nums(&[0.2, 0.1])));
    assert_eq!(bits(&user.equity), bits(&nums(&[0.7, 0.5])));
    assert_eq!(bits(&user.freqs[0]), bits(&nums(&[0.4, 0.6])));
    assert_eq!(bits(&user.freqs[1]), bits(&nums(&[0.6, 0.4])));
    assert_eq!(bits(&user.evs[0]), bits(&nums(&[2.0, 1.0])));
    assert_eq!(bits(&user.evs[1]), bits(&nums(&[4.0, 3.0])));
}

#[test]
fn translate_node_with_identity_only_normalizes_order() {
    let node = TreeNode {
        board: texts(&["Td", "9d", "6h"]),
        hands: texts(&["AsKs"]),
        weights: nums(&[1.0]),
        ..Default::default()
    };
    let out = translate_node(node, &SuitPerm::identity());
    assert_eq!(out.board, vec!["6h", "9d", "Td"]);
    assert_eq!(out.hands, vec!["AsKs"]);
}

#[test]
fn a_node_moved_there_and_back_is_the_same() {
    let there = SuitPerm([1, 2, 3, 0]);
    let node = TreeNode {
        player: "ip".into(),
        board: texts(&["6h", "9d", "Td", "2s"]),
        pot_bb: num(6.0),
        line: texts(&["Check", "Check", "deal 2s"]),
        actions: texts(&["Check", "Bet 2.0bb"]),
        dealable: texts(&["2c", "2d", "As"]),
        hands: texts(&["2d2c", "AcKs", "AsAh"]),
        freqs: vec![nums(&[0.6, 0.4, 0.1]), nums(&[0.4, 0.6, 0.9])],
        evs: vec![nums(&[1.0, 2.0, 5.0]), nums(&[3.0, 4.0, 6.0])],
        weights: nums(&[0.1, 0.2, 0.3]),
        equity: nums(&[0.5, 0.7, 0.9]),
    };
    let moved = translate_node(node.clone(), &there);
    assert_eq!(moved.board, vec!["6d", "9c", "Tc", "2h"]);
    let back = translate_node(moved, &there.inverse());
    assert_eq!(back.board, node.board);
    assert_eq!(back.line, node.line);
    assert_eq!(back.dealable, node.dealable);
    assert_eq!(back.hands, node.hands);
    assert_eq!(bits(&back.weights), bits(&node.weights));
    assert_eq!(bits(&back.equity), bits(&node.equity));
    for a in 0..2 {
        assert_eq!(bits(&back.freqs[a]), bits(&node.freqs[a]));
        assert_eq!(bits(&back.evs[a]), bits(&node.evs[a]));
    }
}

#[test]
fn suit_patterns() {
    assert_eq!(class(flop("Td", "9d", "6h")), "two-tone");
    assert_eq!(class(flop("Kh", "7c", "2d")), "rainbow");
    assert_eq!(class(flop("As", "Ks", "Qs")), "monotone");
}

#[test]
fn pairing_beats_suit_pattern() {
    assert_eq!(class(flop("8h", "8c", "2d")), "paired");
    assert_eq!(class(flop("8h", "8d", "2d")), "paired");
}

fn cfg(formation: &str, flop_sizes: &str) -> SpotConfig {
    SpotConfig {
        formation: formation.into(),
        oop_range: String::new(),
        ip_range: String::new(),
        flop_sizes: flop_sizes.into(),
        turn_sizes: String::new(),
        river_sizes: String::new(),
        stack_bb: num(97.0),
        pot_bb: num(6.0),
        rake_rate: num(0.0),
        rake_cap_bb: num(0.0),
    }
}

#[test]
fn specialize_leaves_curated_formations_alone() {
    let mut c = cfg("srp-btn-bb", DEFAULT_FLOP_SIZES);
    specialize(&mut c, "Kh7c2d");
    assert_eq!(c.flop_sizes, DEFAULT_FLOP_SIZES);
}

#[test]
fn specialize_degrades_a_grounded_rainbow_to_a_single_75() {
    let mut c = cfg("cash-hu55:c-x", DEFAULT_FLOP_SIZES);
    specialize(&mut c, "Kh7c2d");
    assert_eq!(c.flop_sizes, "75%");
}

#[test]
fn specialize_keeps_grounded_wet_boards_at_the_default() {
    for flop in ["Td9d6h", "Jh8h3h", "8h8c2d"] {
        let mut c = cfg("cash-hu55:c-x", DEFAULT_FLOP_SIZES);
        specialize(&mut c, flop);
        assert_eq!(c.flop_sizes, DEFAULT_FLOP_SIZES, "flop {flop}");
    }
}

#[test]
fn specialize_respects_an_explicit_sizes_override() {
    let mut c = cfg("cash-hu55:c-x", "50%");
    specialize(&mut c, "Kh7c2d");
    assert_eq!(c.flop_sizes, "50%");
}

#[test]
fn specialize_leaves_a_malformed_flop_alone() {
    let mut c = cfg("cash-hu55:c-x", DEFAULT_FLOP_SIZES);
    specialize(&mut c, "not-a-flop");
    assert_eq!(c.flop_sizes, DEFAULT_FLOP_SIZES);
}

#[test]
fn sizing_class_is_suit_isomorphism_invariant() {
    let mut relabelings = Vec::new();
    for a in 0..4u8 {
        for b in 0..4u8 {
            for c in 0..4u8 {
                for d in 0..4u8 {
                    if a != b && a != c && a != d && b != c && b != d && c != d {
                        relabelings.push([a, b, c, d]);
                    }
                }
            }
        }
    }
    assert_eq!(relabelings.len(), 24);
    for base in [
        flop("Td", "9d", "6h"),
        flop("Kh", "7c", "2d"),
        flop("As", "Ks", "Qs"),
        flop("8h", "8c", "2d"),
        flop("2s", "3s", "4s"),
    ] {
        let want = sizing_class(base);
        for p in &relabelings {
            let relabeled: [Card; 3] = std::array::from_fn(|i| Card {
                rank: base[i].rank,
                suit: p[base[i].suit as usize],
            });
            assert_eq!(sizing_class(relabeled), want, "flop {base:?} perm {p:?}");
        }
    }
}
