//! Equities of classes, and dealing from a deck.

use poker_trainer::board::{parse_card, Card};
use poker_trainer::equity::{
    canonical, class_pairs, combos_of, deal_hand, deal_top, disjoint_pairs, exact_pair_equity,
    join_deal, mc_shares, showdown_winners, shuffle, EquityCache, Shares, CLASSES,
};
use poker_trainer::eval::rest_of_deck;
use poker_trainer::preflop::class_index_of;
use rand::rngs::SmallRng;

fn seeded(seed: u64) -> SmallRng {
    <SmallRng as rand::SeedableRng>::seed_from_u64(seed)
}

fn class(name: &str) -> u8 {
    class_index_of(name).unwrap() as u8
}

fn flat_table() -> Vec<u64> {
    vec![0.5f64.to_bits(); CLASSES * CLASSES]
}

/// The shares of classes, sampled where they are not known.
fn shares(eq: &mut EquityCache, classes: &[u8], rng: &mut SmallRng) -> Vec<f64> {
    if let Shares::Missing { key } = eq.shares(&classes.to_vec()) {
        let won = mc_shares(&key, eq.mc_boards, rng).unwrap();
        let mut sums = vec![0.0f64; key.len()];
        for winners in &won {
            for &w in winners {
                sums[w] += 1.0 / winners.len() as f64;
            }
        }
        let values = sums.iter().map(|s| (s / won.len() as f64).to_bits()).collect();
        eq.remember(key, values);
    }
    match eq.shares(&classes.to_vec()) {
        Shares::Known { shares } => shares.into_iter().map(f64::from_bits).collect(),
        Shares::Missing { .. } => panic!("shares were remembered"),
    }
}

#[test]
fn combo_counts_match_class_kinds() {
    assert_eq!(combos_of(class_index_of("AA").unwrap()).len(), 6);
    assert_eq!(combos_of(class_index_of("AKs").unwrap()).len(), 4);
    assert_eq!(combos_of(class_index_of("AKo").unwrap()).len(), 12);
    for class in [0, 1, 13, 168] {
        let c = canonical(class);
        assert_ne!(c[0], c[1]);
    }
}

#[test]
fn mc_shares_land_in_known_bands() {
    let mut rng = seeded(7);
    let mut eq = EquityCache::new(flat_table());
    let (aa, kk, so) = (class("AA"), class("KK"), class("72o"));
    let three = shares(&mut eq, &[aa, kk, so], &mut rng);
    assert!((three.iter().sum::<f64>() - 1.0).abs() < 1e-9);
    assert!(three[0] > 0.55 && three[0] < 0.75, "AA {three:?}");
    assert!(three[2] < 0.15, "72o {three:?}");
    let flipped = shares(&mut eq, &[so, kk, aa], &mut rng);
    assert_eq!(flipped[2], three[0]);
    assert_eq!(eq.kway_len(), 1);
}

#[test]
fn two_players_are_read_off_the_table() {
    let mut table = flat_table();
    table[CLASSES + 2] = 0.25f64.to_bits();
    let eq = EquityCache::new(table);
    assert_eq!(f64::from_bits(eq.hu(1, 2)), 0.25);
    match eq.shares(&vec![1, 2]) {
        Shares::Known { shares } => {
            assert_eq!(f64::from_bits(shares[0]), 0.25);
            assert_eq!(f64::from_bits(shares[1]), 0.5);
        }
        other => panic!("{other:?}"),
    }
}

#[test]
fn pairs_of_classes_are_listed_once() {
    let pairs = class_pairs();
    assert_eq!(pairs.len(), 169 * 170 / 2);
    assert_eq!(pairs[0], (0, 0));
    assert_eq!(pairs[169], (1, 1));
    assert_eq!(disjoint_pairs(0, 0), 6);
    assert_eq!(disjoint_pairs(0, 14), 36);
}

#[test]
fn shuffles_keep_the_deck_and_deals_take_its_top() {
    let mut deck = rest_of_deck(&[]);
    assert_eq!(deck.len(), 52);
    let before = deck.clone();
    shuffle(&mut deck, &vec![51, 1, 2]);
    assert_eq!(deck[0], before[51]);
    assert_eq!(deck[51], before[0]);
    let deal = deal_top(&deck, 2);
    assert_eq!(deal.holes[0], [deck[0], deck[1]]);
    assert_eq!(deal.holes.len(), 2);
    let mut rng = seeded(3);
    let dealt = deal_hand(&mut deck, 6, &mut rng);
    assert_eq!(dealt.holes.len(), 6);
    assert_eq!(dealt.classes.len(), 6);
    let mut seen: Vec<Card> = dealt.holes.iter().flatten().copied().collect();
    seen.sort_by_key(|c| c.id());
    seen.dedup();
    assert_eq!(seen.len(), 12);
}

#[test]
fn showdowns_name_every_winner() {
    let card = |s| parse_card(s).unwrap();
    let board = ["Ah", "Kc", "Qd", "Js", "2h"].map(card).to_vec();
    let hands = vec![
        [card("Tc"), card("3c")],
        [card("Ts"), card("3s")],
        [card("Ac"), card("Ad")],
    ];
    assert_eq!(showdown_winners(&hands, &board), vec![0, 1]);
}

#[test]
fn kway_cache_round_trips_and_merges() {
    let mut rng = seeded(1);
    let mut eq = EquityCache::new(flat_table());
    eq.mc_boards = 500;
    let tuple = [0u8, 14, 28];
    let given = shares(&mut eq, &tuple, &mut rng);
    let mut fresh = EquityCache::new(flat_table());
    for (key, values) in eq.keys.iter().zip(&eq.values) {
        fresh.remember(key.clone(), values.clone());
    }
    assert_eq!(fresh.kway_len(), 1);
    assert_eq!(shares(&mut fresh, &tuple, &mut rng), given);
}

#[test]
fn aces_split_with_aces() {
    let t = exact_pair_equity(0, 0);
    assert_eq!(t.half_points, t.meetings);
    assert_eq!(t.meetings, 1_712_304);
}

#[test]
fn deals_that_cannot_be_are_not_made() {
    let mut rng = seeded(3);
    assert!(mc_shares(&vec![0, 0, 0], 1, &mut rng).is_none());
    assert_eq!(mc_shares(&vec![0, 0, 0], 0, &mut rng).unwrap().len(), 0);
    assert_eq!(mc_shares(&vec![0, 14, 28], 20, &mut rng).unwrap().len(), 20);
}

#[test]
fn a_drawn_holding_joins_unless_a_card_is_dealt() {
    let hand = |s: &str| [parse_card(&s[..2]).unwrap(), parse_card(&s[2..]).unwrap()];
    let (mut hands, mut used) = (Vec::new(), Vec::new());
    assert!(join_deal(&mut hands, &mut used, hand("AsAh")));
    assert!(!join_deal(&mut hands, &mut used, hand("AdAs")));
    assert_eq!(hands.len(), 1);
    assert!(join_deal(&mut hands, &mut used, hand("AdAc")));
    assert_eq!(used.len(), 4);
    assert_eq!(used[2], parse_card("Ad").unwrap());
}

#[test]
fn two_players_can_hold_one_class() {
    let mut rng = seeded(4);
    let won = mc_shares(&vec![0, 0, 14], 50, &mut rng).unwrap();
    assert_eq!(won.len(), 50);
    assert!(won.iter().all(|w| !w.is_empty() && w.iter().all(|&i| i < 3)));
}
