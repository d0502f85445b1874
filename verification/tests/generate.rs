//! Chart generation: payouts, paths and file keys.

use poker_trainer::bits::F32;
use poker_trainer::game::{replay, Action, Ruleset, SolverParams, State};
use poker_trainer::generate::{
    child_path, chunk, config_hash, ev_unit, hand_shape, hand_weight, index_of, last_to_act,
    node_shape, payout, probe_paths, ruleset_hash, up_to_date, warmup, Payout,
};

fn hu10() -> Ruleset {
    Ruleset {
        id: "hu-rt".into(),
        label: "round trip".into(),
        seats: ["SB", "BB"].map(String::from).to_vec(),
        stack_cb: 1000,
        sb_cb: 50,
        bb_cb: 100,
        blinds_sound: true,
        ante_cb: 0,
        open_to_cb: vec![],
        threebet_mult: vec![3 << 23],
        squeeze_mult: vec![3 << 23],
        fourbet_mult: vec![3 << 23],
        jam_from_level: 0,
        rake_rate: F32::from_bits(0),
        rake_cap_bb: F32::from_bits(0),
        icm_payouts: None,
        solver: SolverParams {
            traversals: 3000,
            seed: 5,
            export_reach: F32::from_bits(0),
            starter_reach: F32::from_bits(0),
        },
    }
}

#[test]
fn config_hash_is_stable_and_sensitive() {
    let a = "{\"id\":\"x\",\"stack_bb\":100.0}";
    let b = "{\"id\":\"x\",\"stack_bb\":40.0}";
    assert_eq!(config_hash(a), config_hash(a));
    assert_eq!(config_hash(a).len(), 8);
    assert_ne!(config_hash(a), config_hash(b));
}

#[test]
fn rulesets_are_hashed_by_what_they_say() {
    let a = ruleset_hash("id = \"x\"\nstack_bb = 100.0\n").unwrap();
    let b = ruleset_hash("# a comment\nstack_bb = 100.0\nid = \"x\"\n").unwrap();
    assert_eq!(a, b);
    assert_ne!(a, ruleset_hash("id = \"x\"\nstack_bb = 40.0\n").unwrap());
    assert!(ruleset_hash("id = ").is_err());
    assert_eq!(a, config_hash("{\"id\":\"x\",\"stack_bb\":100.0}"));
}

#[test]
fn charts_are_kept_while_their_hash_is() {
    let header = "{\"version\":1,\"config_hash\":\"0a1b2c3d\"}";
    assert!(up_to_date(Some(header), "0a1b2c3d"));
    assert!(!up_to_date(Some(header), "00000000"));
    assert!(!up_to_date(Some("not json"), "0a1b2c3d"));
    assert!(!up_to_date(None, "0a1b2c3d"));
}

#[test]
fn payouts_follow_the_end_of_a_hand() {
    let rs = hu10();
    assert!(payout(&State::root(&rs), &rs).is_none());
    assert!(matches!(
        payout(&replay(&rs, "f").unwrap(), &rs),
        Some(Payout::Winner { seat: 1 })
    ));
    match payout(&replay(&rs, "ai-c").unwrap(), &rs) {
        Some(Payout::Showdown { seats }) => assert_eq!(seats, vec![0, 1]),
        other => panic!("{other:?}"),
    }
    assert_eq!(last_to_act(&rs, 0b11), 0);
}

#[test]
fn nodes_are_described_for_export() {
    let rs = hu10();
    let root = node_shape(&State::root(&rs), &rs, "").unwrap();
    assert_eq!(root.seat, "SB");
    assert_eq!(root.pot_cb, 150);
    assert_eq!(root.children, vec!["f", "ai"]);
    let vs_jam = node_shape(&replay(&rs, "ai").unwrap(), &rs, "ai").unwrap();
    assert_eq!(vs_jam.seat, "BB");
    assert_eq!(vs_jam.to_call_cb, 900);
    assert_eq!(vs_jam.labels, vec!["Fold", "Call"]);
    assert_eq!(vs_jam.children, vec!["ai-f", "ai-c"]);
    assert!(node_shape(&replay(&rs, "f").unwrap(), &rs, "f").is_none());
    assert_eq!(child_path("f-f", &Action::RaiseTo(250)), "f-f-r2.5");
    assert_eq!(ev_unit(&rs), "bb");
}

#[test]
fn runs_are_cut_into_chunks() {
    let total = 1_000_003u64;
    let parts: Vec<u64> = (1..=10).map(|done| chunk(total, done)).collect();
    assert_eq!(parts[0], 100_000);
    assert_eq!(parts[9], 100_003);
    assert_eq!(parts.iter().sum::<u64>(), total);
    assert_eq!(warmup(1000), 200);
    assert_eq!(hand_weight(100, 200), 0);
    assert_eq!(hand_weight(250, 200), 50);
    assert_eq!(probe_paths().len(), 6);
    assert_eq!(
        index_of(&["b", "a"].map(String::from).to_vec()),
        vec!["a", "b"]
    );
}

#[test]
fn classes_have_their_shapes() {
    assert!(hand_shape(0).pair);
    assert!(hand_shape(1).suited && hand_shape(1).connected);
    assert!(!hand_shape(13).suited && !hand_shape(13).pair);
}
