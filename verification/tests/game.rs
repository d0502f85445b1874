//! The preflop game: rules, actions, states and trees.

use poker_trainer::bits::F32;
use poker_trainer::game::{
    fmt_bb, raise_amount, replay, tree_stats, Action, Ruleset, RulesetError, SolverParams, State,
    Terminal, TreeStats,
};

fn num(x: f32) -> F32 {
    F32::from_bits(x.to_bits())
}

fn mults(v: &[f64]) -> Vec<u64> {
    v.iter().map(|m| (*m as f32 as f64 * 8_388_608.0) as u64).collect()
}

fn six_max(id: &str, stack: u32, ante: u32, jam_from_level: u8) -> Ruleset {
    Ruleset {
        id: id.into(),
        label: id.into(),
        seats: ["UTG", "HJ", "CO", "BTN", "SB", "BB"].map(String::from).to_vec(),
        stack_cb: stack,
        sb_cb: 50,
        bb_cb: 100,
        blinds_sound: true,
        ante_cb: ante,
        open_to_cb: vec![200, 250, 300],
        threebet_mult: mults(&[2.0, 3.0, 4.0]),
        squeeze_mult: mults(&[4.0]),
        fourbet_mult: mults(&[2.3]),
        jam_from_level,
        rake_rate: num(0.0),
        rake_cap_bb: num(0.0),
        icm_payouts: None,
        solver: SolverParams {
            traversals: 1000,
            seed: 1,
            export_reach: num(0.0),
            starter_reach: num(0.0),
        },
    }
}

fn cash100() -> Ruleset {
    six_max("cash100", 10_000, 0, 2)
}

fn hu_pushfold() -> Ruleset {
    Ruleset {
        seats: ["SB", "BB"].map(String::from).to_vec(),
        stack_cb: 1000,
        open_to_cb: vec![],
        threebet_mult: mults(&[3.0]),
        squeeze_mult: mults(&[3.0]),
        fourbet_mult: mults(&[2.3]),
        jam_from_level: 0,
        ..six_max("hu10", 1000, 0, 0)
    }
}

fn legal(st: &State, rs: &Ruleset) -> Vec<Action> {
    let mut acts = Vec::new();
    st.legal(rs, &mut acts);
    acts
}

#[test]
fn fmt_bb_trims_trailing_zeros() {
    assert_eq!(fmt_bb(300), "3");
    assert_eq!(fmt_bb(250), "2.5");
    assert_eq!(fmt_bb(1225), "12.25");
    assert_eq!(fmt_bb(50), "0.5");
}

#[test]
fn hu_pushfold_is_the_textbook_two_node_game() {
    let rs = hu_pushfold();
    let stats = tree_stats(&rs);
    assert_eq!(
        stats,
        TreeStats {
            decisions: 2,
            states: 2,
            edges: 4,
            fold_wins: 2,
            allin_2way: 1,
            allin_multi: 0,
            flop_2way: 0,
            flop_multi: 0,
            max_depth: 2,
        }
    );
    let st = replay(&rs, "ai-c").unwrap();
    assert_eq!(
        st.terminal(&rs),
        Some(Terminal::AllInShowdown { players: 0b11 })
    );
    assert_eq!(st.pot(&rs), 2000);
    let walk_st = replay(&rs, "f").unwrap();
    assert_eq!(walk_st.terminal(&rs), Some(Terminal::FoldWin { winner: 1 }));
    assert_eq!(walk_st.pot(&rs), 150);
}

#[test]
fn pot_counts_antes_and_dead_blinds() {
    let rs = six_max("poker-chase-40", 4000, 25, 2);
    assert_eq!(State::root(&rs).pot(&rs), 300);
    let st = replay(&rs, "r2.5-f").unwrap();
    assert_eq!(st.pot(&rs), 550);
    assert_eq!(st.to_act(), Some(2));
}

#[test]
fn legality_follows_the_level_menus() {
    let rs = cash100();
    assert_eq!(
        legal(&State::root(&rs), &rs),
        vec![
            Action::Fold,
            Action::RaiseTo(200),
            Action::RaiseTo(250),
            Action::RaiseTo(300)
        ]
    );
    let st = replay(&rs, "r2-f-f-f-f").unwrap();
    assert_eq!(st.to_act(), Some(5));
    assert_eq!(
        legal(&st, &rs),
        vec![
            Action::Fold,
            Action::Call,
            Action::RaiseTo(400),
            Action::RaiseTo(600),
            Action::RaiseTo(800)
        ]
    );
    let st = replay(&rs, "r2-c-f-f-f").unwrap();
    assert_eq!(
        legal(&st, &rs),
        vec![Action::Fold, Action::Call, Action::RaiseTo(800)]
    );
    let st = replay(&rs, "r2.5-f-f-r7.5-f-f").unwrap();
    assert_eq!(st.to_act(), Some(0));
    assert_eq!(
        legal(&st, &rs),
        vec![
            Action::Fold,
            Action::Call,
            Action::RaiseTo(1725),
            Action::AllIn
        ]
    );
    let st = replay(&rs, "r2.5-f-f-r7.5-f-f-r17.25").unwrap();
    assert_eq!(
        legal(&st, &rs),
        vec![Action::Fold, Action::Call, Action::AllIn]
    );
    let st = replay(&rs, "r2.5-f-f-r7.5-f-f-r17.25-ai").unwrap();
    assert_eq!(legal(&st, &rs), vec![Action::Fold, Action::Call]);
}

#[test]
fn walks_and_multiway_terminals_resolve() {
    let rs = cash100();
    let st = replay(&rs, "f-f-f-f-f").unwrap();
    assert_eq!(st.terminal(&rs), Some(Terminal::FoldWin { winner: 5 }));
    let st = replay(&rs, "r2.5-c-c-f-f-c").unwrap();
    assert_eq!(
        st.terminal(&rs),
        Some(Terminal::SeeFlop { players: 0b100111 })
    );
    assert_eq!(st.pot(&rs), 1050);
}

#[test]
fn replay_rejects_illegal_tokens() {
    let rs = cash100();
    assert!(replay(&rs, "c").is_err());
    assert!(replay(&rs, "r5").is_err());
    assert!(replay(&rs, "f-f-f-f-f-f").is_err());
}

#[test]
fn public_state_key_merges_fold_order() {
    let rs = cash100();
    let a = replay(&rs, "f-f-r2.5").unwrap();
    let b = replay(&rs, "f-f-r3").unwrap();
    assert_ne!(a.key(), b.key());
    assert_eq!(a.key(), replay(&rs, "f-f-r2.5").unwrap().key());
}

#[test]
fn shipped_tree_counts_are_pinned() {
    assert_eq!(
        tree_stats(&cash100()),
        TreeStats {
            decisions: 155_492,
            states: 99_023,
            edges: 332_966,
            fold_wins: 21_988,
            allin_2way: 51_366,
            allin_multi: 84_468,
            flop_2way: 6_891,
            flop_multi: 12_762,
            max_depth: 21,
        }
    );
    assert_eq!(
        tree_stats(&six_max("poker-chase-40", 4000, 25, 2)).decisions,
        155_492
    );
    assert_eq!(
        tree_stats(&six_max("poker-chase-60", 6000, 25, 2)).decisions,
        155_492
    );
    assert_eq!(
        tree_stats(&six_max("poker-chase-25", 2500, 25, 1)).decisions,
        123_765
    );
}

#[test]
fn actions_write_and_read_back() {
    assert_eq!(Action::RaiseTo(1725).token(), "r17.25");
    assert_eq!(Action::RaiseTo(250).label(), "Raise to 2.5bb");
    assert_eq!(Action::AllIn.label(), "All-in");
    assert_eq!(Action::Fold.token(), "f");
}

#[test]
fn raises_round_to_a_hundredth() {
    let m = mults(&[2.3])[0];
    assert_eq!(raise_amount(750, m), 1725);
    assert_eq!(raise_amount(1200, m), 2760);
    assert_eq!(raise_amount(0, m), 0);
}

#[test]
fn rulesets_are_refused_for_each_fault() {
    assert_eq!(cash100().validate(), Ok(()));
    let mut rs = cash100();
    rs.seats.truncate(1);
    assert_eq!(rs.validate(), Err(RulesetError::Seats(1)));
    let mut rs = cash100();
    rs.icm_payouts = Some(vec![num(1.0)]);
    assert_eq!(rs.validate(), Err(RulesetError::Payouts(1, 6)));
    let mut rs = cash100();
    rs.blinds_sound = false;
    assert_eq!(rs.validate(), Err(RulesetError::Blinds));
    let mut rs = cash100();
    rs.open_to_cb = vec![100];
    assert_eq!(rs.validate(), Err(RulesetError::OpenSize));
    let mut rs = cash100();
    rs.threebet_mult = mults(&[1.0]);
    assert_eq!(rs.validate(), Err(RulesetError::Threebet));
    let mut rs = cash100();
    rs.squeeze_mult = mults(&[0.5]);
    assert_eq!(rs.validate(), Err(RulesetError::Squeeze));
    let mut rs = cash100();
    rs.fourbet_mult = mults(&[1.0]);
    assert_eq!(rs.validate(), Err(RulesetError::Fourbet));
}

#[test]
fn shipped_manifests_load_and_validate() {
    let chase = |id: &str, stack, jam| Ruleset {
        icm_payouts: Some([4.0, 2.0, 1.0, 0.0, 0.0, 0.0].map(num).to_vec()),
        ..six_max(id, stack, 25, jam)
    };
    let all = [
        cash100(),
        chase("poker-chase-25", 2500, 1),
        chase("poker-chase-40", 4000, 2),
        chase("poker-chase-60", 6000, 2),
    ];
    for rs in &all {
        assert!(rs.validate().is_ok(), "{}", rs.id);
        assert_eq!(rs.n(), 6);
    }
    assert_eq!(all[1].jam_from_level, 1);
    assert!(all[0].icm_payouts.is_none());
    assert_eq!(all[2].icm_payouts.as_ref().map(|p| p.len()), Some(6));
}

#[test]
fn every_action_leads_to_a_decision_or_an_end() {
    for rs in [hu_pushfold(), six_max("short", 1000, 0, 0)] {
        let s = tree_stats(&rs);
        let ends = s.fold_wins + s.allin_2way + s.allin_multi + s.flop_2way + s.flop_multi;
        assert_eq!(s.edges + 1, s.decisions + ends);
    }
}
