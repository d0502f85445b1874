//! The strategy grid, locks and the browsers.

use poker_trainer::bits::F32;
use poker_trainer::board::Card;
use poker_trainer::browse::{
    auto_lock_path, bet_to_peek, body_title, breadcrumb, dominant, ev_range, first_passive,
    help_line, lens_title, preset_plan, runout_of, to_act, villain_continues, Blockers, Key, Lens,
    Preset, PresetPlan, SpotView, TreeEffect, TreeView,
};
use poker_trainer::eval::Bucket;
use poker_trainer::solution::{HandStrategy, NodeStrategy, SolvedSpot};
use poker_trainer::table::{
    action_tone, bar_cells, bar_cells_forward, bucket_hits, build_grid, build_grid_node, canonical,
    cell_text, dimmed, expand_lock, load_locks, next_bucket, parse_hole, picker_card, rank_idx,
    save_locks,
    segment_widths, Cell, CellLocks, LockEntry, LockFile, Tone, CELL_W,
};
use poker_trainer::trainer::{check_locks, start_line, LockCheck};
use poker_trainer::tree::{RunoutSummary, TreeNode};

fn num(x: f32) -> F32 {
    F32::from_bits(x.to_bits())
}

fn nums(v: &[f32]) -> Vec<F32> {
    v.iter().map(|&x| num(x)).collect()
}

fn val(x: F32) -> f32 {
    f32::from_bits(x.bits)
}

fn texts(v: &[&str]) -> Vec<String> {
    v.iter().map(|s| s.to_string()).collect()
}

fn hole(s: &str) -> [Card; 2] {
    parse_hole(s).unwrap()
}

/// What a cell shows: weight, equity, EV and frequencies averaged over its rows,
/// by reach where there is any.
fn means(cell: &Cell) -> (f32, f32, f32, Vec<f32>) {
    let n = cell.rows.len() as f32;
    let reach: f32 = cell.rows.iter().map(|r| val(r.weight)).sum();
    let w = |r: &poker_trainer::table::ComboRow| {
        if reach > 0.0 {
            val(r.weight) / reach
        } else {
            1.0 / n
        }
    };
    let freqs = (0..cell.actions.len())
        .map(|a| cell.rows.iter().map(|r| w(r) * val(r.freqs[a])).sum())
        .collect();
    (
        reach / n,
        cell.rows.iter().map(|r| w(r) * val(r.equity)).sum(),
        cell.rows.iter().map(|r| w(r) * val(r.ev)).sum(),
        freqs,
    )
}

fn mk(hand: &str, f: &[f32]) -> HandStrategy {
    HandStrategy {
        hand: hand.into(),
        strategy: NodeStrategy {
            actions: texts(&["Check", "Bet 2.0bb"]),
            frequencies: nums(f),
            action_ev: nums(&[0.0, 0.0]),
        },
    }
}

fn spot(board: &[&str], strategies: Vec<HandStrategy>) -> SolvedSpot {
    SolvedSpot {
        label: "t".into(),
        board: texts(board),
        pot_bb: num(6.0),
        hero_oop: false,
        villain_action: "x".into(),
        config: None,
        generator: None,
        strategies,
    }
}

fn tree_node() -> TreeNode {
    TreeNode {
        player: "ip".into(),
        board: texts(&["Td", "9d", "6h"]),
        pot_bb: num(6.0),
        line: texts(&["Check"]),
        actions: texts(&["Check", "Bet 2.0bb"]),
        hands: texts(&["AsKs", "AhKh", "2s2d"]),
        freqs: vec![nums(&[0.4, 0.2, 1.0]), nums(&[0.6, 0.8, 0.0])],
        evs: vec![nums(&[1.0, 1.2, 0.1]), nums(&[2.0, 2.4, -0.5])],
        weights: nums(&[1.0, 0.5, 0.0]),
        equity: nums(&[0.6, 0.7, 0.3]),
        ..Default::default()
    }
}

#[test]
fn canonical_places_pairs_suited_offsuit() {
    assert_eq!(canonical(hole("AsAh")), ("AA".into(), 0, 0));
    assert_eq!(canonical(hole("AsKs")), ("AKs".into(), 0, 1));
    assert_eq!(canonical(hole("AsKh")), ("AKo".into(), 1, 0));
    assert_eq!(canonical(hole("KhAs")), ("AKo".into(), 1, 0));
    assert_eq!(canonical(hole("2c3d")), ("32o".into(), 12, 11));
}

#[test]
fn build_grid_averages_combos_into_one_cell() {
    let s = spot(
        &["2c", "7d", "9h"],
        vec![mk("AsKs", &[0.2, 0.8]), mk("AhKh", &[0.4, 0.6])],
    );
    let grid = build_grid(&s);
    let cell = grid[1].as_ref().unwrap();
    assert_eq!(cell.label, "AKs");
    assert_eq!(cell.rows.len(), 2);
    let (_, _, _, freqs) = means(cell);
    assert!((freqs[0] - 0.3).abs() < 1e-6);
    assert!((freqs[1] - 0.7).abs() < 1e-6);
    assert!(grid[0].is_none());
}

fn widths(freqs: &[f32], w: usize) -> Vec<usize> {
    let raw: Vec<f32> = freqs.iter().map(|f| f * w as f32).collect();
    let floors: Vec<usize> = raw.iter().map(|x| x.floor() as usize).collect();
    let rest: Vec<F32> = raw.iter().zip(&floors).map(|(r, f)| num(r - *f as f32)).collect();
    segment_widths(&floors, &rest, w)
}

#[test]
fn segment_widths_fill_the_cell() {
    assert_eq!(
        widths(&[0.2, 0.3, 0.5], CELL_W).iter().sum::<usize>(),
        CELL_W
    );
    assert_eq!(widths(&[1.0], CELL_W), vec![CELL_W]);
    assert_eq!(widths(&[], CELL_W), Vec::<usize>::new());
}

#[test]
fn bars_run_from_the_strongest_action_and_labels_are_centered() {
    assert_eq!(
        bar_cells(&vec![1, 3], 5),
        vec![Some(1), Some(1), Some(1), Some(0), None]
    );
    assert_eq!(
        bar_cells_forward(&vec![1, 2], 4),
        vec![Some(0), Some(1), Some(1), None]
    );
    assert_eq!(cell_text("AKs", 5).iter().collect::<String>(), " AKs ");
    assert_eq!(cell_text("AA", 5).iter().collect::<String>(), " AA  ");
    assert_eq!(action_tone("Fold"), Tone::Fold);
    assert_eq!(action_tone("check"), Tone::Passive);
    assert_eq!(action_tone("Bet 2.0bb"), Tone::Aggressive);
}

#[test]
fn picker_card_maps_rows_and_cols() {
    assert_eq!(picker_card((0, 0)), "Ac");
    assert_eq!(picker_card((3, 12)), "2s");
    assert_eq!(picker_card((2, 4)), "Th");
}

#[test]
fn build_grid_node_keeps_weights_equity_and_best_ev() {
    let grid = build_grid_node(&tree_node());
    let aks = grid[1].as_ref().unwrap();
    assert_eq!(aks.rows.len(), 2);
    let (weight, equity, ev, freqs) = means(aks);
    assert!((weight - 0.75).abs() < 1e-6);
    assert!((equity - (0.6 + 0.5 * 0.7) / 1.5).abs() < 1e-6);
    assert!((ev - (2.0 + 0.5 * 2.4) / 1.5).abs() < 1e-6);
    assert!((freqs[1] - (0.6 + 0.5 * 0.8) / 1.5).abs() < 1e-6);
    assert_eq!(aks.rows[0].bucket, Some(Bucket::Air));
    let pair = grid[168].as_ref().unwrap();
    let (weight, _, _, freqs) = means(pair);
    assert!((freqs[0] - 1.0).abs() < 1e-6);
    assert_eq!(weight, 0.0);
}

#[test]
fn snapshot_grid_carries_no_equity() {
    let s = spot(
        &["Td", "9d", "6h"],
        vec![mk("AsKs", &[0.4, 0.6]), mk("AhKh", &[0.2, 0.8])],
    );
    let grid = build_grid(&s);
    let aks = grid[1].as_ref().unwrap();
    let (weight, equity, _, freqs) = means(aks);
    assert!(equity.is_nan());
    assert_eq!(weight, 1.0);
    assert!((freqs[1] - 0.7).abs() < 1e-6);
}

#[test]
fn bucket_filter_cycles_and_matches() {
    assert_eq!(next_bucket(None), Some(Bucket::Value));
    assert_eq!(next_bucket(Some(Bucket::Air)), None);
    let grid = build_grid_node(&tree_node());
    let aks = grid[1].as_ref().unwrap();
    assert_eq!(bucket_hits(aks, Bucket::Air), aks.rows.len());
    assert_eq!(bucket_hits(aks, Bucket::Value), 0);
    assert!(!dimmed(aks, Some(Bucket::Air)));
    assert!(dimmed(aks, Some(Bucket::Value)));
    assert!(!dimmed(aks, None));
}

#[test]
fn expand_lock_fills_locked_cells_and_zeros_the_rest() {
    let node = tree_node();
    let mut locks = CellLocks::new();
    locks.set(1, nums(&[0.0, 1.0]));
    let strat = expand_lock(&node, &locks);
    assert_eq!(strat.len(), node.actions.len());
    assert_eq!(strat[0].len(), node.hands.len());
    for j in [0, 1] {
        assert_eq!(val(strat[0][j]), 0.0);
        assert_eq!(val(strat[1][j]), 1.0);
    }
    assert_eq!(val(strat[0][2]), 0.0);
    assert_eq!(val(strat[1][2]), 0.0);
}

#[test]
fn saved_locks_are_loaded_again() {
    let mut locks = CellLocks::new();
    locks.set(1, nums(&[0.0, 1.0]));
    locks.set(168, nums(&[0.5, 0.5]));
    let entries = save_locks(&locks);
    assert_eq!(entries.len(), 2);
    assert_eq!((entries[1].row, entries[1].col), (12, 12));
    let back = load_locks(&entries, 2);
    assert_eq!(back.len(), 2);
    let other = load_locks(&entries, 3);
    assert_eq!(other.len(), 0);
    let outside = vec![LockEntry {
        row: 13,
        col: 0,
        freqs: nums(&[1.0, 0.0]),
    }];
    assert_eq!(load_locks(&outside, 2).len(), 0);
}

#[test]
fn blocked_is_the_dead_share_of_continue_mass() {
    let b = Blockers {
        action: "Bet 2.0bb".into(),
        mass: vec![
            (hole("AhAd"), num(1.0)),
            (hole("KsKd"), num(0.5)),
            (hole("QsQd"), num(0.0)),
        ],
    };
    let share = |hero: [Card; 2]| {
        let total: f32 = b.mass.iter().map(|m| val(m.1)).sum();
        let dead: f32 = b.blocked(hero).iter().map(|&i| val(b.mass[i].1)).sum();
        dead / total
    };
    assert!((share(hole("AhKs")) - 1.0).abs() < 1e-6);
    assert!((share(hole("KdQs")) - 0.5 / 1.5).abs() < 1e-6);
    assert_eq!(share(hole("7c2c")), 0.0);
}

/// The mix of a cell under a preset, `None` where it is left free.
fn preset(actions: &[&str], freqs: &[f32], p: Preset) -> Option<Vec<f32>> {
    let labels = texts(actions);
    let raised: f32 = labels
        .iter()
        .zip(freqs)
        .filter(|(a, _)| poker_trainer::report::is_aggressive(a))
        .map(|(_, f)| f)
        .sum();
    match preset_plan(&labels, &nums(freqs), num(raised), 1.0 - raised <= 1e-6, p) {
        PresetPlan::Skip => None,
        PresetPlan::ScaleFold(i) => {
            let f = freqs[i];
            let nf = (f * 1.5).min(1.0);
            let scale = if f < 1.0 { (1.0 - nf) / (1.0 - f) } else { 1.0 };
            Some(
                freqs
                    .iter()
                    .enumerate()
                    .map(|(k, x)| if k == i { nf } else { x * scale })
                    .collect(),
            )
        }
        PresetPlan::DropRaises(to) => {
            let mut out: Vec<f32> = labels
                .iter()
                .zip(freqs)
                .map(|(a, f)| {
                    if poker_trainer::report::is_aggressive(a) {
                        0.0
                    } else {
                        *f
                    }
                })
                .collect();
            match to {
                Some(i) => out[i] = 1.0,
                None => out.iter_mut().for_each(|x| *x /= 1.0 - raised),
            }
            Some(out)
        }
    }
}

#[test]
fn presets_rescale_the_cell_mix() {
    let f = preset(
        &["Fold", "Call", "Raise to 6.0bb"],
        &[0.4, 0.4, 0.2],
        Preset::Overfold,
    )
    .unwrap();
    assert!((f[0] - 0.6).abs() < 1e-6);
    assert!((f[1] - 0.4 * (2.0 / 3.0)).abs() < 1e-6);
    assert!((f[2] - 0.2 * (2.0 / 3.0)).abs() < 1e-6);
    assert!(preset(&["Fold", "Call"], &[0.0, 1.0], Preset::Overfold).is_none());
    assert!(preset(&["Check", "Bet"], &[0.5, 0.5], Preset::Overfold).is_none());
    let f = preset(
        &["Fold", "Call", "Bet 2.0bb"],
        &[0.2, 0.3, 0.5],
        Preset::NeverRaise,
    )
    .unwrap();
    assert!((f[0] - 0.4).abs() < 1e-6);
    assert!((f[1] - 0.6).abs() < 1e-6);
    assert_eq!(f[2], 0.0);
    let f = preset(
        &["Fold", "Call", "Raise to 9.0bb"],
        &[0.0, 0.0, 1.0],
        Preset::NeverRaise,
    )
    .unwrap();
    assert_eq!(f, vec![1.0, 0.0, 0.0]);
    assert_eq!(first_passive(&texts(&["Bet 2.0bb"])), None);
}

#[test]
fn auto_lock_path_slugs_the_line() {
    let node = TreeNode {
        board: texts(&["Td", "9d", "6h", "2c"]),
        line: texts(&["Check", "Bet 2.0bb", "deal 2c"]),
        ..Default::default()
    };
    assert_eq!(
        auto_lock_path(&node),
        "td9d6h2c-check-bet2.0bb-deal2c.locks.json"
    );
    let root = TreeNode {
        board: texts(&["Td", "9d", "6h"]),
        ..Default::default()
    };
    assert_eq!(auto_lock_path(&root), "td9d6h.locks.json");
}

#[test]
fn spots_are_browsed_in_a_circle() {
    let mut v = SpotView::new();
    assert!(v.press(Key::Char('['), 3));
    assert_eq!(v.node, 2);
    assert!(v.press(Key::Tab, 3));
    assert_eq!(v.node, 0);
    assert!(v.press(Key::Up, 3));
    assert!(v.press(Key::Char('l'), 3));
    assert_eq!(v.cursor, (0, 1));
    assert!(!v.press(Key::Esc, 3));
}

#[test]
fn keys_walk_lock_and_leave_a_tree() {
    let node = tree_node();
    let mut v = TreeView::start(None);
    assert_eq!(v.press(Key::Char('2'), &node), TreeEffect::Play(1));
    assert_eq!(v.press(Key::Char('3'), &node), TreeEffect::Stay);
    assert_eq!(v.press(Key::Char('u'), &node), TreeEffect::Back);
    assert_eq!(v.press(Key::Char('R'), &node), TreeEffect::Stay);
    v.press(Key::Char('l'), &node);
    assert_eq!(v.cursor, (0, 1));
    v.press(Key::Char('L'), &node);
    assert!(v.lock_mode);
    assert_eq!(v.press(Key::Char('2'), &node), TreeEffect::Stay);
    assert_eq!(v.locks.len(), 1);
    assert_eq!(v.press(Key::Char('S'), &node), TreeEffect::Save);
    assert_eq!(v.press(Key::Char('o'), &node), TreeEffect::Preset(Preset::Overfold));
    assert_eq!(v.press(Key::Char('R'), &node), TreeEffect::Resolve);
    v.resolved();
    assert_eq!(v.lens, Lens::Delta);
    assert!(v.compared && !v.lock_mode);
    v.moved();
    assert_eq!(v.lens, Lens::Strategy);
    assert_eq!(v.locks.len(), 0);
    v.press(Key::Char('L'), &node);
    assert_eq!(v.press(Key::Esc, &node), TreeEffect::Stay);
    assert_eq!(v.press(Key::Esc, &node), TreeEffect::Quit);
    v.press(Key::Char('f'), &node);
    assert_eq!(v.filter, Some(Bucket::Value));
    v.press(Key::Char('e'), &node);
    assert_eq!(v.lens, Lens::Ev);
}

#[test]
fn chance_nodes_pick_cards() {
    let node = TreeNode {
        player: "chance".into(),
        dealable: texts(&["Ac", "Kd"]),
        ..Default::default()
    };
    let mut v = TreeView::start(None);
    assert_eq!(v.press(Key::Enter, &node), TreeEffect::Deal);
    v.press(Key::Right, &node);
    assert_eq!(v.press(Key::Enter, &node), TreeEffect::Stay);
    v.press(Key::Down, &node);
    assert_eq!(picker_card(v.pick), "Kd");
    assert_eq!(v.press(Key::Enter, &node), TreeEffect::Deal);
    assert_eq!(v.press(Key::Char('o'), &node), TreeEffect::Runouts);
    assert_eq!(v.press(Key::Char('o'), &node), TreeEffect::Stay);
    for _ in 0..20 {
        v.press(Key::Down, &node);
    }
    assert_eq!(v.pick.0, 3);
    assert_eq!(help_line(&node, false).trim_start().chars().next(), Some('←'));
}

#[test]
fn the_answer_to_the_largest_bet_is_read() {
    let node = tree_node();
    assert_eq!(bet_to_peek(&node), Some(1));
    let answer = TreeNode {
        player: "oop".into(),
        actions: texts(&["Fold", "Call"]),
        hands: texts(&["QsQd", "??", "JsJd"]),
        freqs: vec![nums(&[0.25, 0.5, 1.0]), nums(&[0.75, 0.5, 0.0])],
        weights: nums(&[0.5]),
        ..Default::default()
    };
    let v = villain_continues(&answer).unwrap();
    assert_eq!(v.len(), 2);
    assert_eq!(val(v[0].reach), 0.5);
    assert_eq!(v[0].fold.map(val), Some(0.25));
    assert_eq!(val(v[1].reach), 1.0);
    assert_eq!(v[1].fold.map(val), Some(1.0));
    let over = TreeNode {
        player: "terminal".into(),
        ..Default::default()
    };
    assert!(villain_continues(&over).is_none());
    assert_eq!(bet_to_peek(&over), None);
}

#[test]
fn titles_name_what_is_shown() {
    let node = tree_node();
    let mut v = TreeView::start(None);
    assert_eq!(body_title(&node, &v, ""), " strategy ");
    v.press(Key::Char('f'), &node);
    assert_eq!(body_title(&node, &v, ""), " strategy · filter Value ");
    v.press(Key::Char('L'), &node);
    assert_eq!(
        body_title(&node, &v, ""),
        " LOCK EDIT · 0 cell(s) · 1-9 set, c clear, R resolve "
    );
    assert_eq!(lens_title(Lens::Ev, None, "+1.0 … +2.0"), " ev · +1.0 … +2.0bb ");
    assert_eq!(breadcrumb(&vec![]), "(root)");
    assert_eq!(breadcrumb(&texts(&["Check", "Bet 2.0bb"])), "Check · Bet 2.0bb");
    assert_eq!(to_act("ip"), "IP (BTN) to act");
    assert_eq!(to_act("terminal"), "terminal");
    assert_eq!(dominant(&nums(&[0.2, 0.8])), Some(1));
    assert_eq!(dominant(&vec![]), None);
    let (lo, hi) = ev_range(&nums(&[1.0, f32::NAN, -2.0]));
    assert_eq!((val(lo), val(hi)), (-2.0, 1.0));
    let (lo, hi) = ev_range(&vec![]);
    assert_eq!((val(lo), val(hi)), (0.0, 1.0));
}

#[test]
fn runouts_are_found_by_card() {
    let runouts = vec![RunoutSummary {
        card: "2c".into(),
        actions: texts(&["Check"]),
        freqs: nums(&[1.0]),
        ev_bb: num(1.0),
    }];
    assert_eq!(runout_of(&runouts, "2c"), Some(0));
    assert_eq!(runout_of(&runouts, "2d"), None);
}

#[test]
fn lock_files_fit_their_flop_and_line() {
    let file = LockFile {
        v: 1,
        board: texts(&["Td", "9d", "6h", "2c"]),
        line: texts(&["Check", "Bet 2.0bb"]),
        config_hash: "f55543b1".into(),
        locks: vec![],
    };
    assert!(matches!(check_locks(&file, true, "Td9d6h", "f55543b1"), LockCheck::TwoLines));
    assert!(matches!(
        check_locks(&file, false, "9dTd6h", "f55543b1"),
        LockCheck::Fits { same_config: true }
    ));
    assert!(matches!(
        check_locks(&file, false, "9dTd6h", "00000000"),
        LockCheck::Fits { same_config: false }
    ));
    match check_locks(&file, false, "9dTd6c", "f55543b1") {
        LockCheck::OtherFlop(f) => assert_eq!(f, "Td9d6h"),
        other => panic!("{other:?}"),
    }
    assert_eq!(start_line(Some(&file.line), None).as_deref(), Some("Check,Bet 2.0bb"));
    assert_eq!(start_line(Some(&vec![]), Some("Call")).as_deref(), Some("Call"));
    assert_eq!(start_line(None, None), None);
}

#[test]
fn ranks_have_their_rows() {
    assert_eq!(rank_idx(b'A'), Some(0));
    assert_eq!(rank_idx(b'2'), Some(12));
    assert_eq!(rank_idx(b'1'), None);
}
