//! The value corpus: slots, weighted ranges, records.

use poker_trainer::bits::{f16_bits, f16_val, F32};
use poker_trainer::corpus::{
    child_node, combo_index, combo_of, corpus_flops, equity_by_slot, extract_file, formation_dirs,
    is_val, median, only_header, parse_weighted_range, range_tokens, record_flags, step_freqs,
    table_file_of, unblocked, write_equity, write_record, FileStats, FlopRegistry,
    RangeError, RootRecord, TableFile, N_COMBOS, RECORD_BYTES,
};
use poker_trainer::postflop_table::{PostflopTable, TableHeader, TableNode, FORMAT_VERSION};
use poker_trainer::solution::{GenInfo, SpotConfig};
use poker_trainer::tree::TreeNode;

fn num(x: f32) -> F32 {
    F32::from_bits(x.to_bits())
}

fn nums(v: &[f32]) -> Vec<F32> {
    v.iter().map(|&x| num(x)).collect()
}

fn val(x: F32) -> f32 {
    f32::from_bits(x.bits)
}

fn texts(v: &[&str]) -> Vec<String> {
    v.iter().map(|s| s.to_string()).collect()
}

#[test]
fn combo_index_is_the_triangular_order() {
    assert_eq!(combo_index(1, 0), 0);
    assert_eq!(combo_index(2, 0), 1);
    assert_eq!(combo_index(2, 1), 2);
    assert_eq!(combo_index(51, 50), N_COMBOS - 1);
    assert_eq!(combo_of("AsAh"), Some((51, 50, N_COMBOS - 1)));
    assert_eq!(combo_of("2d2c"), Some((1, 0, 0)));
    assert_eq!(combo_of("2c2d"), Some((1, 0, 0)));
    assert_eq!(combo_of("2c2c"), None);
    assert_eq!(combo_of("2c"), None);
}

#[test]
fn f16_pins_known_bit_patterns_and_round_trips() {
    for (x, bits) in [
        (0.0f32, 0x0000u16),
        (1.0, 0x3c00),
        (-2.0, 0xc000),
        (0.5, 0x3800),
        (65504.0, 0x7bff),
        (1e9, 0x7c00),
        (5.9604645e-8, 0x0001),
        (-5.9604645e-8, 0x8001),
    ] {
        assert_eq!(f16_bits(num(x)), bits, "{x}");
    }
    let mut x = -20.0f32;
    while x < 20.0 {
        let back = val(f16_val(f16_bits(num(x))));
        assert!(
            (back - x).abs() <= x.abs().max(0.062) * (2f32).powi(-11),
            "{x} -> {back}"
        );
        x += 0.017;
    }
}

fn parse(s: &str) -> Result<Vec<f32>, RangeError> {
    let tokens = range_tokens(s);
    let weights: Vec<Option<F32>> = tokens
        .iter()
        .map(|t| match &t.weight {
            Some(w) => w.parse::<f32>().ok().map(num),
            None => None,
        })
        .collect();
    parse_weighted_range(&tokens, &weights).map(|v| v.into_iter().map(val).collect())
}

#[test]
fn weighted_range_parses_classes_weights_and_real_headers() {
    let w = parse("AA:0.25, KK").unwrap();
    assert_eq!(w.iter().filter(|&&x| x > 0.0).count(), 12);
    assert_eq!(w[combo_of("AsAh").unwrap().2], 0.25);
    assert_eq!(w[combo_of("KsKh").unwrap().2], 1.0);
    let pairs = parse("22+").unwrap();
    assert_eq!(pairs.iter().filter(|&&x| x > 0.0).count(), 13 * 6);
    let all = parse(
        "22+,A2s+,K2s+,Q2s+,J4s+,T6s+,96s+,85s+,75s+,64s+,53s+,43s,\
         A2o+,K7o+,Q8o+,J8o+,T8o+,97o+,87o",
    )
    .unwrap();
    assert!(all.iter().filter(|&&x| x > 0.0).count() > 600);
    assert!(all.iter().all(|&x| x == 0.0 || x == 1.0));
    assert!(parse("AA:zebra").is_err());
    assert!(matches!(parse("ZZ"), Err(RangeError::Hands { .. })));
}

const SUITS: [&str; 4] = ["c", "d", "h", "s"];

fn pairs_of(rank: &str) -> Vec<String> {
    let mut v = Vec::new();
    for (i, a) in SUITS.iter().enumerate() {
        for b in &SUITS[i + 1..] {
            v.push(format!("{rank}{b}{rank}{a}"));
        }
    }
    v
}

fn aa_kk_hands() -> Vec<String> {
    let mut v = pairs_of("A");
    v.extend(pairs_of("K"));
    v
}

fn spread(n: usize, lo: f32, step: f32) -> Vec<f32> {
    (0..n).map(|i| lo + step * i as f32).collect()
}

fn rest(first: &[f32]) -> Vec<f32> {
    first.iter().map(|c| 1.0 - c).collect()
}

fn rows(v: &[Vec<f32>]) -> Vec<Vec<F32>> {
    v.iter().map(|r| nums(r)).collect()
}

/// Own reach times the mass of the opponent that shares no card.
fn oracle_weights(own: &[String], own_rho: &[f32], opp: &[String], opp_rho: &[f32]) -> Vec<f32> {
    own.iter()
        .zip(own_rho)
        .map(|(h, &r)| {
            let hc = [&h[..2], &h[2..]];
            let mass: f32 = opp
                .iter()
                .zip(opp_rho)
                .filter(|(o, _)| !hc.iter().any(|c| o.contains(*c)))
                .map(|(_, &m)| m)
                .sum();
            r * mass
        })
        .collect()
}

struct Fixture {
    table: PostflopTable,
    rho_oop: Vec<f32>,
    rho_ip: Vec<f32>,
    turn_freqs: Vec<Vec<f32>>,
    turn_evs: Vec<Vec<f32>>,
    child_freqs: [Vec<Vec<f32>>; 2],
    child_evs: [Vec<Vec<f32>>; 2],
}

struct Seat<'a> {
    player: &'a str,
    hands: &'a [String],
}

fn node_of(
    seat: &Seat,
    board: &[&str],
    line: &[&str],
    actions: &[&str],
    freqs: &[Vec<f32>],
    evs: &[Vec<f32>],
    weights: &[f32],
    reach: f32,
) -> TableNode {
    TableNode {
        reach: num(reach),
        node: TreeNode {
            player: seat.player.into(),
            board: texts(board),
            pot_bb: num(6.0),
            line: texts(line),
            actions: texts(actions),
            dealable: vec![],
            hands: seat.hands.to_vec(),
            evs: rows(evs),
            freqs: rows(freqs),
            weights: nums(weights),
            equity: nums(&vec![0.5; seat.hands.len()]),
        },
    }
}

/// Root (out of position, AA and KK), check, in position (KK at half weight),
/// check, 5c, turn root. Where it is complete both actions of the turn root have
/// a stored child, else a third has none. The rows come in no order of lines.
fn fixture(complete: bool) -> Fixture {
    let (oop_hands, ip_hands) = (aa_kk_hands(), pairs_of("K"));
    let (base_oop, base_ip) = (vec![1.0f32; 12], vec![0.5f32; 6]);
    let root_check = spread(12, 0.40, 0.02);
    let ip_check = spread(6, 0.55, 0.03);
    let rho_oop: Vec<f32> = base_oop.iter().zip(&root_check).map(|(b, f)| b * f).collect();
    let rho_ip: Vec<f32> = base_ip.iter().zip(&ip_check).map(|(b, f)| b * f).collect();

    let tr_a = spread(12, 0.20, 0.015);
    let tr_b = spread(12, 0.30, 0.010);
    let tr_last: Vec<f32> = tr_a
        .iter()
        .zip(&tr_b)
        .map(|(a, b)| if complete { 1.0 - a } else { 1.0 - a - b })
        .collect();
    let (turn_actions, turn_freqs, turn_evs) = if complete {
        (
            vec!["Check", "Bet 4.0bb"],
            vec![tr_a, tr_last],
            vec![spread(12, 1.0, 0.1), spread(12, 2.0, 0.05)],
        )
    } else {
        (
            vec!["Check", "Bet 4.0bb", "Bet 9.0bb"],
            vec![tr_a, tr_b, tr_last],
            vec![
                spread(12, 1.0, 0.1),
                spread(12, 2.0, 0.05),
                spread(12, 0.5, 0.2),
            ],
        )
    };
    let c0_check = spread(6, 0.6, 0.02);
    let c0_freqs = vec![c0_check.clone(), rest(&c0_check)];
    let c0_evs = vec![spread(6, 2.0, 0.2), spread(6, 3.0, 0.1)];
    let c1_check = spread(6, 0.3, 0.05);
    let c1_freqs = vec![c1_check.clone(), rest(&c1_check)];
    let c1_evs = vec![spread(6, 1.0, 0.3), spread(6, 4.0, 0.05)];

    let oop = Seat { player: "oop", hands: &oop_hands };
    let ip = Seat { player: "ip", hands: &ip_hands };
    let flop = ["2c", "3c", "4c"];
    let turn = ["2c", "3c", "4c", "5c"];
    let nodes = vec![
        node_of(
            &ip,
            &turn,
            &["Check", "Check", "deal 5c", "Bet 4.0bb"],
            &["Fold", "Call"],
            &c1_freqs,
            &c1_evs,
            &[0.1; 6],
            0.2,
        ),
        node_of(
            &oop,
            &turn,
            &["Check", "Check", "deal 5c"],
            &turn_actions,
            &turn_freqs,
            &turn_evs,
            &oracle_weights(&oop_hands, &rho_oop, &ip_hands, &rho_ip),
            0.4,
        ),
        node_of(
            &ip,
            &turn,
            &["Check", "Check", "deal 5c", "Check"],
            &["Check", "Bet 4.0bb"],
            &c0_freqs,
            &c0_evs,
            &[0.1; 6],
            0.3,
        ),
        node_of(
            &ip,
            &flop,
            &["Check"],
            &["Check", "Bet 4.0bb"],
            &[ip_check.clone(), rest(&ip_check)],
            &vec![vec![0.0; 6]; 2],
            &oracle_weights(&ip_hands, &base_ip, &oop_hands, &rho_oop),
            0.5,
        ),
        node_of(
            &oop,
            &flop,
            &[],
            &["Check", "Bet 3.0bb"],
            &[root_check.clone(), rest(&root_check)],
            &vec![vec![0.0; 12]; 2],
            &oracle_weights(&oop_hands, &base_oop, &ip_hands, &base_ip),
            1.0,
        ),
    ];
    let header = TableHeader {
        version: FORMAT_VERSION,
        formation: "fixture".into(),
        config: SpotConfig::for_formation("srp-btn-bb", "AA,KK", "KK:0.5").unwrap(),
        config_hash: "00000000".into(),
        generator: GenInfo {
            version: "test".into(),
            exploitability_bb: num(0.0),
        },
        reach: num(0.002),
    };
    Fixture {
        table: PostflopTable::from_rows(header, nodes).unwrap(),
        rho_oop,
        rho_ip,
        turn_freqs,
        turn_evs,
        child_freqs: [c0_freqs, c1_freqs],
        child_evs: [c0_evs, c1_evs],
    }
}

type Combo = (u8, u8, usize);

/// The mass that shares no card with a hand, by its sums per card.
fn compat(mass: &[f32], combos: &[Combo], (hi, lo, ix): Combo) -> f32 {
    let by = |c: u8| -> f32 {
        let held = combos.iter().filter(|k| k.0 == c || k.1 == c);
        held.map(|k| mass[k.2]).sum()
    };
    let total: f32 = combos.iter().map(|k| mass[k.2]).sum();
    (total - by(hi) - by(lo) + mass[ix]).max(0.0)
}

fn mix_value(n: &TreeNode, hand: usize) -> f32 {
    (0..n.actions.len())
        .map(|a| val(n.freqs[a][hand]) * val(n.evs[a][hand]))
        .sum()
}

/// The one record of a table: what the plan names, multiplied and added up.
fn only_record(table: &PostflopTable) -> (RootRecord, FileStats) {
    let plan = extract_file(table);
    assert_eq!(plan.roots.len(), 1);
    let mut stats = FileStats::new();
    stats.roots = plan.roots.len();
    stats.bad_nodes = plan.bad_nodes;
    stats.ip_masked = plan.ip_masked;
    let root = &plan.roots[0];
    let stored = &table.nodes()[root.node];
    let n = &stored.node;
    let base = |s: &str| -> Vec<f32> {
        let open = unblocked(&nums(&parse(s).unwrap()), root.board);
        open.into_iter().map(val).collect()
    };
    let (mut oop, mut ip) = (base("AA,KK"), base("KK:0.5"));
    for s in &root.steps {
        let freqs = step_freqs(table, &n.line, s).unwrap();
        let (rho, combos) = if s.oop {
            (&mut oop, &plan.oop)
        } else {
            (&mut ip, &plan.ip)
        };
        for (c, f) in combos.iter().zip(freqs) {
            rho[c.2] *= val(*f);
        }
    }
    let mut oop_cfv = vec![0f32; N_COMBOS];
    for (p, c) in plan.oop.iter().enumerate() {
        oop_cfv[c.2] = mix_value(n, p) / val(n.pot_bb);
    }
    let mut ip_cfv = vec![0f32; N_COMBOS];
    if root.complete {
        for (q, &hand) in plan.ip.iter().enumerate() {
            let (mut acc, mut sum) = (0f32, 0f32);
            for &a in &root.children {
                let child = child_node(table, stored, a).unwrap();
                let mut mass = vec![0f32; N_COMBOS];
                for (p, c) in plan.oop.iter().enumerate() {
                    mass[c.2] = oop[c.2] * val(n.freqs[a][p]);
                }
                let w = compat(&mass, &plan.oop, hand);
                acc += w * mix_value(&child.node, q);
                sum += w;
            }
            ip_cfv[hand.2] = acc / sum / val(n.pot_bb);
        }
    }
    let weights: Vec<f32> = n.weights.iter().map(|w| val(*w)).collect();
    let own: Vec<f32> = plan
        .oop
        .iter()
        .map(|&c| oop[c.2] * compat(&ip, &plan.ip, c))
        .collect();
    let ratios: Vec<f32> = weights.iter().zip(&own).map(|(s, w)| s / w).collect();
    let scale = val(median(&nums(&ratios)).unwrap());
    let most = weights.iter().copied().fold(0f32, f32::max);
    let off = weights
        .iter()
        .zip(&own)
        .map(|(s, w)| (s - scale * w).abs())
        .fold(0f32, f32::max);
    stats.note_weights(num(off / most));
    let record = RootRecord {
        board: root.board,
        pot_bb: n.pot_bb,
        reach: stored.reach,
        flags: record_flags(root.complete),
        oop_reach: nums(&oop),
        ip_reach: nums(&ip),
        oop_cfv_pot: nums(&oop_cfv),
        ip_cfv_pot: nums(&ip_cfv),
        oop_equity: equity_by_slot(&n.equity, &plan.oop),
    };
    (record, stats)
}

#[test]
fn extract_file_reconstructs_reaches_and_cfvs() {
    let fx = fixture(true);
    let (r, stats) = only_record(&fx.table);
    assert_eq!(stats.roots, 1);
    assert_eq!(stats.bad_nodes, 0);
    assert_eq!(stats.ip_masked, 0);
    assert_eq!(stats.denom_zero, 0);
    assert_eq!(stats.weight_breaches, 0);
    assert_eq!(r.flags, 1);
    assert_eq!(r.board, [0, 4, 8, 12]);
    assert_eq!(val(r.pot_bb), 6.0);
    assert!((val(r.reach) - 0.4).abs() < 1e-6);

    let (oop_hands, ip_hands) = (aa_kk_hands(), pairs_of("K"));
    for (p, h) in oop_hands.iter().enumerate() {
        let ix = combo_of(h).unwrap().2;
        assert!((val(r.oop_reach[ix]) - fx.rho_oop[p]).abs() < 1e-6, "{h}");
        assert_eq!(val(r.oop_equity[ix]), 0.5);
    }
    for (q, h) in ip_hands.iter().enumerate() {
        let ix = combo_of(h).unwrap().2;
        assert!((val(r.ip_reach[ix]) - fx.rho_ip[q]).abs() < 1e-6, "{h}");
    }
    assert_eq!(val(r.oop_reach[combo_of("QsQh").unwrap().2]), 0.0);
    assert_eq!(val(r.ip_reach[combo_of("AsAh").unwrap().2]), 0.0);
    assert_eq!(val(r.oop_equity[combo_of("QsQh").unwrap().2]), 0.0);

    for (p, h) in oop_hands.iter().enumerate() {
        let want: f32 = (0..fx.turn_freqs.len())
            .map(|a| fx.turn_freqs[a][p] * fx.turn_evs[a][p])
            .sum();
        let ix = combo_of(h).unwrap().2;
        assert!((val(r.oop_cfv_pot[ix]) - want / 6.0).abs() < 1e-6, "{h}");
    }
    for (q, h) in ip_hands.iter().enumerate() {
        let hc = [&h[..2], &h[2..]];
        let (mut num, mut den) = (0f32, 0f32);
        for (ci, ai) in [(0usize, 0usize), (1, 1)] {
            let mass: f32 = oop_hands
                .iter()
                .enumerate()
                .filter(|(_, o)| !hc.iter().any(|c| o.contains(*c)))
                .map(|(p, _)| fx.rho_oop[p] * fx.turn_freqs[ai][p])
                .sum();
            let cfv: f32 = (0..2)
                .map(|b| fx.child_freqs[ci][b][q] * fx.child_evs[ci][b][q])
                .sum();
            num += mass * cfv;
            den += mass;
        }
        let ix = combo_of(h).unwrap().2;
        assert!((val(r.ip_cfv_pot[ix]) - num / den / 6.0).abs() < 1e-5, "{h}");
    }
}

#[test]
fn incomplete_children_mask_the_ip_side() {
    let fx = fixture(false);
    let (r, stats) = only_record(&fx.table);
    assert_eq!(stats.roots, 1);
    assert_eq!(stats.ip_masked, 1);
    assert_eq!(val(stats.max_zero_sum_dev_bb), 0.0);
    assert_eq!(r.flags, 0);
    assert!(r.ip_cfv_pot.iter().all(|&x| val(x) == 0.0));
    assert!(r.oop_cfv_pot.iter().any(|&x| val(x) != 0.0));
    assert!(r.ip_reach.iter().any(|&x| val(x) != 0.0));
}

#[test]
fn the_board_blocks_its_hands() {
    let all = nums(&vec![1.0; N_COMBOS]);
    let open = unblocked(&all, [0, 4, 8, 12]);
    assert_eq!(open.iter().filter(|x| val(**x) == 1.0).count(), 48 * 47 / 2);
    for h in ["2c2d", "As3c", "5c4c"] {
        assert_eq!(val(open[combo_of(h).unwrap().2]), 0.0, "{h}");
    }
    assert_eq!(val(open[combo_of("AsAh").unwrap().2]), 1.0);
}

#[test]
fn equities_without_a_hand_each_are_left_out() {
    let ace = combo_of("AsAh").unwrap();
    let one = equity_by_slot(&nums(&[0.7]), &vec![ace]);
    assert_eq!(val(one[ace.2]), 0.7);
    assert_eq!(one.iter().filter(|x| x.bits != 0).count(), 1);
    assert!(equity_by_slot(&nums(&[0.7, 0.1]), &vec![ace]).iter().all(|x| x.bits == 0));
}

fn record() -> RootRecord {
    let mut r = RootRecord {
        board: [0, 4, 8, 12],
        pot_bb: num(6.0),
        reach: num(0.4),
        flags: 1,
        oop_reach: nums(&vec![0.0; N_COMBOS]),
        ip_reach: nums(&vec![0.0; N_COMBOS]),
        oop_cfv_pot: nums(&vec![0.0; N_COMBOS]),
        ip_cfv_pot: nums(&vec![0.0; N_COMBOS]),
        oop_equity: nums(&vec![0.0; N_COMBOS]),
    };
    let ix = combo_of("KsKh").unwrap().2;
    r.oop_reach[ix] = num(0.62);
    r.ip_reach[ix] = num(0.35);
    r.oop_cfv_pot[ix] = num(0.3);
    r.ip_cfv_pot[ix] = num(-0.7);
    r.oop_equity[ix] = num(0.5);
    r
}

#[test]
fn record_bytes_round_trip_the_layout() {
    let r = record();
    let buf = write_record(1754, 3, &r);
    assert_eq!(buf.len(), RECORD_BYTES);
    assert_eq!(u16::from_le_bytes([buf[0], buf[1]]), 1754);
    assert_eq!(buf[2], 3);
    assert_eq!(buf[3], r.flags);
    assert_eq!(&buf[4..8], &r.board);
    assert_eq!(f32::from_le_bytes(buf[8..12].try_into().unwrap()), 6.0);
    assert_eq!(f32::from_le_bytes(buf[12..16].try_into().unwrap()), 0.4);
    let ix = combo_of("KsKh").unwrap().2;
    for (block, src) in [
        (0usize, &r.oop_reach),
        (1, &r.ip_reach),
        (2, &r.oop_cfv_pot),
        (3, &r.ip_cfv_pot),
    ] {
        let off = 16 + 2 * (block * N_COMBOS + ix);
        let got = val(f16_val(u16::from_le_bytes([buf[off], buf[off + 1]])));
        let want = val(src[ix]);
        assert!(
            (got - want).abs() <= want.abs().max(0.062) * (2f32).powi(-11),
            "block {block}: {got} vs {want}"
        );
    }
    let eq = write_equity(&r);
    assert_eq!(eq.len(), 2 * N_COMBOS);
    assert_eq!(u16::from_le_bytes([eq[2 * ix], eq[2 * ix + 1]]), 0x3800);
}

#[test]
fn flops_are_registered_once() {
    let mut reg = FlopRegistry::new();
    assert_eq!(reg.id("2c2d2h"), 0);
    assert_eq!(reg.id("6c9dTd"), 1);
    assert_eq!(reg.id("2c2d2h"), 0);
    assert_eq!(reg.list.len(), 2);
}

#[test]
fn table_files_are_picked_by_name() {
    let names = texts(&[
        "header-aa.json",
        "6c9dtd-aa.jsonl",
        "2c3c4c-aa.jsonl",
        "ts9s6h-aa.jsonl",
        "zz-aa.jsonl",
        "6c9dtd-bb.jsonl",
        "x",
    ]);
    assert_eq!(only_header(&names).unwrap(), "aa");
    assert!(only_header(&texts(&["x"])).is_err());
    match table_file_of("6c9dtd-aa.jsonl", "aa") {
        TableFile::Flop { flop, canon } => {
            assert_eq!((flop.as_str(), canon.as_str()), ("6c9dtd", "6c9dTd"));
        }
        other => panic!("{other:?}"),
    }
    assert!(matches!(table_file_of("ts9s6h-aa.jsonl", "aa"), TableFile::Skipped));
    assert!(matches!(table_file_of("zz-aa.jsonl", "aa"), TableFile::Skipped));
    assert!(matches!(table_file_of("x", "aa"), TableFile::Other));
    let (flops, skipped) = corpus_flops(&names, "aa", None);
    assert_eq!((flops.len(), skipped), (2, 3));
    assert_eq!(flops[0].0, "2c3c4c");
    let (flops, _) = corpus_flops(&names, "aa", Some(1));
    assert_eq!(flops.len(), 1);
    assert_eq!(formation_dirs("a, b,,c"), vec!["a", "b", "c"]);
    assert!(["2c2d2h", "6c9dTd", "2c3c4c", "2c3c5c", "2c3c6c"].iter().any(|f| !is_val(f)));
}

#[test]
fn breaches_are_counted_and_kept() {
    let mut s = FileStats::new();
    assert!(s.clean());
    s.note_weights(num(0.001));
    assert_eq!(s.weight_breaches, 0);
    s.note_weights(num(0.5));
    assert_eq!(s.weight_breaches, 1);
    s.note_zero_sum(num(2.0), num(1.0), &texts(&["Check"]), 2, 2);
    assert_eq!(s.zero_sum_breaches, 1);
    assert!(!s.clean());
    let mut all = FileStats::new();
    all.absorb(&s, "td9d6h");
    assert_eq!((all.weight_breaches, all.zero_sum_breaches), (1, 1));
    assert_eq!(val(all.max_weight_dev), 0.5);
    assert_eq!(median(&nums(&[3.0, 1.0, 2.0])).map(val), Some(2.0));
    assert_eq!(median(&vec![]).map(val), None);
}
