//! Solved spots, their configurations and cache keys.

use poker_trainer::bits::F32;
use poker_trainer::solution::{
    flop_key, formation, formations, matching_spots, solve_gen_args, spot_stem, ConfigNumbers,
    FileSolutionProvider, HandStrategy, NodeStrategy, SolutionProvider, SolveRequest, SolvedSpot,
    SpotConfig,
};
use poker_trainer::{fnv, postflop_table, solve};

fn num(x: f32) -> F32 {
    F32::from_bits(x.to_bits())
}

fn nums(v: &[f32]) -> Vec<F32> {
    v.iter().map(|&x| num(x)).collect()
}

fn val(x: F32) -> f32 {
    f32::from_bits(x.bits)
}

fn texts(v: &[&str]) -> Vec<String> {
    v.iter().map(|s| s.to_string()).collect()
}

fn sample_config() -> SpotConfig {
    SpotConfig {
        formation: "srp-btn-bb".into(),
        oop_range: "AA,KK".into(),
        ip_range: "QQ,JJ".into(),
        flop_sizes: "33%, 75%".into(),
        turn_sizes: "33%".into(),
        river_sizes: "33%".into(),
        stack_bb: num(97.0),
        pot_bb: num(6.0),
        rake_rate: num(0.0),
        rake_cap_bb: num(0.0),
    }
}

fn shown(x: F32) -> String {
    serde_json::to_string(&val(x)).unwrap()
}

fn hash8(c: &SpotConfig) -> String {
    c.hash8(&ConfigNumbers {
        stack_bb: shown(c.stack_bb),
        pot_bb: shown(c.pot_bb),
        rake_rate: shown(c.rake_rate),
        rake_cap_bb: shown(c.rake_cap_bb),
    })
}

fn sample_spot() -> SolvedSpot {
    SolvedSpot {
        label: "test".into(),
        board: texts(&["Td", "9d", "6h"]),
        pot_bb: num(6.0),
        hero_oop: false,
        villain_action: "checks".into(),
        config: None,
        generator: None,
        strategies: vec![HandStrategy {
            hand: "AsKs".into(),
            strategy: NodeStrategy {
                actions: texts(&["Check", "Bet 2.0bb"]),
                frequencies: nums(&[0.25, 0.75]),
                action_ev: nums(&[1.0, 3.5]),
            },
        }],
    }
}

#[test]
fn best_picks_max_ev() {
    assert_eq!(sample_spot().strategies[0].strategy.best(), 1);
}

#[test]
fn best_empty_is_zero() {
    let ns = NodeStrategy {
        actions: vec![],
        frequencies: vec![],
        action_ev: vec![],
    };
    assert_eq!(ns.best(), 0);
}

#[test]
fn best_is_the_last_of_equals() {
    let ns = NodeStrategy {
        actions: texts(&["a", "b", "c"]),
        frequencies: nums(&[0.3, 0.3, 0.4]),
        action_ev: nums(&[2.0, 2.0, -1.0]),
    };
    assert_eq!(ns.best(), 1);
}

#[test]
fn flop_key_is_order_independent() {
    assert_eq!(flop_key("6h5d4c"), flop_key("4c5d6h"));
    assert_eq!(flop_key("Td9d6h"), flop_key(&["Td", "9d", "6h"].join("")));
    assert_ne!(flop_key("6h5d4c"), flop_key("6h5d4d"));
}

#[test]
fn flop_key_lowers_and_sorts() {
    assert_eq!(flop_key("Td9d6h"), vec!["6h", "9d", "td"]);
    assert_eq!(flop_key("Td9"), vec!["9", "td"]);
}

#[test]
fn hash8_is_stable_and_config_sensitive() {
    let c = sample_config();
    assert_eq!(hash8(&c), hash8(&sample_config()));
    assert_eq!(hash8(&c).len(), 8);
    let mut tweaked = sample_config();
    tweaked.rake_rate = num(0.05);
    assert_ne!(hash8(&c), hash8(&tweaked));
}

#[test]
fn configs_are_written_in_declaration_order() {
    let mut c = sample_config();
    c.oop_range = "A\"A\n".into();
    let json = c.json(&ConfigNumbers {
        stack_bb: "97.0".into(),
        pot_bb: "6.0".into(),
        rake_rate: "0.0".into(),
        rake_cap_bb: "0.0".into(),
    });
    assert_eq!(
        json,
        "{\"formation\":\"srp-btn-bb\",\"oop_range\":\"A\\\"A\\n\",\"ip_range\":\"QQ,JJ\",\
         \"flop_sizes\":\"33%, 75%\",\"turn_sizes\":\"33%\",\"river_sizes\":\"33%\",\
         \"stack_bb\":97.0,\"pot_bb\":6.0,\"rake_rate\":0.0,\"rake_cap_bb\":0.0}"
    );
}

#[test]
fn fnv1a64_matches_reference_vectors() {
    assert_eq!(fnv::fnv1a64(""), 0xcbf2_9ce4_8422_2325);
    assert_eq!(fnv::fnv1a64("a"), 0xaf63_dc4c_8601_ec8c);
    assert_eq!(fnv::fnv1a64("foobar"), 0x8594_4171_f739_67e8);
}

#[test]
fn for_formation_reads_ranges_and_rejects_unknown_ids() {
    let c = SpotConfig::for_formation("srp-btn-bb", "AA,KK\n", "QQ,JJ\n").unwrap();
    assert_eq!(c.oop_range, "AA,KK");
    assert_eq!(val(c.pot_bb), 6.0);
    assert_eq!(val(c.stack_bb), 97.0);
    assert!(SpotConfig::for_formation("hu-limped", "AA", "KK").is_none());
    assert!(SpotConfig::for_formation("srp-co-bb", "AA", "KK").is_some());
}

#[test]
fn formations_are_found_by_id() {
    for f in formations() {
        assert_eq!(formation(f.id).unwrap().label, f.label);
    }
    assert!(formation("nope").is_none());
    assert_eq!(solve::seats("srp-btn-bb"), ("BB", "BTN"));
    assert_eq!(solve::seats("nope"), ("OOP", "IP"));
    assert_eq!(solve::spot_label("nope", "Td9d6h"), "nope, Td9d6h");
}

#[test]
fn solve_gen_args_forwards_the_whole_config() {
    let req = SolveRequest {
        flop: "Td9d6h".into(),
        config: sample_config(),
    };
    let text = |x: F32| format!("{}", val(x));
    let args = solve_gen_args(
        &req,
        &text(req.config.stack_bb),
        &text(req.config.pot_bb),
        &text(req.config.rake_rate),
        &text(req.config.rake_cap_bb),
        "/tmp/sol",
    );
    assert_eq!(args[0], "solve");
    for (flag, want) in [
        ("--flop", "Td9d6h"),
        ("--formation", "srp-btn-bb"),
        ("--oop", "AA,KK"),
        ("--sizes", "33%, 75%"),
        ("--turn-sizes", "33%"),
        ("--stack", "97"),
        ("--rake-rate", "0"),
        ("--out", "/tmp/sol"),
    ] {
        let i = args.iter().position(|a| a == flag).unwrap();
        assert_eq!(args[i + 1], want, "value of {flag}");
    }
}

#[test]
fn cached_spots_match_by_flop_and_hash() {
    let boards = vec![
        texts(&["6h", "9d", "Td"]),
        texts(&["6h", "9d", "Td"]),
        texts(&["2c", "9d", "Td"]),
        texts(&["6h", "9d", "Td"]),
    ];
    let hashes = vec![
        Some("aa".to_string()),
        Some("bb".to_string()),
        Some("aa".to_string()),
        None,
    ];
    assert_eq!(matching_spots(&boards, &hashes, "Td9d6h", "aa"), vec![0]);
    assert_eq!(spot_stem("Td9d6h", "aa"), "td9d6h-aa");
}

#[test]
fn providers_hand_out_their_spots() {
    let p = FileSolutionProvider {
        loaded: vec![sample_spot()],
    };
    assert_eq!(p.spots().len(), 1);
    assert_eq!(p.spots()[0].strategies[0].hand, "AsKs");
}

#[test]
fn table_files_are_named_by_flop_and_hash() {
    assert_eq!(postflop_table::header_file("f55543b1"), "header-f55543b1.json");
    assert_eq!(
        postflop_table::table_file("Td9d6h", "f55543b1"),
        "td9d6h-f55543b1.jsonl"
    );
    assert_eq!(postflop_table::formation_dir("srp-btn-bb"), "srp-btn-bb");
}
