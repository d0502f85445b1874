//! Spots to solve, manifests and the list of flops.

use poker_trainer::bits::F32;
use poker_trainer::iso::{canonical_flop, parse_flop, SuitPerm};
use poker_trainer::solution::SpotConfig;
use poker_trainer::solve::{
    cbet_texts, defend_texts, iso_flops, manifest_spots, spot_from_args, split_rows, Manifest,
    ManifestError, Overrides, Run,
};
use poker_trainer::textmap::TextMap;
use std::collections::BTreeSet;

fn num(x: f32) -> F32 {
    F32::from_bits(x.to_bits())
}

fn val(x: F32) -> f32 {
    f32::from_bits(x.bits)
}

fn none() -> Overrides {
    Overrides {
        oop_range: None,
        ip_range: None,
        flop_sizes: None,
        turn_sizes: None,
        river_sizes: None,
        stack_bb: None,
        pot_bb: None,
        rake_rate: None,
        rake_cap_bb: None,
    }
}

fn defaults() -> SpotConfig {
    SpotConfig::for_formation("srp-btn-bb", "22+", "33+").unwrap()
}

#[test]
fn manifest_overrides_and_unknown_flopsets() {
    let mut flopsets = TextMap::new();
    flopsets.insert("tiny".into(), vec!["Td9d6h".to_string()]);
    let m = Manifest {
        flopsets,
        runs: vec![Run {
            formation: "srp-btn-bb".into(),
            flops: "tiny".into(),
            overrides: Overrides {
                stack_bb: Some(num(40.0)),
                rake_rate: Some(num(0.05)),
                rake_cap_bb: Some(num(3.0)),
                ..none()
            },
        }],
    };
    let spots = manifest_spots(&m, &vec![Some(defaults())]).unwrap();
    assert_eq!(spots.len(), 1);
    assert_eq!(val(spots[0].config.stack_bb), 40.0);
    assert_eq!(val(spots[0].config.rake_rate), 0.05);
    assert_ne!(spots[0].config.stack_bb.bits, defaults().stack_bb.bits);
    let bad = Manifest {
        flopsets: TextMap::new(),
        runs: vec![Run {
            formation: "srp-btn-bb".into(),
            flops: "nope".into(),
            overrides: none(),
        }],
    };
    assert!(matches!(
        manifest_spots(&bad, &vec![Some(defaults())]),
        Err(ManifestError::UnknownFlops { set }) if set == "nope"
    ));
    assert!(matches!(
        manifest_spots(&bad, &vec![None]),
        Err(ManifestError::Config { run: 0 })
    ));
}

#[test]
fn iso_flops_is_the_standard_1755() {
    let flops = iso_flops();
    assert_eq!(flops.len(), 1755);
    assert!(parse_flop(&flops[0]).is_some());
    let set: BTreeSet<&String> = flops.iter().collect();
    assert_eq!(set.len(), 1755);
}

#[test]
fn listed_flops_are_their_own_form() {
    for flop in iso_flops() {
        let (form, perm) = canonical_flop(&flop).unwrap();
        assert_eq!(form, flop);
        assert_eq!(perm, SuitPerm::identity());
    }
}

#[test]
fn solve_flags_override_formation_defaults() {
    let o = Overrides {
        flop_sizes: Some("50%".into()),
        ..none()
    };
    let spot = spot_from_args(&defaults(), &o, "Td9d6h");
    assert_eq!(spot.flop, "Td9d6h");
    assert_eq!(spot.config.flop_sizes, "50%");
    assert_eq!(spot.config.turn_sizes, "33%");
    assert_eq!(val(spot.config.pot_bb), 6.0);
    assert!(!spot.config.oop_range.is_empty());
    assert!(spot.label.contains("Td9d6h"));
}

#[test]
fn snapshot_texts_name_the_seats() {
    let c = cbet_texts("td9d6h-aa", "SRP BTN vs BB, Td9d6h", "BB", "BTN");
    assert!(c.villain_action.contains("BB"));
    let d = defend_texts("td9d6h-aa", "SRP BTN vs BB, Td9d6h", "BB", "BTN", 33, "2.0");
    assert!(d.villain_action.contains("33% pot"), "{}", d.villain_action);
    assert_ne!(c.stem, d.stem);
}

#[test]
fn flat_strategies_are_cut_into_rows() {
    let flat: Vec<F32> = [0.1, 0.2, 0.3, 0.4].iter().map(|&x| num(x)).collect();
    let rows = split_rows(&flat, 2, 2);
    assert_eq!(rows.len(), 2);
    assert_eq!(val(rows[1][0]), 0.3);
}
