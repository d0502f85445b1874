//! The tree protocol, stored tables and walks over them.

use poker_trainer::bits::F32;
use poker_trainer::iso::SuitPerm;
use poker_trainer::postflop_table::{PostflopTable, TableHeader, TableNode, FORMAT_VERSION};
use poker_trainer::serve::{
    dealable, parse_response, read_request, Effect, LockRow, NodeFacts, NodeKind, Request,
    ResponseError, ServeError, Session,
};
use poker_trainer::solution::{GenInfo, SpotConfig};
use poker_trainer::tree::{replay_step, LiveOp, Replay, Step, TableWalk, TreeNode};

fn num(x: f32) -> F32 {
    F32::from_bits(x.to_bits())
}

fn nums(v: &[f32]) -> Vec<F32> {
    v.iter().map(|&x| num(x)).collect()
}

fn texts(v: &[&str]) -> Vec<String> {
    v.iter().map(|s| s.to_string()).collect()
}

fn refused(line: &str, held: bool) -> String {
    read_request(line, held).unwrap_err().text()
}

#[test]
fn serve_dispatch_handles_errors_id_and_quit() {
    assert!(refused("not json", false).contains("bad JSON"));
    assert!(refused(r#"{"op":"node","id":7}"#, false).contains("op:solve first"));
    assert!(refused(r#"{"op":"warp"}"#, false).contains("unknown op"));
    assert!(refused(r#"{"op":"runouts"}"#, false).contains("op:solve first"));
    for op in ["lock", "resolve"] {
        assert!(refused(&format!(r#"{{"op":"{op}"}}"#), false).contains("op:solve first"));
    }
    for v in [1, 9] {
        assert!(refused(
            &format!(r#"{{"v":{v},"op":"solve","config":{{"flop":"Td9d6h"}}}}"#),
            false
        )
        .contains("unsupported protocol"));
    }
    assert!(matches!(
        read_request(r#"{"v":2,"op":"solve","config":{"flop":"Td9d6h"}}"#, false),
        Ok(Request::Solve)
    ));
    assert!(matches!(
        read_request(r#"{"op":"quit"}"#, false),
        Ok(Request::Quit)
    ));
}

#[test]
fn requests_name_what_they_need() {
    assert!(matches!(
        read_request("{}", true),
        Err(ServeError::MissingOp)
    ));
    assert!(matches!(
        read_request(r#"{"v":2,"op":"solve"}"#, false),
        Err(ServeError::NeedsConfig)
    ));
    assert!(matches!(
        read_request(r#"{"op":"play"}"#, true),
        Err(ServeError::NeedsAction)
    ));
    assert!(matches!(
        read_request(r#"{"op":"deal","card":3}"#, true),
        Err(ServeError::NeedsCard)
    ));
    assert!(matches!(
        read_request(r#"{"op":"play","action":2}"#, true),
        Ok(Request::Play { action: 2 })
    ));
}

fn player(actions: &[&str], hands: usize) -> NodeFacts {
    NodeFacts {
        kind: NodeKind::Player,
        actions: texts(actions),
        oop: true,
        hands,
        possible: 0,
    }
}

fn no_card() -> Result<u8, String> {
    Err("no card".into())
}

#[test]
fn sessions_walk_and_come_back() {
    let mut s = Session::new();
    let facts = player(&["Check", "Bet 3.0bb"], 2);
    let r = s.step(&Request::Play { action: 1 }, &facts, &no_card(), &None);
    assert!(matches!(r, Ok(Effect::Play { action: 1 })));
    assert_eq!(s.labels, vec!["Bet 3.0bb"]);
    let r = s.step(&Request::Play { action: 5 }, &facts, &no_card(), &None);
    assert!(matches!(
        r,
        Err(ServeError::ActionRange {
            action: 5,
            actions: 2
        })
    ));
    let chance = NodeFacts {
        kind: NodeKind::Chance,
        actions: vec![],
        oop: false,
        hands: 0,
        possible: 0b1,
    };
    let r = s.step(&Request::Play { action: 0 }, &chance, &no_card(), &None);
    assert!(matches!(r, Err(ServeError::NotPlayer)));
    let deal = |c: &str| Request::Deal { card: c.into() };
    assert!(matches!(
        s.step(&deal("2c"), &facts, &Ok(0), &None),
        Err(ServeError::NotChance)
    ));
    assert!(matches!(
        s.step(&deal("??"), &chance, &no_card(), &None),
        Err(ServeError::BadCard { .. })
    ));
    assert!(matches!(
        s.step(&deal("As"), &chance, &Ok(51), &None),
        Err(ServeError::CannotDeal { .. })
    ));
    assert!(matches!(
        s.step(&deal("2c"), &chance, &Ok(0), &None),
        Ok(Effect::Deal { card: 0 })
    ));
    assert_eq!(s.labels, vec!["Bet 3.0bb", "deal 2c"]);
    assert!(matches!(
        s.step(&Request::Back, &facts, &no_card(), &None),
        Ok(Effect::Replay)
    ));
    assert_eq!(s.labels, vec!["Bet 3.0bb"]);
    assert!(matches!(
        s.step(&Request::Root, &facts, &no_card(), &None),
        Ok(Effect::ToRoot)
    ));
    assert!(s.labels.is_empty());
}

#[test]
fn locks_are_checked_row_by_row() {
    let mut s = Session::new();
    let facts = player(&["Check", "Bet 3.0bb"], 2);
    let row = |v: &[f32]| LockRow {
        values: Some(v.iter().map(|&x| Some(num(x))).collect()),
    };
    let lock = |s: &mut Session, rows: Option<Vec<LockRow>>| {
        s.step(&Request::Lock, &facts, &no_card(), &rows)
    };
    assert!(matches!(lock(&mut s, None), Err(ServeError::NoStrategy)));
    assert!(matches!(
        lock(&mut s, Some(vec![row(&[1.0, 0.0])])),
        Err(ServeError::RowCount { rows: 1, actions: 2 })
    ));
    assert!(matches!(
        lock(&mut s, Some(vec![LockRow { values: None }, row(&[1.0, 0.0])])),
        Err(ServeError::RowNotArray)
    ));
    assert!(matches!(
        lock(&mut s, Some(vec![row(&[1.0]), row(&[1.0, 0.0])])),
        Err(ServeError::RowLength { row: 1, hands: 2 })
    ));
    assert!(matches!(
        lock(
            &mut s,
            Some(vec![
                LockRow {
                    values: Some(vec![None, Some(num(1.0))])
                },
                row(&[1.0, 0.0])
            ])
        ),
        Err(ServeError::NotNumber)
    ));
    assert!(s.locks.is_empty());
    assert!(lock(&mut s, Some(vec![row(&[1.0, 0.0]), row(&[0.0, 1.0])])).is_ok());
    assert_eq!(s.locks.len(), 1);
    assert_eq!(s.locks[0].strategy.len(), 4);
    let terminal = NodeFacts {
        kind: NodeKind::Terminal,
        ..player(&[], 0)
    };
    assert!(matches!(
        s.step(&Request::Lock, &terminal, &no_card(), &None),
        Err(ServeError::LockNotPlayer)
    ));
    assert!(matches!(
        s.step(&Request::Snapshot { label: None }, &terminal, &no_card(), &None),
        Err(ServeError::SnapshotNotPlayer)
    ));
}

#[test]
fn live_cards_are_listed_from_their_mask() {
    assert_eq!(dealable(0b1011), vec![0, 1, 3]);
    assert_eq!(dealable(0), Vec::<u8>::new());
}

#[test]
fn parse_response_maps_errors_and_tolerates_new_fields() {
    match parse_response("{\"error\": \"no game\"}") {
        Err(ResponseError::Told { message }) => assert_eq!(message, "no game"),
        other => panic!("{other:?}"),
    }
    let line = "{\"player\":\"chance\",\"board\":[],\"pot_bb\":6.0,\"line\":[],\"actions\":[],\
                \"dealable\":[\"2c\"],\"weights\":[0.5],\"someday\":1}";
    assert!(parse_response(line).is_ok());
    assert!(matches!(
        parse_response("oops"),
        Err(ResponseError::BadJson { .. })
    ));
}

#[test]
fn runouts_response_parses() {
    let line = "{\"runouts\":[{\"card\":\"2c\",\"actions\":[\"Check\",\"Bet 5.0bb\"],\
                \"freqs\":[0.6,0.4],\"ev_bb\":1.2}]}";
    assert!(parse_response(line).is_ok());
}

fn header(version: u32) -> TableHeader {
    TableHeader {
        version,
        formation: "srp-btn-bb".into(),
        config: SpotConfig::for_formation("srp-btn-bb", "22", "33").unwrap(),
        config_hash: "f55543b1".into(),
        generator: GenInfo {
            version: "0.1.0".into(),
            exploitability_bb: num(0.02),
        },
        reach: num(0.002),
    }
}

fn row(player: &str, line: &[&str], actions: &[&str], hands: &[&str], reach: f32) -> TableNode {
    TableNode {
        reach: num(reach),
        node: TreeNode {
            player: player.into(),
            board: texts(&["6h", "9d", "Td"]),
            pot_bb: num(6.0),
            line: texts(line),
            actions: texts(actions),
            dealable: vec![],
            hands: texts(hands),
            freqs: vec![nums(&vec![0.5; hands.len()]); actions.len()],
            evs: vec![nums(&vec![1.0; hands.len()]); actions.len()],
            weights: nums(&vec![1.0; hands.len()]),
            equity: nums(&vec![0.5; hands.len()]),
        },
    }
}

fn table() -> PostflopTable {
    PostflopTable::from_rows(
        header(FORMAT_VERSION),
        vec![
            row("oop", &[], &["Check", "Bet 3.0bb"], &["AsKs"], 1.0),
            row("ip", &["Check"], &["Check", "Bet 4.0bb"], &["QdQc"], 0.6),
        ],
    )
    .unwrap()
}

#[test]
fn load_round_trips_and_looks_up_by_line() {
    let t = table();
    assert_eq!(t.header.formation, "srp-btn-bb");
    assert_eq!(t.len(), 2);
    let root = t.node(&vec![]).unwrap();
    assert_eq!(root.node.player, "oop");
    assert_eq!(root.reach.bits, num(1.0).bits);
    let ip = t.node(&texts(&["Check"])).unwrap();
    assert_eq!(ip.node.player, "ip");
    assert_eq!(ip.node.hands, vec!["QdQc"]);
    assert_eq!(ip.reach.bits, num(0.6).bits);
    assert!(t.node(&texts(&["Bet 3.0bb"])).is_none());
    assert!(!t.is_empty());
}

#[test]
fn load_rejects_newer_versions_and_missing_files() {
    assert!(PostflopTable::from_rows(header(FORMAT_VERSION + 1), vec![]).is_none());
}

#[test]
fn the_last_row_of_a_line_is_kept() {
    let t = PostflopTable::from_rows(
        header(FORMAT_VERSION),
        vec![
            row("oop", &[], &["Check"], &["AsKs"], 1.0),
            row("ip", &[], &["Check"], &["QdQc"], 0.5),
        ],
    )
    .unwrap();
    assert_eq!(t.len(), 1);
    assert_eq!(t.node(&vec![]).unwrap().node.player, "ip");
}

#[test]
fn table_walks_answer_from_the_table_until_it_ends() {
    let (mut w, root) = TableWalk::new(table(), SuitPerm::identity()).unwrap();
    assert_eq!(root.actions, vec!["Check", "Bet 3.0bb"]);
    match w.play(0) {
        Step::Node(n) => assert_eq!(n.player, "ip"),
        other => panic!("{other:?}"),
    }
    assert!(matches!(w.play(7), Step::NoAction(_)));
    match w.play(1) {
        Step::GoLive(line) => assert_eq!(line, vec!["Check", "Bet 4.0bb"]),
        other => panic!("{other:?}"),
    }
    match w.back() {
        Step::Node(n) => assert_eq!(n.player, "ip"),
        other => panic!("{other:?}"),
    }
    assert!(matches!(w.root(), Step::Node(_)));
    w.started();
    assert!(matches!(w.play(0), Step::Live(LiveOp::Play(0))));
    assert!(w.go_live().is_none());
}

#[test]
fn isomorphic_walks_speak_the_users_suits() {
    // The user's spades are the stored diamonds.
    let to_stored = SuitPerm([0, 3, 2, 1]);
    let (mut w, root) = TableWalk::new(table(), to_stored).unwrap();
    assert_eq!(root.board, vec!["6h", "9s", "Ts"]);
    assert_eq!(root.hands, vec!["AdKd"]);
    match w.play(0) {
        Step::Node(n) => assert_eq!(n.hands, vec!["QsQc"]),
        other => panic!("{other:?}"),
    }
}

#[test]
fn replayed_labels_ask_for_cards_or_actions() {
    let actions = texts(&["Check", "Bet 3.0bb"]);
    assert!(matches!(replay_step("Bet 3.0bb", &actions), Some(Replay::Play(1))));
    match replay_step("deal 2c", &actions) {
        Some(Replay::Deal(c)) => assert_eq!(c, "2c"),
        other => panic!("{other:?}"),
    }
    assert!(replay_step("Bet 9.0bb", &actions).is_none());
}
