//! The tree server: what a request asks for, what it does to the session, and
//! what is answered when it cannot be done.
//!
//! A request is one line of JSON. The solved game stays outside: a step takes
//! what the game says of the current node, and tells what to do with it.

use crate::bits::F32;
use crate::text;
use crate::tree;
use vstd::prelude::*;

verus! {

// ---------------------------------------------------------------- JSON

/// Why a line is no JSON, `None` where it is.
pub uninterp spec fn json_error(s: Seq<char>) -> Option<Seq<char>>;

/// `serde_json::from_str` into a `serde_json::Value`: the words of its error.
#[verifier::external_body]
fn parse_error(s: &str) -> (r: Option<String>)
    ensures
        r is Some == json_error(s@) is Some,
        r matches Some(e) ==> json_error(s@) == Some(e@),
{
    serde_json::from_str::<serde_json::Value>(s).err().map(|e| e.to_string())
}

/// The text under a key of a JSON object.
pub uninterp spec fn json_text(s: Seq<char>, key: Seq<char>) -> Option<Seq<char>>;

/// `serde_json::from_str`, `Value::get` and `Value::as_str`: the text under a key,
/// `None` where the line is no JSON, no object, has no such key or no text there.
#[verifier::external_body]
pub(crate) fn member_text(s: &str, key: &str) -> (r: Option<String>)
    ensures
        r is Some == json_text(s@, key@) is Some,
        r matches Some(t) ==> json_text(s@, key@) == Some(t@) && json_error(s@) is None,
{
    let v = serde_json::from_str::<serde_json::Value>(s).ok()?;
    v.get(key)?.as_str().map(String::from)
}

/// The whole number under a key of a JSON object.
pub uninterp spec fn json_number(s: Seq<char>, key: Seq<char>) -> Option<u64>;

/// `serde_json::from_str`, `Value::get` and `Value::as_u64`: the number under a
/// key, `None` where there is none that is whole, not negative and fits.
#[verifier::external_body]
fn member_number(s: &str, key: &str) -> (r: Option<u64>)
    ensures
        r == json_number(s@, key@),
        r is Some ==> json_error(s@) is None,
{
    let v = serde_json::from_str::<serde_json::Value>(s).ok()?;
    v.get(key)?.as_u64()
}

/// There is something under a key of a JSON object.
pub uninterp spec fn json_has(s: Seq<char>, key: Seq<char>) -> bool;

/// `serde_json::from_str` and `Value::get`: whether there is something under a
/// key.
#[verifier::external_body]
fn has_member(s: &str, key: &str) -> (r: bool)
    ensures
        r == json_has(s@, key@),
        r ==> json_error(s@) is None,
{
    match serde_json::from_str::<serde_json::Value>(s) {
        Ok(v) => v.get(key).is_some(),
        Err(_) => false,
    }
}

// ---------------------------------------------------------------- requests

/// The protocol version spoken here.
pub const SERVE_V: u64 = 2;

/// What a request asks for.
#[derive(Debug, Clone)]
pub enum Request {
    Quit,
    Solve,
    Node,
    Runouts,
    Play { action: u64 },
    Deal { card: String },
    Back,
    Root,
    Lock,
    Resolve,
    Snapshot { label: Option<String> },
}

/// Why a request is not carried out.
#[derive(Debug, Clone)]
pub enum ServeError {
    BadJson { why: String },
    MissingOp,
    Version { v: u64 },
    NeedsConfig,
    UnknownOp { op: String },
    NoGame,
    NeedsAction,
    NeedsCard,
    NotPlayer,
    ActionRange { action: u64, actions: usize },
    NotChance,
    /// The card does not parse, with the solver's words for it.
    BadCard { why: String },
    CannotDeal { card: String },
    LockNotPlayer,
    NoStrategy,
    RowCount { rows: usize, actions: usize },
    RowNotArray,
    RowLength { row: usize, hands: usize },
    NotNumber,
    SnapshotNotPlayer,
}

/// The operations that need a game.
pub open spec fn needs_game(op: Seq<char>) -> bool {
    op == "node"@ || op == "play"@ || op == "deal"@ || op == "back"@ || op == "root"@ || op
        == "snapshot"@ || op == "runouts"@ || op == "lock"@ || op == "resolve"@
}

/// What the logic reads of a request.
#[derive(Debug, Clone)]
pub struct Fields {
    pub op: Option<String>,
    pub v: Option<u64>,
    pub has_config: bool,
    pub action: Option<u64>,
    pub card: Option<String>,
    pub label: Option<String>,
}

/// What the logic reads of a request, as text.
#[verifier::ext_equal]
pub struct FieldsView {
    pub op: Option<Seq<char>>,
    pub v: Option<u64>,
    pub has_config: bool,
    pub action: Option<u64>,
    pub card: Option<Seq<char>>,
    pub label: Option<Seq<char>>,
}

/// The text of an optional string.
pub open spec fn opt_text(s: Option<String>) -> Option<Seq<char>> {
    match s {
        Some(t) => Some(t@),
        None => None,
    }
}

impl View for Fields {
    type V = FieldsView;

    open spec fn view(&self) -> FieldsView {
        FieldsView {
            op: opt_text(self.op),
            v: self.v,
            has_config: self.has_config,
            action: self.action,
            card: opt_text(self.card),
            label: opt_text(self.label),
        }
    }
}

/// A request asks for this, given whether a game is held.
pub open spec fn asks_for(f: FieldsView, held: bool, r: Result<Request, ServeError>) -> bool {
    if f.op is None {
        r == Err::<Request, ServeError>(ServeError::MissingOp)
    } else if f.op->0 == "quit"@ {
        r == Ok::<Request, ServeError>(Request::Quit)
    } else if f.op->0 == "solve"@ {
        if f.v is Some && f.v->0 != SERVE_V {
            r == Err::<Request, ServeError>(ServeError::Version { v: f.v->0 })
        } else if !f.has_config {
            r == Err::<Request, ServeError>(ServeError::NeedsConfig)
        } else {
            r == Ok::<Request, ServeError>(Request::Solve)
        }
    } else if !needs_game(f.op->0) {
        r matches Err(ServeError::UnknownOp { op }) && op@ == f.op->0
    } else if !held {
        r == Err::<Request, ServeError>(ServeError::NoGame)
    } else if f.op->0 == "node"@ {
        r == Ok::<Request, ServeError>(Request::Node)
    } else if f.op->0 == "runouts"@ {
        r == Ok::<Request, ServeError>(Request::Runouts)
    } else if f.op->0 == "play"@ {
        match f.action {
            Some(action) => r == Ok::<Request, ServeError>(Request::Play { action }),
            None => r == Err::<Request, ServeError>(ServeError::NeedsAction),
        }
    } else if f.op->0 == "deal"@ {
        match f.card {
            Some(c) => r matches Ok(Request::Deal { card }) && card@ == c,
            None => r == Err::<Request, ServeError>(ServeError::NeedsCard),
        }
    } else if f.op->0 == "back"@ {
        r == Ok::<Request, ServeError>(Request::Back)
    } else if f.op->0 == "root"@ {
        r == Ok::<Request, ServeError>(Request::Root)
    } else if f.op->0 == "lock"@ {
        r == Ok::<Request, ServeError>(Request::Lock)
    } else if f.op->0 == "resolve"@ {
        r == Ok::<Request, ServeError>(Request::Resolve)
    } else {
        match f.label {
            Some(l) => r matches Ok(Request::Snapshot { label: Some(t) }) && t@ == l,
            None => r == Ok::<Request, ServeError>(Request::Snapshot { label: None }),
        }
    }
}

/// What a request asks for. An unknown operation is reported as such before a
/// game is asked for, and a game before what else the operation needs.
pub fn request_of(f: Fields, held: bool) -> (r: Result<Request, ServeError>)
    ensures
        asks_for(f@, held, r),
{
    let op = match f.op {
        Some(op) => op,
        None => {
            return Err(ServeError::MissingOp);
        },
    };
    let o = op.as_str();
    if text::same_text(o, "quit") {
        return Ok(Request::Quit);
    }
    if text::same_text(o, "solve") {
        if let Some(v) = f.v {
            if v != SERVE_V {
                return Err(ServeError::Version { v });
            }
        }
        if !f.has_config {
            return Err(ServeError::NeedsConfig);
        }
        return Ok(Request::Solve);
    }
    let known = text::same_text(o, "node") || text::same_text(o, "play") || text::same_text(
        o,
        "deal",
    ) || text::same_text(o, "back") || text::same_text(o, "root") || text::same_text(o, "snapshot")
        || text::same_text(o, "runouts") || text::same_text(o, "lock") || text::same_text(
        o,
        "resolve",
    );
    if !known {
        return Err(ServeError::UnknownOp { op });
    }
    if !held {
        return Err(ServeError::NoGame);
    }
    if text::same_text(o, "node") {
        return Ok(Request::Node);
    }
    if text::same_text(o, "runouts") {
        return Ok(Request::Runouts);
    }
    if text::same_text(o, "play") {
        return match f.action {
            Some(action) => Ok(Request::Play { action }),
            None => Err(ServeError::NeedsAction),
        };
    }
    if text::same_text(o, "deal") {
        return match f.card {
            Some(card) => Ok(Request::Deal { card }),
            None => Err(ServeError::NeedsCard),
        };
    }
    if text::same_text(o, "back") {
        return Ok(Request::Back);
    }
    if text::same_text(o, "root") {
        return Ok(Request::Root);
    }
    if text::same_text(o, "lock") {
        return Ok(Request::Lock);
    }
    if text::same_text(o, "resolve") {
        return Ok(Request::Resolve);
    }
    Ok(Request::Snapshot { label: f.label })
}

/// The fields of a request line.
pub open spec fn fields_in(line: Seq<char>) -> FieldsView {
    FieldsView {
        op: json_text(line, "op"@),
        v: json_number(line, "v"@),
        has_config: json_has(line, "config"@),
        action: json_number(line, "action"@),
        card: json_text(line, "card"@),
        label: json_text(line, "label"@),
    }
}

/// Reads a request line.
pub fn read_request(line: &str, held: bool) -> (r: Result<Request, ServeError>)
    ensures
        json_error(line@) is Some ==> (r matches Err(ServeError::BadJson { why }) && Some(why@)
            == json_error(line@)),
        json_error(line@) is None ==> asks_for(fields_in(line@), held, r),
{
    if let Some(why) = parse_error(line) {
        return Err(ServeError::BadJson { why });
    }
    let f = Fields {
        op: member_text(line, "op"),
        v: member_number(line, "v"),
        has_config: has_member(line, "config"),
        action: member_number(line, "action"),
        card: member_text(line, "card"),
        label: member_text(line, "label"),
    };
    assert(f@ =~= fields_in(line@));
    request_of(f, held)
}

/// Why a response cannot be used.
#[derive(Debug, Clone)]
pub enum ResponseError {
    BadJson { why: String },
    /// The server's own words.
    Told { message: String },
}

/// Whether a response line is an answer: it is JSON and holds no error.
pub fn parse_response(line: &str) -> (r: Result<(), ResponseError>)
    ensures
        r is Ok == (json_error(line@) is None && json_text(line@, "error"@) is None),
        r matches Err(ResponseError::BadJson { why }) ==> json_error(line@) == Some(why@),
        r matches Err(ResponseError::Told { message }) ==> json_error(line@) is None && json_text(
            line@,
            "error"@,
        ) == Some(message@),
{
    if let Some(why) = parse_error(line) {
        return Err(ResponseError::BadJson { why });
    }
    match member_text(line, "error") {
        Some(message) => Err(ResponseError::Told { message }),
        None => Ok(()),
    }
}

// ---------------------------------------------------------------- sessions

/// What kind of node the game is at.
#[derive(Debug, Clone, Copy, PartialEq, Eq, Structural)]
pub enum NodeKind {
    Terminal,
    Chance,
    Player,
}

/// What the game says of its current node.
#[derive(Debug, Clone)]
pub struct NodeFacts {
    pub kind: NodeKind,
    /// Labels of the actions at a player node.
    pub actions: Vec<String>,
    /// Whether the player out of position acts.
    pub oop: bool,
    /// How many hands the acting player has.
    pub hands: usize,
    /// The cards that can be dealt, a bit for each.
    pub possible: u64,
}

/// The card can be dealt.
pub open spec fn can_deal(possible: u64, card: u8) -> bool {
    (possible >> card) & 1 == 1
}

/// A strategy that is held fixed at the node after a line of moves.
#[derive(Debug, Clone)]
pub struct Lock {
    pub history: Vec<usize>,
    /// Action by action.
    pub strategy: Vec<F32>,
}

/// What the server knows besides the game: the labels of the line walked, its
/// moves, and the locks.
#[derive(Debug, Clone)]
pub struct Session {
    pub labels: Vec<String>,
    pub history: Vec<usize>,
    pub locks: Vec<Lock>,
}

/// The locks, as moves and numbers.
pub open spec fn lock_views(v: Seq<Lock>) -> Seq<(Seq<usize>, Seq<F32>)> {
    v.map_values(|l: Lock| (l.history@, l.strategy@))
}

impl Session {
    /// One label per move, and one lock per node.
    pub open spec fn wf(&self) -> bool {
        &&& self.labels@.len() == self.history@.len()
        &&& forall|i: int, j: int|
            0 <= i < j < self.locks@.len() ==> (#[trigger] self.locks@[i]).history@ != (
            #[trigger] self.locks@[j]).history@
    }

    /// The session right after a solve.
    pub fn new() -> (r: Self)
        ensures
            r.wf(),
            r.labels@.len() == 0,
            r.history@.len() == 0,
            r.locks@.len() == 0,
    {
        Session { labels: Vec::new(), history: Vec::new(), locks: Vec::new() }
    }

    /// `self` is `o` but for its locks.
    pub open spec fn same_place(&self, o: &Session) -> bool {
        text::texts(self.labels@) == text::texts(o.labels@) && self.history@ == o.history@
    }

    /// `self` has the locks of `o`.
    pub open spec fn same_locks(&self, o: &Session) -> bool {
        lock_views(self.locks@) == lock_views(o.locks@)
    }

    /// `self` is `o` after a move.
    pub open spec fn moved(&self, o: &Session, label: Seq<char>, step: int) -> bool {
        &&& text::texts(self.labels@) == text::texts(o.labels@).push(label)
        &&& self.history@ == o.history@.push(step as usize)
        &&& self.same_locks(o)
    }
}

/// What to do with the game.
#[derive(Debug, Clone)]
pub enum Effect {
    /// Nothing: answer with the node.
    Answer,
    Runouts,
    Play { action: usize },
    Deal { card: u8 },
    /// Go to the session's line of moves.
    Replay,
    ToRoot,
    /// Solve again with all locks held, and come back.
    Resolve,
    Snapshot { label: String, hero_oop: bool, villain_action: String },
}

/// One row of a strategy in a request: `None` where it is no array, and in it
/// `None` for what is no number.
#[derive(Debug, Clone)]
pub struct LockRow {
    pub values: Option<Vec<Option<F32>>>,
}

/// All entries are numbers.
pub open spec fn all_numbers(v: Seq<Option<F32>>) -> bool {
    forall|i: int| 0 <= i < v.len() ==> #[trigger] v[i] is Some
}

/// The row fits a node with this many hands.
pub open spec fn row_fits(row: LockRow, hands: int) -> bool {
    row.values is Some && (row.values->0)@.len() == hands && all_numbers((row.values->0)@)
}

/// The numbers of the first `n` rows, one after the other.
pub open spec fn flat_rows(rows: Seq<LockRow>, n: int) -> Seq<F32>
    decreases n,
{
    if n <= 0 {
        Seq::empty()
    } else {
        flat_rows(rows, n - 1) + (rows[n - 1].values->0)@.map_values(|x: Option<F32>| x->0)
    }
}

/// The strategy of a lock request.
pub open spec fn lock_strategy(
    rows: Option<Vec<LockRow>>,
    actions: int,
    hands: int,
    r: Result<Vec<F32>, ServeError>,
) -> bool {
    match rows {
        None => r == Err::<Vec<F32>, ServeError>(ServeError::NoStrategy),
        Some(v) => if v@.len() != actions {
            r == Err::<Vec<F32>, ServeError>(
                ServeError::RowCount { rows: v@.len() as usize, actions: actions as usize },
            )
        } else {
            &&& r is Ok == forall|i: int| 0 <= i < v@.len() ==> row_fits(#[trigger] v@[i], hands)
            &&& r matches Ok(flat) ==> flat@ == flat_rows(v@, v@.len() as int)
            &&& r matches Err(e) ==> exists|i: int|
                0 <= i < v@.len() && !row_fits(#[trigger] v@[i], hands) && (forall|k: int|
                    0 <= k < i ==> row_fits(#[trigger] v@[k], hands)) && e == (match v@[i].values {
                    None => ServeError::RowNotArray,
                    Some(x) => if x@.len() != hands {
                        ServeError::RowLength { row: x@.len() as usize, hands: hands as usize }
                    } else {
                        ServeError::NotNumber
                    },
                })
        },
    }
}

fn read_rows(rows: &Option<Vec<LockRow>>, actions: usize, hands: usize) -> (r: Result<
    Vec<F32>,
    ServeError,
>)
    ensures
        lock_strategy(*rows, actions as int, hands as int, r),
{
    let v = match rows {
        Some(v) => v,
        None => {
            return Err(ServeError::NoStrategy);
        },
    };
    if v.len() != actions {
        return Err(ServeError::RowCount { rows: v.len(), actions });
    }
    let mut flat: Vec<F32> = Vec::new();
    let mut i: usize = 0;
    while i < v.len()
        invariant
            i <= v@.len(),
            *rows == Some(*v),
            v@.len() == actions,
            forall|k: int| 0 <= k < i ==> row_fits(#[trigger] v@[k], hands as int),
            flat@ == flat_rows(v@, i as int),
        decreases v@.len() - i,
    {
        let x = match &v[i].values {
            Some(x) => x,
            None => {
                assert(!row_fits(v@[i as int], hands as int));
                return Err(ServeError::RowNotArray);
            },
        };
        if x.len() != hands {
            assert(!row_fits(v@[i as int], hands as int));
            return Err(ServeError::RowLength { row: x.len(), hands });
        }
        let ghost before = flat@;
        let mut h: usize = 0;
        assert(before + x@.take(0).map_values(|y: Option<F32>| y->0) =~= before);
        while h < x.len()
            invariant
                h <= x@.len(),
                i < v@.len(),
                *rows == Some(*v),
                v@.len() == actions,
                v@[i as int].values == Some(*x),
                x@.len() == hands,
                forall|k: int| 0 <= k < i ==> row_fits(#[trigger] v@[k], hands as int),
                forall|k: int| 0 <= k < h ==> #[trigger] x@[k] is Some,
                flat@ == before + x@.take(h as int).map_values(|y: Option<F32>| y->0),
            decreases x@.len() - h,
        {
            match x[h] {
                Some(n) => {
                    flat.push(n);
                    assert(x@.take(h + 1).map_values(|y: Option<F32>| y->0) =~= x@.take(
                        h as int,
                    ).map_values(|y: Option<F32>| y->0).push(n));
                    assert(flat@ =~= before + x@.take(h + 1).map_values(|y: Option<F32>| y->0));
                },
                None => {
                    assert(!row_fits(v@[i as int], hands as int));
                    return Err(ServeError::NotNumber);
                },
            }
            h = h + 1;
        }
        assert(x@.take(h as int) =~= x@);
        assert(row_fits(v@[i as int], hands as int));
        i = i + 1;
    }
    Ok(flat)
}

/// The label of a snapshot: the one asked for, or the line.
pub open spec fn snapshot_label(label: Option<String>, labels: Seq<Seq<char>>) -> Seq<char> {
    match label {
        Some(l) => l@,
        None => text::joined(labels, " · "@),
    }
}

/// What a request does, given the node that the game is at, the card that the
/// solver reads in a deal and the rows of a lock.
pub open spec fn carried_out(
    before: Session,
    after: Session,
    req: Request,
    facts: NodeFacts,
    card: Result<u8, String>,
    rows: Option<Vec<LockRow>>,
    r: Result<Effect, ServeError>,
) -> bool {
    match req {
        Request::Node | Request::Quit | Request::Solve => {
            r == Ok::<Effect, ServeError>(Effect::Answer) && after == before
        },
        Request::Runouts => {
            &&& after == before
            &&& r == if facts.kind == NodeKind::Chance {
                Ok::<Effect, ServeError>(Effect::Runouts)
            } else {
                Err::<Effect, ServeError>(ServeError::NotChance)
            }
        },
        Request::Play { action } => if facts.kind != NodeKind::Player {
            r == Err::<Effect, ServeError>(ServeError::NotPlayer) && after == before
        } else if action >= facts.actions@.len() {
            after == before && r == Err::<Effect, ServeError>(
                ServeError::ActionRange { action, actions: facts.actions@.len() as usize },
            )
        } else {
            &&& r == Ok::<Effect, ServeError>(Effect::Play { action: action as usize })
            &&& after.moved(&before, facts.actions@[action as int]@, action as int)
        },
        Request::Deal { card: name } => if facts.kind != NodeKind::Chance {
            r == Err::<Effect, ServeError>(ServeError::NotChance) && after == before
        } else {
            match card {
                Err(w) => after == before && (r matches Err(ServeError::BadCard { why }) && why@
                    == w@),
                Ok(c) => if !can_deal(facts.possible, c) {
                    after == before && (r matches Err(ServeError::CannotDeal { card: n }) && n@
                        == name@)
                } else {
                    &&& r == Ok::<Effect, ServeError>(Effect::Deal { card: c })
                    &&& after.moved(&before, "deal "@ + name@, c as int)
                },
            }
        },
        Request::Back => {
            &&& r == Ok::<Effect, ServeError>(Effect::Replay)
            &&& after.same_locks(&before)
            &&& before.history@.len() == 0 ==> after.same_place(&before)
            &&& before.history@.len() > 0 ==> text::texts(after.labels@) == text::texts(
                before.labels@,
            ).drop_last() && after.history@ == before.history@.drop_last()
        },
        Request::Root => {
            &&& r == Ok::<Effect, ServeError>(Effect::ToRoot)
            &&& after.same_locks(&before)
            &&& after.labels@.len() == 0
            &&& after.history@.len() == 0
        },
        Request::Lock => if facts.kind != NodeKind::Player {
            r == Err::<Effect, ServeError>(ServeError::LockNotPlayer) && after == before
        } else {
            exists|s: Result<Vec<F32>, ServeError>| #[trigger]
                lock_strategy(rows, facts.actions@.len() as int, facts.hands as int, s) && match s {
                    Err(e) => r == Err::<Effect, ServeError>(e) && after == before,
                    Ok(flat) => {
                        &&& r == Ok::<Effect, ServeError>(Effect::Answer)
                        &&& after.same_place(&before)
                        &&& lock_views(after.locks@) == without_lock(
                            lock_views(before.locks@),
                            before.history@,
                        ).push((before.history@, flat@))
                    },
                }
        },
        Request::Resolve => r == Ok::<Effect, ServeError>(Effect::Resolve) && after == before,
        Request::Snapshot { label } => if facts.kind != NodeKind::Player {
            r == Err::<Effect, ServeError>(ServeError::SnapshotNotPlayer) && after == before
        } else {
            &&& after == before
            &&& r matches Ok(Effect::Snapshot { label: l, hero_oop, villain_action })
            &&& l@ == snapshot_label(label, text::texts(before.labels@))
            &&& hero_oop == facts.oop
            &&& villain_action@ == if before.labels@.len() == 0 {
                Seq::empty()
            } else {
                before.labels@.last()@
            }
        },
    }
}

/// The locks of other nodes.
pub open spec fn without_lock(v: Seq<(Seq<usize>, Seq<F32>)>, history: Seq<usize>) -> Seq<
    (Seq<usize>, Seq<F32>),
>
    decreases v.len(),
{
    if v.len() == 0 {
        Seq::empty()
    } else if v.last().0 == history {
        without_lock(v.drop_last(), history)
    } else {
        without_lock(v.drop_last(), history).push(v.last())
    }
}

fn same_moves(a: &Vec<usize>, b: &Vec<usize>) -> (r: bool)
    ensures
        r == (a@ == b@),
{
    if a.len() != b.len() {
        return false;
    }
    let mut i: usize = 0;
    while i < a.len()
        invariant
            i <= a@.len(),
            a@.len() == b@.len(),
            forall|k: int| 0 <= k < i ==> #[trigger] a@[k] == b@[k],
        decreases a@.len() - i,
    {
        if a[i] != b[i] {
            return false;
        }
        i = i + 1;
    }
    assert(a@ =~= b@);
    true
}

fn copy_moves(a: &Vec<usize>) -> (r: Vec<usize>)
    ensures
        r@ == a@,
{
    let mut out: Vec<usize> = Vec::new();
    let mut i: usize = 0;
    while i < a.len()
        invariant
            i <= a@.len(),
            out@ == a@.take(i as int),
        decreases a@.len() - i,
    {
        out.push(a[i]);
        assert(out@ =~= a@.take(i + 1));
        i = i + 1;
    }
    assert(out@ =~= a@);
    out
}

fn other_locks(locks: &Vec<Lock>, history: &Vec<usize>) -> (r: Vec<Lock>)
    requires
        forall|i: int, j: int|
            0 <= i < j < locks@.len() ==> (#[trigger] locks@[i]).history@ != (
            #[trigger] locks@[j]).history@,
    ensures
        lock_views(r@) == without_lock(lock_views(locks@), history@),
        forall|i: int| 0 <= i < r@.len() ==> (#[trigger] r@[i]).history@ != history@,
        forall|i: int, j: int|
            0 <= i < j < r@.len() ==> (#[trigger] r@[i]).history@ != (#[trigger] r@[j]).history@,
{
    let ghost lv = lock_views(locks@);
    let mut out: Vec<Lock> = Vec::new();
    let mut i: usize = 0;
    assert(lock_views(out@) =~= without_lock(lv.take(0), history@));
    while i < locks.len()
        invariant
            i <= locks@.len(),
            lv == lock_views(locks@),
            lock_views(out@) == without_lock(lv.take(i as int), history@),
            forall|a: int, b: int|
                0 <= a < b < locks@.len() ==> (#[trigger] locks@[a]).history@ != (
                #[trigger] locks@[b]).history@,
            forall|k: int| 0 <= k < out@.len() ==> (#[trigger] out@[k]).history@ != history@,
            forall|a: int, b: int|
                0 <= a < b < out@.len() ==> (#[trigger] out@[a]).history@ != (
                #[trigger] out@[b]).history@,
            forall|k: int|
                0 <= k < out@.len() ==> exists|j: int|
                    0 <= j < i && (#[trigger] locks@[j]).history@ == (#[trigger] out@[k]).history@,
        decreases locks@.len() - i,
    {
        proof {
            assert(lv.take(i + 1).drop_last() =~= lv.take(i as int));
            assert(lv.take(i + 1).last() == (
                locks@[i as int].history@,
                locks@[i as int].strategy@,
            ));
        }
        if !same_moves(&locks[i].history, history) {
            let ghost before = out@;
            let l = Lock {
                history: copy_moves(&locks[i].history),
                strategy: tree::copy_row(&locks[i].strategy),
            };
            out.push(l);
            assert(lock_views(out@) =~= lock_views(before).push((l.history@, l.strategy@)));
        }
        i = i + 1;
    }
    assert(lv.take(i as int) =~= lv);
    out
}

impl Session {
    /// Carries out a request on the session and says what to do with the game.
    pub fn step(
        &mut self,
        req: &Request,
        facts: &NodeFacts,
        card: &Result<u8, String>,
        rows: &Option<Vec<LockRow>>,
    ) -> (r: Result<Effect, ServeError>)
        requires
            old(self).wf(),
            card matches Ok(c) ==> c < 52,
        ensures
            final(self).wf(),
            carried_out(*old(self), *final(self), *req, *facts, *card, *rows, r),
    {
        let ghost start = *self;
        match req {
            Request::Node | Request::Quit | Request::Solve => Ok(Effect::Answer),
            Request::Runouts => if facts.kind == NodeKind::Chance {
                Ok(Effect::Runouts)
            } else {
                Err(ServeError::NotChance)
            },
            Request::Play { action } => {
                if facts.kind != NodeKind::Player {
                    return Err(ServeError::NotPlayer);
                }
                if *action >= facts.actions.len() as u64 {
                    return Err(
                        ServeError::ActionRange { action: *action, actions: facts.actions.len() },
                    );
                }
                let i: usize = *action as usize;
                self.labels.push(facts.actions[i].clone());
                self.history.push(i);
                assert(text::texts(self.labels@) =~= text::texts(start.labels@).push(
                    facts.actions@[i as int]@,
                ));
                Ok(Effect::Play { action: i })
            },
            Request::Deal { card: name } => {
                if facts.kind != NodeKind::Chance {
                    return Err(ServeError::NotChance);
                }
                match card {
                    Err(w) => Err(ServeError::BadCard { why: w.clone() }),
                    Ok(c) => {
                        let c: u8 = *c;
                        if (facts.possible >> c) & 1 != 1 {
                            return Err(ServeError::CannotDeal { card: name.clone() });
                        }
                        let label = text::join2("deal ", name.as_str());
                        self.labels.push(label);
                        self.history.push(c as usize);
                        assert(text::texts(self.labels@) =~= text::texts(start.labels@).push(
                            "deal "@ + name@,
                        ));
                        Ok(Effect::Deal { card: c })
                    },
                }
            },
            Request::Back => {
                if self.history.len() > 0 {
                    let _ = self.history.pop();
                    let _ = self.labels.pop();
                    assert(text::texts(self.labels@) =~= text::texts(start.labels@).drop_last());
                }
                Ok(Effect::Replay)
            },
            Request::Root => {
                self.history = Vec::new();
                self.labels = Vec::new();
                Ok(Effect::ToRoot)
            },
            Request::Lock => {
                if facts.kind != NodeKind::Player {
                    return Err(ServeError::LockNotPlayer);
                }
                let s = read_rows(rows, facts.actions.len(), facts.hands);
                let ghost sv = s;
                match s {
                    Err(e) => {
                        assert(lock_strategy(
                            *rows,
                            facts.actions@.len() as int,
                            facts.hands as int,
                            sv,
                        ));
                        Err(e)
                    },
                    Ok(flat) => {
                        let mut kept = other_locks(&self.locks, &self.history);
                        let ghost before = kept@;
                        let ghost fv = flat@;
                        kept.push(Lock { history: copy_moves(&self.history), strategy: flat });
                        assert(lock_views(kept@) =~= lock_views(before).push((self.history@, fv)));
                        self.locks = kept;
                        assert(lock_strategy(
                            *rows,
                            facts.actions@.len() as int,
                            facts.hands as int,
                            sv,
                        ));
                        Ok(Effect::Answer)
                    },
                }
            },
            Request::Resolve => Ok(Effect::Resolve),
            Request::Snapshot { label } => {
                if facts.kind != NodeKind::Player {
                    return Err(ServeError::SnapshotNotPlayer);
                }
                let l = match label {
                    Some(l) => l.clone(),
                    None => text::join_all(&self.labels, " · "),
                };
                let n: usize = self.labels.len();
                let villain_action = if n == 0 {
                    String::new()
                } else {
                    self.labels[n - 1].clone()
                };
                assert(villain_action@ =~= if n == 0 {
                    Seq::empty()
                } else {
                    self.labels@.last()@
                });
                Ok(Effect::Snapshot { label: l, hero_oop: facts.oop, villain_action })
            },
        }
    }
}

/// Going back undoes a move: the session is where it was, with the locks it has.
pub proof fn back_undoes_a_move(
    a: Session,
    b: Session,
    c: Session,
    label: Seq<char>,
    step: int,
    facts: NodeFacts,
    card: Result<u8, String>,
    rows: Option<Vec<LockRow>>,
    r: Result<Effect, ServeError>,
)
    requires
        b.moved(&a, label, step),
        carried_out(b, c, Request::Back, facts, card, rows, r),
    ensures
        c.same_place(&a),
        c.same_locks(&a),
{
    assert(text::texts(a.labels@).push(label).drop_last() =~= text::texts(a.labels@));
    assert(a.history@.push(step as usize).drop_last() =~= a.history@);
}

/// A request that fails leaves the session as it was.
pub proof fn failures_change_nothing(
    a: Session,
    b: Session,
    req: Request,
    facts: NodeFacts,
    card: Result<u8, String>,
    rows: Option<Vec<LockRow>>,
    e: ServeError,
)
    requires
        carried_out(a, b, req, facts, card, rows, Err(e)),
    ensures
        b == a,
{
}

/// The words of an error.
pub open spec fn error_text(e: ServeError) -> Seq<char> {
    match e {
        ServeError::BadJson { why } => "bad JSON: "@ + why@,
        ServeError::MissingOp => "missing \"op\""@,
        ServeError::Version { v } => "unsupported protocol v"@ + text::decimal(v as int)
            + "; this serve speaks v2"@,
        ServeError::NeedsConfig => "solve needs \"config\""@,
        ServeError::UnknownOp { op } => "unknown op "@ + text::debug_text(op@),
        ServeError::NoGame => "no game held — send op:solve first"@,
        ServeError::NeedsAction => "play needs \"action\" (an index)"@,
        ServeError::NeedsCard => "deal needs \"card\" (e.g. \"7h\")"@,
        ServeError::NotPlayer => "not a player node — use op:deal at chance nodes"@,
        ServeError::ActionRange { action, actions } => "action "@ + text::decimal(action as int)
            + " out of range ("@ + text::decimal(actions as int) + " actions)"@,
        ServeError::NotChance => "not a chance node"@,
        ServeError::BadCard { why } => why@,
        ServeError::CannotDeal { card } => card@ + " can't be dealt here"@,
        ServeError::LockNotPlayer => "lock needs a player node"@,
        ServeError::NoStrategy => "lock needs \"strategy\": [action][hand]"@,
        ServeError::RowCount { rows, actions } => "strategy has "@ + text::decimal(rows as int)
            + " action rows, node has "@ + text::decimal(actions as int),
        ServeError::RowNotArray => "strategy rows must be arrays"@,
        ServeError::RowLength { row, hands } => "strategy row has "@ + text::decimal(row as int)
            + " hands, node has "@ + text::decimal(hands as int),
        ServeError::NotNumber => "strategy values must be numbers"@,
        ServeError::SnapshotNotPlayer => "snapshot needs a player node"@,
    }
}

impl ServeError {
    /// The words that are answered.
    pub fn text(&self) -> (r: String)
        ensures
            r@ == error_text(*self),
    {
        match self {
            ServeError::BadJson { why } => text::join2("bad JSON: ", why.as_str()),
            ServeError::MissingOp => text::copy_text("missing \"op\""),
            ServeError::Version { v } => {
                let n = text::decimal_text(*v);
                text::join3("unsupported protocol v", n.as_str(), "; this serve speaks v2")
            },
            ServeError::NeedsConfig => text::copy_text("solve needs \"config\""),
            ServeError::UnknownOp { op } => {
                let q = text::to_debug(op.as_str());
                text::join2("unknown op ", q.as_str())
            },
            ServeError::NoGame => text::copy_text("no game held — send op:solve first"),
            ServeError::NeedsAction => text::copy_text("play needs \"action\" (an index)"),
            ServeError::NeedsCard => text::copy_text("deal needs \"card\" (e.g. \"7h\")"),
            ServeError::NotPlayer => text::copy_text(
                "not a player node — use op:deal at chance nodes",
            ),
            ServeError::ActionRange { action, actions } => {
                let a = text::decimal_text(*action);
                let n = text::decimal_text(*actions as u64);
                let x = text::join3("action ", a.as_str(), " out of range (");
                text::join3(x.as_str(), n.as_str(), " actions)")
            },
            ServeError::NotChance => text::copy_text("not a chance node"),
            ServeError::BadCard { why } => why.clone(),
            ServeError::CannotDeal { card } => text::join2(card.as_str(), " can't be dealt here"),
            ServeError::LockNotPlayer => text::copy_text("lock needs a player node"),
            ServeError::NoStrategy => text::copy_text("lock needs \"strategy\": [action][hand]"),
            ServeError::RowCount { rows, actions } => {
                let a = text::decimal_text(*rows as u64);
                let n = text::decimal_text(*actions as u64);
                let x = text::join3("strategy has ", a.as_str(), " action rows, node has ");
                text::join2(x.as_str(), n.as_str())
            },
            ServeError::RowNotArray => text::copy_text("strategy rows must be arrays"),
            ServeError::RowLength { row, hands } => {
                let a = text::decimal_text(*row as u64);
                let n = text::decimal_text(*hands as u64);
                let x = text::join3("strategy row has ", a.as_str(), " hands, node has ");
                text::join2(x.as_str(), n.as_str())
            },
            ServeError::NotNumber => text::copy_text("strategy values must be numbers"),
            ServeError::SnapshotNotPlayer => text::copy_text("snapshot needs a player node"),
        }
    }
}

/// The cards that can be dealt, of those below `n`.
pub open spec fn cards_in(possible: u64, n: int) -> Seq<u8>
    decreases n,
{
    if n <= 0 {
        Seq::empty()
    } else if can_deal(possible, (n - 1) as u8) {
        cards_in(possible, n - 1).push((n - 1) as u8)
    } else {
        cards_in(possible, n - 1)
    }
}

/// The cards that can be dealt, in ascending order.
pub fn dealable(possible: u64) -> (r: Vec<u8>)
    ensures
        r@ == cards_in(possible, 52),
{
    let mut out: Vec<u8> = Vec::new();
    let mut c: u8 = 0;
    while c < 52
        invariant
            c <= 52,
            out@ == cards_in(possible, c as int),
        decreases 52 - c,
    {
        if (possible >> c) & 1 == 1 {
            out.push(c);
        }
        c = c + 1;
    }
    out
}

/// The locks of other nodes are kept, in order, and no others.
pub proof fn other_locks_are_kept(v: Seq<(Seq<usize>, Seq<F32>)>, history: Seq<usize>)
    ensures
        without_lock(v, history) == v.filter(|l: (Seq<usize>, Seq<F32>)| l.0 != history),
    decreases v.len(),
{
    reveal(Seq::filter);
    if v.len() > 0 {
        other_locks_are_kept(v.drop_last(), history);
    } else {
        assert(v =~= Seq::empty());
    }
}

/// A node that is locked again has the new lock only, and the locks of other nodes
/// stay.
pub proof fn a_lock_replaces_that_of_its_node(
    v: Seq<(Seq<usize>, Seq<F32>)>,
    history: Seq<usize>,
    strategy: Seq<F32>,
    h: Seq<usize>,
    s: Seq<F32>,
)
    ensures
        without_lock(v, history).push((history, strategy)).contains((h, s)) <==> if h == history {
            s == strategy
        } else {
            v.contains((h, s))
        },
{
    other_locks_are_kept(v, history);
    let other = |l: (Seq<usize>, Seq<F32>)| l.0 != history;
    let kept = v.filter(other);
    let now = kept.push((history, strategy));
    assert(now[kept.len() as int] == (history, strategy));
    if now.contains((h, s)) {
        let i = now.index_of((h, s));
        if i < kept.len() {
            assert(kept[i] == (h, s));
            v.lemma_filter_pred(other, i);
            v.lemma_filter_contains_rev(other, (h, s));
        }
    }
    if h != history && v.contains((h, s)) {
        let i = v.index_of((h, s));
        v.lemma_filter_contains(other, i);
        let j = kept.index_of((h, s));
        assert(now[j] == (h, s));
    }
}

/// A lock takes the numbers of its rows one row after the other: that of hand `j`
/// under action `a` stands where the rows before it end, and `j` further.
pub proof fn locks_take_their_rows_in_turn(rows: Seq<LockRow>, n: int, hands: int, a: int, j: int)
    requires
        0 <= a < n <= rows.len(),
        0 <= j < hands,
        forall|i: int| 0 <= i < n ==> row_fits(#[trigger] rows[i], hands),
    ensures
        flat_rows(rows, n).len() == n * hands,
        flat_rows(rows, n)[a * hands + j] == (rows[a].values->0)@[j]->0,
    decreases n,
{
    assert(row_fits(rows[n - 1], hands));
    let last = (rows[n - 1].values->0)@.map_values(|x: Option<F32>| x->0);
    if n > 1 {
        locks_take_their_rows_in_turn(rows, n - 1, hands, if a < n - 1 {
            a
        } else {
            0
        }, j);
    } else {
        assert(flat_rows(rows, 0) =~= Seq::empty());
    }
    assert((n - 1) * hands + hands == n * hands) by (nonlinear_arith);
    if a < n - 1 {
        assert(a * hands + j < (n - 1) * hands) by (nonlinear_arith)
            requires
                a < n - 1,
                0 <= j < hands,
        ;
        assert(0 <= a * hands) by (nonlinear_arith)
            requires
                0 <= a,
                0 < hands,
        ;
    } else {
        assert(flat_rows(rows, n)[a * hands + j] == last[j]);
    }
}

/// The cards that can be dealt are all that the game says, each once and in
/// ascending order.
pub proof fn every_possible_card_is_listed(possible: u64, n: int)
    requires
        0 <= n <= 52,
    ensures
        cards_in(possible, n) == Seq::new(n as nat, |i: int| i as u8).filter(
            |c: u8| (possible >> c) & 1 == 1,
        ),
    decreases n,
{
    reveal(Seq::filter);
    let all = Seq::new(n as nat, |i: int| i as u8);
    if n > 0 {
        every_possible_card_is_listed(possible, n - 1);
        assert(all.drop_last() =~= Seq::new((n - 1) as nat, |i: int| i as u8));
        assert(all.last() == (n - 1) as u8);
    } else {
        assert(all =~= Seq::empty());
    }
}

/// Without a game every operation but quitting and solving is refused for want of
/// one, and what is no operation is refused as such, with a game or without.
pub proof fn operations_need_a_game(f: FieldsView, held: bool, r: Result<Request, ServeError>)
    requires
        asks_for(f, held, r),
        f.op is Some,
        f.op->0 != "quit"@,
        f.op->0 != "solve"@,
    ensures
        ({
            let known = seq![
                "node"@,
                "runouts"@,
                "play"@,
                "deal"@,
                "back"@,
                "root"@,
                "lock"@,
                "resolve"@,
                "snapshot"@,
            ].contains(f.op->0);
            &&& known && !held ==> r == Err::<Request, ServeError>(ServeError::NoGame)
            &&& !known ==> (r matches Err(ServeError::UnknownOp { op }) && op@ == f.op->0)
            &&& known && held ==> (r is Ok || r->Err_0 is NeedsAction || r->Err_0 is NeedsCard)
        }),
{
    let all = seq![
        "node"@,
        "runouts"@,
        "play"@,
        "deal"@,
        "back"@,
        "root"@,
        "lock"@,
        "resolve"@,
        "snapshot"@,
    ];
    assert(all[0] == "node"@ && all[1] == "runouts"@ && all[2] == "play"@ && all[3] == "deal"@
        && all[4] == "back"@ && all[5] == "root"@ && all[6] == "lock"@ && all[7] == "resolve"@
        && all[8] == "snapshot"@);
    assert(all.contains(f.op->0) == needs_game(f.op->0));
}

/// A move that is carried out adds its label and its number to the line, one each.
pub proof fn moves_are_added_to_the_line(
    before: Session,
    after: Session,
    req: Request,
    facts: NodeFacts,
    card: Result<u8, String>,
    rows: Option<Vec<LockRow>>,
    r: Result<Effect, ServeError>,
)
    requires
        carried_out(before, after, req, facts, card, rows, r),
        r is Ok,
    ensures
        req matches Request::Play { action } ==> facts.kind == NodeKind::Player && action
            < facts.actions@.len() && text::texts(after.labels@) == text::texts(
            before.labels@,
        ).push(facts.actions@[action as int]@) && after.history@ == before.history@.push(
            action as usize,
        ) && r->Ok_0 == (Effect::Play { action: action as usize }),
        req matches Request::Deal { card: name } ==> facts.kind == NodeKind::Chance && card is Ok
            && can_deal(facts.possible, card->Ok_0) && text::texts(after.labels@) == text::texts(
            before.labels@,
        ).push("deal "@ + name@) && after.history@ == before.history@.push(card->Ok_0 as usize)
            && r->Ok_0 == (Effect::Deal { card: card->Ok_0 }),
        req is Root ==> after.labels@.len() == 0 && after.history@.len() == 0 && r->Ok_0 is ToRoot,
        req matches Request::Snapshot { label: _ } ==> after == before && (
        r->Ok_0 matches Effect::Snapshot { label: _, hero_oop, villain_action: _ } && hero_oop
            == facts.oop),
{
}

/// A request comes only of its own operation, with what the operation was given.
pub proof fn requests_come_of_their_operation(f: FieldsView, held: bool, q: Request)
    requires
        asks_for(f, held, Ok(q)),
    ensures
        q matches Request::Play { action } ==> f.op == Some("play"@) && f.action == Some(action),
        q matches Request::Deal { card } ==> f.op == Some("deal"@) && f.card == Some(card@),
        q is Back ==> f.op == Some("back"@),
        q is Root ==> f.op == Some("root"@),
        q is Lock ==> f.op == Some("lock"@),
        q is Resolve ==> f.op == Some("resolve"@),
        q matches Request::Snapshot { label } ==> f.op != Some("play"@) && f.op != Some("deal"@)
            && match label {
            Some(t) => f.label == Some(t@),
            None => f.label is None,
        },
{
}

} // verus!
