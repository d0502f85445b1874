//! Generating preflop charts: who is paid at the end of a hand, how paths and
//! rows of the charts are built, and when a ruleset has to be solved again.

use crate::board::Card;
use crate::fnv;
use crate::game;
use crate::game::Action;
use crate::game::Ruleset;
use crate::game::State;
use crate::game::Terminal;
use crate::preflop;
use crate::serve;
use crate::solution;
use crate::text;
use vstd::prelude::*;

verus! {

// ---------------------------------------------------------------- terminals

/// Where a seat acts after the flop: the blinds first, then the seats in acting
/// order.
pub open spec fn postflop_place(n: int, s: int) -> int {
    if s >= n - 2 {
        s - (n - 2)
    } else {
        s + 2
    }
}

/// `s` acts last after the flop among the seats of the mask; of two players it is
/// the small blind.
pub open spec fn acts_last(n: int, players: u8, s: int) -> bool {
    if n == 2 {
        s == 0
    } else {
        &&& 0 <= s < n
        &&& game::seated_in(players, s)
        &&& forall|t: int|
            0 <= t < n && #[trigger] game::seated_in(players, t) ==> postflop_place(n, t)
                <= postflop_place(n, s)
    }
}

/// The seat that acts last after the flop.
pub fn last_to_act(rs: &Ruleset, players: u8) -> (r: usize)
    requires
        rs.seated(),
        rs.seats@.len() > 2 ==> exists|t: int|
            0 <= t < rs.seats@.len() && #[trigger] game::seated_in(players, t),
    ensures
        acts_last(rs.seats@.len() as int, players, r as int),
{
    let n: usize = rs.n();
    if n == 2 {
        return 0;
    }
    let mut best: usize = n;
    let mut place: usize = 0;
    let mut s: usize = 0;
    while s < n
        invariant
            s <= n,
            3 <= n <= 6,
            best == n ==> forall|t: int| 0 <= t < s ==> !(#[trigger] game::seated_in(players, t)),
            best < n ==> {
                &&& best < s
                &&& game::seated_in(players, best as int)
                &&& place == postflop_place(n as int, best as int)
                &&& forall|t: int|
                    0 <= t < s && #[trigger] game::seated_in(players, t) ==> postflop_place(
                        n as int,
                        t,
                    ) <= place
            },
            best <= n,
        decreases n - s,
    {
        if game::in_mask(players, s) {
            let p: usize = if s >= n - 2 {
                s - (n - 2)
            } else {
                s + 2
            };
            if best == n || p > place {
                best = s;
                place = p;
            }
        }
        s = s + 1;
    }
    best
}

/// No two seats act at the same place after the flop.
pub proof fn last_to_act_is_unique(n: int, players: u8, a: int, b: int)
    requires
        2 <= n <= 6,
        acts_last(n, players, a),
        acts_last(n, players, b),
    ensures
        a == b,
{
}

/// Who takes part in the pot at the end of a hand.
#[derive(Debug, Clone)]
pub enum Payout {
    /// One player takes it; it is not raked.
    Winner { seat: usize },
    /// The players show down, all in.
    Showdown { seats: Vec<usize> },
    /// The players see a flop, and `last` acts last on it.
    Flop { seats: Vec<usize>, last: usize },
}

/// The seats of a mask, of the first `n`.
pub open spec fn seats_of(players: u8, n: int) -> Seq<usize>
    decreases n,
{
    if n <= 0 {
        Seq::empty()
    } else if game::seated_in(players, n - 1) {
        seats_of(players, n - 1).push((n - 1) as usize)
    } else {
        seats_of(players, n - 1)
    }
}

/// The seats of a mask, in order.
pub fn list_seats(players: u8, n: usize) -> (r: Vec<usize>)
    requires
        n <= 8,
    ensures
        r@ == seats_of(players, n as int),
{
    let mut out: Vec<usize> = Vec::new();
    let mut s: usize = 0;
    while s < n
        invariant
            s <= n <= 8,
            out@ == seats_of(players, s as int),
        decreases n - s,
    {
        if game::in_mask(players, s) {
            out.push(s);
        }
        s = s + 1;
    }
    out
}

/// Who takes part in the pot of a finished hand; `None` where the hand goes on.
pub fn payout(st: &State, rs: &Ruleset) -> (r: Option<Payout>)
    requires
        rs.seated(),
        game::outcome(*st, *rs) matches Some(Terminal::SeeFlop { players }) ==> exists|t: int|
            0 <= t < rs.seats@.len() && #[trigger] game::seated_in(players, t),
    ensures
        match game::outcome(*st, *rs) {
            None => r is None,
            Some(Terminal::FoldWin { winner }) => r == Some(
                Payout::Winner { seat: winner as usize },
            ),
            Some(Terminal::AllInShowdown { players }) => {
                r matches Some(Payout::Showdown { seats }) && seats@ == seats_of(
                    players,
                    rs.seats@.len() as int,
                )
            },
            Some(Terminal::SeeFlop { players }) => {
                r matches Some(Payout::Flop { seats, last }) && seats@ == seats_of(
                    players,
                    rs.seats@.len() as int,
                ) && acts_last(rs.seats@.len() as int, players, last as int)
            },
        },
{
    match st.terminal(rs) {
        None => None,
        Some(t) => match t {
            Terminal::FoldWin { winner } => Some(Payout::Winner { seat: winner as usize }),
            Terminal::AllInShowdown { players } => Some(
                Payout::Showdown { seats: list_seats(players, rs.n()) },
            ),
            Terminal::SeeFlop { players } => Some(
                Payout::Flop { seats: list_seats(players, rs.n()), last: last_to_act(rs, players) },
            ),
        },
    }
}

/// What makes a class play well: its ranks (0 is an ace), and whether it is
/// paired, suited or connected.
#[derive(Debug, Clone, Copy, PartialEq, Eq, Structural)]
pub struct HandShape {
    pub hi: usize,
    pub lo: usize,
    pub pair: bool,
    pub suited: bool,
    pub connected: bool,
}

/// The shape of a class.
pub open spec fn shape_of(class: int) -> HandShape {
    let (r, c) = (class / 13, class % 13);
    let hi = if r <= c {
        r
    } else {
        c
    };
    let lo = if r <= c {
        c
    } else {
        r
    };
    HandShape {
        hi: hi as usize,
        lo: lo as usize,
        pair: r == c,
        suited: r < c,
        connected: r != c && lo - hi <= 2,
    }
}

/// The shape of a class of hands.
pub fn hand_shape(class: usize) -> (s: HandShape)
    requires
        class < 169,
    ensures
        s == shape_of(class as int),
{
    let r: usize = class / 13;
    let c: usize = class % 13;
    let (hi, lo) = if r <= c {
        (r, c)
    } else {
        (c, r)
    };
    HandShape { hi, lo, pair: r == c, suited: r < c, connected: r != c && lo - hi <= 2 }
}

// ---------------------------------------------------------------- rows

/// The path of the node that an action leads to.
pub fn child_path(path: &str, a: &Action) -> (r: String)
    ensures
        r@ == preflop::longer(path@, a.token_text()),
{
    let t = a.token();
    let cs = text::chars_of(path);
    if cs.len() == 0 {
        t
    } else {
        text::join3(path, "-", t.as_str())
    }
}

/// Reading a child's path gives the tokens of its parent, then its own.
pub proof fn paths_read_back(path: Seq<char>, token: Seq<char>)
    requires
        token.len() > 0,
        !token.contains('-'),
    ensures
        game::path_tokens(preflop::longer(path, token)) == game::path_tokens(path).push(token),
{
    let keep = |t: Seq<char>| t.len() > 0;
    reveal_strlit("-");
    reveal_with_fuel(Seq::filter, 3);
    if path.len() == 0 {
        text::lemma_split_whole(token, '-');
        assert(path =~= Seq::empty());
        let none = seq![Seq::<char>::empty()];
        assert(text::split(path, '-') == none);
        let e = Seq::<Seq<char>>::empty();
        assert(none.drop_last() =~= e);
        assert(e.filter(keep) =~= e);
        assert(!keep(none.last()));
        assert(none.filter(keep) =~= e);
        assert(seq![token].drop_last() =~= Seq::empty());
        assert(seq![token].filter(keep) =~= seq![token]);
        assert(Seq::<Seq<char>>::empty().push(token) =~= seq![token]);
    } else {
        assert("-"@ =~= seq!['-']);
        text::lemma_split_tail(path, token, '-');
        let p = text::split(path, '-');
        assert(p.push(token).drop_last() =~= p);
        assert(keep(token));
    }
}

proof fn lemma_tokens_are_plain(a: Action)
    ensures
        a.token_text().len() > 0,
        !a.token_text().contains('-'),
{
    reveal_strlit("f");
    reveal_strlit("c");
    reveal_strlit("r");
    reveal_strlit("ai");
    if let Action::RaiseTo(cb) = a {
        game::lemma_amount_chars(cb as int);
        let t = game::bb_text(cb as int);
        if a.token_text().contains('-') {
            let i = choose|i: int| 0 <= i < a.token_text().len() && a.token_text()[i] == '-';
            assert(i > 0);
            assert(t[i - 1] == '-');
        }
    }
}

proof fn lemma_found_by_token(acts: Seq<Action>, a: Action)
    requires
        acts.contains(a),
    ensures
        game::by_token(acts, a.token_text()) == Some(a),
    decreases acts.len(),
{
    if acts[0].token_text() == a.token_text() {
        game::tokens_are_told_apart(acts[0], a);
    } else {
        let i = choose|i: int| 0 <= i < acts.len() && acts[i] == a;
        assert(acts.drop_first()[i - 1] == a);
        lemma_found_by_token(acts.drop_first(), a);
    }
}

proof fn lemma_walk_one_more(rs: Ruleset, st: State, toks: Seq<Seq<char>>, s: State, a: Action)
    requires
        game::walked(rs, st, toks) == game::Walked::At(s),
        s.actor != game::CLOSED,
        game::legal_actions(s, rs).contains(a),
    ensures
        game::walked(rs, st, toks.push(a.token_text())) == game::Walked::At(
            game::applied(s, rs, a),
        ),
    decreases toks.len(),
{
    let more = toks.push(a.token_text());
    if toks.len() == 0 {
        lemma_found_by_token(game::legal_actions(s, rs), a);
        assert(more.drop_first() =~= Seq::empty());
        reveal_with_fuel(game::walked, 2);
    } else {
        let b = game::by_token(game::legal_actions(st, rs), toks[0])->0;
        lemma_walk_one_more(rs, game::applied(st, rs, b), toks.drop_first(), s, a);
        assert(more.drop_first() =~= toks.drop_first().push(a.token_text()));
    }
}

/// Walking the path of a child comes to the state that its action leads to.
pub proof fn child_paths_lead_to_children(rs: Ruleset, path: Seq<char>, s: State, a: Action)
    requires
        game::walked(rs, game::root_state(rs), game::path_tokens(path)) == game::Walked::At(s),
        s.actor != game::CLOSED,
        game::legal_actions(s, rs).contains(a),
    ensures
        game::walked(
            rs,
            game::root_state(rs),
            game::path_tokens(preflop::longer(path, a.token_text())),
        ) == game::Walked::At(game::applied(s, rs, a)),
{
    lemma_tokens_are_plain(a);
    paths_read_back(path, a.token_text());
    lemma_walk_one_more(rs, game::root_state(rs), game::path_tokens(path), s, a);
}

/// What a decision of the charts shows besides its strategy: the seat that acts,
/// the pot and the amount to call in hundredths, and the actions with the paths
/// that they lead to.
#[derive(Debug, Clone)]
pub struct NodeShape {
    pub seat: String,
    pub pot_cb: u32,
    pub to_call_cb: u32,
    pub labels: Vec<String>,
    pub children: Vec<String>,
}

/// The labels of actions.
pub open spec fn labels_of(acts: Seq<Action>) -> Seq<Seq<char>> {
    acts.map_values(|a: Action| a.label_text())
}

/// The paths that actions lead to.
pub open spec fn child_paths(path: Seq<char>, acts: Seq<Action>) -> Seq<Seq<char>> {
    acts.map_values(|a: Action| preflop::longer(path, a.token_text()))
}

/// The decision at a state; `None` where the hand is over.
pub fn node_shape(st: &State, rs: &Ruleset, path: &str) -> (r: Option<NodeShape>)
    requires
        rs.seated(),
        st.actor != game::CLOSED ==> st.actor < rs.seats@.len() && st.committed[st.actor as int]
            <= st.cur_bet,
        game::pot_of(*st, *rs) <= u32::MAX,
    ensures
        r is Some == (st.actor != game::CLOSED),
        r matches Some(s) ==> {
            let acts = game::legal_actions(*st, *rs);
            &&& s.seat@ == rs.seats@[st.actor as int]@
            &&& s.pot_cb == game::pot_of(*st, *rs)
            &&& s.to_call_cb == st.cur_bet - st.committed[st.actor as int]
            &&& text::texts(s.labels@) == labels_of(acts)
            &&& text::texts(s.children@) == child_paths(path@, acts)
        },
{
    let actor: usize = match st.to_act() {
        Some(a) => a as usize,
        None => {
            return None;
        },
    };
    let mut acts: Vec<Action> = Vec::new();
    st.legal(rs, &mut acts);
    let mut labels: Vec<String> = Vec::new();
    let mut children: Vec<String> = Vec::new();
    let mut i: usize = 0;
    while i < acts.len()
        invariant
            i <= acts@.len(),
            labels@.len() == i,
            children@.len() == i,
            forall|k: int| 0 <= k < i ==> (#[trigger] labels@[k])@ == acts@[k].label_text(),
            forall|k: int|
                0 <= k < i ==> (#[trigger] children@[k])@ == preflop::longer(
                    path@,
                    acts@[k].token_text(),
                ),
        decreases acts@.len() - i,
    {
        labels.push(acts[i].label());
        children.push(child_path(path, &acts[i]));
        i = i + 1;
    }
    assert(text::texts(labels@) =~= labels_of(acts@));
    assert(text::texts(children@) =~= child_paths(path@, acts@));
    Some(
        NodeShape {
            seat: rs.seats[actor].clone(),
            pot_cb: st.pot(rs),
            to_call_cb: st.cur_bet - st.committed[actor],
            labels,
            children,
        },
    )
}

// ---------------------------------------------------------------- runs

/// How many hands the `done`-th of ten parts of a run deals: the last takes what
/// is left over.
pub open spec fn part_of(total: int, done: int) -> int {
    total / 10 + if done == 10 {
        total % 10
    } else {
        0
    }
}

/// The number of hands of one of the ten parts of a run.
pub fn chunk(total: u64, done: u64) -> (r: u64)
    requires
        1 <= done <= 10,
    ensures
        r == part_of(total as int, done as int),
{
    if done == 10 {
        total / 10 + total % 10
    } else {
        total / 10
    }
}

/// The hands of the first `n` parts.
pub open spec fn parts_sum(total: int, n: int) -> int
    decreases n,
{
    if n <= 0 {
        0
    } else {
        parts_sum(total, n - 1) + part_of(total, n)
    }
}

/// The ten parts of a run deal all its hands.
pub proof fn parts_make_the_run(total: int)
    requires
        0 <= total,
    ensures
        parts_sum(total, 10) == total,
{
    reveal_with_fuel(parts_sum, 11);
}

/// How many hands are dealt before averages are kept: a fifth.
pub fn warmup(total: u64) -> (r: u64)
    ensures
        r == total / 5,
{
    total / 5
}

/// The weight of the updates of a hand: how many it is past the warm-up.
pub fn hand_weight(hands_dealt: u64, avg_warmup: u64) -> (r: u64)
    ensures
        r == if hands_dealt > avg_warmup {
            hands_dealt - avg_warmup
        } else {
            0
        },
{
    if hands_dealt > avg_warmup {
        hands_dealt - avg_warmup
    } else {
        0
    }
}

/// The paths whose strategies show how far a run has settled.
pub fn probe_paths() -> (r: [&'static str; 6])
    ensures
        r@ == seq!["", "f", "f-f", "f-f-f", "f-f-f-f", "f-f-f-r2.5-f"],
{
    let r: [&'static str; 6] = ["", "f", "f-f", "f-f-f", "f-f-f-f", "f-f-f-r2.5-f"];
    assert(r@ =~= seq!["", "f", "f-f", "f-f-f", "f-f-f-f", "f-f-f-r2.5-f"]);
    r
}

/// A ruleset file as JSON, or the words of the complaint.
pub uninterp spec fn toml_echo(s: Seq<char>) -> Result<Seq<char>, Seq<char>>;

/// `toml::from_str` into a `toml::Value`, `serde_json::to_value` and
/// `serde_json::to_string`: the JSON of a TOML document.
#[verifier::external_body]
fn echo_json(s: &str) -> (r: Result<String, String>)
    ensures
        r is Ok == toml_echo(s@) is Ok,
        r matches Ok(j) ==> j@ == toml_echo(s@)->Ok_0,
        r matches Err(e) ==> e@ == toml_echo(s@)->Err_0,
{
    let value = toml::from_str::<toml::Value>(s).map_err(|e| e.to_string())?;
    let json = serde_json::to_value(value).map_err(|e| e.to_string())?;
    serde_json::to_string(&json).map_err(|e| e.to_string())
}

/// The hash of a configuration by its JSON.
pub fn config_hash(json: &str) -> (r: String)
    ensures
        r@ == fnv::hash8_of(vstd::utf8::encode_utf8(json@)),
{
    fnv::hash8_text(json)
}

/// The hash of a ruleset by its file: of the JSON that it reads as.
pub fn ruleset_hash(toml: &str) -> (r: Result<String, String>)
    ensures
        r is Ok == toml_echo(toml@) is Ok,
        r matches Ok(h) ==> h@ == fnv::hash8_of(vstd::utf8::encode_utf8(toml_echo(toml@)->Ok_0)),
        r matches Err(e) ==> e@ == toml_echo(toml@)->Err_0,
{
    match echo_json(toml) {
        Ok(j) => Ok(config_hash(j.as_str())),
        Err(e) => Err(e),
    }
}

/// Whether the charts of a ruleset are up to date: their header holds its hash.
pub fn up_to_date(header: Option<&str>, hash: &str) -> (r: bool)
    ensures
        r == match header {
            Some(h) => serve::json_text(h@, "config_hash"@) == Some(hash@),
            None => false,
        },
{
    match header {
        Some(h) => match serve::member_text(h, "config_hash") {
            Some(t) => text::same_text(t.as_str(), hash),
            None => false,
        },
        None => false,
    }
}

/// The unit of the values in the charts of a ruleset.
pub fn ev_unit(rs: &Ruleset) -> (r: &'static str)
    ensures
        r == if rs.icm_payouts is Some {
            "payout"
        } else {
            "bb"
        },
{
    match rs.icm_payouts {
        Some(_) => "payout",
        None => "bb",
    }
}

/// The index of rulesets: their names in ascending order.
pub fn index_of(ids: &Vec<String>) -> (r: Vec<String>)
    ensures
        text::texts(r@) == solution::sorted_texts(text::texts(ids@)),
{
    solution::sort_texts(ids)
}

/// After the flop the small blind acts first, then the big blind, then the seats in
/// their order before the flop: the button, where it plays, is last, and a blind is
/// last only where no other seat plays.
pub proof fn the_button_acts_last(n: int, players: u8, s: int)
    requires
        3 <= n <= 6,
        acts_last(n, players, s),
    ensures
        game::seated_in(players, s),
        game::seated_in(players, n - 3) ==> s == n - 3,
        s >= n - 2 ==> forall|t: int| 0 <= t < n - 2 ==> !#[trigger] game::seated_in(players, t),
        s == n - 2 ==> !game::seated_in(players, n - 1),
        s < n - 2 ==> forall|t: int| s < t < n - 2 ==> !#[trigger] game::seated_in(players, t),
{
    if game::seated_in(players, n - 3) {
        assert(postflop_place(n, n - 3) <= postflop_place(n, s));
    }
    if s == n - 2 && game::seated_in(players, n - 1) {
        assert(postflop_place(n, n - 1) <= postflop_place(n, s));
    }
}

/// The seats of a mask are listed, each once and in order.
pub proof fn every_seat_of_a_mask_is_listed(players: u8, n: int)
    requires
        0 <= n <= 8,
    ensures
        seats_of(players, n) == Seq::new(n as nat, |i: int| i as usize).filter(
            |i: usize| game::seated_in(players, i as int),
        ),
    decreases n,
{
    reveal(Seq::filter);
    let all = Seq::new(n as nat, |i: int| i as usize);
    if n > 0 {
        every_seat_of_a_mask_is_listed(players, n - 1);
        assert(all.drop_last() =~= Seq::new((n - 1) as nat, |i: int| i as usize));
        assert(all.last() == (n - 1) as usize);
    } else {
        assert(all =~= Seq::empty());
    }
}

/// The shape of a class is that of its cards: the higher and the lower rank, the ace
/// being 0, whether they are the same, whether the suits are, and whether at most
/// one rank lies between them.
pub proof fn shapes_are_of_the_cards(a: Card, b: Card)
    requires
        a.wf(),
        b.wf(),
        a != b,
        a.rank >= b.rank,
    ensures
        ({
            let s = shape_of(preflop::class_of(a, b));
            &&& s.hi == 14 - a.rank
            &&& s.lo == 14 - b.rank
            &&& s.pair == (a.rank == b.rank)
            &&& s.suited == (a.suit == b.suit)
            &&& s.connected == (a.rank != b.rank && a.rank - b.rank <= 2)
        }),
{
    let (hi, lo) = (14 - a.rank, 14 - b.rank);
    let i = preflop::class_of(a, b);
    if a.suit == b.suit {
        vstd::arithmetic::div_mod::lemma_fundamental_div_mod_converse(i, 13, hi, lo);
    } else {
        vstd::arithmetic::div_mod::lemma_fundamental_div_mod_converse(i, 13, lo, hi);
    }
}

/// After the flop the blinds act first: the order of the seats goes on from the
/// last two, the small blind at place 0.
pub proof fn the_blinds_act_first_after_the_flop(n: int, s: int)
    requires
        2 <= n,
        0 <= s < n,
    ensures
        postflop_place(n, s) == (s + 2) % n,
        postflop_place(n, n - 2) == 0,
{
    if s >= n - 2 {
        vstd::arithmetic::div_mod::lemma_fundamental_div_mod_converse(s + 2, n, 1, s + 2 - n);
    } else {
        vstd::arithmetic::div_mod::lemma_fundamental_div_mod_converse(s + 2, n, 0, s + 2);
    }
}

} // verus!
