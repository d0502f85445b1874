//! Preflop hand classes and solved preflop charts.
//!
//! Chart nodes are addressed by their action path: tokens `f`, `c`, `x`,
//! `r<amount>` and `ai` joined by `-`; the root is the empty path.

use crate::bits::F32;
use crate::board;
use crate::board::Card;
use crate::eval;
use crate::game;
use crate::iso;
use crate::order;
use crate::solution::NodeStrategy;
use crate::text;
use crate::textmap::TextMap;
use crate::tree;
use vstd::prelude::*;

verus! {

/// Number of hand classes: 13 pairs, 78 suited and 78 offsuit ones.
pub const CLASSES: usize = 169;

// ---------------------------------------------------------------- classes

/// The rank in row or column `i` of the grid, the ace first.
pub open spec fn grid_char(i: int) -> char {
    iso::rank_char(12 - i)
}

/// The name of class `i`: row and column of a 13 by 13 grid, pairs on the
/// diagonal, suited above it and offsuit below.
pub open spec fn class_text(i: int) -> Seq<char> {
    let (r, c) = (i / 13, i % 13);
    if r == c {
        seq![grid_char(r), grid_char(c)]
    } else if r < c {
        seq![grid_char(r), grid_char(c), 's']
    } else {
        seq![grid_char(c), grid_char(r), 'o']
    }
}

/// The name of hand class `i`.
pub fn class_name(i: usize) -> (name: String)
    requires
        i < 169,
    ensures
        name@ == class_text(i as int),
{
    let r: u8 = (i / 13) as u8;
    let c: u8 = (i % 13) as u8;
    let mut out = String::new();
    if r == c {
        out.push(iso::char_of_rank(12 - r));
        out.push(iso::char_of_rank(12 - c));
    } else if r < c {
        out.push(iso::char_of_rank(12 - r));
        out.push(iso::char_of_rank(12 - c));
        out.push('s');
    } else {
        out.push(iso::char_of_rank(12 - c));
        out.push(iso::char_of_rank(12 - r));
        out.push('o');
    }
    assert(out@ =~= class_text(i as int));
    out
}

/// The row of a rank character, upper case only.
pub open spec fn grid_index(c: char) -> Option<int> {
    if c == text::upper(c) && iso::rank_index(c) is Some {
        Some(12 - iso::rank_index(c)->0)
    } else {
        None
    }
}

fn grid_of_char(c: char) -> (r: Option<usize>)
    ensures
        r is Some == grid_index(c) is Some,
        r matches Some(n) ==> n == grid_index(c)->0 && n < 13,
{
    if text::upper_char(c) != c {
        return None;
    }
    match iso::id_of_chars(c, 'c') {
        Some(id) => Some((12 - id / 4) as usize),
        None => None,
    }
}

/// The class with this name.
pub open spec fn class_of_name(name: Seq<char>) -> Option<int> {
    if name.len() < 2 || name.len() > 3 || grid_index(name[0]) is None || grid_index(name[1])
        is None {
        None
    } else {
        let (hi, lo) = (grid_index(name[0])->0, grid_index(name[1])->0);
        if name.len() == 2 {
            if hi == lo {
                Some(hi * 13 + lo)
            } else {
                None
            }
        } else if hi < lo && name[2] == 's' {
            Some(hi * 13 + lo)
        } else if hi < lo && name[2] == 'o' {
            Some(lo * 13 + hi)
        } else {
            None
        }
    }
}

/// The grid index of a class name, such as 1 for `"AKs"`.
pub fn class_index_of(name: &str) -> (r: Option<usize>)
    ensures
        r is Some == class_of_name(name@) is Some,
        r matches Some(i) ==> i == class_of_name(name@)->0 && i < 169,
{
    let cs = text::chars_of(name);
    if cs.len() < 2 || cs.len() > 3 {
        return None;
    }
    match (grid_of_char(cs[0]), grid_of_char(cs[1])) {
        (Some(hi), Some(lo)) => {
            if cs.len() == 2 {
                if hi == lo {
                    Some(hi * 13 + lo)
                } else {
                    None
                }
            } else if hi < lo && cs[2] == 's' {
                Some(hi * 13 + lo)
            } else if hi < lo && cs[2] == 'o' {
                Some(lo * 13 + hi)
            } else {
                None
            }
        },
        _ => None,
    }
}

proof fn lemma_grid_char(i: int)
    requires
        0 <= i < 13,
    ensures
        grid_index(grid_char(i)) == Some(i),
{
    let c = grid_char(i);
    let r = 12 - i;
    assert(iso::rank_index(iso::rank_char(r)) == Some(r));
    assert(text::upper(c) == c);
}

/// Naming a class and looking the name up gives the class back.
pub proof fn class_names_round_trip(i: int)
    requires
        0 <= i < 169,
    ensures
        class_of_name(class_text(i)) == Some(i),
{
    lemma_grid_char(i / 13);
    lemma_grid_char(i % 13);
}

/// The class of two cards.
pub open spec fn class_of(a: Card, b: Card) -> int {
    let (x, y) = (14 - a.rank, 14 - b.rank);
    let (hi, lo) = if x <= y {
        (x, y)
    } else {
        (y, x)
    };
    if a.suit == b.suit {
        hi * 13 + lo
    } else {
        lo * 13 + hi
    }
}

/// The grid index of a holding.
pub fn class_index(hand: [Card; 2]) -> (r: usize)
    requires
        board::all_cards(hand@),
    ensures
        r == class_of(hand[0], hand[1]),
        r < 169,
{
    assert(hand@[0].wf() && hand@[1].wf());
    let x: usize = (14 - hand[0].rank) as usize;
    let y: usize = (14 - hand[1].rank) as usize;
    let (hi, lo) = if x <= y {
        (x, y)
    } else {
        (y, x)
    };
    if hand[0].suit == hand[1].suit {
        hi * 13 + lo
    } else {
        lo * 13 + hi
    }
}

/// How many holdings a class has.
pub open spec fn combos_in(i: int) -> int {
    if i / 13 == i % 13 {
        6
    } else if i / 13 < i % 13 {
        4
    } else {
        12
    }
}

/// How many holdings class `i` has: 6 for a pair, 4 suited, 12 offsuit.
pub fn class_combos(i: usize) -> (r: u32)
    ensures
        r == combos_in(i as int),
{
    let r: usize = i / 13;
    let c: usize = i % 13;
    if r == c {
        6
    } else if r < c {
        4
    } else {
        12
    }
}

/// The holdings of the first `n` classes.
pub open spec fn combos_below(n: int) -> int
    decreases n,
{
    if n <= 0 {
        0
    } else {
        combos_below(n - 1) + combos_in(n - 1)
    }
}

/// The classes together have all 1326 holdings.
pub proof fn classes_partition_the_deck()
    ensures
        combos_below(169) == 1326,
{
    assert(combos_below(13) == 54) by {
        reveal_with_fuel(combos_below, 14);
    }
    assert(combos_below(26) == 116) by {
        reveal_with_fuel(combos_below, 14);
    }
    assert(combos_below(39) == 186) by {
        reveal_with_fuel(combos_below, 14);
    }
    assert(combos_below(52) == 264) by {
        reveal_with_fuel(combos_below, 14);
    }
    assert(combos_below(65) == 350) by {
        reveal_with_fuel(combos_below, 14);
    }
    assert(combos_below(78) == 444) by {
        reveal_with_fuel(combos_below, 14);
    }
    assert(combos_below(91) == 546) by {
        reveal_with_fuel(combos_below, 14);
    }
    assert(combos_below(104) == 656) by {
        reveal_with_fuel(combos_below, 14);
    }
    assert(combos_below(117) == 774) by {
        reveal_with_fuel(combos_below, 14);
    }
    assert(combos_below(130) == 900) by {
        reveal_with_fuel(combos_below, 14);
    }
    assert(combos_below(143) == 1034) by {
        reveal_with_fuel(combos_below, 14);
    }
    assert(combos_below(156) == 1176) by {
        reveal_with_fuel(combos_below, 14);
    }
    assert(combos_below(169) == 1326) by {
        reveal_with_fuel(combos_below, 14);
    }
}

/// The card of grid row `i` in suit `s`.
pub open spec fn grid_card(i: int, s: int) -> Card {
    Card { rank: (14 - i) as u8, suit: s as u8 }
}

/// Two cards of the grid, as a holding.
pub open spec fn holding(i: int, s: int, j: int, t: int) -> [Card; 2] {
    [grid_card(i, s), grid_card(j, t)]
}

/// The holdings of class `i`, the suits in the order spades, hearts, diamonds,
/// clubs.
pub open spec fn class_holdings(i: int) -> Seq<[Card; 2]> {
    let (r, c) = (i / 13, i % 13);
    if r == c {
        seq![
            holding(r, 3, r, 2),
            holding(r, 3, r, 1),
            holding(r, 3, r, 0),
            holding(r, 2, r, 1),
            holding(r, 2, r, 0),
            holding(r, 1, r, 0),
        ]
    } else if r < c {
        seq![
            holding(r, 3, c, 3),
            holding(r, 2, c, 2),
            holding(r, 1, c, 1),
            holding(r, 0, c, 0),
        ]
    } else {
        seq![
            holding(c, 3, r, 2),
            holding(c, 3, r, 1),
            holding(c, 3, r, 0),
            holding(c, 2, r, 3),
            holding(c, 2, r, 1),
            holding(c, 2, r, 0),
            holding(c, 1, r, 3),
            holding(c, 1, r, 2),
            holding(c, 1, r, 0),
            holding(c, 0, r, 3),
            holding(c, 0, r, 2),
            holding(c, 0, r, 1),
        ]
    }
}

fn pair_up(i: usize, s: u8, j: usize, t: u8) -> (r: [Card; 2])
    requires
        i < 13,
        j < 13,
        s < 4,
        t < 4,
    ensures
        r == holding(i as int, s as int, j as int, t as int),
{
    let r: [Card; 2] = [
        Card { rank: 14 - i as u8, suit: s },
        Card { rank: 14 - j as u8, suit: t },
    ];
    assert(r@ =~= holding(i as int, s as int, j as int, t as int)@);
    r
}

/// The holdings of class `i`.
pub fn class_combos_cards(i: usize) -> (out: Vec<[Card; 2]>)
    requires
        i < 169,
    ensures
        out@ == class_holdings(i as int),
        out@.len() == combos_in(i as int),
        forall|k: int| 0 <= k < out@.len() ==> board::all_cards((#[trigger] out@[k])@),
{
    let r: usize = i / 13;
    let c: usize = i % 13;
    let out: Vec<[Card; 2]> = if r == c {
        vec![
            pair_up(r, 3, r, 2),
            pair_up(r, 3, r, 1),
            pair_up(r, 3, r, 0),
            pair_up(r, 2, r, 1),
            pair_up(r, 2, r, 0),
            pair_up(r, 1, r, 0),
        ]
    } else if r < c {
        vec![
            pair_up(r, 3, c, 3),
            pair_up(r, 2, c, 2),
            pair_up(r, 1, c, 1),
            pair_up(r, 0, c, 0),
        ]
    } else {
        vec![
            pair_up(c, 3, r, 2),
            pair_up(c, 3, r, 1),
            pair_up(c, 3, r, 0),
            pair_up(c, 2, r, 3),
            pair_up(c, 2, r, 1),
            pair_up(c, 2, r, 0),
            pair_up(c, 1, r, 3),
            pair_up(c, 1, r, 2),
            pair_up(c, 1, r, 0),
            pair_up(c, 0, r, 3),
            pair_up(c, 0, r, 2),
            pair_up(c, 0, r, 1),
        ]
    };
    proof {
        assert(out@ =~= class_holdings(i as int));
        assert forall|k: int| 0 <= k < out@.len() implies board::all_cards((#[trigger] out@[k])@) by {
            lemma_holding_cards(i as int, k);
        }
    }
    out
}

proof fn lemma_holding_cards(i: int, k: int)
    requires
        0 <= i < 169,
        0 <= k < class_holdings(i).len(),
    ensures
        board::all_cards(class_holdings(i)[k]@),
        class_holdings(i)[k][0] != class_holdings(i)[k][1],
        class_of(class_holdings(i)[k][0], class_holdings(i)[k][1]) == i,
{
    let h = class_holdings(i)[k];
    assert(h@[0].wf() && h@[1].wf());
}

/// Every holding of a class belongs to it.
pub proof fn holdings_belong_to_their_class(i: int, k: int)
    requires
        0 <= i < 169,
        0 <= k < class_holdings(i).len(),
    ensures
        class_of(class_holdings(i)[k][0], class_holdings(i)[k][1]) == i,
{
    lemma_holding_cards(i, k);
}

/// Where a holding stands in the list of its class, in the order of the list.
pub open spec fn place_in_class(s: int, t: int, pair: bool, suited: bool) -> int {
    if suited {
        3 - s
    } else if pair {
        if s == 3 {
            2 - t
        } else if s == 2 {
            4 - t
        } else {
            5
        }
    } else {
        3 * (3 - s) + (if t > s {
            3 - t
        } else {
            2 - t
        })
    }
}

/// Every two different cards are a holding of their class, in one order or the
/// other.
pub proof fn every_holding_is_listed(a: Card, b: Card)
    requires
        a.wf(),
        b.wf(),
        a != b,
    ensures
        exists|k: int|
            0 <= k < class_holdings(class_of(a, b)).len() && ((
            #[trigger] class_holdings(class_of(a, b))[k])[0] == a && class_holdings(
                class_of(a, b),
            )[k][1] == b || class_holdings(class_of(a, b))[k][0] == b && class_holdings(
                class_of(a, b),
            )[k][1] == a),
{
    let i = class_of(a, b);
    let flip = if a.rank == b.rank {
        a.suit < b.suit
    } else {
        a.rank < b.rank
    };
    let (x, y) = if flip {
        (b, a)
    } else {
        (a, b)
    };
    let k = place_in_class(
        x.suit as int,
        y.suit as int,
        a.rank == b.rank,
        a.suit == b.suit,
    );
    let h = class_holdings(i)[k];
    assert(h[0] == x && h[1] == y);
}

// ---------------------------------------------------------------- labels

/// The token of an action label.
pub open spec fn token_of_label(label: Seq<char>) -> Seq<char> {
    if label == "Fold"@ {
        "f"@
    } else if label == "Call"@ {
        "c"@
    } else if label == "Check"@ {
        "x"@
    } else if label == "All-in"@ {
        "ai"@
    } else if text::begins(label, "Raise to "@) && text::ends(label.skip(9), "bb"@) {
        "r"@ + label.skip(9).take(label.len() - 11)
    } else {
        "r?"@
    }
}

/// The path token of an action label: `"Fold"` gives `f`, `"Raise to 7.5bb"`
/// gives `r7.5`.
pub fn label_token(label: &str) -> (r: String)
    ensures
        r@ == token_of_label(label@),
{
    if text::same_text(label, "Fold") {
        return text::copy_text("f");
    }
    if text::same_text(label, "Call") {
        return text::copy_text("c");
    }
    if text::same_text(label, "Check") {
        return text::copy_text("x");
    }
    if text::same_text(label, "All-in") {
        return text::copy_text("ai");
    }
    let cs = text::chars_of(label);
    proof {
        reveal_strlit("Raise to ");
        reveal_strlit("bb");
    }
    if text::has_prefix(cs.as_slice(), "Raise to ") {
        let rest = text::part(cs.as_slice(), 9, cs.len());
        assert(rest@ =~= label@.skip(9));
        if text::has_suffix(rest.as_slice(), "bb") {
            let amount = text::part(rest.as_slice(), 0, rest.len() - 2);
            assert(amount@ =~= label@.skip(9).take(label@.len() - 11));
            let a = text::string_of(amount.as_slice());
            return text::join2("r", a.as_str());
        }
    }
    text::copy_text("r?")
}

/// A token has at least one character.
pub proof fn lemma_token_not_empty(label: Seq<char>)
    ensures
        token_of_label(label).len() > 0,
{
    reveal_strlit("f");
    reveal_strlit("c");
    reveal_strlit("x");
    reveal_strlit("ai");
    reveal_strlit("r");
    reveal_strlit("r?");
}

/// The token of an action's label is the action's token.
pub proof fn label_tokens_invert_labels(a: game::Action)
    ensures
        token_of_label(a.label_text()) == a.token_text(),
{
    reveal_strlit("Fold");
    reveal_strlit("Call");
    reveal_strlit("Check");
    reveal_strlit("All-in");
    reveal_strlit("Raise to ");
    reveal_strlit("bb");
    assert("Fold"@[0] == 'F' && "Call"@[1] == 'a' && "Check"@[1] == 'h' && "All-in"@[0] == 'A');
    if let game::Action::RaiseTo(cb) = a {
        let l = a.label_text();
        let x = game::bb_text(cb as int);
        assert(l[0] == 'R');
        assert("Call"@[0] == 'C' && "Check"@[0] == 'C');
        assert(l.take(9) =~= "Raise to "@);
        assert(l.skip(9) =~= x + "bb"@);
        assert(l.skip(9).skip(l.skip(9).len() - 2) =~= "bb"@);
        assert(l.skip(9).take(l.len() - 11) =~= x);
    }
}

// ---------------------------------------------------------------- charts

/// What a ruleset's configuration tells of the game.
#[derive(Debug, Clone)]
pub struct RulesetEcho {
    /// Seats in acting order.
    pub seats: Option<Vec<String>>,
    pub stack_bb: Option<F32>,
    pub bb: Option<F32>,
    pub ante_bb: Option<F32>,
    pub rake_rate: Option<F32>,
    pub rake_cap_bb: Option<F32>,
}

/// Where a chart set came from.
#[derive(Debug, Clone)]
pub struct PreflopGenInfo {
    pub version: String,
    pub traversals: u64,
    pub seed: u64,
    pub strategy_drift: Option<F32>,
}

/// What identifies a chart set.
#[derive(Debug, Clone)]
pub struct PreflopHeader {
    pub version: u32,
    pub ruleset: String,
    pub label: String,
    pub config: RulesetEcho,
    pub config_hash: String,
    /// Unit of the EVs: `"bb"` or `"payout"`.
    pub ev_unit: String,
    pub generator: PreflopGenInfo,
}

/// One decision's strategy for all classes.
#[derive(Debug, Clone)]
pub struct PreflopNode {
    /// Action path from the root.
    pub path: String,
    /// Seat to act.
    pub seat: String,
    pub pot_bb: F32,
    /// What the seat must add to call.
    pub to_call_bb: F32,
    /// How often the node is reached.
    pub reach: F32,
    pub actions: Vec<String>,
    /// Per action one frequency for each class.
    pub freqs: Vec<Vec<F32>>,
    /// Per action one EV for each class.
    pub evs: Option<Vec<Vec<F32>>>,
}

/// One row per action, one entry per class.
pub open spec fn full_rows(rows: Seq<Vec<F32>>, actions: nat) -> bool {
    &&& rows.len() == actions
    &&& forall|i: int| 0 <= i < rows.len() ==> (#[trigger] rows[i])@.len() == 169
}

fn rows_full(rows: &Vec<Vec<F32>>, actions: usize) -> (r: bool)
    ensures
        r == full_rows(rows@, actions as nat),
{
    if rows.len() != actions {
        return false;
    }
    let mut i: usize = 0;
    while i < rows.len()
        invariant
            i <= rows@.len(),
            forall|k: int| 0 <= k < i ==> (#[trigger] rows@[k])@.len() == 169,
        decreases rows@.len() - i,
    {
        if rows[i].len() != CLASSES {
            return false;
        }
        i = i + 1;
    }
    true
}

/// The entries of one class, one per row.
pub open spec fn column(rows: Seq<Vec<F32>>, class: int) -> Seq<F32> {
    rows.map_values(|r: Vec<F32>| r@[class])
}

fn column_of(rows: &Vec<Vec<F32>>, class: usize) -> (r: Vec<F32>)
    requires
        class < 169,
        forall|i: int| 0 <= i < rows@.len() ==> (#[trigger] rows@[i])@.len() == 169,
    ensures
        r@ == column(rows@, class as int),
{
    let mut out: Vec<F32> = Vec::new();
    let mut i: usize = 0;
    while i < rows.len()
        invariant
            i <= rows@.len(),
            class < 169,
            out@.len() == i,
            forall|k: int| 0 <= k < rows@.len() ==> (#[trigger] rows@[k])@.len() == 169,
            forall|k: int| 0 <= k < i ==> #[trigger] out@[k] == rows@[k]@[class as int],
        decreases rows@.len() - i,
    {
        out.push(rows[i][class]);
        i = i + 1;
    }
    assert(out@ =~= column(rows@, class as int));
    out
}

impl PreflopNode {
    /// Frequencies, and EVs where there are some, for every action and class.
    pub open spec fn wf(&self) -> bool {
        &&& full_rows(self.freqs@, self.actions@.len())
        &&& self.evs matches Some(e) ==> full_rows(e@, self.actions@.len())
    }

    /// Tests for [`PreflopNode::wf`].
    pub fn well_shaped(&self) -> (r: bool)
        ensures
            r == self.wf(),
    {
        if !rows_full(&self.freqs, self.actions.len()) {
            return false;
        }
        match &self.evs {
            Some(e) => rows_full(e, self.actions.len()),
            None => true,
        }
    }

    /// The strategy of one class; `None` without EVs.
    pub fn strategy_for(&self, class: usize) -> (r: Option<NodeStrategy>)
        requires
            self.wf(),
            class < 169,
        ensures
            r is Some == self.evs is Some,
            r matches Some(s) ==> text::texts(s.actions@) == text::texts(self.actions@)
                && s.frequencies@ == column(self.freqs@, class as int) && s.action_ev@ == column(
                (self.evs->0)@,
                class as int,
            ),
    {
        match &self.evs {
            Some(e) => Some(
                NodeStrategy {
                    actions: text::copy_texts(&self.actions),
                    frequencies: column_of(&self.freqs, class),
                    action_ev: column_of(e, class),
                },
            ),
            None => None,
        }
    }

    /// The frequency of each action for one class.
    pub fn freqs_for(&self, class: usize) -> (r: Vec<F32>)
        requires
            self.wf(),
            class < 169,
        ensures
            r@ == column(self.freqs@, class as int),
    {
        column_of(&self.freqs, class)
    }

    /// `i` is the first action with this token.
    pub open spec fn first_with_token(&self, tok: Seq<char>, i: int) -> bool {
        &&& 0 <= i < self.actions@.len()
        &&& token_of_label(self.actions@[i]@) == tok
        &&& forall|k: int| 0 <= k < i ==> token_of_label((#[trigger] self.actions@[k])@) != tok
    }

    /// The first action with this token.
    pub open spec fn token_place(&self, tok: Seq<char>) -> int {
        choose|i: int| self.first_with_token(tok, i)
    }

    /// No action has this token.
    pub open spec fn no_token(&self, tok: Seq<char>) -> bool {
        forall|k: int|
            0 <= k < self.actions@.len() ==> token_of_label((#[trigger] self.actions@[k])@) != tok
    }

    pub(crate) fn action_with_token(&self, tok: &[char]) -> (r: Option<usize>)
        ensures
            r is None ==> self.no_token(tok@),
            r matches Some(i) ==> self.first_with_token(tok@, i as int),
    {
        let mut i: usize = 0;
        while i < self.actions.len()
            invariant
                i <= self.actions@.len(),
                forall|k: int|
                    0 <= k < i ==> token_of_label((#[trigger] self.actions@[k])@) != tok@,
            decreases self.actions@.len() - i,
        {
            let t = label_token(self.actions[i].as_str());
            let c = text::chars_of(t.as_str());
            if text::same_chars(c.as_slice(), tok) {
                return Some(i);
            }
            i = i + 1;
        }
        None
    }
}

/// A ruleset's charts.
#[derive(Debug)]
pub struct PreflopCharts {
    pub header: PreflopHeader,
    pub nodes: TextMap<PreflopNode>,
}

/// The newest chart format that is understood.
pub const FORMAT_VERSION: u32 = 1;

/// The first `k` tokens of a path.
pub open spec fn prefix(toks: Seq<Seq<char>>, k: int) -> Seq<char> {
    text::joined(toks.take(k), "-"@)
}

/// The pot of a line that closes to a flop.
#[derive(Debug, Clone, Copy, PartialEq, Eq, Structural)]
pub enum FlopPot {
    /// Checked through: the pot of the last decision.
    Pot(F32),
    /// Called: the pot of the last decision and the amount to call.
    PotAndCall(F32, F32),
}

/// `s` without the `-f` at its end, however often it stands there.
pub open spec fn without_folds(s: Seq<char>) -> Seq<char>
    decreases s.len(),
{
    if s.len() >= 2 && s[s.len() - 2] == '-' && s[s.len() - 1] == 'f' {
        without_folds(s.take(s.len() - 2))
    } else {
        s
    }
}

/// What stands before the last `-`, and what after it.
pub open spec fn last_cut(s: Seq<char>, n: int) -> (Seq<char>, Seq<char>)
    decreases n,
{
    if n <= 0 {
        (Seq::empty(), s)
    } else if s[n - 1] == '-' {
        (s.take(n - 1), s.skip(n))
    } else {
        last_cut(s, n - 1)
    }
}

/// A path one token longer.
pub open spec fn longer(path: Seq<char>, tok: Seq<char>) -> Seq<char> {
    if path.len() == 0 {
        tok
    } else {
        path + "-"@ + tok
    }
}

/// Splits a line into its tokens.
pub(crate) fn tokens_of(line: &str) -> (r: Vec<Vec<char>>)
    ensures
        text::pieces(r@) == game::path_tokens(line@),
{
    let cs = text::chars_of(line);
    let all = text::split_at_char(cs.as_slice(), '-');
    let ghost s = text::split(line@, '-');
    let ghost keep = |t: Seq<char>| t.len() > 0;
    let mut out: Vec<Vec<char>> = Vec::new();
    let mut i: usize = 0;
    proof {
        reveal(Seq::filter);
        assert(text::pieces(out@) =~= s.take(0).filter(keep));
    }
    while i < all.len()
        invariant
            i <= all@.len(),
            text::pieces(all@) == s,
            keep == (|t: Seq<char>| t.len() > 0),
            text::pieces(out@) == s.take(i as int).filter(keep),
        decreases all@.len() - i,
    {
        proof {
            reveal(Seq::filter);
            assert(s.take(i + 1).drop_last() =~= s.take(i as int));
            assert(s[i as int] == all@[i as int]@);
        }
        if all[i].len() > 0 {
            let ghost before = out@;
            let p = text::part(all[i].as_slice(), 0, all[i].len());
            assert(p@ =~= s[i as int]);
            out.push(p);
            assert(text::pieces(out@) =~= text::pieces(before).push(s[i as int]));
        }
        i = i + 1;
    }
    assert(s.take(i as int) =~= s);
    out
}

/// Whether someone goes all-in along a line.
fn goes_all_in(line: &str) -> (r: bool)
    ensures
        r == game::path_tokens(line@).contains("ai"@),
{
    let toks = tokens_of(line);
    let ai = text::chars_of("ai");
    let mut i: usize = 0;
    while i < toks.len()
        invariant
            i <= toks@.len(),
            ai@ == "ai"@,
            text::pieces(toks@) == game::path_tokens(line@),
            forall|k: int| 0 <= k < i ==> (#[trigger] text::pieces(toks@)[k]) != "ai"@,
        decreases toks@.len() - i,
    {
        assert(text::pieces(toks@)[i as int] == toks@[i as int]@);
        if text::same_chars(toks[i].as_slice(), ai.as_slice()) {
            return true;
        }
        i = i + 1;
    }
    false
}

/// The path made longer by one token.
pub(crate) fn extend_path(path: &mut String, tok: &[char], first: bool)
    ensures
        final(path)@ == if first {
            old(path)@ + tok@
        } else {
            old(path)@ + "-"@ + tok@
        },
{
    if !first {
        path.append("-");
    }
    let t = text::string_of(tok);
    path.append(t.as_str());
}

pub proof fn lemma_prefix_step(toks: Seq<Seq<char>>, k: int)
    requires
        0 <= k < toks.len(),
    ensures
        prefix(toks, 0) == Seq::<char>::empty(),
        k == 0 ==> prefix(toks, 1) == prefix(toks, 0) + toks[0],
        k > 0 ==> prefix(toks, k + 1) == prefix(toks, k) + "-"@ + toks[k],
{
    let t = toks.take(k + 1);
    assert(t.drop_last() =~= toks.take(k));
    assert(t.last() == toks[k]);
    if k == 0 {
        assert(t[0] == toks[0]);
        assert(prefix(toks, 0) + toks[0] =~= toks[0]);
    }
}

impl PreflopCharts {
    pub open spec fn wf(&self) -> bool {
        &&& self.nodes.wf()
        &&& forall|p: Seq<char>|
            #![trigger self.nodes@.dom().contains(p)]
            self.nodes@.dom().contains(p) ==> self.nodes@[p].wf()
    }

    /// There is a node at this path.
    pub open spec fn stored(&self, path: Seq<char>) -> bool {
        self.nodes@.dom().contains(path)
    }

    /// The node at this path.
    pub open spec fn at(&self, path: Seq<char>) -> PreflopNode {
        self.nodes@[path]
    }

    /// Charts without nodes; `None` where the header is of a newer format.
    pub fn new(header: PreflopHeader) -> (r: Option<PreflopCharts>)
        ensures
            r is Some == (header.version <= FORMAT_VERSION),
            r matches Some(c) ==> c.wf() && c.header == header && c.nodes@ == Map::<
                Seq<char>,
                PreflopNode,
            >::empty(),
    {
        if header.version > FORMAT_VERSION {
            None
        } else {
            Some(PreflopCharts { header, nodes: TextMap::new() })
        }
    }

    /// Adds a node, in place of one at the same path. A node that lacks
    /// frequencies or EVs of some action or class is refused.
    pub fn add_node(&mut self, node: PreflopNode) -> (r: bool)
        requires
            old(self).wf(),
        ensures
            final(self).wf(),
            final(self).header == old(self).header,
            r == node.wf(),
            r ==> final(self).nodes@ == old(self).nodes@.insert(node.path@, node),
            !r ==> final(self).nodes == old(self).nodes,
    {
        if !node.well_shaped() {
            return false;
        }
        let path = node.path.clone();
        self.nodes.insert(path, node);
        true
    }

    /// The node at a path.
    pub fn node(&self, path: &str) -> (r: Option<&PreflopNode>)
        requires
            self.wf(),
        ensures
            r is Some == self.stored(path@),
            r matches Some(n) ==> *n == self.at(path@) && n.wf(),
    {
        self.nodes.get(path)
    }

    /// All nodes.
    pub fn nodes(&self) -> (r: &Vec<PreflopNode>)
        ensures
            r@ == self.nodes.values@,
    {
        &self.nodes.values
    }

    /// The rows of frequencies that `seat` plays along the first `k` tokens;
    /// `None` where a node on the way is not stored or lacks the action.
    pub open spec fn rows_along(&self, toks: Seq<Seq<char>>, seat: Seq<char>, k: int) -> Option<
        Seq<Seq<F32>>,
    >
        decreases k,
    {
        if k <= 0 {
            Some(Seq::empty())
        } else {
            let p = prefix(toks, k - 1);
            let n = self.at(p);
            match self.rows_along(toks, seat, k - 1) {
                None => None,
                Some(rows) => if !self.stored(p) {
                    None
                } else if n.seat@ != seat {
                    Some(rows)
                } else if n.no_token(toks[k - 1]) {
                    None
                } else {
                    Some(rows.push(n.freqs@[n.token_place(toks[k - 1])]@))
                },
            }
        }
    }

    /// The rows of frequencies that `seat` plays along a line.
    pub open spec fn reach_rows(&self, line: Seq<char>, seat: Seq<char>) -> Option<Seq<Seq<F32>>> {
        let toks = game::path_tokens(line);
        self.rows_along(toks, seat, toks.len() as int)
    }

    proof fn lemma_rows_stay_none(&self, toks: Seq<Seq<char>>, seat: Seq<char>, k: int, n: int)
        requires
            0 <= k <= n,
            self.rows_along(toks, seat, k) is None,
        ensures
            self.rows_along(toks, seat, n) is None,
        decreases n - k,
    {
        if k < n {
            self.lemma_rows_stay_none(toks, seat, k, n - 1);
        }
    }

    /// The rows of frequencies whose product, class by class, is how likely
    /// `seat` is to hold each class after `line`: its own actions on the way.
    /// `None` where a node on the way is missing.
    pub fn seat_reach(&self, line: &str, seat: &str) -> (r: Option<Vec<Vec<F32>>>)
        requires
            self.wf(),
        ensures
            r is Some == self.reach_rows(line@, seat@) is Some,
            r matches Some(v) ==> rows_are(v@, self.reach_rows(line@, seat@)->0) && forall|i: int|
                0 <= i < v@.len() ==> (#[trigger] v@[i])@.len() == 169,
    {
        let toks = tokens_of(line);
        let ghost ts = game::path_tokens(line@);
        let mut out: Vec<Vec<F32>> = Vec::new();
        let mut path = String::new();
        let mut k: usize = 0;
        assert(ts.take(0) =~= Seq::empty());
        while k < toks.len()
            invariant
                k <= toks@.len(),
                self.wf(),
                text::pieces(toks@) == ts,
                ts == game::path_tokens(line@),
                path@ == prefix(ts, k as int),
                self.rows_along(ts, seat@, k as int) is Some,
                out@.len() == (self.rows_along(ts, seat@, k as int)->0).len(),
                forall|i: int|
                    0 <= i < out@.len() ==> (#[trigger] out@[i])@ == (self.rows_along(
                        ts,
                        seat@,
                        k as int,
                    )->0)[i] && out@[i]@.len() == 169,
            decreases toks@.len() - k,
        {
            assert(ts[k as int] == toks@[k as int]@);
            let node = match self.node(path.as_str()) {
                Some(n) => n,
                None => {
                    proof {
                        self.lemma_rows_stay_none(ts, seat@, k + 1, ts.len() as int);
                    }
                    return None;
                },
            };
            if text::same_text(node.seat.as_str(), seat) {
                match node.action_with_token(toks[k].as_slice()) {
                    Some(ai) => {
                        proof {
                            let i = node.token_place(ts[k as int]);
                            assert(node.first_with_token(ts[k as int], i));
                            assert(i == ai) by {
                                if i < ai {
                                    assert(token_of_label(node.actions@[i]@) != ts[k as int]);
                                }
                                if ai < i {
                                    assert(token_of_label(node.actions@[ai as int]@)
                                        != ts[k as int]);
                                }
                            }
                            assert(!node.no_token(ts[k as int])) by {
                                assert(token_of_label(node.actions@[ai as int]@) == ts[k as int]);
                            }
                        }
                        out.push(tree::copy_row(&node.freqs[ai]));
                    },
                    None => {
                        proof {
                            self.lemma_rows_stay_none(ts, seat@, k + 1, ts.len() as int);
                        }
                        return None;
                    },
                }
            }
            proof {
                lemma_prefix_step(ts, k as int);
            }
            extend_path(&mut path, toks[k].as_slice(), k == 0);
            k = k + 1;
        }
        Some(out)
    }

    /// The rows for the seat to act at `path`; `None` where no node is stored
    /// there.
    pub fn class_reach(&self, path: &str) -> (r: Option<Vec<Vec<F32>>>)
        requires
            self.wf(),
        ensures
            !self.stored(path@) ==> r is None,
            self.stored(path@) ==> r is Some == self.reach_rows(path@, self.at(path@).seat@) is Some,
            r matches Some(v) ==> rows_are(v@, self.reach_rows(path@, self.at(path@).seat@)->0)
                && forall|i: int| 0 <= i < v@.len() ==> (#[trigger] v@[i])@.len() == 169,
    {
        match self.node(path) {
            Some(n) => self.seat_reach(path, n.seat.as_str()),
            None => None,
        }
    }

    /// Every node along the first `k` tokens is stored.
    pub open spec fn unbroken(&self, toks: Seq<Seq<char>>, k: int) -> bool {
        forall|i: int| 0 <= i < k ==> self.stored(#[trigger] prefix(toks, i))
    }

    /// The seats that act along the first `k` tokens, each once, in the order in
    /// which they first act.
    pub open spec fn actors_along(&self, toks: Seq<Seq<char>>, k: int) -> Seq<Seq<char>>
        decreases k,
    {
        if k <= 0 {
            Seq::empty()
        } else {
            let s = self.actors_along(toks, k - 1);
            let seat = self.at(prefix(toks, k - 1)).seat@;
            if s.contains(seat) {
                s
            } else {
                s.push(seat)
            }
        }
    }

    /// The seats that act along a line; `None` where a node on the way is
    /// missing.
    pub fn line_seats(&self, line: &str) -> (r: Option<Vec<String>>)
        requires
            self.wf(),
        ensures
            ({
                let toks = game::path_tokens(line@);
                &&& r is Some == self.unbroken(toks, toks.len() as int)
                &&& r matches Some(v) ==> text::texts(v@) == self.actors_along(
                    toks,
                    toks.len() as int,
                )
            }),
    {
        let toks = tokens_of(line);
        let ghost ts = game::path_tokens(line@);
        let mut out: Vec<String> = Vec::new();
        let mut path = String::new();
        let mut k: usize = 0;
        assert(ts.take(0) =~= Seq::empty());
        assert(text::texts(out@) =~= Seq::empty());
        while k < toks.len()
            invariant
                k <= toks@.len(),
                self.wf(),
                text::pieces(toks@) == ts,
                ts == game::path_tokens(line@),
                path@ == prefix(ts, k as int),
                self.unbroken(ts, k as int),
                text::texts(out@) == self.actors_along(ts, k as int),
            decreases toks@.len() - k,
        {
            assert(ts[k as int] == toks@[k as int]@);
            let node = match self.node(path.as_str()) {
                Some(n) => n,
                None => {
                    assert(!self.stored(prefix(ts, k as int)));
                    return None;
                },
            };
            if tree::position_of(&out, node.seat.as_str()).is_none() {
                let ghost before = out@;
                out.push(node.seat.clone());
                assert(text::texts(out@) =~= text::texts(before).push(node.seat@));
            }
            proof {
                lemma_prefix_step(ts, k as int);
            }
            extend_path(&mut path, toks[k].as_slice(), k == 0);
            k = k + 1;
        }
        Some(out)
    }

    /// The rows of every seat that acts along `line`, in the order in which they
    /// first act: how often the line is played is the product of what the seats
    /// contribute. `None` where a node on the way is missing.
    pub fn line_mass(&self, line: &str) -> (r: Option<Vec<Vec<Vec<F32>>>>)
        requires
            self.wf(),
        ensures
            ({
                let toks = game::path_tokens(line@);
                let n = toks.len() as int;
                let seats = self.actors_along(toks, n);
                &&& r is Some == (self.unbroken(toks, n) && forall|i: int|
                    0 <= i < seats.len() ==> self.rows_along(toks, #[trigger] seats[i], n) is Some)
                &&& r matches Some(v) ==> v@.len() == seats.len() && forall|i: int|
                    0 <= i < v@.len() ==> rows_are(
                        (#[trigger] v@[i])@,
                        self.rows_along(toks, seats[i], n)->0,
                    )
            }),
    {
        let seats = match self.line_seats(line) {
            Some(s) => s,
            None => {
                return None;
            },
        };
        let ghost toks = game::path_tokens(line@);
        let ghost n = toks.len() as int;
        let ghost names = self.actors_along(toks, n);
        let mut out: Vec<Vec<Vec<F32>>> = Vec::new();
        let mut i: usize = 0;
        while i < seats.len()
            invariant
                i <= seats@.len(),
                self.wf(),
                toks == game::path_tokens(line@),
                n == toks.len(),
                names == self.actors_along(toks, n),
                text::texts(seats@) == names,
                out@.len() == i,
                forall|k: int|
                    0 <= k < i ==> self.rows_along(toks, #[trigger] names[k], n) is Some,
                forall|k: int|
                    0 <= k < i ==> rows_are(
                        (#[trigger] out@[k])@,
                        self.rows_along(toks, names[k], n)->0,
                    ),
            decreases seats@.len() - i,
        {
            assert(names[i as int] == seats@[i as int]@);
            match self.seat_reach(line, seats[i].as_str()) {
                Some(rows) => {
                    out.push(rows);
                },
                None => {
                    return None;
                },
            }
            i = i + 1;
        }
        Some(out)
    }

    // ------------------------------------------------------------ flops

    /// The seats that fold along the first `k` tokens.
    pub open spec fn folders_along(&self, toks: Seq<Seq<char>>, k: int) -> Set<Seq<char>>
        decreases k,
    {
        if k <= 0 {
            Set::empty()
        } else {
            let s = self.folders_along(toks, k - 1);
            if toks[k - 1] == "f"@ {
                s.insert(self.at(prefix(toks, k - 1)).seat@)
            } else {
                s
            }
        }
    }

    /// The seats that are left after a line.
    pub open spec fn survivors(&self, seats: Seq<Seq<char>>, toks: Seq<Seq<char>>) -> Seq<
        Seq<char>,
    > {
        let out = self.folders_along(toks, toks.len() as int);
        seats.filter(|s: Seq<char>| !out.contains(s))
    }

    /// The two seats that see the flop after a line, out of position first.
    pub open spec fn flop_pair(&self, line: Seq<char>) -> Option<(Seq<char>, Seq<char>)> {
        let toks = game::path_tokens(line);
        if self.header.config.seats is None || !self.unbroken(toks, toks.len() as int) {
            None
        } else {
            let seats = text::texts((self.header.config.seats->0)@);
            let left = self.survivors(seats, toks);
            let button = if seats.contains("BTN"@) {
                "BTN"@
            } else {
                "SB"@
            };
            if left.len() != 2 || !seats.contains(button) {
                None
            } else {
                let b = first_of(seats, button);
                if turn_order(seats, b, left[0]) <= turn_order(seats, b, left[1]) {
                    Some((left[0], left[1]))
                } else {
                    Some((left[1], left[0]))
                }
            }
        }
    }

    /// The two seats that see the flop after `line`, as (out of position, in
    /// position): the seat after the button acts first and the button last.
    /// `None` unless exactly two seats are left.
    pub fn flop_seats(&self, line: &str) -> (r: Option<(String, String)>)
        requires
            self.wf(),
        ensures
            r is Some == self.flop_pair(line@) is Some,
            r matches Some((a, b)) ==> self.flop_pair(line@) == Some((a@, b@)),
    {
        let seats = match &self.header.config.seats {
            Some(s) => s,
            None => {
                return None;
            },
        };
        let ghost names = text::texts(seats@);
        let toks = tokens_of(line);
        let ghost ts = game::path_tokens(line@);
        let mut folded: Vec<String> = Vec::new();
        let mut path = String::new();
        let mut k: usize = 0;
        assert(ts.take(0) =~= Seq::empty());
        while k < toks.len()
            invariant
                k <= toks@.len(),
                self.wf(),
                text::pieces(toks@) == ts,
                ts == game::path_tokens(line@),
                path@ == prefix(ts, k as int),
                self.unbroken(ts, k as int),
                forall|s: Seq<char>|
                    text::texts(folded@).contains(s) <==> #[trigger] self.folders_along(
                        ts,
                        k as int,
                    ).contains(s),
            decreases toks@.len() - k,
        {
            assert(ts[k as int] == toks@[k as int]@);
            let node = match self.node(path.as_str()) {
                Some(n) => n,
                None => {
                    assert(!self.stored(prefix(ts, k as int)));
                    assert(self.flop_pair(line@) is None);
                    return None;
                },
            };
            let f = text::chars_of("f");
            let ghost before = text::texts(folded@);
            if text::same_chars(toks[k].as_slice(), f.as_slice()) {
                folded.push(node.seat.clone());
                proof {
                    let now = text::texts(folded@);
                    assert(now =~= before.push(node.seat@));
                    assert forall|s: Seq<char>|
                        now.contains(s) <==> #[trigger] self.folders_along(
                            ts,
                            k + 1,
                        ).contains(s) by {
                        lemma_push_contains(before, node.seat@, s);
                        assert(before.contains(s) <==> self.folders_along(ts, k as int).contains(s));
                    }
                }
            } else {
                proof {
                    assert forall|s: Seq<char>|
                        before.contains(s) <==> #[trigger] self.folders_along(
                            ts,
                            k + 1,
                        ).contains(s) by {
                        assert(before.contains(s) <==> self.folders_along(ts, k as int).contains(s));
                    }
                }
            }
            proof {
                lemma_prefix_step(ts, k as int);
            }
            extend_path(&mut path, toks[k].as_slice(), k == 0);
            k = k + 1;
        }
        let ghost out = self.folders_along(ts, ts.len() as int);
        let ghost keep = |s: Seq<char>| !out.contains(s);
        let mut left: Vec<String> = Vec::new();
        let mut i: usize = 0;
        proof {
            reveal(Seq::filter);
            assert(text::texts(left@) =~= names.take(0).filter(keep));
        }
        while i < seats.len()
            invariant
                i <= seats@.len(),
                names == text::texts(seats@),
                keep == (|s: Seq<char>| !out.contains(s)),
                forall|s: Seq<char>|
                    text::texts(folded@).contains(s) <==> #[trigger] out.contains(s),
                text::texts(left@) == names.take(i as int).filter(keep),
            decreases seats@.len() - i,
        {
            proof {
                reveal(Seq::filter);
                assert(names.take(i + 1).drop_last() =~= names.take(i as int));
                assert(names[i as int] == seats@[i as int]@);
                assert(text::texts(folded@).contains(names[i as int]) <==> out.contains(
                    names[i as int],
                ));
            }
            let at = tree::position_of(&folded, seats[i].as_str());
            if at.is_none() {
                let ghost before = left@;
                left.push(seats[i].clone());
                assert(text::texts(left@) =~= text::texts(before).push(names[i as int]));
            } else {
                assert(text::texts(folded@).contains(names[i as int])) by {
                    let p = at->0;
                    assert(text::texts(folded@)[p as int] == names[i as int]);
                }
            }
            i = i + 1;
        }
        proof {
            assert(names.take(i as int) =~= names);
            assert(text::texts(left@) == self.survivors(names, ts));
        }
        if left.len() != 2 {
            assert(text::texts(left@).len() != 2);
            return None;
        }
        let btn = match tree::position_of(seats, "BTN") {
            Some(b) => {
                assert(names.contains(names[b as int]));
                Some(b)
            },
            None => tree::position_of(seats, "SB"),
        };
        match btn {
            Some(b) => {
                proof {
                    let button = if names.contains("BTN"@) {
                        "BTN"@
                    } else {
                        "SB"@
                    };
                    assert(names[b as int] == button);
                    assert(names.contains(button));
                    lemma_first_from(names, button, 0, b as int);
                }
                let x: usize = order_after_button(seats, b, left[0].as_str());
                let y: usize = order_after_button(seats, b, left[1].as_str());
                assert(text::texts(left@)[0] == left@[0]@ && text::texts(left@)[1] == left@[1]@);
                if x <= y {
                    Some((left[0].clone(), left[1].clone()))
                } else {
                    Some((left[1].clone(), left[0].clone()))
                }
            },
            None => None,
        }
    }

    /// The pot of a line that closes to a flop: no decision follows it and, but
    /// for folds at its end, a check or a call closes it. A call of an all-in ends
    /// the hand and closes to no flop.
    pub open spec fn closing_pot(&self, line: Seq<char>) -> Option<FlopPot> {
        let closed = without_folds(line);
        let (parent, last) = last_cut(closed, closed.len() as int);
        if self.stored(line) || !self.stored(parent) {
            None
        } else if last == "x"@ {
            Some(FlopPot::Pot(self.at(parent).pot_bb))
        } else if last == "c"@ && !game::path_tokens(parent).contains("ai"@) {
            Some(FlopPot::PotAndCall(self.at(parent).pot_bb, self.at(parent).to_call_bb))
        } else {
            None
        }
    }

    /// The pot of a line that closes to a flop: the pot of the last decision where
    /// it was checked through, with the amount to call where a raise was called.
    /// `None` where a decision still follows, or the line ends the hand by a fold or
    /// an all-in. Folds at the end of the line only give up chips that are in the
    /// pot already.
    pub fn flop_pot_bb(&self, line: &str) -> (r: Option<FlopPot>)
        requires
            self.wf(),
        ensures
            r == self.closing_pot(line@),
    {
        if self.nodes.has_key(line) {
            return None;
        }
        let cs = text::chars_of(line);
        let mut n: usize = cs.len();
        assert(cs@.take(n as int) =~= cs@);
        while n >= 2 && cs[n - 2] == '-' && cs[n - 1] == 'f'
            invariant
                n <= cs@.len(),
                without_folds(cs@) == without_folds(cs@.take(n as int)),
            decreases n,
        {
            assert(cs@.take(n as int).take(n - 2) =~= cs@.take(n - 2));
            n = n - 2;
        }
        let closed = text::part(cs.as_slice(), 0, n);
        assert(closed@ =~= cs@.take(n as int));
        assert(closed@ == without_folds(line@));
        let mut m: usize = n;
        while m > 0 && closed[m - 1] != '-'
            invariant
                m <= closed@.len(),
                last_cut(closed@, closed@.len() as int) == last_cut(closed@, m as int),
            decreases m,
        {
            m = m - 1;
        }
        let (parent, last) = if m == 0 {
            let p: Vec<char> = Vec::new();
            assert(p@ =~= Seq::empty());
            let l = text::part(closed.as_slice(), 0, n);
            assert(l@ =~= closed@);
            (p, l)
        } else {
            let p = text::part(closed.as_slice(), 0, m - 1);
            let l = text::part(closed.as_slice(), m, n);
            assert(p@ =~= closed@.take(m - 1));
            assert(l@ =~= closed@.skip(m as int));
            (p, l)
        };
        let pt = text::string_of(parent.as_slice());
        match self.node(pt.as_str()) {
            Some(node) => {
                let lt = text::string_of(last.as_slice());
                if text::same_text(lt.as_str(), "x") {
                    Some(FlopPot::Pot(node.pot_bb))
                } else if text::same_text(lt.as_str(), "c") && !goes_all_in(pt.as_str()) {
                    Some(FlopPot::PotAndCall(node.pot_bb, node.to_call_bb))
                } else {
                    None
                }
            },
            None => None,
        }
    }
}

/// `v` holds these rows.
pub open spec fn rows_are(v: Seq<Vec<F32>>, rows: Seq<Seq<F32>>) -> bool {
    &&& v.len() == rows.len()
    &&& forall|i: int| 0 <= i < rows.len() ==> (#[trigger] v[i])@ == rows[i]
}

/// The first place of `x` from `i` on, the length where there is none.
pub open spec fn first_from(s: Seq<Seq<char>>, x: Seq<char>, i: int) -> int
    decreases s.len() - i,
{
    if i >= s.len() {
        s.len() as int
    } else if s[i] == x {
        i
    } else {
        first_from(s, x, i + 1)
    }
}

/// The first place of `x`.
pub open spec fn first_of(s: Seq<Seq<char>>, x: Seq<char>) -> int {
    first_from(s, x, 0)
}

/// When a seat acts, counted from the seat after the button, which acts last.
pub open spec fn turn_order(seats: Seq<Seq<char>>, button: int, s: Seq<char>) -> int {
    first_of(seats.skip(button + 1) + seats.take(button + 1), s)
}

proof fn lemma_first_from(s: Seq<Seq<char>>, x: Seq<char>, i: int, at: int)
    requires
        0 <= i <= at < s.len(),
        s[at] == x,
        forall|k: int| i <= k < at ==> s[k] != x,
    ensures
        first_from(s, x, i) == at,
    decreases at - i,
{
    if i < at {
        lemma_first_from(s, x, i + 1, at);
    }
}

/// When a seat acts after the flop.
fn order_after_button(seats: &Vec<String>, button: usize, seat: &str) -> (r: usize)
    requires
        button < seats@.len(),
    ensures
        r == turn_order(text::texts(seats@), button as int, seat@),
{
    let n: usize = seats.len();
    let ghost names = text::texts(seats@);
    let ghost turned = names.skip(button + 1) + names.take(button + 1);
    let mut i: usize = 0;
    while i < n
        invariant
            i <= n,
            n == seats@.len(),
            button < n,
            names == text::texts(seats@),
            turned == names.skip(button + 1) + names.take(button + 1),
            first_of(turned, seat@) == first_from(turned, seat@, i as int),
        decreases n - i,
    {
        let j: usize = if i < n - button - 1 {
            button + 1 + i
        } else {
            i - (n - button - 1)
        };
        proof {
            assert(turned[i as int] == names[j as int]);
            assert(names[j as int] == seats@[j as int]@);
        }
        if text::same_text(seats[j].as_str(), seat) {
            return i;
        }
        i = i + 1;
    }
    n
}

proof fn lemma_push_contains(s: Seq<Seq<char>>, x: Seq<char>, y: Seq<char>)
    ensures
        s.push(x).contains(y) <==> s.contains(y) || x == y,
{
    if s.contains(y) {
        let i = choose|i: int| 0 <= i < s.len() && s[i] == y;
        assert(s.push(x)[i] == y);
    }
    if x == y {
        assert(s.push(x)[s.len() as int] == y);
    }
    if s.push(x).contains(y) {
        let i = choose|i: int| 0 <= i < s.push(x).len() && s.push(x)[i] == y;
        if i < s.len() {
            assert(s[i] == y);
        }
    }
}

/// The amounts that a line raises to, as they are written: what follows the `r`
/// of each token that starts with one.
pub open spec fn raised_to(line: Seq<char>) -> Seq<Seq<char>> {
    text::split(line, '-').filter(|t: Seq<char>| t.len() > 0 && t[0] == 'r').map_values(
        |t: Seq<char>| t.skip(1),
    )
}

/// The amounts that a line raises to. Each live player commits the largest of
/// them, at least the big blind, and the ante.
pub fn line_commitment(line: &str) -> (r: Vec<String>)
    ensures
        text::texts(r@) == raised_to(line@),
{
    let cs = text::chars_of(line);
    let all = text::split_at_char(cs.as_slice(), '-');
    let ghost s = text::split(line@, '-');
    let ghost keep = |t: Seq<char>| t.len() > 0 && t[0] == 'r';
    let ghost cut = |t: Seq<char>| t.skip(1);
    let mut out: Vec<String> = Vec::new();
    let mut i: usize = 0;
    proof {
        reveal(Seq::filter);
        assert(text::texts(out@) =~= s.take(0).filter(keep).map_values(cut));
    }
    while i < all.len()
        invariant
            i <= all@.len(),
            text::pieces(all@) == s,
            keep == (|t: Seq<char>| t.len() > 0 && t[0] == 'r'),
            cut == (|t: Seq<char>| t.skip(1)),
            text::texts(out@) == s.take(i as int).filter(keep).map_values(cut),
        decreases all@.len() - i,
    {
        proof {
            reveal(Seq::filter);
            assert(s.take(i + 1).drop_last() =~= s.take(i as int));
            assert(s[i as int] == all@[i as int]@);
        }
        if all[i].len() > 0 && all[i][0] == 'r' {
            let ghost before = out@;
            let p = text::part(all[i].as_slice(), 1, all[i].len());
            assert(p@ =~= s[i as int].skip(1));
            out.push(text::string_of(p.as_slice()));
            proof {
                let f = s.take(i as int).filter(keep);
                assert(s.take(i + 1).filter(keep) == f.push(s[i as int]));
                assert(f.push(s[i as int]).map_values(cut) =~= f.map_values(cut).push(
                    s[i as int].skip(1),
                ));
                assert(text::texts(out@) =~= text::texts(before).push(s[i as int].skip(1)));
            }
        }
        i = i + 1;
    }
    assert(s.take(i as int) =~= s);
    out
}

// ---------------------------------------------------------------- flop lines

/// The length of the longest key.
pub open spec fn longest(keys: Seq<Seq<char>>) -> int
    decreases keys.len(),
{
    if keys.len() == 0 {
        0
    } else {
        let m = longest(keys.drop_last());
        if keys.last().len() > m {
            keys.last().len() as int
        } else {
            m
        }
    }
}

pub(crate) proof fn lemma_longest(keys: Seq<Seq<char>>, k: Seq<char>)
    requires
        keys.contains(k),
    ensures
        k.len() <= longest(keys),
    decreases keys.len(),
{
    let i = choose|i: int| 0 <= i < keys.len() && keys[i] == k;
    if i < keys.len() - 1 {
        assert(keys.drop_last()[i] == k);
        lemma_longest(keys.drop_last(), k);
    }
}

/// A line that closes to a flop, and its pot.
pub struct ClosingLine {
    pub line: Seq<char>,
    pub pot: FlopPot,
}

/// The lines that close to a flop below the node at `path`.
pub open spec fn closings_below(c: PreflopCharts, path: Seq<char>) -> Seq<ClosingLine>
    decreases longest(text::texts(c.nodes.keys@)) + 1 - path.len(), 1int, 0nat,
    when path.len() <= longest(text::texts(c.nodes.keys@)) + 1
{
    if !c.stored(path) {
        Seq::empty()
    } else {
        closings_of(c, path, c.at(path).actions@.len())
    }
}

/// Those below the first `k` actions of the node at `path`: the line itself
/// where no node is stored and it closes, what is below it where one is.
/// All-ins are left out.
pub open spec fn closings_of(c: PreflopCharts, path: Seq<char>, k: nat) -> Seq<ClosingLine>
    decreases longest(text::texts(c.nodes.keys@)) + 1 - path.len(), 0int, k,
    when path.len() <= longest(text::texts(c.nodes.keys@)) + 1
    via closings_of_ends
{
    if k == 0 {
        Seq::empty()
    } else {
        let before = closings_of(c, path, (k - 1) as nat);
        let tok = token_of_label(c.at(path).actions@[k - 1]@);
        let child = longer(path, tok);
        if tok == "ai"@ {
            before
        } else if c.stored(child) {
            before + closings_below(c, child)
        } else {
            match c.closing_pot(child) {
                Some(pot) => before.push(ClosingLine { line: child, pot }),
                None => before,
            }
        }
    }
}

#[via_fn]
proof fn closings_of_ends(c: PreflopCharts, path: Seq<char>, k: nat) {
    if k > 0 {
        let tok = token_of_label(c.at(path).actions@[k - 1]@);
        let child = longer(path, tok);
        lemma_token_not_empty(c.at(path).actions@[k - 1]@);
        lemma_longer(path, tok);
        if c.stored(child) {
            lemma_longest(text::texts(c.nodes.keys@), child);
        }
    }
}

pub(crate) proof fn lemma_longer(path: Seq<char>, tok: Seq<char>)
    requires
        tok.len() > 0,
    ensures
        longer(path, tok).len() > path.len(),
{
    reveal_strlit("-");
}

/// `out` shows these lines.
pub open spec fn lists_closings(out: Seq<(String, FlopPot)>, s: Seq<ClosingLine>) -> bool {
    &&& out.len() == s.len()
    &&& forall|i: int|
        0 <= i < s.len() ==> (#[trigger] out[i]).0@ == s[i].line && out[i].1 == s[i].pot
}

/// The lines that close to a flop and leave exactly two seats.
pub open spec fn two_player_closings(c: PreflopCharts) -> Seq<ClosingLine> {
    closings_below(c, Seq::empty()).filter(|l: ClosingLine| c.flop_pair(l.line) is Some)
}

/// Closing lines in ascending order of their texts.
pub open spec fn closings_in_order(s: Seq<ClosingLine>) -> Seq<ClosingLine> {
    order::in_order(s, order::order_of(s.map_values(|l: ClosingLine| order::text_key(l.line))))
}

impl PreflopCharts {
    fn collect_flop_lines(
        &self,
        path: &str,
        out: &mut Vec<(String, FlopPot)>,
        Ghost(have): Ghost<Seq<ClosingLine>>,
    )
        requires
            self.wf(),
            path@.len() <= longest(text::texts(self.nodes.keys@)) + 1,
            lists_closings(old(out)@, have),
        ensures
            lists_closings(final(out)@, have + closings_below(*self, path@)),
        decreases longest(text::texts(self.nodes.keys@)) + 1 - path@.len(),
    {
        let node = match self.node(path) {
            Some(n) => n,
            None => {
                assert(have + Seq::<ClosingLine>::empty() =~= have);
                return;
            },
        };
        let ghost top = longest(text::texts(self.nodes.keys@));
        proof {
            lemma_longest(text::texts(self.nodes.keys@), path@);
            assert(have + closings_of(*self, path@, 0) =~= have);
        }
        let mut k: usize = 0;
        while k < node.actions.len()
            invariant
                k <= node.actions@.len(),
                self.wf(),
                self.stored(path@),
                *node == self.at(path@),
                top == longest(text::texts(self.nodes.keys@)),
                path@.len() <= top,
                lists_closings(out@, have + closings_of(*self, path@, k as nat)),
            decreases node.actions@.len() - k,
        {
            let tok = label_token(node.actions[k].as_str());
            proof {
                lemma_token_not_empty(node.actions@[k as int]@);
                lemma_longer(path@, tok@);
            }
            let ghost before = closings_of(*self, path@, k as nat);
            if !text::same_text(tok.as_str(), "ai") {
                let child = if path.is_empty() {
                    tok
                } else {
                    text::join3(path, "-", tok.as_str())
                };
                assert(child@ == longer(path@, token_of_label(node.actions@[k as int]@)));
                if self.nodes.has_key(child.as_str()) {
                    proof {
                        lemma_longest(text::texts(self.nodes.keys@), child@);
                    }
                    self.collect_flop_lines(child.as_str(), out, Ghost(have + before));
                    assert(have + before + closings_below(*self, child@) =~= have + (before
                        + closings_below(*self, child@)));
                } else {
                    match self.flop_pot_bb(child.as_str()) {
                        Some(pot) => {
                            let ghost line = child@;
                            out.push((child, pot));
                            assert((have + before).push(ClosingLine { line, pot }) =~= have
                                + before.push(ClosingLine { line, pot }));
                        },
                        None => {},
                    }
                }
            }
            k = k + 1;
        }
    }

    /// Every line that closes to a flop with two players left, and its pot,
    /// sorted by line.
    pub fn flop_lines(&self) -> (r: Vec<(String, FlopPot)>)
        requires
            self.wf(),
        ensures
            lists_closings(r@, closings_in_order(two_player_closings(*self))),
    {
        let mut all: Vec<(String, FlopPot)> = Vec::new();
        proof {
            reveal_strlit("");
            assert(""@ =~= Seq::<char>::empty());
            lemma_longest_nonneg(text::texts(self.nodes.keys@));
        }
        self.collect_flop_lines("", &mut all, Ghost(Seq::empty()));
        let ghost found = closings_below(*self, Seq::empty());
        let ghost keep = |l: ClosingLine| self.flop_pair(l.line) is Some;
        proof {
            assert(Seq::<ClosingLine>::empty() + found =~= found);
        }
        let mut two: Vec<(String, FlopPot)> = Vec::new();
        let mut keys: Vec<Vec<u32>> = Vec::new();
        let mut i: usize = 0;
        proof {
            reveal(Seq::filter);
            assert(found.take(0).filter(keep) =~= Seq::empty());
        }
        while i < all.len()
            invariant
                i <= all@.len(),
                self.wf(),
                lists_closings(all@, found),
                keep == (|l: ClosingLine| self.flop_pair(l.line) is Some),
                lists_closings(two@, found.take(i as int).filter(keep)),
                keys@.len() == two@.len(),
                forall|k: int|
                    0 <= k < keys@.len() ==> (#[trigger] keys@[k])@ == order::text_key(two@[k].0@),
            decreases all@.len() - i,
        {
            proof {
                reveal(Seq::filter);
                assert(found.take(i + 1).drop_last() =~= found.take(i as int));
                assert(all@[i as int].0@ == found[i as int].line);
            }
            if self.flop_seats(all[i].0.as_str()).is_some() {
                let line = all[i].0.clone();
                keys.push(order::key_of_text(line.as_str()));
                two.push((line, all[i].1));
            }
            i = i + 1;
        }
        let ghost kept = found.filter(keep);
        let idx = order::sorted_positions(&keys);
        proof {
            assert(found.take(i as int) =~= found);
            assert(kept =~= two_player_closings(*self));
            assert(order::keys_of(keys@) =~= kept.map_values(
                |l: ClosingLine| order::text_key(l.line),
            ));
            order::lemma_order_of(order::keys_of(keys@), idx@);
        }
        let mut out: Vec<(String, FlopPot)> = Vec::new();
        let mut j: usize = 0;
        while j < idx.len()
            invariant
                j <= idx@.len(),
                lists_closings(two@, kept),
                idx@.len() == two@.len(),
                forall|k: int| 0 <= k < idx@.len() ==> (#[trigger] idx@[k]) < two@.len(),
                out@.len() == j,
                forall|k: int|
                    0 <= k < j ==> (#[trigger] out@[k]).0@ == kept[idx@[k] as int].line && out@[k].1
                        == kept[idx@[k] as int].pot,
            decreases idx@.len() - j,
        {
            let p: usize = idx[j];
            assert(two@[p as int].0@ == kept[p as int].line);
            out.push((two[p].0.clone(), two[p].1));
            j = j + 1;
        }
        out
    }
}

pub(crate) proof fn lemma_longest_nonneg(keys: Seq<Seq<char>>)
    ensures
        longest(keys) >= 0,
    decreases keys.len(),
{
    if keys.len() > 0 {
        lemma_longest_nonneg(keys.drop_last());
    }
}

// ---------------------------------------------------------------- villain combos

/// The weight counts: it is not zero or below.
pub open spec fn counts(w: F32) -> bool {
    w.nan() || w.rank() > 0
}

/// The holdings of the first `n` classes that have weight and share no card with
/// the hero or the board, each with the weight of its class.
pub open spec fn weighted_holdings(
    hero: [Card; 2],
    board: Seq<Card>,
    reach: Seq<F32>,
    n: int,
) -> Seq<([Card; 2], F32)>
    decreases n,
{
    if n <= 0 {
        Seq::empty()
    } else {
        let before = weighted_holdings(hero, board, reach, n - 1);
        if counts(reach[n - 1]) {
            before + eval::live_hands(class_holdings(n - 1), hero, board).map_values(
                |h: [Card; 2]| (h, reach[n - 1]),
            )
        } else {
            before
        }
    }
}

/// The villain's possible holdings under a reach per class, each with its
/// weight: what a weighted draw picks from.
pub fn reach_combos(hero: [Card; 2], board: &[Card], reach: &Vec<F32>) -> (r: Vec<
    ([Card; 2], F32),
>)
    ensures
        r@ == weighted_holdings(
            hero,
            board@,
            reach@,
            if reach@.len() < 169 {
                reach@.len() as int
            } else {
                169
            },
        ),
{
    let n: usize = if reach.len() < CLASSES {
        reach.len()
    } else {
        CLASSES
    };
    let mut out: Vec<([Card; 2], F32)> = Vec::new();
    let mut i: usize = 0;
    while i < n
        invariant
            i <= n <= 169,
            n <= reach@.len(),
            out@ == weighted_holdings(hero, board@, reach@, i as int),
        decreases n - i,
    {
        let w = reach[i];
        if w.is_nan() || F32::from_bits(0).lt(w) {
            let hands = class_combos_cards(i);
            let ghost before = out@;
            let ghost hs = class_holdings(i as int);
            let ghost tag = |h: [Card; 2]| (h, reach@[i as int]);
            let mut j: usize = 0;
            proof {
                reveal(Seq::filter);
                assert(eval::live_hands(hs.take(0), hero, board@) =~= Seq::empty());
                assert(before + eval::live_hands(hs.take(0), hero, board@).map_values(tag)
                    =~= before);
            }
            while j < hands.len()
                invariant
                    j <= hands@.len(),
                    hands@ == hs,
                    i < reach@.len(),
                    w == reach@[i as int],
                    tag == (|h: [Card; 2]| (h, reach@[i as int])),
                    out@ == before + eval::live_hands(hs.take(j as int), hero, board@).map_values(
                        tag,
                    ),
                decreases hands@.len() - j,
            {
                proof {
                    reveal(Seq::filter);
                    assert(hs.take(j + 1).drop_last() =~= hs.take(j as int));
                }
                let h = hands[j];
                let ghost live = eval::live_hands(hs.take(j as int), hero, board@);
                if !eval::is_blocked(h, hero, board) {
                    out.push((h, w));
                    proof {
                        assert(eval::live_hands(hs.take(j + 1), hero, board@) == live.push(h));
                        assert(live.push(h).map_values(tag) =~= live.map_values(tag).push((h, w)));
                        assert(before + live.push(h).map_values(tag) =~= (before + live.map_values(
                            tag,
                        )).push((h, w)));
                    }
                }
                j = j + 1;
            }
            assert(hs.take(j as int) =~= hs);
        }
        i = i + 1;
    }
    out
}

impl PreflopCharts {
    /// The starting stack of the ruleset.
    pub fn stack_bb(&self) -> (r: Option<F32>)
        ensures
            r == self.header.config.stack_bb,
    {
        self.header.config.stack_bb
    }

    /// The rake of the ruleset and its cap, zero where it names none.
    pub fn rake(&self) -> (r: (F32, F32))
        ensures
            r.0 == self.header.config.rake_rate.unwrap_or(F32 { bits: 0 }),
            r.1 == self.header.config.rake_cap_bb.unwrap_or(F32 { bits: 0 }),
    {
        (
            self.header.config.rake_rate.unwrap_or(F32 { bits: 0 }),
            self.header.config.rake_cap_bb.unwrap_or(F32 { bits: 0 }),
        )
    }
}

// ---------------------------------------------------------------- weighted ranges

/// The smallest part of the largest weight that a range keeps, 0.0001.
pub const LEAST_WEIGHT: u32 = 0x38d1_b717;

/// The largest of the first `n` weights, 0 where none is larger.
pub open spec fn largest_weight(reach: Seq<F32>, n: int) -> F32
    decreases n,
{
    if n <= 0 {
        F32 { bits: 0 }
    } else if largest_weight(reach, n - 1).below(reach[n - 1]) {
        reach[n - 1]
    } else {
        largest_weight(reach, n - 1)
    }
}

/// What the weights of a range are scaled by: the largest of them; `None` where
/// none is above 0.
pub fn range_scale(reach: &Vec<F32>) -> (r: Option<F32>)
    ensures
        ({
            let max = largest_weight(reach@, reach@.len() as int);
            r == if (F32 { bits: 0 }).below(max) {
                Some(max)
            } else {
                None::<F32>
            }
        }),
{
    let mut max = F32 { bits: 0 };
    let mut i: usize = 0;
    while i < reach.len()
        invariant
            i <= reach@.len(),
            max == largest_weight(reach@, i as int),
        decreases reach@.len() - i,
    {
        if max.lt(reach[i]) {
            max = reach[i];
        }
        i = i + 1;
    }
    let zero = F32 { bits: 0 };
    if zero.lt(max) {
        Some(max)
    } else {
        None
    }
}

/// The entries of the first `n` classes.
pub open spec fn range_entries(scaled: Seq<F32>, shown: Seq<Seq<char>>, n: int) -> Seq<Seq<char>>
    decreases n,
{
    if n <= 0 {
        Seq::empty()
    } else if scaled[n - 1].reaches(F32 { bits: LEAST_WEIGHT }) {
        range_entries(scaled, shown, n - 1).push(class_text(n - 1) + ":"@ + shown[n - 1])
    } else {
        range_entries(scaled, shown, n - 1)
    }
}

/// How many classes a list covers.
pub open spec fn class_count(n: int) -> int {
    if n < CLASSES {
        n
    } else {
        CLASSES as int
    }
}

/// A range such as `"AA:1.0000,AKs:0.5000"`: the classes whose part of the
/// largest weight is not lost, each with the text of that part.
pub fn weighted_range_string(scaled: &Vec<F32>, shown: &Vec<String>) -> (r: String)
    requires
        scaled@.len() == shown@.len(),
    ensures
        r@ == text::joined(
            range_entries(
                scaled@,
                text::texts(shown@),
                class_count(scaled@.len() as int),
            ),
            ","@,
        ),
{
    let mut out: Vec<String> = Vec::new();
    let least = F32 { bits: LEAST_WEIGHT };
    let mut i: usize = 0;
    assert(text::texts(out@) =~= Seq::empty());
    while i < CLASSES && i < scaled.len()
        invariant
            i <= class_count(scaled@.len() as int),
            least.bits == LEAST_WEIGHT,
            scaled@.len() == shown@.len(),
            text::texts(out@) == range_entries(scaled@, text::texts(shown@), i as int),
        decreases CLASSES - i,
    {
        assert(text::texts(shown@)[i as int] == shown@[i as int]@);
        if scaled[i].ge(least) {
            let ghost before = out@;
            let name = class_name(i);
            let s = text::join3(name.as_str(), ":", shown[i].as_str());
            out.push(s);
            assert(text::texts(out@) =~= text::texts(before).push(s@));
        }
        i = i + 1;
    }
    text::join_all(&out, ",")
}

/// Two cards are in one class in either order. The name of the class has the
/// higher rank, then the lower, then `s` where the cards share a suit and `o` where
/// they do not; a pair has only its ranks.
pub proof fn classes_are_named_by_ranks_and_suits(a: Card, b: Card)
    requires
        a.wf(),
        b.wf(),
    ensures
        class_of(a, b) == class_of(b, a),
        0 <= class_of(a, b) < 169,
        a.rank > b.rank ==> {
            let name = class_text(class_of(a, b));
            &&& name.len() == 3
            &&& name[0] == iso::rank_char(a.rank - 2)
            &&& name[1] == iso::rank_char(b.rank - 2)
            &&& name[2] == if a.suit == b.suit {
                's'
            } else {
                'o'
            }
        },
        a.rank == b.rank ==> class_text(class_of(a, b)) == seq![
            iso::rank_char(a.rank - 2),
            iso::rank_char(a.rank - 2),
        ],
{
    let (x, y) = (14 - a.rank, 14 - b.rank);
    let (hi, lo) = if x <= y {
        (x, y)
    } else {
        (y, x)
    };
    let i = class_of(a, b);
    if a.suit == b.suit {
        vstd::arithmetic::div_mod::lemma_fundamental_div_mod_converse(i, 13, hi, lo);
    } else {
        vstd::arithmetic::div_mod::lemma_fundamental_div_mod_converse(i, 13, lo, hi);
    }
}

/// The weights of a range are scaled by the largest of them: no weight is above
/// it, and it is one of them where any is above zero.
pub proof fn the_largest_weight_is_a_bound(reach: Seq<F32>, n: int)
    requires
        0 <= n <= reach.len(),
    ensures
        !largest_weight(reach, n).nan(),
        forall|i: int| 0 <= i < n ==> !largest_weight(reach, n).below(#[trigger] reach[i]),
        largest_weight(reach, n) != (F32 { bits: 0 }) ==> exists|i: int|
            0 <= i < n && #[trigger] reach[i] == largest_weight(reach, n),
        (exists|i: int| 0 <= i < n && (F32 { bits: 0 }).below(#[trigger] reach[i])) <==> (F32 {
            bits: 0,
        }).below(largest_weight(reach, n)),
    decreases n,
{
    if n > 0 {
        the_largest_weight_is_a_bound(reach, n - 1);
        let m = largest_weight(reach, n - 1);
        assert(reach[n - 1] == reach[n - 1]);
        if m != (F32 { bits: 0 }) {
            let i = choose|i: int| 0 <= i < n - 1 && #[trigger] reach[i] == m;
            assert(reach[i] == m);
        }
        assert forall|i: int| 0 <= i < n implies !largest_weight(reach, n).below(
            #[trigger] reach[i],
        ) by {
            if i < n - 1 {
                assert(!m.below(reach[i]));
            }
        }
    }
}

/// A holding can be the villain's exactly where its class has weight and none of
/// its cards is the hero's or on the board; it comes with the weight of its class.
pub proof fn unblocked_holdings_carry_their_weight(
    hero: [Card; 2],
    board: Seq<Card>,
    reach: Seq<F32>,
    n: int,
    h: [Card; 2],
    w: F32,
)
    requires
        0 <= n <= reach.len(),
    ensures
        weighted_holdings(hero, board, reach, n).contains((h, w)) <==> {
            &&& !hero@.contains(h[0]) && !hero@.contains(h[1])
            &&& !board.contains(h[0]) && !board.contains(h[1])
            &&& exists|c: int|
                0 <= c < n && counts(#[trigger] reach[c]) && w == reach[c] && class_holdings(
                    c,
                ).contains(h)
        },
    decreases n,
{
    let now = weighted_holdings(hero, board, reach, n);
    let free = !hero@.contains(h[0]) && !hero@.contains(h[1]) && !board.contains(h[0])
        && !board.contains(h[1]);
    assert(free == !eval::blocked(h, hero, board)) by {
        assert(h@[0] == h[0] && h@[1] == h[1]);
    }
    if n > 0 {
        unblocked_holdings_carry_their_weight(hero, board, reach, n - 1, h, w);
        let before = weighted_holdings(hero, board, reach, n - 1);
        if counts(reach[n - 1]) {
            let ok = |v: [Card; 2]| !eval::blocked(v, hero, board);
            let all = class_holdings(n - 1);
            let live = eval::live_hands(all, hero, board);
            let add = live.map_values(|v: [Card; 2]| (v, reach[n - 1]));
            assert(now == before + add);
            assert(add.contains((h, w)) <==> free && w == reach[n - 1] && all.contains(h)) by {
                if add.contains((h, w)) {
                    let i = add.index_of((h, w));
                    assert(live[i] == h);
                    all.lemma_filter_pred(ok, i);
                    all.lemma_filter_contains_rev(ok, h);
                }
                if free && w == reach[n - 1] && all.contains(h) {
                    let i = all.index_of(h);
                    all.lemma_filter_contains(ok, i);
                    let j = live.index_of(h);
                    assert(add[j] == (h, w));
                }
            }
            if now.contains((h, w)) {
                let i = now.index_of((h, w));
                if i < before.len() {
                    assert(before[i] == (h, w));
                } else {
                    assert(add[i - before.len()] == (h, w));
                }
            }
            if before.contains((h, w)) {
                let i = before.index_of((h, w));
                assert(now[i] == (h, w));
            }
            if add.contains((h, w)) {
                let i = add.index_of((h, w));
                assert(now[before.len() + i] == (h, w));
            }
        }
        if exists|c: int|
            0 <= c < n && counts(#[trigger] reach[c]) && w == reach[c] && class_holdings(
                c,
            ).contains(h) {
            let c = choose|c: int|
                0 <= c < n && counts(#[trigger] reach[c]) && w == reach[c] && class_holdings(
                    c,
                ).contains(h);
            if c < n - 1 {
                assert(counts(reach[c]));
            }
        }
    }
}

/// After the flop the seats act in turn from the one after the button, which is
/// last: a seat `d` places after the button is the `d`-th to act.
pub proof fn seats_act_from_the_button_on(seats: Seq<Seq<char>>, button: int, p: int)
    requires
        0 <= button < seats.len(),
        0 <= p < seats.len(),
        seats.no_duplicates(),
    ensures
        (button + 1 + turn_order(seats, button, seats[p])) % (seats.len() as int) == p,
        0 <= turn_order(seats, button, seats[p]) < seats.len(),
        turn_order(seats, button, seats[button]) == seats.len() - 1,
{
    let n = seats.len() as int;
    let turned = seats.skip(button + 1) + seats.take(button + 1);
    assert forall|i: int| 0 <= i < n implies #[trigger] turned[i] == seats[if i + button + 1 < n {
        i + button + 1
    } else {
        i + button + 1 - n
    }] by {}
    let d = if p > button {
        p - button - 1
    } else {
        p - button - 1 + n
    };
    assert(turned[d] == seats[p]);
    assert forall|k: int| 0 <= k < d implies #[trigger] turned[k] != seats[p] by {}
    the_first_is_found(turned, seats[p], 0, d);
    assert(turned[n - 1] == seats[button]);
    assert forall|k: int| 0 <= k < n - 1 implies #[trigger] turned[k] != seats[button] by {}
    the_first_is_found(turned, seats[button], 0, n - 1);
    if p > button {
        vstd::arithmetic::div_mod::lemma_fundamental_div_mod_converse(p, n, 0, p);
    } else {
        vstd::arithmetic::div_mod::lemma_fundamental_div_mod_converse(p + n, n, 1, p);
    }
}

/// The first place of a text in a list is found.
pub proof fn the_first_is_found(s: Seq<Seq<char>>, x: Seq<char>, i: int, k: int)
    requires
        0 <= i <= k < s.len(),
        s[k] == x,
        forall|j: int| i <= j < k ==> #[trigger] s[j] != x,
    ensures
        first_from(s, x, i) == k,
    decreases k - i,
{
    if i < k {
        the_first_is_found(s, x, i + 1, k);
    }
}

/// A fold at the end of a line does not matter for what closes it, and a line that
/// does not end in one is kept.
pub proof fn folds_at_the_end_do_not_matter(s: Seq<char>)
    ensures
        without_folds(s + "-f"@) == without_folds(s),
        !text::ends(s, "-f"@) ==> without_folds(s) == s,
{
    reveal_strlit("-f");
    let t = s + "-f"@;
    assert(t[t.len() - 2] == '-' && t[t.len() - 1] == 'f');
    assert(t.take(t.len() - 2) =~= s);
    if s.len() >= 2 && s[s.len() - 2] == '-' && s[s.len() - 1] == 'f' {
        assert(s.skip(s.len() - 2) =~= "-f"@);
    }
}

proof fn lemma_last_cut(s: Seq<char>, n: int, k: int)
    requires
        0 <= k < n <= s.len(),
        s[k] == '-',
        forall|i: int| k < i < n ==> #[trigger] s[i] != '-',
    ensures
        last_cut(s, n) == (s.take(k), s.skip(k + 1)),
    decreases n,
{
    if n - 1 > k {
        lemma_last_cut(s, n - 1, k);
    }
}

proof fn lemma_no_cut(s: Seq<char>, n: int)
    requires
        0 <= n <= s.len(),
        forall|i: int| 0 <= i < n ==> #[trigger] s[i] != '-',
    ensures
        last_cut(s, n) == (Seq::<char>::empty(), s),
    decreases n,
{
    if n > 0 {
        lemma_no_cut(s, n - 1);
    }
}

/// A line one token longer is cut into the line and the token.
pub proof fn lines_are_cut_before_their_last_token(path: Seq<char>, tok: Seq<char>)
    requires
        !tok.contains('-'),
    ensures
        last_cut(longer(path, tok), longer(path, tok).len() as int) == (path, tok),
{
    reveal_strlit("-");
    let s = longer(path, tok);
    if path.len() == 0 {
        assert forall|i: int| 0 <= i < s.len() implies #[trigger] s[i] != '-' by {
            assert(tok.contains(tok[i]));
        }
        lemma_no_cut(s, s.len() as int);
        assert(path =~= Seq::empty());
    } else {
        let k = path.len() as int;
        assert(s[k] == '-');
        assert forall|i: int| k < i < s.len() implies #[trigger] s[i] != '-' by {
            assert(s[i] == tok[i - k - 1]);
            assert(tok.contains(tok[i - k - 1]));
        }
        lemma_last_cut(s, s.len() as int, k);
        assert(s.take(k) =~= path);
        assert(s.skip(k + 1) =~= tok);
    }
}

impl PreflopCharts {
    /// A check that no decision follows closes to a flop with the pot of the last
    /// decision; so does a call, unless it calls an all-in, with what is called
    /// added. A raise closes nothing.
    pub proof fn checks_and_calls_close_to_a_flop(&self, path: Seq<char>, tok: Seq<char>)
        requires
            self.stored(path),
            !self.stored(longer(path, tok)),
            !tok.contains('-'),
            tok != "f"@,
        ensures
            tok == "x"@ ==> self.closing_pot(longer(path, tok)) == Some(
                FlopPot::Pot(self.at(path).pot_bb),
            ),
            tok == "c"@ && !game::path_tokens(path).contains("ai"@) ==> self.closing_pot(
                longer(path, tok),
            ) == Some(FlopPot::PotAndCall(self.at(path).pot_bb, self.at(path).to_call_bb)),
            tok == "c"@ && game::path_tokens(path).contains("ai"@) ==> self.closing_pot(
                longer(path, tok),
            ) is None,
            tok != "x"@ && tok != "c"@ ==> self.closing_pot(longer(path, tok)) is None,
    {
        reveal_strlit("-");
        reveal_strlit("-f");
        reveal_strlit("f");
        reveal_strlit("x");
        reveal_strlit("c");
        let s = longer(path, tok);
        folds_at_the_end_do_not_matter(s);
        lines_are_cut_before_their_last_token(path, tok);
        assert("x"@[0] == 'x' && "c"@[0] == 'c');
        if text::ends(s, "-f"@) {
            let e = s.skip(s.len() - 2);
            assert(e[0] == '-' && e[1] == 'f');
            assert(s[s.len() - 2] == '-' && s[s.len() - 1] == 'f');
            if path.len() == 0 {
                assert(tok.contains(tok[tok.len() - 2]));
            } else if tok.len() >= 2 {
                assert(tok[tok.len() - 2] == s[s.len() - 2]);
                assert(tok.contains(tok[tok.len() - 2]));
            } else if tok.len() == 1 {
                assert(tok[0] == 'f');
                assert(tok =~= "f"@);
            } else {
                assert(s[s.len() - 1] == '-');
            }
        }
    }

    /// The seats that act along a line are those of the decisions on it, each once.
    pub proof fn actors_are_the_seats_of_decisions(&self, toks: Seq<Seq<char>>, k: int)
        requires
            0 <= k,
        ensures
            self.actors_along(toks, k).no_duplicates(),
            forall|s: Seq<char>|
                #![trigger self.actors_along(toks, k).contains(s)]
                self.actors_along(toks, k).contains(s) <==> exists|i: int|
                    0 <= i < k && #[trigger] self.at(prefix(toks, i)).seat@ == s,
        decreases k,
    {
        if k > 0 {
            self.actors_are_the_seats_of_decisions(toks, k - 1);
            let before = self.actors_along(toks, k - 1);
            let now = self.actors_along(toks, k);
            let seat = self.at(prefix(toks, k - 1)).seat@;
            assert forall|s: Seq<char>| #![trigger now.contains(s)]
                now.contains(s) <==> exists|i: int|
                    0 <= i < k && #[trigger] self.at(prefix(toks, i)).seat@ == s by {
                if now.contains(s) {
                    let i = now.index_of(s);
                    if i < before.len() {
                        assert(before[i] == s);
                        assert(before.contains(s));
                    }
                }
                if before.contains(s) {
                    let i = before.index_of(s);
                    assert(now[i] == s);
                }
                if s == seat && !before.contains(s) {
                    assert(now[before.len() as int] == s);
                }
                if exists|i: int| 0 <= i < k && #[trigger] self.at(prefix(toks, i)).seat@ == s {
                    let i = choose|i: int|
                        0 <= i < k && #[trigger] self.at(prefix(toks, i)).seat@ == s;
                    if i < k - 1 {
                        assert(self.at(prefix(toks, i)).seat@ == s);
                    }
                }
            }
        }
    }

    /// A seat is out after a line exactly where it folds on the way.
    pub proof fn folders_are_those_who_fold(&self, toks: Seq<Seq<char>>, k: int, s: Seq<char>)
        requires
            0 <= k,
        ensures
            self.folders_along(toks, k).contains(s) <==> exists|i: int|
                0 <= i < k && #[trigger] toks[i] == "f"@ && self.at(prefix(toks, i)).seat@ == s,
        decreases k,
    {
        if k > 0 {
            self.folders_are_those_who_fold(toks, k - 1, s);
            if exists|i: int|
                0 <= i < k && #[trigger] toks[i] == "f"@ && self.at(prefix(toks, i)).seat@ == s {
                let i = choose|i: int|
                    0 <= i < k && #[trigger] toks[i] == "f"@ && self.at(prefix(toks, i)).seat@ == s;
                if i < k - 1 {
                    assert(toks[i] == "f"@);
                }
            }
        }
    }

    /// The reach of a seat is made of its own decisions along a line, in order: for
    /// each the row of the action that was taken. It is lost where a decision is
    /// not stored or has no such action.
    pub proof fn reach_is_made_of_own_decisions(
        &self,
        toks: Seq<Seq<char>>,
        seat: Seq<char>,
        k: int,
    )
        requires
            0 <= k,
        ensures
            self.rows_along(toks, seat, k) is Some <==> forall|i: int|
                0 <= i < k ==> self.stored(#[trigger] prefix(toks, i)) && (self.at(
                    prefix(toks, i),
                ).seat@ == seat ==> !self.at(prefix(toks, i)).no_token(toks[i])),
            self.rows_along(toks, seat, k) matches Some(rows) ==> rows == Seq::new(
                k as nat,
                |i: int| i,
            ).filter(|i: int| self.at(prefix(toks, i)).seat@ == seat).map_values(
                |i: int|
                    self.at(prefix(toks, i)).freqs@[self.at(prefix(toks, i)).token_place(
                        toks[i],
                    )]@,
            ),
        decreases k,
    {
        reveal(Seq::filter);
        let own = |i: int| self.at(prefix(toks, i)).seat@ == seat;
        let row = |i: int|
            self.at(prefix(toks, i)).freqs@[self.at(prefix(toks, i)).token_place(toks[i])]@;
        let all = Seq::new(k as nat, |i: int| i);
        if k > 0 {
            self.reach_is_made_of_own_decisions(toks, seat, k - 1);
            let fewer = Seq::new((k - 1) as nat, |i: int| i);
            assert(all.drop_last() =~= fewer);
            assert(all.last() == k - 1);
            let before = fewer.filter(own);
            if own(k - 1) {
                assert(before.push(k - 1).map_values(row) =~= before.map_values(row).push(
                    row(k - 1),
                ));
            }
            if self.rows_along(toks, seat, k) is None {
                assert(self.stored(prefix(toks, k - 1)) || !self.stored(prefix(toks, k - 1)));
                if self.rows_along(toks, seat, k - 1) is None {
                    let i = choose|i: int|
                        0 <= i < k - 1 && !(self.stored(#[trigger] prefix(toks, i)) && (self.at(
                            prefix(toks, i),
                        ).seat@ == seat ==> !self.at(prefix(toks, i)).no_token(toks[i])));
                    assert(!(self.stored(prefix(toks, i)) && (self.at(prefix(toks, i)).seat@ == seat
                        ==> !self.at(prefix(toks, i)).no_token(toks[i]))));
                }
            }
        } else {
            assert(all.filter(own).map_values(row) =~= Seq::empty());
        }
    }
}

impl PreflopCharts {
    /// The two seats that see the flop are those of the ruleset that did not fold on
    /// the way, all others having folded; the one that acts first after the button
    /// is out of position.
    pub proof fn the_last_two_seats_see_the_flop(&self, line: Seq<char>, s: Seq<char>)
        requires
            self.flop_pair(line) is Some,
        ensures
            ({
                let toks = game::path_tokens(line);
                let n = toks.len() as int;
                let seats = text::texts((self.header.config.seats->0)@);
                let (oop, ip) = self.flop_pair(line)->0;
                let button = if seats.contains("BTN"@) {
                    "BTN"@
                } else {
                    "SB"@
                };
                &&& seats.contains(oop) && seats.contains(ip)
                &&& !self.folders_along(toks, n).contains(oop)
                &&& !self.folders_along(toks, n).contains(ip)
                &&& seats.contains(s) && s != oop && s != ip ==> self.folders_along(
                    toks,
                    n,
                ).contains(s)
                &&& seats.no_duplicates() ==> oop != ip
                &&& seats.contains(button)
                &&& turn_order(seats, first_of(seats, button), oop) <= turn_order(
                    seats,
                    first_of(seats, button),
                    ip,
                )
            }),
    {
        let toks = game::path_tokens(line);
        let seats = text::texts((self.header.config.seats->0)@);
        let out = self.folders_along(toks, toks.len() as int);
        let stays = |s: Seq<char>| !out.contains(s);
        let left = self.survivors(seats, toks);
        seats.lemma_filter_pred(stays, 0);
        seats.lemma_filter_pred(stays, 1);
        seats.lemma_filter_contains_rev(stays, left[0]);
        seats.lemma_filter_contains_rev(stays, left[1]);
        if seats.contains(s) && !out.contains(s) {
            let i = seats.index_of(s);
            seats.lemma_filter_contains(stays, i);
            let j = left.index_of(s);
            assert(left[j] == s);
            assert(j == 0 || j == 1);
        }
        if seats.no_duplicates() {
            lemma_filter_distinct(seats, stays);
        }
    }
}

proof fn lemma_filter_distinct(v: Seq<Seq<char>>, keep: spec_fn(Seq<char>) -> bool)
    requires
        v.no_duplicates(),
    ensures
        v.filter(keep).no_duplicates(),
    decreases v.len(),
{
    reveal(Seq::filter);
    if v.len() > 0 {
        let r = v.drop_last();
        lemma_filter_distinct(r, keep);
        let f = r.filter(keep);
        if keep(v.last()) {
            assert forall|i: int| 0 <= i < f.len() implies #[trigger] f[i] != v.last() by {
                r.lemma_filter_contains_rev(keep, f[i]);
                let j = r.index_of(f[i]);
                assert(v[j] == f[i]);
            }
        }
    }
}

/// A class takes its own entry of every row.
pub proof fn classes_take_their_column(rows: Seq<Vec<F32>>, class: int, i: int)
    requires
        0 <= i < rows.len(),
    ensures
        column(rows, class).len() == rows.len(),
        column(rows, class)[i] == rows[i]@[class],
{
}

/// A class has as many holdings as are listed for it.
pub proof fn the_holdings_of_a_class_are_listed(i: int)
    requires
        0 <= i < 169,
    ensures
        class_holdings(i).len() == combos_in(i),
        class_holdings(i).no_duplicates(),
{
    let h = class_holdings(i);
    let (r, c) = (i / 13, i % 13);
    assert forall|x: int, y: int| 0 <= x < h.len() && 0 <= y < h.len() && x != y implies h[x]
        != h[y] by {
        let (a, b) = (h[x], h[y]);
        assert(a[0].suit != b[0].suit || a[1].suit != b[1].suit);
    }
}

/// A line of tokens raises to the amounts of its raises, in their order.
pub proof fn raises_are_read_from_the_line(toks: Seq<Seq<char>>)
    requires
        toks.len() > 0,
        text::none_holds(toks, '-'),
    ensures
        raised_to(text::joined(toks, seq!['-'])) == toks.filter(
            |t: Seq<char>| t.len() > 0 && t[0] == 'r',
        ).map_values(|t: Seq<char>| t.subrange(1, t.len() as int)),
{
    text::splitting_undoes_joining(toks, '-');
    let r = toks.filter(|t: Seq<char>| t.len() > 0 && t[0] == 'r');
    assert(r.map_values(|t: Seq<char>| t.skip(1)) =~= r.map_values(
        |t: Seq<char>| t.subrange(1, t.len() as int),
    )) by {
        assert forall|i: int| 0 <= i < r.len() implies (#[trigger] r[i]).skip(1) == r[i].subrange(
            1,
            r[i].len() as int,
        ) by {}
    }
}

impl PreflopCharts {
    /// How likely a seat is to come along a line takes every token of the line into
    /// account: there is an answer where each decision on the way is stored, and it
    /// holds one row for each of them that was the seat's.
    pub proof fn the_whole_line_is_reached(&self, line: Seq<char>, seat: Seq<char>)
        ensures
            ({
                let toks = game::path_tokens(line);
                let own = |i: int| self.at(prefix(toks, i)).seat@ == seat;
                &&& self.reach_rows(line, seat) is Some <==> forall|i: int|
                    0 <= i < toks.len() ==> self.stored(#[trigger] prefix(toks, i)) && (self.at(
                        prefix(toks, i),
                    ).seat@ == seat ==> !self.at(prefix(toks, i)).no_token(toks[i]))
                &&& self.reach_rows(line, seat) matches Some(rows) ==> rows.len() == Seq::new(
                    toks.len(),
                    |i: int| i,
                ).filter(own).len()
            }),
    {
        let toks = game::path_tokens(line);
        self.reach_is_made_of_own_decisions(toks, seat, toks.len() as int);
    }
}

} // verus!
