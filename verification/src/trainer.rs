//! The drills: what is asked, how an answer is read, and what is written down
//! about it.

use crate::bits::F32;
use crate::board;
use crate::board::Card;
use crate::deck;
use crate::equity;
use crate::eval;
use crate::eval::Bucket;
use crate::game;
use crate::ground;
use crate::iso;
use crate::iso::SuitPerm;
use crate::order;
use crate::preflop;
use crate::preflop::PreflopCharts;
use crate::report;
use crate::solution;
use crate::solution::NodeStrategy;
use crate::solution::SolvedSpot;
use crate::stats;
use crate::stats::StatRecord;
use crate::table;
use crate::text;
use crate::texture;
use crate::tree;
use crate::tree::TreeNode;
use rand::rngs::SmallRng;
use vstd::prelude::*;

verus! {

// ---------------------------------------------------------------- packed hands

/// The bytes of a text can be cut into pairs, each of which is a text.
pub open spec fn cuts_cleanly(s: Seq<char>) -> bool {
    let b = vstd::utf8::encode_utf8(s);
    forall|i: int|
        0 <= i < b.len() as int / 2 ==> vstd::utf8::valid_utf8(
            #[trigger] b.subrange(2 * i, 2 * i + 2),
        )
}

/// The pairs of bytes of a text, each as a text; a single byte at the end is left
/// out.
pub open spec fn chunks_of(s: Seq<char>) -> Seq<Seq<char>> {
    let b = vstd::utf8::encode_utf8(s);
    Seq::new(
        (b.len() as int / 2) as nat,
        |i: int| vstd::utf8::decode_utf8(b.subrange(2 * i, 2 * i + 2)),
    )
}

/// The cards of a packed hand such as `"AsKh"`.
pub fn card_chunks(s: &str) -> (r: Vec<String>)
    requires
        cuts_cleanly(s@),
    ensures
        text::texts(r@) == chunks_of(s@),
{
    let bytes = s.as_bytes();
    let len: usize = bytes.len();
    let n: usize = len / 2;
    let mut out: Vec<String> = Vec::new();
    let mut i: usize = 0;
    while i < n
        invariant
            i <= n,
            n == len / 2,
            len == bytes@.len(),
            bytes@ == vstd::utf8::encode_utf8(s@),
            cuts_cleanly(s@),
            out@.len() == i,
            forall|k: int| 0 <= k < i ==> (#[trigger] out@[k])@ == chunks_of(s@)[k],
        decreases n - i,
    {
        let piece = vstd::slice::slice_subrange(bytes, 2 * i, 2 * i + 2);
        assert(piece@ =~= bytes@.subrange(2 * i as int, 2 * i + 2));
        match text::from_bytes(piece) {
            Some(t) => {
                out.push(t);
            },
            None => {
                assert(false);
            },
        }
        i = i + 1;
    }
    assert(text::texts(out@) =~= chunks_of(s@));
    out
}

/// Whether a packed hand holds the card.
pub fn blocks(hand: &str, card: &str) -> (r: bool)
    requires
        cuts_cleanly(hand@),
    ensures
        r == chunks_of(hand@).contains(card@),
{
    let chunks = card_chunks(hand);
    solution::has_text(&chunks, card)
}

/// Two packed hands hold a card in common.
pub open spec fn overlap(a: Seq<char>, b: Seq<char>) -> bool {
    exists|i: int| 0 <= i < chunks_of(a).len() && chunks_of(b).contains(#[trigger] chunks_of(a)[i])
}

/// Whether two packed hands hold a card in common.
pub fn shares_card(a: &str, b: &str) -> (r: bool)
    requires
        cuts_cleanly(a@),
        cuts_cleanly(b@),
    ensures
        r == overlap(a@, b@),
{
    let chunks = card_chunks(a);
    let mut i: usize = 0;
    assert(text::texts(chunks@).len() == chunks@.len());
    while i < chunks.len()
        invariant
            i <= chunks@.len(),
            cuts_cleanly(b@),
            text::texts(chunks@) == chunks_of(a@),
            chunks_of(a@).len() == chunks@.len(),
            forall|k: int| 0 <= k < i ==> !chunks_of(b@).contains(#[trigger] chunks_of(a@)[k]),
        decreases chunks@.len() - i,
    {
        assert(text::texts(chunks@)[i as int] == chunks@[i as int]@);
        if blocks(b, chunks[i].as_str()) {
            return true;
        }
        i = i + 1;
    }
    false
}

/// Sharing a card goes both ways.
pub proof fn sharing_is_mutual(a: Seq<char>, b: Seq<char>)
    ensures
        overlap(a, b) == overlap(b, a),
{
    if overlap(a, b) {
        let i = choose|i: int|
            0 <= i < chunks_of(a).len() && chunks_of(b).contains(#[trigger] chunks_of(a)[i]);
        let j = chunks_of(b).index_of(chunks_of(a)[i]);
        assert(chunks_of(a).contains(chunks_of(b)[j]));
    }
    if overlap(b, a) {
        let i = choose|i: int|
            0 <= i < chunks_of(b).len() && chunks_of(a).contains(#[trigger] chunks_of(b)[i]);
        let j = chunks_of(a).index_of(chunks_of(b)[i]);
        assert(chunks_of(b).contains(chunks_of(a)[j]));
    }
}

/// The sign of a suit.
pub open spec fn suit_sign(s: int) -> char {
    if s == 0 {
        '♣'
    } else if s == 1 {
        '♦'
    } else if s == 2 {
        '♥'
    } else {
        '♠'
    }
}

/// A card with the sign of its suit.
pub open spec fn signed_card(c: Card) -> Seq<char> {
    seq![iso::rank_char(c.rank - 2), suit_sign(c.suit as int)]
}

/// A card with the sign of its suit, such as `A♠`.
pub fn fmt(c: Card) -> (r: String)
    requires
        c.wf(),
    ensures
        r@ == signed_card(c),
{
    let rank: char = iso::char_of_rank(c.rank - 2);
    let suit: char = if c.suit == 0 {
        '♣'
    } else if c.suit == 1 {
        '♦'
    } else if c.suit == 2 {
        '♥'
    } else {
        '♠'
    };
    let cs: Vec<char> = vec![rank, suit];
    assert(cs@ =~= signed_card(c));
    text::string_of(cs.as_slice())
}

/// The cards among pairs of bytes, with the signs of their suits; pairs that are
/// no card are left out.
pub open spec fn signed_cards(pairs: Seq<Seq<u8>>) -> Seq<Seq<char>>
    decreases pairs.len(),
{
    if pairs.len() == 0 {
        Seq::empty()
    } else {
        let before = signed_cards(pairs.drop_last());
        let p = pairs.last();
        if vstd::utf8::valid_utf8(p) {
            match board::leading_card(vstd::utf8::decode_utf8(p)) {
                Some(c) => before.push(signed_card(c)),
                None => before,
            }
        } else {
            before
        }
    }
}

/// A packed hand or board such as `"Td9d6h"`, with the signs of the suits.
pub fn fmt_hand_str(s: &str) -> (r: String)
    ensures
        r@ == text::joined(
            signed_cards(solution::byte_pairs(vstd::utf8::encode_utf8(s@))),
            " "@,
        ),
{
    let bytes = s.as_bytes();
    let mut out: Vec<String> = Vec::new();
    let mut i: usize = 0;
    let ghost all = bytes@;
    assert(solution::byte_pairs(all.take(0)) =~= Seq::empty());
    assert(text::texts(out@) =~= Seq::empty());
    while i < bytes.len()
        invariant
            i <= bytes@.len(),
            all == bytes@,
            i % 2 == 0 || i == bytes@.len(),
            text::texts(out@) == signed_cards(solution::byte_pairs(all.take(i as int))),
        decreases bytes@.len() - i,
    {
        let n: usize = if bytes.len() - i >= 2 {
            i + 2
        } else {
            i + 1
        };
        let piece = vstd::slice::slice_subrange(bytes, i, n);
        let ghost before = out@;
        proof {
            let b = all.take(n as int);
            assert(b.take(i as int) =~= all.take(i as int));
            assert(b.skip(i as int) =~= piece@);
            let earlier = solution::byte_pairs(b.take(i as int));
            assert(solution::byte_pairs(b) == earlier.push(b.skip(i as int)));
            assert(solution::byte_pairs(b).drop_last() =~= earlier);
        }
        if let Some(t) = text::from_bytes(piece) {
            if let Some(c) = board::parse_card(t.as_str()) {
                let shown = fmt(c);
                out.push(shown);
                assert(text::texts(out@) =~= text::texts(before).push(shown@));
            }
        }
        i = n;
    }
    assert(all.take(i as int) =~= all);
    text::join_all(&out, " ")
}

/// The street of a board with this many cards.
pub fn street_name(board_len: usize) -> (r: &'static str)
    ensures
        r@ == if board_len <= 3 {
            "flop"@
        } else if board_len == 4 {
            "turn"@
        } else {
            "river"@
        },
{
    if board_len <= 3 {
        "flop"
    } else if board_len == 4 {
        "turn"
    } else {
        "river"
    }
}

/// The flop of a board: its first three entries, where they hold three cards.
pub open spec fn flop_of(board: Seq<Seq<char>>) -> Option<[Card; 3]> {
    if board.len() < 3 {
        None
    } else {
        let t = text::unspaced(text::joined(board.take(3), Seq::empty()));
        match board::cards_of(t) {
            Some(v) => if v.len() == 3 {
                Some([v[0], v[1], v[2]])
            } else {
                None
            },
            None => None,
        }
    }
}

/// The flop of a board.
pub fn first_flop(board: &Vec<String>) -> (r: Option<[Card; 3]>)
    ensures
        r == flop_of(text::texts(board@)),
        r matches Some(f) ==> board::all_cards(f@),
{
    if board.len() < 3 {
        return None;
    }
    let mut first: Vec<String> = Vec::new();
    first.push(text::copy_text(board[0].as_str()));
    first.push(text::copy_text(board[1].as_str()));
    first.push(text::copy_text(board[2].as_str()));
    assert(text::texts(first@) =~= text::texts(board@).take(3));
    let joined = text::join_all(&first, "");
    proof {
        reveal_strlit("");
        assert(""@ =~= Seq::<char>::empty());
    }
    match board::parse_cards(joined.as_str()) {
        Some(v) => {
            if v.len() == 3 {
                assert(v@[0].wf() && v@[1].wf() && v@[2].wf());
                let f: [Card; 3] = [v[0], v[1], v[2]];
                proof {
                    let g = flop_of(text::texts(board@))->0;
                    assert(g@ =~= f@);
                }
                Some(f)
            } else {
                None
            }
        },
        None => None,
    }
}

/// The texture of a flop and the bucket of a hand on it, for a record; empty
/// where there are no such cards.
pub fn flop_context(board: &Vec<String>, hand: &str) -> (r: (String, String))
    ensures
        (r.0)@ == match flop_of(text::texts(board@)) {
            Some(f) => texture::texture_of(f).name(),
            None => Seq::empty(),
        },
        (r.1)@ == match (flop_of(text::texts(board@)), table::hole_of(hand@)) {
            (Some(f), Some(h)) => eval::bucket_of(
                eval::best_five(eval::codes_of(eval::five(h, f))).0,
                h,
                f,
            ).name(),
            _ => Seq::empty(),
        },
{
    proof {
        reveal_strlit("");
        assert(""@ =~= Seq::<char>::empty());
    }
    match first_flop(board) {
        Some(f) => {
            let name = text::copy_text(texture::class(f));
            match table::parse_hole(hand) {
                Some(h) => (name, text::copy_text(eval::classify_hand(h, f).text())),
                None => (name, text::copy_text("")),
            }
        },
        None => (text::copy_text(""), text::copy_text("")),
    }
}

// ---------------------------------------------------------------- answers

/// What was typed: the line without the space around it, in lower case.
pub open spec fn typed(line: Seq<char>) -> Seq<char> {
    text::lower_case(text::trimmed(line))
}

/// What was typed.
pub fn clean_input(line: &str) -> (r: String)
    ensures
        r@ == typed(line@),
{
    let t = text::trim_text(line);
    text::to_lower_case(t.as_str())
}

/// An answer by number.
#[derive(Debug, Clone, Copy, PartialEq, Eq, Structural)]
pub enum Pick {
    /// The place of the action.
    At(usize),
    Quit,
    Retry,
}

/// The answer of a number from 1 to `n`.
pub open spec fn pick_number(s: Seq<char>, n: int) -> Pick {
    match text::whole_number(s, n) {
        Some(k) => if k >= 1 {
            Pick::At((k - 1) as usize)
        } else {
            Pick::Retry
        },
        None => Pick::Retry,
    }
}

fn number_pick(s: &str, n: usize) -> (r: Pick)
    requires
        n < 0x1000_0000_0000_0000,
    ensures
        r == pick_number(s@, n as int),
        r matches Pick::At(i) ==> i < n,
{
    let cs = text::chars_of(s);
    match text::parse_whole(cs.as_slice(), n as u64) {
        Some(k) => {
            if k >= 1 {
                Pick::At((k - 1) as usize)
            } else {
                Pick::Retry
            }
        },
        None => Pick::Retry,
    }
}

/// Reads the choice of one of `n` actions: an empty line, `q` or `quit` ends the
/// drill, and what is no number from 1 to `n` is asked for again.
pub fn read_pick(line: &str, n: usize) -> (r: Pick)
    requires
        n < 0x1000_0000_0000_0000,
    ensures
        r == if typed(line@) == ""@ || typed(line@) == "q"@ || typed(line@) == "quit"@ {
            Pick::Quit
        } else {
            pick_number(typed(line@), n as int)
        },
        r matches Pick::At(i) ==> i < n,
{
    let t = clean_input(line);
    let s = t.as_str();
    if text::same_text(s, "") || text::same_text(s, "q") || text::same_text(s, "quit") {
        Pick::Quit
    } else {
        number_pick(s, n)
    }
}

/// Reads the choice of one of `n` actions where an empty line is asked for again.
pub fn read_assignment(line: &str, n: usize) -> (r: Pick)
    requires
        n < 0x1000_0000_0000_0000,
    ensures
        r == if typed(line@) == "q"@ || typed(line@) == "quit"@ {
            Pick::Quit
        } else {
            pick_number(typed(line@), n as int)
        },
        r matches Pick::At(i) ==> i < n,
{
    let t = clean_input(line);
    let s = t.as_str();
    if text::same_text(s, "q") || text::same_text(s, "quit") {
        Pick::Quit
    } else {
        number_pick(s, n)
    }
}

/// An answer to a bet.
#[derive(Debug, Clone, Copy, PartialEq, Eq, Structural)]
pub enum CallAnswer {
    Call,
    Fold,
    Quit,
    Retry,
}

/// Reads whether a bet is called.
pub fn read_call(line: &str) -> (r: CallAnswer)
    ensures
        r == if typed(line@) == "c"@ || typed(line@) == "call"@ {
            CallAnswer::Call
        } else if typed(line@) == "f"@ || typed(line@) == "fold"@ {
            CallAnswer::Fold
        } else if typed(line@) == ""@ || typed(line@) == "q"@ || typed(line@) == "quit"@ {
            CallAnswer::Quit
        } else {
            CallAnswer::Retry
        },
{
    let t = clean_input(line);
    let s = t.as_str();
    if text::same_text(s, "c") || text::same_text(s, "call") {
        CallAnswer::Call
    } else if text::same_text(s, "f") || text::same_text(s, "fold") {
        CallAnswer::Fold
    } else if text::same_text(s, "") || text::same_text(s, "q") || text::same_text(s, "quit") {
        CallAnswer::Quit
    } else {
        CallAnswer::Retry
    }
}

// ---------------------------------------------------------------- preflop lines

/// How a heads-up betting round goes on after an action.
#[derive(Debug, Clone, Copy, PartialEq, Eq, Structural)]
pub enum Step {
    /// A flop comes: with the pot as it is, or after a call.
    Flop { called: bool },
    Continue,
    /// The hand is over, or all chips are in, before the flop.
    Dead,
}

/// How a heads-up betting round goes on.
pub open spec fn step_of(path: Seq<char>, action: Seq<char>) -> Step {
    if action == "Fold"@ || action == "All-in"@ {
        Step::Dead
    } else if action == "Check"@ {
        Step::Flop { called: false }
    } else if action == "Call"@ {
        if path.len() == 0 {
            Step::Continue
        } else {
            Step::Flop { called: true }
        }
    } else {
        Step::Continue
    }
}

/// How a heads-up betting round goes on after an action at the node of a path: a
/// call closes it, but for the first one, after which the big blind may act.
pub fn hu_step(node_path: &str, action: &str) -> (r: Step)
    ensures
        r == step_of(node_path@, action@),
{
    if text::same_text(action, "Fold") || text::same_text(action, "All-in") {
        Step::Dead
    } else if text::same_text(action, "Check") {
        Step::Flop { called: false }
    } else if text::same_text(action, "Call") {
        let cs = text::chars_of(node_path);
        if cs.len() == 0 {
            Step::Continue
        } else {
            Step::Flop { called: true }
        }
    } else {
        Step::Continue
    }
}

/// A heads-up hand that is played out before the flop.
#[derive(Debug)]
pub struct HuHand {
    /// The small blind's hand, the big blind's and the flop to come.
    pub deal: deck::HeadsUpDeal,
    pub path: String,
    /// The frequencies, over all classes, of what the small blind did.
    pub sb_rows: Vec<Vec<F32>>,
    /// The frequencies, over all classes, of what the big blind did.
    pub bb_rows: Vec<Vec<F32>>,
}

/// Rows of numbers.
pub open spec fn rows(v: Seq<Vec<F32>>) -> Seq<Seq<F32>> {
    v.map_values(|r: Vec<F32>| r@)
}

impl HuHand {
    pub open spec fn wf(&self) -> bool {
        board::all_cards(self.deal.cards())
    }

    /// The class of the hand that is to act at a node.
    pub open spec fn class_at(&self, seat: Seq<char>) -> int {
        if seat == "SB"@ {
            preflop::class_of(self.deal.first[0], self.deal.first[1])
        } else {
            preflop::class_of(self.deal.second[0], self.deal.second[1])
        }
    }

    /// The rows are what each seat played along the path: their products, class
    /// by class, are how likely it is to hold each class there.
    pub open spec fn on_track(&self, charts: PreflopCharts) -> bool {
        &&& ground::reached(charts, self.path@)
        &&& charts.reach_rows(self.path@, "SB"@) == Some(rows(self.sb_rows@))
        &&& charts.reach_rows(self.path@, "BB"@) == Some(rows(self.bb_rows@))
    }

    /// Taking an action leads to `after` and gives `r`: its frequencies go to the
    /// seat that acts, and unless the hand is dead the path grows.
    pub open spec fn acted(
        &self,
        charts: PreflopCharts,
        action: int,
        after: &HuHand,
        r: Step,
    ) -> bool {
        let node = charts.at(self.path@);
        let label = node.actions@[action]@;
        let row = node.freqs@[action]@;
        &&& after.deal == self.deal
        &&& r == step_of(self.path@, label)
        &&& after.path@ == if r is Dead {
            self.path@
        } else {
            preflop::longer(self.path@, preflop::token_of_label(label))
        }
        &&& if node.seat@ == "SB"@ {
            rows(after.sb_rows@) == rows(self.sb_rows@).push(row) && after.bb_rows == self.bb_rows
        } else {
            rows(after.bb_rows@) == rows(self.bb_rows@).push(row) && after.sb_rows == self.sb_rows
        }
    }

    /// A hand before the first action.
    pub fn start(deal: deck::HeadsUpDeal) -> (r: Self)
        requires
            board::all_cards(deal.cards()),
        ensures
            r.wf(),
            r.deal == deal,
            r.path@.len() == 0,
            r.sb_rows@.len() == 0,
            r.bb_rows@.len() == 0,
            forall|charts: PreflopCharts| #[trigger] r.on_track(charts),
    {
        let r = HuHand { deal, path: String::new(), sb_rows: Vec::new(), bb_rows: Vec::new() };
        proof {
            assert forall|charts: PreflopCharts| #[trigger] r.on_track(charts) by {
                a_start_is_on_track(charts, r);
            }
        }
        r
    }

    fn class_for(&self, seat: &str) -> (r: usize)
        requires
            self.wf(),
        ensures
            r == self.class_at(seat@),
            r < 169,
    {
        proof {
            let c = self.deal.cards();
            assert(c[0].wf() && c[1].wf() && c[2].wf() && c[3].wf());
            assert(self.deal.first@ =~= seq![c[0], c[1]]);
            assert(self.deal.second@ =~= seq![c[2], c[3]]);
        }
        if text::same_text(seat, "SB") {
            preflop::class_index(self.deal.first)
        } else {
            preflop::class_index(self.deal.second)
        }
    }

    /// How often the hand that is to act takes each action; `None` where the
    /// charts end.
    pub fn weights(&self, charts: &PreflopCharts) -> (r: Option<Vec<F32>>)
        requires
            self.wf(),
            charts.wf(),
        ensures
            r is Some == charts.stored(self.path@),
            r matches Some(w) ==> w@ == preflop::column(
                charts.at(self.path@).freqs@,
                self.class_at(charts.at(self.path@).seat@),
            ),
    {
        match charts.node(self.path.as_str()) {
            Some(node) => {
                let class: usize = self.class_for(node.seat.as_str());
                Some(node.freqs_for(class))
            },
            None => None,
        }
    }

    /// Takes an action: its frequencies go into the reach of the seat, and unless
    /// the hand is dead the path grows.
    pub fn act(&mut self, charts: &PreflopCharts, action: usize) -> (r: Step)
        requires
            old(self).wf(),
            charts.wf(),
            charts.stored(old(self).path@),
            action < charts.at(old(self).path@).actions@.len(),
        ensures
            final(self).wf(),
            old(self).acted(*charts, action as int, final(self), r),
            plain_heads_up(*charts) && old(self).on_track(*charts) && !(r is Dead)
                ==> final(self).on_track(*charts),
    {
        match charts.node(self.path.as_str()) {
            Some(node) => {
                let label = node.actions[action].as_str();
                let row = tree::copy_row(&node.freqs[action]);
                let ghost row_view = row@;
                if text::same_text(node.seat.as_str(), "SB") {
                    let ghost before = self.sb_rows@;
                    self.sb_rows.push(row);
                    assert(rows(self.sb_rows@) =~= rows(before).push(row_view));
                } else {
                    let ghost before = self.bb_rows@;
                    self.bb_rows.push(row);
                    assert(rows(self.bb_rows@) =~= rows(before).push(row_view));
                }
                let step = hu_step(self.path.as_str(), label);
                match step {
                    Step::Dead => {},
                    _ => {
                        let tok = preflop::label_token(label);
                        let cs = text::chars_of(self.path.as_str());
                        let ghost path = self.path@;
                        let t = tok.as_str();
                        self.path = if cs.len() == 0 {
                            tok
                        } else {
                            text::join3(self.path.as_str(), "-", t)
                        };
                        assert(self.path@ == preflop::longer(
                            path,
                            preflop::token_of_label(label@),
                        ));
                    },
                }
                proof {
                    if plain_heads_up(*charts) && old(self).on_track(*charts) && !(step is Dead) {
                        rows_are_the_reach(*charts, *old(self), *self, action as int, step);
                    }
                }
                step
            },
            None => Step::Dead,
        }
    }
}

/// Charts of two seats in which a token names one action of a node.
pub open spec fn plain_heads_up(c: PreflopCharts) -> bool {
    &&& ground::plain_tokens(c)
    &&& forall|p: Seq<char>| #[trigger]
        c.stored(p) ==> c.at(p).seat@ == "SB"@ || c.at(p).seat@ == "BB"@
    &&& forall|p: Seq<char>, i: int, k: int|
        c.stored(p) && 0 <= i < k < c.at(p).actions@.len() ==> preflop::token_of_label(
            (#[trigger] c.at(p).actions@[i])@,
        ) != preflop::token_of_label((#[trigger] c.at(p).actions@[k])@)
}

/// Before the first action no seat has played anything.
pub proof fn a_start_is_on_track(c: PreflopCharts, h: HuHand)
    requires
        h.path@.len() == 0,
        h.sb_rows@.len() == 0,
        h.bb_rows@.len() == 0,
    ensures
        h.on_track(c),
{
    assert(h.path@ =~= Seq::empty());
    ground::lemma_root_is_reached(c);
    assert(rows(h.sb_rows@) =~= Seq::empty());
    assert(rows(h.bb_rows@) =~= Seq::empty());
}

proof fn lemma_rows_of_prefix(
    c: PreflopCharts,
    toks: Seq<Seq<char>>,
    tok: Seq<char>,
    seat: Seq<char>,
    k: int,
)
    requires
        0 <= k <= toks.len(),
    ensures
        c.rows_along(toks.push(tok), seat, k) == c.rows_along(toks, seat, k),
    decreases k,
{
    if k > 0 {
        lemma_rows_of_prefix(c, toks, tok, seat, k - 1);
        assert(toks.push(tok).take(k - 1) =~= toks.take(k - 1));
        assert(toks.push(tok)[k - 1] == toks[k - 1]);
    }
}

/// Along a hand that is played from its start, the rows that are gathered for each
/// seat are its reach: those that the charts give for the path.
pub proof fn rows_are_the_reach(c: PreflopCharts, a: HuHand, b: HuHand, action: int, r: Step)
    requires
        plain_heads_up(c),
        a.on_track(c),
        c.stored(a.path@),
        0 <= action < c.at(a.path@).actions@.len(),
        a.acted(c, action, &b, r),
        !(r is Dead),
    ensures
        b.on_track(c),
{
    let path = a.path@;
    let node = c.at(path);
    let tok = preflop::token_of_label(node.actions@[action]@);
    let toks = game::path_tokens(path);
    let n = toks.len() as int;
    let more = toks.push(tok);
    ground::lemma_child_is_reached(c, path, action);
    assert(more.take(n) =~= toks.take(n));
    assert(preflop::prefix(more, n) == path);
    assert(node.first_with_token(tok, action));
    let place = node.token_place(tok);
    assert(node.first_with_token(tok, place));
    assert(place == action) by {
        if place < action {
            assert(preflop::token_of_label(node.actions@[place]@) == tok);
        } else if action < place {
            assert(preflop::token_of_label(node.actions@[action]@) == tok);
        }
    }
    lemma_rows_of_prefix(c, toks, tok, "SB"@, n);
    lemma_rows_of_prefix(c, toks, tok, "BB"@, n);
    assert("SB"@ != "BB"@) by {
        reveal_strlit("SB");
        reveal_strlit("BB");
        assert("SB"@[0] != "BB"@[0]);
    }
    assert(c.stored(path));
    assert(!node.no_token(tok)) by {
        assert(preflop::token_of_label(node.actions@[action]@) == tok);
    }
}

/// Whether a chart set is of a heads-up game.
pub fn is_heads_up(config: &preflop::RulesetEcho) -> (r: bool)
    ensures
        r == (config.seats matches Some(s) && s@.len() == 2),
{
    match &config.seats {
        Some(s) => s.len() == 2,
        None => false,
    }
}

/// What is said of a chart set that is not of a heads-up game.
pub fn not_heads_up(ruleset: &str) -> (r: String)
    ensures
        r@
            == "pot-odds --preflop supports heads-up rulesets only (cash-hu*, mtt-hu*); "@
            + ruleset@ + " is not heads-up"@,
{
    text::join3(
        "pot-odds --preflop supports heads-up rulesets only (cash-hu*, mtt-hu*); ",
        ruleset,
        " is not heads-up",
    )
}

/// A text with the first occurrence of `p` replaced.
pub open spec fn replaced_once(s: Seq<char>, p: Seq<char>, by: Seq<char>) -> Seq<char> {
    let i = text::sub_from(s, p, 0);
    if i < 0 {
        s
    } else {
        s.take(i) + by + s.skip(i + p.len())
    }
}

/// What a seat is said to do.
pub open spec fn verb_of(label: Seq<char>) -> Seq<char> {
    if label == "Fold"@ {
        "folds"@
    } else if label == "Call"@ {
        "calls"@
    } else if label == "Check"@ {
        "checks"@
    } else if label == "All-in"@ {
        "jams"@
    } else {
        replaced_once(text::lower_case(label), "raise"@, "raises"@)
    }
}

/// What a seat is said to do when it takes an action.
pub fn verb(label: &str) -> (r: String)
    ensures
        r@ == verb_of(label@),
{
    if text::same_text(label, "Fold") {
        text::copy_text("folds")
    } else if text::same_text(label, "Call") {
        text::copy_text("calls")
    } else if text::same_text(label, "Check") {
        text::copy_text("checks")
    } else if text::same_text(label, "All-in") {
        text::copy_text("jams")
    } else {
        let low = text::to_lower_case(label);
        let cs = text::chars_of(low.as_str());
        let p = text::chars_of("raise");
        let len: usize = cs.len();
        match text::find_sub(cs.as_slice(), p.as_slice(), 0) {
            Some(i) => {
                let before = text::part(cs.as_slice(), 0, i);
                let after = text::part(cs.as_slice(), i + p.len(), len);
                let b = text::string_of(before.as_slice());
                let a = text::string_of(after.as_slice());
                assert(b@ =~= low@.take(i as int));
                assert(a@ =~= low@.skip(i + p@.len()));
                text::join3(b.as_str(), "raises", a.as_str())
            },
            None => low,
        }
    }
}

/// What the first `k` actions of a path are said to be, as far as the charts know
/// them.
pub open spec fn said(charts: PreflopCharts, toks: Seq<Seq<char>>, k: int) -> Seq<Seq<char>>
    decreases k,
{
    if k <= 0 {
        Seq::empty()
    } else {
        let before = said(charts, toks, k - 1);
        let path = preflop::prefix(toks, k - 1);
        let node = charts.at(path);
        if charts.stored(path) && !node.no_token(toks[k - 1]) {
            before.push(
                node.seat@ + " "@ + verb_of(node.actions@[node.token_place(toks[k - 1])]@),
            )
        } else {
            before
        }
    }
}

proof fn lemma_token_place(n: preflop::PreflopNode, tok: Seq<char>, i: int)
    requires
        n.first_with_token(tok, i),
    ensures
        n.token_place(tok) == i,
        !n.no_token(tok),
{
    let k = n.token_place(tok);
    assert(n.first_with_token(tok, k));
    if k < i {
        assert(preflop::token_of_label(n.actions@[k]@) != tok);
    }
    if i < k {
        assert(preflop::token_of_label(n.actions@[i]@) != tok);
    }
    assert(preflop::token_of_label(n.actions@[i]@) == tok);
}

/// The actions that lead to a path, such as `"CO raises to 2.5bb"`.
pub fn preflop_line(charts: &PreflopCharts, path: &str) -> (r: Vec<String>)
    requires
        charts.wf(),
    ensures
        ({
            let toks = game::path_tokens(path@);
            text::texts(r@) == said(*charts, toks, toks.len() as int)
        }),
{
    let toks = preflop::tokens_of(path);
    let ghost t = game::path_tokens(path@);
    assert(text::pieces(toks@).len() == toks@.len());
    let mut out: Vec<String> = Vec::new();
    let mut prefix = String::new();
    let mut k: usize = 0;
    proof {
        assert(text::texts(out@) =~= said(*charts, t, 0));
        if t.len() > 0 {
            preflop::lemma_prefix_step(t, 0);
        } else {
            assert(t.take(0) =~= Seq::empty());
        }
    }
    while k < toks.len()
        invariant
            k <= toks@.len(),
            charts.wf(),
            t == text::pieces(toks@),
            t.len() == toks@.len(),
            k < toks@.len() ==> prefix@ == preflop::prefix(t, k as int),
            text::texts(out@) == said(*charts, t, k as int),
        decreases toks@.len() - k,
    {
        assert(t[k as int] == toks@[k as int]@);
        let ghost before = out@;
        if let Some(node) = charts.node(prefix.as_str()) {
            match node.action_with_token(toks[k].as_slice()) {
                Some(ai) => {
                    proof {
                        lemma_token_place(*node, t[k as int], ai as int);
                    }
                    let v = verb(node.actions[ai].as_str());
                    let s = text::join3(node.seat.as_str(), " ", v.as_str());
                    out.push(s);
                    assert(text::texts(out@) =~= text::texts(before).push(s@));
                },
                None => {},
            }
        }
        proof {
            preflop::lemma_prefix_step(t, k as int);
        }
        preflop::extend_path(&mut prefix, toks[k].as_slice(), k == 0);
        k = k + 1;
    }
    out
}

/// A suit by its place in the order spades, hearts, diamonds, clubs.
pub open spec fn suit_at(i: int) -> int {
    3 - i
}

/// A hand of a class: suited hands take both suits from `a`, the others the
/// second one from the three suits that `a` leaves.
pub open spec fn combo_at(class: int, a: int, b: int) -> [Card; 2] {
    let (r, c) = (class / 13, class % 13);
    let (hi, lo) = if r <= c {
        (r, c)
    } else {
        (c, r)
    };
    let t = if r < c {
        a
    } else if b >= a {
        b + 1
    } else {
        b
    };
    [preflop::grid_card(hi, suit_at(a)), preflop::grid_card(lo, suit_at(t))]
}

/// Hands of a class belong to it, and hold two different cards.
pub proof fn dealt_hands_belong_to_their_class(class: int, a: int, b: int)
    requires
        0 <= class < 169,
        0 <= a < 4,
        0 <= b < 3,
    ensures
        board::all_cards(combo_at(class, a, b)@),
        combo_at(class, a, b)[0] != combo_at(class, a, b)[1],
        preflop::class_of(combo_at(class, a, b)[0], combo_at(class, a, b)[1]) == class,
{
    let h = combo_at(class, a, b);
    assert(h@[0].wf() && h@[1].wf());
}

/// The hand of a class with suits `a` and `b`.
pub fn class_combo(class: usize, a: usize, b: usize) -> (r: [Card; 2])
    requires
        class < 169,
        a < 4,
        b < 3,
    ensures
        r == combo_at(class as int, a as int, b as int),
{
    let (row, col) = (class / 13, class % 13);
    let (hi, lo) = if row <= col {
        (row, col)
    } else {
        (col, row)
    };
    let t: usize = if row < col {
        a
    } else if b >= a {
        b + 1
    } else {
        b
    };
    let h: [Card; 2] = [
        Card { rank: 14 - hi as u8, suit: 3 - a as u8 },
        Card { rank: 14 - lo as u8, suit: 3 - t as u8 },
    ];
    assert(h@ =~= combo_at(class as int, a as int, b as int)@);
    h
}

/// A hand of a class, its suits left to the generator.
pub fn deal_class_combo(class: usize, rng: &mut SmallRng) -> (r: [Card; 2])
    requires
        class < 169,
    ensures
        board::all_cards(r@),
        r[0] != r[1],
        preflop::class_of(r[0], r[1]) == class,
        exists|a: int, b: int|
            0 <= a < 4 && 0 <= b < 3 && r == #[trigger] combo_at(class as int, a, b),
{
    let a: usize = equity::random_place(rng, 0, 4);
    let b: usize = equity::random_place(rng, 0, 3);
    proof {
        dealt_hands_belong_to_their_class(class as int, a as int, b as int);
    }
    class_combo(class, a, b)
}

/// A node can be drilled: it is reached, and by known parts of the classes.
pub open spec fn drillable(charts: PreflopCharts, n: preflop::PreflopNode) -> bool {
    &&& F32 { bits: 0 }.below(n.reach)
    &&& charts.stored(n.path@)
    &&& charts.reach_rows(n.path@, charts.at(n.path@).seat@) is Some
}

/// The places, of the first `n` nodes, of those that can be drilled.
pub open spec fn pool_of(charts: PreflopCharts, n: int) -> Seq<usize>
    decreases n,
{
    if n <= 0 {
        Seq::empty()
    } else if drillable(charts, charts.nodes.values@[n - 1]) {
        pool_of(charts, n - 1).push((n - 1) as usize)
    } else {
        pool_of(charts, n - 1)
    }
}

/// The places of the nodes that can be drilled.
pub fn drill_pool(charts: &PreflopCharts) -> (r: Vec<usize>)
    requires
        charts.wf(),
    ensures
        r@ == pool_of(*charts, charts.nodes.values@.len() as int),
{
    let nodes = charts.nodes();
    let zero = F32 { bits: 0 };
    let mut out: Vec<usize> = Vec::new();
    let mut i: usize = 0;
    while i < nodes.len()
        invariant
            i <= nodes@.len(),
            charts.wf(),
            nodes@ == charts.nodes.values@,
            zero.bits == 0,
            out@ == pool_of(*charts, i as int),
        decreases nodes@.len() - i,
    {
        if zero.lt(nodes[i].reach) && charts.class_reach(nodes[i].path.as_str()).is_some() {
            out.push(i);
        }
        i = i + 1;
    }
    out
}

// ---------------------------------------------------------------- stored tables

/// A stored table that may serve a flop: its stem, and the renaming of suits from
/// the flop to it where there is one.
#[derive(Debug, Clone)]
pub struct TableCandidate {
    pub stem: String,
    pub perm: Option<SuitPerm>,
}

/// The stem of a table file for a configuration.
pub open spec fn stem_of(name: Seq<char>, hash: Seq<char>) -> Option<Seq<char>> {
    let end = "-"@ + hash + ".jsonl"@;
    if text::ends(name, end) {
        Some(name.take(name.len() - end.len()))
    } else {
        None
    }
}

/// The file holds a flop of the same shape.
pub open spec fn same_shape(name: Seq<char>, hash: Seq<char>, flop: Seq<char>) -> bool {
    &&& stem_of(name, hash) is Some
    &&& iso::flop_ids(stem_of(name, hash)->0) is Some
    &&& iso::canonical_text(stem_of(name, hash)->0) == iso::canonical_text(flop)
}

/// The stems, of the first `n` files, of flops of the same shape.
pub open spec fn stems_for(
    names: Seq<Seq<char>>,
    hash: Seq<char>,
    flop: Seq<char>,
    n: int,
) -> Seq<Seq<char>>
    decreases n,
{
    if n <= 0 {
        Seq::empty()
    } else if same_shape(names[n - 1], hash, flop) {
        stems_for(names, hash, flop, n - 1).push(stem_of(names[n - 1], hash)->0)
    } else {
        stems_for(names, hash, flop, n - 1)
    }
}

/// The renaming of a candidate.
pub open spec fn renaming(c: TableCandidate) -> SuitPerm {
    match c.perm {
        Some(p) => p,
        None => iso::unchanged(),
    }
}

/// The renaming keeps no suit's name only where it is given.
pub open spec fn renames_if_given(c: TableCandidate) -> bool {
    &&& renaming(c).wf()
    &&& c.perm is None <==> tree::keeps_suits(renaming(c))
}

/// The candidate's renaming leads from the flop to the canonical flop, by the
/// first renaming that does, and from there back to the stored flop.
pub open spec fn leads_to(c: TableCandidate, flop: Seq<char>) -> bool {
    &&& renames_if_given(c)
    &&& iso::flop_ids(c.stem@) is Some
    &&& exists|p: SuitPerm, r: SuitPerm|
        #![trigger iso::first_minimizer(iso::flop_ids(flop)->0, p), iso::first_minimizer(iso::flop_ids(c.stem@)->0, r)]
        iso::first_minimizer(iso::flop_ids(flop)->0, p) && iso::first_minimizer(
            iso::flop_ids(c.stem@)->0,
            r,
        ) && forall|s: int|
            0 <= s < 4 ==> #[trigger] renaming(c).image(s) == r.preimage(p.image(s))
}

/// The stems of candidates.
pub open spec fn stems(v: Seq<TableCandidate>) -> Seq<Seq<char>> {
    v.map_values(|c: TableCandidate| c.stem@)
}

fn perm_if_any(p: SuitPerm) -> (r: Option<SuitPerm>)
    requires
        p.wf(),
    ensures
        r is None <==> tree::keeps_suits(p),
        r matches Some(q) ==> q == p,
{
    if p.is_identity() {
        None
    } else {
        Some(p)
    }
}

/// The stored tables that may serve a flop, the first of them that can be read
/// being the one that does: the one under the flop's own name, the one under the
/// canonical flop's, and any other of the same shape among the files.
pub fn find_table(flop: &str, hash: &str, names: &Vec<String>) -> (r: Vec<TableCandidate>)
    ensures
        r@.len() >= 1,
        r@[0].stem@ == flop@,
        r@[0].perm is None,
        iso::flop_ids(flop@) is None ==> r@.len() == 1,
        iso::flop_ids(flop@) is Some ==> {
            &&& stems(r@) == seq![flop@, iso::canonical_text(flop@)->0] + stems_for(
                text::texts(names@),
                hash@,
                flop@,
                names@.len() as int,
            )
            &&& renames_if_given(r@[1])
            &&& exists|p: SuitPerm|
                #[trigger] iso::first_minimizer(iso::flop_ids(flop@)->0, p) && forall|s: int|
                    0 <= s < 4 ==> #[trigger] renaming(r@[1]).image(s) == p.image(s)
            &&& forall|k: int| 2 <= k < r@.len() ==> leads_to(#[trigger] r@[k], flop@)
        },
{
    let mut out: Vec<TableCandidate> = Vec::new();
    out.push(TableCandidate { stem: text::copy_text(flop), perm: None });
    match iso::canonical_flop(flop) {
        Some((canon, to_canon)) => {
            let ghost f = iso::flop_ids(flop@)->0;
            let ghost canon_text = canon@;
            let perm = perm_if_any(to_canon);
            let second = TableCandidate { stem: canon, perm };
            let canon = text::copy_text(second.stem.as_str());
            proof {
                if second.perm is None {
                    assert(tree::keeps_suits(iso::unchanged()));
                    assert forall|s: int| 0 <= s < 4 implies #[trigger] renaming(second).image(s)
                        == to_canon.image(s) by {}
                }
            }
            out.push(second);
            let tail = text::join3("-", hash, ".jsonl");
            assert(stems(out@) =~= seq![flop@, canon_text]);
            assert(stems(out@) =~= seq![flop@, canon_text] + stems_for(
                text::texts(names@),
                hash@,
                flop@,
                0,
            ));
            let mut i: usize = 0;
            while i < names.len()
                invariant
                    i <= names@.len(),
                    tail@ == "-"@ + hash@ + ".jsonl"@,
                    canon@ == canon_text,
                    iso::canonical_text(flop@) == Some(canon_text),
                    iso::flop_ids(flop@) == Some(f),
                    iso::first_minimizer(f, to_canon),
                    out@.len() >= 2,
                    out@[0].stem@ == flop@,
                    out@[0].perm is None,
                    out@[1] == second,
                    stems(out@) == seq![flop@, canon_text] + stems_for(
                        text::texts(names@),
                        hash@,
                        flop@,
                        i as int,
                    ),
                    forall|k: int| 2 <= k < out@.len() ==> leads_to(#[trigger] out@[k], flop@),
                decreases names@.len() - i,
            {
                let ghost before = out@;
                assert(text::texts(names@)[i as int] == names@[i as int]@);
                let cs = text::chars_of(names[i].as_str());
                if text::has_suffix(cs.as_slice(), tail.as_str()) {
                    let tail_cs = text::chars_of(tail.as_str());
                    let stem_cs = text::part(cs.as_slice(), 0, cs.len() - tail_cs.len());
                    let stem = text::string_of(stem_cs.as_slice());
                    assert(stem@ =~= names@[i as int]@.take(
                        names@[i as int]@.len() - tail@.len(),
                    ));
                    if let Some((c, from_file)) = iso::canonical_flop(stem.as_str()) {
                        if text::same_text(c.as_str(), canon.as_str()) {
                            let q = from_file.inverse().compose(&to_canon);
                            let perm = perm_if_any(q);
                            let cand = TableCandidate { stem, perm };
                            proof {
                                assert forall|s: int|
                                    0 <= s < 4 implies #[trigger] q.image(s)
                                    == from_file.preimage(to_canon.image(s)) by {
                                    assert(0 <= to_canon.image(s) < 4);
                                }
                                if cand.perm is None {
                                    assert(tree::keeps_suits(iso::unchanged()));
                                    assert forall|s: int|
                                        0 <= s < 4 implies #[trigger] renaming(cand).image(s)
                                        == q.image(s) by {}
                                }
                                assert(leads_to(cand, flop@));
                            }
                            out.push(cand);
                            assert(stems(out@) =~= stems(before).push(cand.stem@));
                        }
                    }
                }
                assert(stems(out@) =~= seq![flop@, canon_text] + stems_for(
                    text::texts(names@),
                    hash@,
                    flop@,
                    i + 1,
                ));
                i = i + 1;
            }
            assert(renames_if_given(out@[1]));
        },
        None => {},
    }
    out
}

// ---------------------------------------------------------------- lines

/// The pieces of a line, without the space around them, that hold something.
pub open spec fn steps_from(pieces: Seq<Seq<char>>) -> Seq<Seq<char>>
    decreases pieces.len(),
{
    if pieces.len() == 0 {
        Seq::empty()
    } else {
        let t = text::trimmed(pieces.last());
        if t.len() > 0 {
            steps_from(pieces.drop_last()).push(t)
        } else {
            steps_from(pieces.drop_last())
        }
    }
}

/// The steps of a line such as `"Check,Bet 2.0bb,deal 2c"`.
pub fn line_steps(spec: &str) -> (r: Vec<String>)
    ensures
        text::texts(r@) == steps_from(text::split(spec@, ',')),
{
    let cs = text::chars_of(spec);
    let parts = text::split_at_char(cs.as_slice(), ',');
    let ghost all = text::split(spec@, ',');
    let mut out: Vec<String> = Vec::new();
    let mut i: usize = 0;
    assert(text::texts(out@) =~= steps_from(all.take(0)));
    assert(all.len() == parts@.len());
    while i < parts.len()
        invariant
            i <= parts@.len(),
            text::pieces(parts@) == all,
            all.len() == parts@.len(),
            text::texts(out@) == steps_from(all.take(i as int)),
        decreases parts@.len() - i,
    {
        let t = text::trim_chars(parts[i].as_slice());
        let ghost before = out@;
        proof {
            let now = all.take(i + 1);
            assert(now.drop_last() =~= all.take(i as int));
            assert(now.last() == parts@[i as int]@);
        }
        if t.len() > 0 {
            let s = text::string_of(t.as_slice());
            out.push(s);
            assert(text::texts(out@) =~= text::texts(before).push(s@));
        }
        i = i + 1;
    }
    assert(all.take(i as int) =~= all);
    out
}

/// The first label, from `i` on, that is the step but for the case of letters.
pub open spec fn label_from(actions: Seq<Seq<char>>, step: Seq<char>, i: int) -> Option<int>
    decreases actions.len() - i,
{
    if i >= actions.len() {
        None
    } else if text::lowered(actions[i]) == text::lowered(step) {
        Some(i)
    } else {
        label_from(actions, step, i + 1)
    }
}

/// What is said of a step that a node does not offer.
pub open spec fn no_action(step: Seq<char>, actions: Seq<Seq<char>>) -> Seq<char> {
    "no action "@ + text::debug_text(step) + " at this node (available: "@ + text::joined(
        actions,
        ", "@,
    ) + ")"@
}

/// What a step asks of a session at a node: a card, or one of the actions in
/// either case.
pub fn descend(step: &str, actions: &Vec<String>) -> (r: Result<tree::Replay, String>)
    ensures
        text::begins(step@, "deal "@) ==> (r matches Ok(tree::Replay::Deal(c)) && c@
            == text::trimmed(step@.skip(5))),
        !text::begins(step@, "deal "@) ==> match r {
            Ok(tree::Replay::Play(i)) => i < actions@.len() && label_from(
                text::texts(actions@),
                step@,
                0,
            ) == Some(i as int),
            Ok(tree::Replay::Deal(_)) => false,
            Err(e) => label_from(text::texts(actions@), step@, 0) is None && e@ == no_action(
                step@,
                text::texts(actions@),
            ),
        },
{
    let cs = text::chars_of(step);
    if text::has_prefix(cs.as_slice(), "deal ") {
        proof {
            reveal_strlit("deal ");
        }
        let rest = text::part(cs.as_slice(), 5, cs.len());
        assert(rest@ =~= step@.skip(5));
        let t = text::trim_chars(rest.as_slice());
        return Ok(tree::Replay::Deal(text::string_of(t.as_slice())));
    }
    let mut i: usize = 0;
    while i < actions.len()
        invariant
            i <= actions@.len(),
            !text::begins(step@, "deal "@),
            label_from(text::texts(actions@), step@, 0) == label_from(
                text::texts(actions@),
                step@,
                i as int,
            ),
        decreases actions@.len() - i,
    {
        assert(text::texts(actions@)[i as int] == actions@[i as int]@);
        if text::same_lowered(actions[i].as_str(), step) {
            return Ok(tree::Replay::Play(i));
        }
        i = i + 1;
    }
    let shown = text::to_debug(step);
    let list = text::join_all(actions, ", ");
    let head = text::join3("no action ", shown.as_str(), " at this node (available: ");
    Err(text::join3(head.as_str(), list.as_str(), ")"))
}

/// Whether saved locks can be used for a solve.
#[derive(Debug)]
pub enum LockCheck {
    /// A line was given beside the one of the locks.
    TwoLines,
    /// They are of this other flop.
    OtherFlop(String),
    /// They can; the configuration may be another one.
    Fits { same_config: bool },
}

/// The flop of saved locks: the first three cards of their board.
pub open spec fn saved_flop(board: Seq<Seq<char>>) -> Seq<char> {
    text::joined(
        board.take(
            if board.len() < 3 {
                board.len() as int
            } else {
                3
            },
        ),
        Seq::empty(),
    )
}

/// Whether saved locks can be used for a solve of a flop under a configuration.
pub fn check_locks(
    file: &table::LockFile,
    line_given: bool,
    flop: &str,
    hash: &str,
) -> (r: LockCheck)
    ensures
        ({
            let saved = saved_flop(text::texts(file.board@));
            let same = solution::sorted_texts(solution::flop_pieces(saved))
                == solution::sorted_texts(solution::flop_pieces(flop@));
            match r {
                LockCheck::TwoLines => line_given,
                LockCheck::OtherFlop(s) => !line_given && !same && s@ == saved,
                LockCheck::Fits { same_config } => !line_given && same && same_config == (
                file.config_hash@ == hash@),
            }
        }),
{
    if line_given {
        return LockCheck::TwoLines;
    }
    let mut first: Vec<String> = Vec::new();
    let mut i: usize = 0;
    while i < 3 && i < file.board.len()
        invariant
            i <= 3,
            i <= file.board@.len(),
            first@.len() == i,
            forall|k: int| 0 <= k < i ==> (#[trigger] first@[k])@ == file.board@[k]@,
        decreases 3 - i,
    {
        first.push(text::copy_text(file.board[i].as_str()));
        i = i + 1;
    }
    let saved = text::join_all(&first, "");
    proof {
        reveal_strlit("");
        assert(""@ =~= Seq::<char>::empty());
        let b = text::texts(file.board@);
        assert(text::texts(first@) =~= b.take(
            if b.len() < 3 {
                b.len() as int
            } else {
                3
            },
        ));
    }
    let a = solution::flop_key(saved.as_str());
    let b = solution::flop_key(flop);
    if !text::same_texts(&a, &b) {
        return LockCheck::OtherFlop(saved);
    }
    LockCheck::Fits { same_config: text::same_text(file.config_hash.as_str(), hash) }
}

/// The line that a browse starts with: that of the locks where they have one, and
/// otherwise the one that was given.
pub fn start_line(locks_line: Option<&Vec<String>>, given: Option<&str>) -> (r: Option<String>)
    ensures
        ({
            let saved = match locks_line {
                Some(l) => text::joined(text::texts(l@), ","@),
                None => Seq::empty(),
            };
            match r {
                Some(s) => s@ == if saved.len() > 0 {
                    saved
                } else {
                    (given->0)@
                } && (saved.len() > 0 || given is Some),
                None => saved.len() == 0 && given is None,
            }
        }),
{
    if let Some(l) = locks_line {
        let s = text::join_all(l, ",");
        let cs = text::chars_of(s.as_str());
        if cs.len() > 0 {
            return Some(s);
        }
    }
    match given {
        Some(g) => Some(text::copy_text(g)),
        None => None,
    }
}

// ---------------------------------------------------------------- range drill

/// How many hands a bucket holds before it is split.
pub const SPLIT_MIN: usize = 6;

/// Which half of a bucket a hand is in.
#[derive(Debug, Clone, Copy, PartialEq, Eq, PartialOrd, Ord, Structural)]
pub enum Half {
    /// The bucket is not split.
    Whole,
    Strong,
    Weak,
}

/// A bucket, or one half of it.
#[derive(Debug, Clone, Copy, PartialEq, Eq, PartialOrd, Ord, Structural)]
pub struct Subrange {
    pub bucket: Bucket,
    pub half: Half,
}

impl Subrange {
    /// The name of a bucket, marked where it is a half.
    pub open spec fn name(self) -> Seq<char> {
        match self.half {
            Half::Whole => self.bucket.name(),
            Half::Strong => self.bucket.name() + " ▲"@,
            Half::Weak => self.bucket.name() + " ▽"@,
        }
    }

    /// The name of a bucket, marked where it is a half.
    pub fn text(self) -> (r: String)
        ensures
            r@ == self.name(),
    {
        match self.half {
            Half::Whole => text::copy_text(self.bucket.text()),
            Half::Strong => text::join2(self.bucket.text(), " ▲"),
            Half::Weak => text::join2(self.bucket.text(), " ▽"),
        }
    }
}

/// The first spot, from `i` on, on the same board with the other side to act.
pub open spec fn sibling_from(spots: Seq<SolvedSpot>, spot: SolvedSpot, i: int) -> Option<int>
    decreases spots.len() - i,
{
    if i >= spots.len() {
        None
    } else if text::texts(spots[i].board@) == text::texts(spot.board@) && spots[i].hero_oop
        != spot.hero_oop {
        Some(i)
    } else {
        sibling_from(spots, spot, i + 1)
    }
}

/// The hands, of the first `n` of a spot, that can be read.
pub open spec fn holes_of(v: Seq<solution::HandStrategy>, n: int) -> Seq<[Card; 2]>
    decreases n,
{
    if n <= 0 {
        Seq::empty()
    } else {
        match table::hole_of(v[n - 1].hand@) {
            Some(h) => holes_of(v, n - 1).push(h),
            None => holes_of(v, n - 1),
        }
    }
}

/// The hands of the other side: those of the spot on the same board where it is
/// to act.
pub fn villain_range(spots: &Vec<SolvedSpot>, spot: &SolvedSpot) -> (r: Vec<[Card; 2]>)
    ensures
        r@ == match sibling_from(spots@, *spot, 0) {
            Some(i) => holes_of(
                spots@[i].strategies@,
                spots@[i].strategies@.len() as int,
            ),
            None => Seq::empty(),
        },
{
    let mut out: Vec<[Card; 2]> = Vec::new();
    let mut i: usize = 0;
    while i < spots.len()
        invariant
            i <= spots@.len(),
            out@.len() == 0,
            sibling_from(spots@, *spot, 0) == sibling_from(spots@, *spot, i as int),
        decreases spots@.len() - i,
    {
        if text::same_texts(&spots[i].board, &spot.board) && spots[i].hero_oop != spot.hero_oop {
            let hands = &spots[i].strategies;
            let mut j: usize = 0;
            while j < hands.len()
                invariant
                    j <= hands@.len(),
                    hands@ == spots@[i as int].strategies@,
                    out@ == holes_of(hands@, j as int),
                decreases hands@.len() - j,
            {
                if let Some(h) = table::parse_hole(hands[j].hand.as_str()) {
                    out.push(h);
                }
                j = j + 1;
            }
            return out;
        }
        i = i + 1;
    }
    out
}

/// Numbers as sorting keys: the high half before the low one.
pub open spec fn wide_keys(v: Seq<u64>) -> Seq<Seq<u32>> {
    v.map_values(|x: u64| seq![(x / 0x1_0000_0000) as u32, (x % 0x1_0000_0000) as u32])
}

/// The number in the middle of the sorted ones, the upper of two.
pub open spec fn middle_of(v: Seq<u64>) -> u64 {
    v[order::order_of(wide_keys(v))[v.len() as int / 2] as int]
}

/// The places, of the first `n`, of numbers that reach `m` (or do not).
pub open spec fn places_reaching(v: Seq<u64>, m: u64, reach: bool, n: int) -> Seq<usize>
    decreases n,
{
    if n <= 0 {
        Seq::empty()
    } else if (v[n - 1] >= m) == reach {
        places_reaching(v, m, reach, n - 1).push((n - 1) as usize)
    } else {
        places_reaching(v, m, reach, n - 1)
    }
}

/// Splits hands by their equities at the median into the strong and the weak
/// ones; what equals the median is strong. Equities are given by the bits of
/// numbers that are not negative, which order as the numbers do.
pub fn split_by_median(equities: &Vec<u64>) -> (r: (Vec<usize>, Vec<usize>))
    requires
        equities@.len() > 0,
    ensures
        ({
            let m = middle_of(equities@);
            let n = equities@.len() as int;
            &&& (r.0)@ == places_reaching(equities@, m, true, n)
            &&& (r.1)@ == places_reaching(equities@, m, false, n)
        }),
        (r.0)@.len() > 0,
        forall|i: int| 0 <= i < (r.0)@.len() ==> #[trigger] (r.0)@[i] < equities@.len(),
        forall|i: int| 0 <= i < (r.1)@.len() ==> #[trigger] (r.1)@[i] < equities@.len(),
{
    let n: usize = equities.len();
    let mut keys: Vec<Vec<u32>> = Vec::new();
    let mut i: usize = 0;
    while i < n
        invariant
            i <= n,
            n == equities@.len(),
            keys@.len() == i,
            forall|k: int| 0 <= k < i ==> (#[trigger] keys@[k])@ == wide_keys(equities@)[k],
        decreases n - i,
    {
        let hi: u32 = (equities[i] / 0x1_0000_0000) as u32;
        let lo: u32 = (equities[i] % 0x1_0000_0000) as u32;
        let key = vec![hi, lo];
        assert(key@ =~= wide_keys(equities@)[i as int]);
        keys.push(key);
        i = i + 1;
    }
    let idx = order::sorted_positions(&keys);
    proof {
        assert(order::keys_of(keys@) =~= wide_keys(equities@));
        order::lemma_order_of(wide_keys(equities@), idx@);
    }
    let at: usize = idx[n / 2];
    let m: u64 = equities[at];
    assert(m == middle_of(equities@));
    let mut strong: Vec<usize> = Vec::new();
    let mut weak: Vec<usize> = Vec::new();
    let mut j: usize = 0;
    while j < n
        invariant
            j <= n,
            n == equities@.len(),
            at < n,
            m == equities@[at as int],
            strong@ == places_reaching(equities@, m, true, j as int),
            weak@ == places_reaching(equities@, m, false, j as int),
            at < j ==> strong@.len() > 0,
            forall|i: int| 0 <= i < strong@.len() ==> #[trigger] strong@[i] < n,
            forall|i: int| 0 <= i < weak@.len() ==> #[trigger] weak@[i] < n,
        decreases n - j,
    {
        if equities[j] >= m {
            strong.push(j);
        } else {
            weak.push(j);
        }
        j = j + 1;
    }
    (strong, weak)
}

/// The places, of the first `n` hands of a spot, of those in a bucket.
pub open spec fn bucket_places(
    v: Seq<solution::HandStrategy>,
    flop: [Card; 3],
    b: Bucket,
    n: int,
) -> Seq<usize>
    decreases n,
{
    if n <= 0 {
        Seq::empty()
    } else if table::bucket_on(v[n - 1].hand@, Some(flop)) == Some(b) {
        bucket_places(v, flop, b, n - 1).push((n - 1) as usize)
    } else {
        bucket_places(v, flop, b, n - 1)
    }
}

/// The hands of one part of a range.
#[derive(Debug, Clone)]
pub struct SubrangeGroup {
    pub subrange: Subrange,
    /// The places of its hands in the spot.
    pub places: Vec<usize>,
}

/// A group, as plain values.
pub ghost struct GroupView {
    pub subrange: Subrange,
    pub places: Seq<usize>,
}

/// Groups, as plain values.
pub open spec fn group_views(v: Seq<SubrangeGroup>) -> Seq<GroupView> {
    v.map_values(|g: SubrangeGroup| GroupView { subrange: g.subrange, places: g.places@ })
}

/// The entries at places.
pub open spec fn at_places(v: Seq<u64>, places: Seq<usize>) -> Seq<u64> {
    places.map_values(|i: usize| v[i as int])
}

/// Places among places.
pub open spec fn through(places: Seq<usize>, inner: Seq<usize>) -> Seq<usize> {
    inner.map_values(|i: usize| places[i as int])
}

/// The groups of a bucket: none where it is empty, one where it is small or there
/// are no equities, and its halves otherwise.
pub open spec fn groups_in(
    b: Bucket,
    places: Seq<usize>,
    equities: Option<Seq<u64>>,
) -> Seq<GroupView> {
    if places.len() == 0 {
        Seq::empty()
    } else if equities is None || places.len() < SPLIT_MIN {
        seq![GroupView { subrange: Subrange { bucket: b, half: Half::Whole }, places }]
    } else {
        let v = at_places(equities->0, places);
        let m = middle_of(v);
        let n = v.len() as int;
        let strong = GroupView {
            subrange: Subrange { bucket: b, half: Half::Strong },
            places: through(places, places_reaching(v, m, true, n)),
        };
        let weak = GroupView {
            subrange: Subrange { bucket: b, half: Half::Weak },
            places: through(places, places_reaching(v, m, false, n)),
        };
        if weak.places.len() > 0 {
            seq![strong, weak]
        } else {
            seq![strong]
        }
    }
}

/// The bucket at a place of the order from strong to weak.
pub open spec fn bucket_at(k: int) -> Bucket {
    if k == 0 {
        Bucket::Value
    } else if k == 1 {
        Bucket::Overpair
    } else if k == 2 {
        Bucket::TopPair
    } else if k == 3 {
        Bucket::Pair
    } else if k == 4 {
        Bucket::Draw
    } else {
        Bucket::Air
    }
}

fn nth_bucket(k: usize) -> (r: Bucket)
    ensures
        r == bucket_at(k as int),
{
    if k == 0 {
        Bucket::Value
    } else if k == 1 {
        Bucket::Overpair
    } else if k == 2 {
        Bucket::TopPair
    } else if k == 3 {
        Bucket::Pair
    } else if k == 4 {
        Bucket::Draw
    } else {
        Bucket::Air
    }
}

/// The groups of the first `k` buckets.
pub open spec fn groups_before(
    v: Seq<solution::HandStrategy>,
    flop: [Card; 3],
    equities: Option<Seq<u64>>,
    k: int,
) -> Seq<GroupView>
    decreases k,
{
    if k <= 0 {
        Seq::empty()
    } else {
        groups_before(v, flop, equities, k - 1) + groups_in(
            bucket_at(k - 1),
            bucket_places(v, flop, bucket_at(k - 1), v.len() as int),
            equities,
        )
    }
}

fn pick_places(places: &Vec<usize>, inner: &Vec<usize>) -> (r: Vec<usize>)
    requires
        forall|i: int| 0 <= i < inner@.len() ==> #[trigger] inner@[i] < places@.len(),
    ensures
        r@ == through(places@, inner@),
{
    let mut out: Vec<usize> = Vec::new();
    let mut i: usize = 0;
    while i < inner.len()
        invariant
            i <= inner@.len(),
            forall|i: int| 0 <= i < inner@.len() ==> #[trigger] inner@[i] < places@.len(),
            out@.len() == i,
            forall|k: int| 0 <= k < i ==> #[trigger] out@[k] == places@[inner@[k] as int],
        decreases inner@.len() - i,
    {
        out.push(places[inner[i]]);
        i = i + 1;
    }
    assert(out@ =~= through(places@, inner@));
    out
}

fn split_bucket(b: Bucket, places: Vec<usize>, equities: &Vec<u64>) -> (r: Vec<SubrangeGroup>)
    requires
        places@.len() >= SPLIT_MIN,
        forall|i: int| 0 <= i < places@.len() ==> #[trigger] places@[i] < equities@.len(),
    ensures
        group_views(r@) == groups_in(b, places@, Some(equities@)),
{
    let mut own: Vec<u64> = Vec::new();
    let mut i: usize = 0;
    while i < places.len()
        invariant
            i <= places@.len(),
            forall|i: int| 0 <= i < places@.len() ==> #[trigger] places@[i] < equities@.len(),
            own@.len() == i,
            forall|k: int| 0 <= k < i ==> #[trigger] own@[k] == equities@[places@[k] as int],
        decreases places@.len() - i,
    {
        own.push(equities[places[i]]);
        i = i + 1;
    }
    assert(own@ =~= at_places(equities@, places@));
    let (strong, weak) = split_by_median(&own);
    let mut out: Vec<SubrangeGroup> = Vec::new();
    let s = SubrangeGroup {
        subrange: Subrange { bucket: b, half: Half::Strong },
        places: pick_places(&places, &strong),
    };
    let w = SubrangeGroup {
        subrange: Subrange { bucket: b, half: Half::Weak },
        places: pick_places(&places, &weak),
    };
    out.push(s);
    if weak.len() > 0 {
        out.push(w);
    }
    assert(group_views(out@) =~= groups_in(b, places@, Some(equities@)));
    out
}

/// Groups the hands of a spot by bucket, from strong to weak, and splits a bucket
/// that is large enough by its hands' equities. Hands that cannot be read are
/// left out.
pub fn group_by_subrange(
    hands: &Vec<solution::HandStrategy>,
    flop: [Card; 3],
    equities: &Option<Vec<u64>>,
) -> (r: Vec<SubrangeGroup>)
    requires
        board::all_cards(flop@),
        equities matches Some(e) ==> e@.len() == hands@.len(),
    ensures
        group_views(r@) == groups_before(
            hands@,
            flop,
            match equities {
                Some(e) => Some(e@),
                None => None,
            },
            6,
        ),
{
    let ghost eq = match equities {
        Some(e) => Some(e@),
        None => None,
    };
    let mut out: Vec<SubrangeGroup> = Vec::new();
    let mut k: usize = 0;
    assert(group_views(out@) =~= groups_before(hands@, flop, eq, 0));
    while k < 6
        invariant
            k <= 6,
            board::all_cards(flop@),
            equities matches Some(e) ==> e@.len() == hands@.len(),
            eq == match equities {
                Some(e) => Some(e@),
                None => None,
            },
            group_views(out@) == groups_before(hands@, flop, eq, k as int),
        decreases 6 - k,
    {
        let b = nth_bucket(k);
        let mut places: Vec<usize> = Vec::new();
        let mut i: usize = 0;
        while i < hands.len()
            invariant
                i <= hands@.len(),
                board::all_cards(flop@),
                places@ == bucket_places(hands@, flop, b, i as int),
                forall|j: int| 0 <= j < places@.len() ==> #[trigger] places@[j] < hands@.len(),
            decreases hands@.len() - i,
        {
            if let Some(h) = table::parse_hole(hands[i].hand.as_str()) {
                if eval::classify_hand(h, flop) == b {
                    places.push(i);
                }
            }
            i = i + 1;
        }
        let ghost before = out@;
        let ghost here = places@;
        if places.len() > 0 {
            if let Some(e) = equities {
                if places.len() >= SPLIT_MIN {
                    let mut parts = split_bucket(b, places, e);
                    let ghost added = parts@;
                    out.append(&mut parts);
                    assert(group_views(out@) =~= group_views(before) + group_views(added));
                    k = k + 1;
                    continue;
                }
            }
            let g = SubrangeGroup { subrange: Subrange { bucket: b, half: Half::Whole }, places };
            out.push(g);
            assert(group_views(out@) =~= group_views(before) + groups_in(b, here, eq));
        } else {
            assert(group_views(out@) =~= group_views(before) + groups_in(b, here, eq));
        }
        k = k + 1;
    }
    out
}

/// Played often enough to be part of the strategy.
pub open spec fn in_mix(freq: F32) -> bool {
    freq.reaches(F32 { bits: stats::GTO_ACTION_FREQ })
}

/// Whether an action is played often enough to be part of the strategy.
pub fn on_gto_action(freq: F32) -> (r: bool)
    ensures
        r == in_mix(freq),
{
    freq.ge(F32 { bits: stats::GTO_ACTION_FREQ })
}

/// How many of the first `n` hands play the action as part of their strategy.
pub open spec fn matched_of(
    hands: Seq<solution::HandStrategy>,
    places: Seq<usize>,
    action: int,
    n: int,
) -> nat
    decreases n,
{
    if n <= 0 {
        0
    } else {
        matched_of(hands, places, action, n - 1) + if in_mix(
            hands[places[n - 1] as int].strategy.frequencies@[action],
        ) {
            1nat
        } else {
            0nat
        }
    }
}

/// How many hands of a group play the action as part of their strategy.
pub fn matched(hands: &Vec<solution::HandStrategy>, places: &Vec<usize>, action: usize) -> (r:
    usize)
    requires
        forall|i: int|
            0 <= i < places@.len() ==> #[trigger] places@[i] < hands@.len() && action
                < hands@[places@[i] as int].strategy.frequencies@.len(),
    ensures
        r == matched_of(hands@, places@, action as int, places@.len() as int),
{
    let mut n: usize = 0;
    let mut i: usize = 0;
    while i < places.len()
        invariant
            i <= places@.len(),
            n <= i,
            forall|i: int|
                0 <= i < places@.len() ==> #[trigger] places@[i] < hands@.len() && action
                    < hands@[places@[i] as int].strategy.frequencies@.len(),
            n == matched_of(hands@, places@, action as int, i as int),
        decreases places@.len() - i,
    {
        let at: usize = places[i];
        if on_gto_action(hands[at].strategy.frequencies[action]) {
            n = n + 1;
        }
        i = i + 1;
    }
    n
}

/// How many hands are in groups.
pub open spec fn grouped_hands(v: Seq<GroupView>) -> nat
    decreases v.len(),
{
    if v.len() == 0 {
        0
    } else {
        grouped_hands(v.drop_last()) + v.last().places.len()
    }
}

proof fn lemma_grouped_concat(a: Seq<GroupView>, b: Seq<GroupView>)
    ensures
        grouped_hands(a + b) == grouped_hands(a) + grouped_hands(b),
    decreases b.len(),
{
    if b.len() == 0 {
        assert(a + b =~= a);
    } else {
        lemma_grouped_concat(a, b.drop_last());
        assert((a + b).drop_last() =~= a + b.drop_last());
        assert((a + b).last() == b.last());
    }
}

proof fn lemma_halves(v: Seq<u64>, m: u64, n: int)
    requires
        0 <= n <= v.len(),
    ensures
        places_reaching(v, m, true, n).len() + places_reaching(v, m, false, n).len() == n,
    decreases n,
{
    if n > 0 {
        lemma_halves(v, m, n - 1);
    }
}

proof fn lemma_bucket_size(b: Bucket, places: Seq<usize>, equities: Option<Seq<u64>>)
    ensures
        grouped_hands(groups_in(b, places, equities)) == places.len(),
{
    reveal_with_fuel(grouped_hands, 3);
    let g = groups_in(b, places, equities);
    if places.len() == 0 {
    } else if equities is None || places.len() < SPLIT_MIN {
        assert(g.drop_last() =~= Seq::empty());
    } else {
        let v = at_places(equities->0, places);
        lemma_halves(v, middle_of(v), v.len() as int);
        if g.len() == 2 {
            assert(g.drop_last().drop_last() =~= Seq::empty());
            assert(g.drop_last().last() == g[0]);
        } else {
            assert(g.drop_last() =~= Seq::empty());
        }
    }
}

proof fn lemma_buckets_size(
    v: Seq<solution::HandStrategy>,
    flop: [Card; 3],
    n: int,
)
    requires
        0 <= n <= v.len(),
    ensures
        holes_of(v, n).len() == bucket_places(v, flop, Bucket::Value, n).len() + bucket_places(
            v,
            flop,
            Bucket::Overpair,
            n,
        ).len() + bucket_places(v, flop, Bucket::TopPair, n).len() + bucket_places(
            v,
            flop,
            Bucket::Pair,
            n,
        ).len() + bucket_places(v, flop, Bucket::Draw, n).len() + bucket_places(
            v,
            flop,
            Bucket::Air,
            n,
        ).len(),
    decreases n,
{
    if n > 0 {
        lemma_buckets_size(v, flop, n - 1);
    }
}

/// Every hand that can be read is in one group: the groups hold as many hands as
/// there are.
pub proof fn every_hand_is_grouped(
    v: Seq<solution::HandStrategy>,
    flop: [Card; 3],
    equities: Option<Seq<u64>>,
)
    ensures
        grouped_hands(groups_before(v, flop, equities, 6)) == holes_of(v, v.len() as int).len(),
{
    let n = v.len() as int;
    reveal_with_fuel(groups_before, 7);
    assert forall|k: int| 1 <= k <= 6 implies #[trigger] grouped_hands(
        groups_before(v, flop, equities, k),
    ) == grouped_hands(groups_before(v, flop, equities, k - 1)) + bucket_places(
        v,
        flop,
        bucket_at(k - 1),
        n,
    ).len() by {
        let places = bucket_places(v, flop, bucket_at(k - 1), n);
        lemma_bucket_size(bucket_at(k - 1), places, equities);
        lemma_grouped_concat(
            groups_before(v, flop, equities, k - 1),
            groups_in(bucket_at(k - 1), places, equities),
        );
    }
    assert(grouped_hands(groups_before(v, flop, equities, 0)) == 0);
    assert(grouped_hands(groups_before(v, flop, equities, 1)) == bucket_places(
        v,
        flop,
        Bucket::Value,
        n,
    ).len());
    assert(grouped_hands(groups_before(v, flop, equities, 2)) == grouped_hands(
        groups_before(v, flop, equities, 1),
    ) + bucket_places(v, flop, Bucket::Overpair, n).len());
    assert(grouped_hands(groups_before(v, flop, equities, 3)) == grouped_hands(
        groups_before(v, flop, equities, 2),
    ) + bucket_places(v, flop, Bucket::TopPair, n).len());
    assert(grouped_hands(groups_before(v, flop, equities, 4)) == grouped_hands(
        groups_before(v, flop, equities, 3),
    ) + bucket_places(v, flop, Bucket::Pair, n).len());
    assert(grouped_hands(groups_before(v, flop, equities, 5)) == grouped_hands(
        groups_before(v, flop, equities, 4),
    ) + bucket_places(v, flop, Bucket::Draw, n).len());
    lemma_buckets_size(v, flop, n);
}

// ---------------------------------------------------------------- hand drill

/// Every hand can be cut into cards.
pub open spec fn all_cut(hands: Seq<String>) -> bool {
    forall|i: int| 0 <= i < hands.len() ==> cuts_cleanly((#[trigger] hands[i])@)
}

/// The hands, of the first `n`, that share no card with the hero's.
pub open spec fn live_of(hands: Seq<Seq<char>>, hero: Seq<char>, n: int) -> Seq<Seq<char>>
    decreases n,
{
    if n <= 0 {
        Seq::empty()
    } else if !overlap(hands[n - 1], hero) {
        live_of(hands, hero, n - 1).push(hands[n - 1])
    } else {
        live_of(hands, hero, n - 1)
    }
}

/// The hands that the other side can hold against the hero's.
pub fn live_hands(hands: &Vec<String>, hero: &str) -> (r: Vec<String>)
    requires
        all_cut(hands@),
        cuts_cleanly(hero@),
    ensures
        text::texts(r@) == live_of(text::texts(hands@), hero@, hands@.len() as int),
{
    let mut out: Vec<String> = Vec::new();
    let mut i: usize = 0;
    assert(text::texts(out@) =~= Seq::empty());
    while i < hands.len()
        invariant
            i <= hands@.len(),
            all_cut(hands@),
            cuts_cleanly(hero@),
            text::texts(out@) == live_of(text::texts(hands@), hero@, i as int),
        decreases hands@.len() - i,
    {
        assert(text::texts(hands@)[i as int] == hands@[i as int]@);
        assert(cuts_cleanly(hands@[i as int]@));
        if !shares_card(hands[i].as_str(), hero) {
            let ghost before = out@;
            let h = text::copy_text(hands[i].as_str());
            out.push(h);
            assert(text::texts(out@) =~= text::texts(before).push(h@));
        }
        i = i + 1;
    }
    out
}

/// The cards, of the first `n`, that neither hand holds.
pub open spec fn free_cards(
    cards: Seq<Seq<char>>,
    hero: Seq<char>,
    villain: Seq<char>,
    n: int,
) -> Seq<Seq<char>>
    decreases n,
{
    if n <= 0 {
        Seq::empty()
    } else if !chunks_of(hero).contains(cards[n - 1]) && !chunks_of(villain).contains(
        cards[n - 1],
    ) {
        free_cards(cards, hero, villain, n - 1).push(cards[n - 1])
    } else {
        free_cards(cards, hero, villain, n - 1)
    }
}

/// What happens next in a hand that is played out.
#[derive(Debug)]
pub enum HandMove {
    /// The hand is over.
    Over,
    /// One of these cards is dealt.
    Deal(Vec<String>),
    /// The hero decides, with the hand at this place.
    Hero(usize),
    /// The other side acts, its hand being at this place.
    Villain(usize),
    /// The hand that is to act is not in its range.
    Missing,
}

/// What happens next at a node.
pub open spec fn moves(
    m: HandMove,
    node: TreeNode,
    hero_seat: Seq<char>,
    hero: Seq<char>,
    villain: Seq<char>,
) -> bool {
    let hands = text::texts(node.hands@);
    if node.player@ == "terminal"@ {
        m is Over
    } else if node.player@ == "chance"@ {
        m matches HandMove::Deal(c) && text::texts(c@) == free_cards(
            text::texts(node.dealable@),
            hero,
            villain,
            node.dealable@.len() as int,
        )
    } else if node.player@ == hero_seat {
        match m {
            HandMove::Hero(i) => tree::first_place(hands, hero, i as int),
            HandMove::Missing => !hands.contains(hero),
            _ => false,
        }
    } else {
        match m {
            HandMove::Villain(i) => tree::first_place(hands, villain, i as int),
            HandMove::Missing => !hands.contains(villain),
            _ => false,
        }
    }
}

/// What happens next at a node: a card that neither hand holds is dealt, the hero
/// decides, or the other side acts by its own hand's strategy.
pub fn play_hand(node: &TreeNode, hero_seat: &str, hero: &str, villain: &str) -> (r: HandMove)
    requires
        cuts_cleanly(hero@),
        cuts_cleanly(villain@),
    ensures
        moves(r, *node, hero_seat@, hero@, villain@),
{
    if text::same_text(node.player.as_str(), "terminal") {
        return HandMove::Over;
    }
    if text::same_text(node.player.as_str(), "chance") {
        let mut out: Vec<String> = Vec::new();
        let mut i: usize = 0;
        assert(text::texts(out@) =~= Seq::empty());
        while i < node.dealable.len()
            invariant
                i <= node.dealable@.len(),
                cuts_cleanly(hero@),
                cuts_cleanly(villain@),
                text::texts(out@) == free_cards(
                    text::texts(node.dealable@),
                    hero@,
                    villain@,
                    i as int,
                ),
            decreases node.dealable@.len() - i,
        {
            assert(text::texts(node.dealable@)[i as int] == node.dealable@[i as int]@);
            let c = node.dealable[i].as_str();
            if !blocks(hero, c) && !blocks(villain, c) {
                let ghost before = out@;
                let card = text::copy_text(c);
                out.push(card);
                assert(text::texts(out@) =~= text::texts(before).push(card@));
            }
            i = i + 1;
        }
        return HandMove::Deal(out);
    }
    if text::same_text(node.player.as_str(), hero_seat) {
        match tree::position_of(&node.hands, hero) {
            Some(i) => HandMove::Hero(i),
            None => HandMove::Missing,
        }
    } else {
        match tree::position_of(&node.hands, villain) {
            Some(i) => HandMove::Villain(i),
            None => HandMove::Missing,
        }
    }
}

/// A card that is dealt in a hand is held by nobody.
pub proof fn dealt_cards_are_free(
    cards: Seq<Seq<char>>,
    hero: Seq<char>,
    villain: Seq<char>,
    n: int,
    c: Seq<char>,
)
    requires
        0 <= n <= cards.len(),
        free_cards(cards, hero, villain, n).contains(c),
    ensures
        cards.contains(c),
        !chunks_of(hero).contains(c),
        !chunks_of(villain).contains(c),
    decreases n,
{
    if n > 0 {
        let before = free_cards(cards, hero, villain, n - 1);
        let i = free_cards(cards, hero, villain, n).index_of(c);
        if i < before.len() {
            assert(before[i] == c);
            dealt_cards_are_free(cards, hero, villain, n - 1, c);
        } else {
            assert(cards[n - 1] == c);
        }
    }
}

proof fn lemma_free_cards_filter(
    cards: Seq<Seq<char>>,
    hero: Seq<char>,
    villain: Seq<char>,
    n: int,
    free: spec_fn(Seq<char>) -> bool,
)
    requires
        0 <= n <= cards.len(),
        forall|c: Seq<char>| #[trigger]
            free(c) == (!chunks_of(hero).contains(c) && !chunks_of(villain).contains(c)),
    ensures
        free_cards(cards, hero, villain, n) == cards.take(n).filter(free),
    decreases n,
{
    reveal(Seq::filter);
    if n > 0 {
        lemma_free_cards_filter(cards, hero, villain, n - 1, free);
        assert(cards.take(n).drop_last() =~= cards.take(n - 1));
        assert(cards.take(n).last() == cards[n - 1]);
        assert(free(cards[n - 1]) == (!chunks_of(hero).contains(cards[n - 1]) && !chunks_of(
            villain,
        ).contains(cards[n - 1])));
    } else {
        assert(cards.take(n) =~= Seq::empty());
    }
}

/// A runout comes from the whole unblocked deck: where a card is to be dealt, the
/// cards to draw from are the dealable ones that neither hand holds, all of them,
/// as often and in the order in which they are listed.
pub proof fn every_free_card_can_come(
    m: HandMove,
    node: TreeNode,
    hero_seat: Seq<char>,
    hero: Seq<char>,
    villain: Seq<char>,
)
    requires
        node.player@ == "chance"@,
        moves(m, node, hero_seat, hero, villain),
    ensures
        m is Deal,
        m matches HandMove::Deal(dealt) ==> {
            &&& text::texts(dealt@) == text::texts(node.dealable@).filter(
                |c: Seq<char>| !chunks_of(hero).contains(c) && !chunks_of(villain).contains(c),
            )
            &&& forall|c: Seq<char>|
                #![trigger text::texts(dealt@).contains(c)]
                text::texts(dealt@).contains(c) <==> text::texts(node.dealable@).contains(c)
                    && !chunks_of(hero).contains(c) && !chunks_of(villain).contains(c)
        },
{
    reveal_strlit("terminal");
    reveal_strlit("chance");
    assert("terminal"@[0] == 't' && "chance"@[0] == 'c');
    let cards = text::texts(node.dealable@);
    let free = |c: Seq<char>| !chunks_of(hero).contains(c) && !chunks_of(villain).contains(c);
    lemma_free_cards_filter(cards, hero, villain, cards.len() as int, free);
    assert(cards.take(cards.len() as int) =~= cards);
    assert forall|c: Seq<char>|
        #![trigger cards.filter(free).contains(c)]
        cards.filter(free).contains(c) <==> cards.contains(c) && free(c) by {
        broadcast use Seq::lemma_filter_contains;
        broadcast use Seq::lemma_filter_pred;

        if cards.filter(free).contains(c) {
            let i = cards.filter(free).index_of(c);
            cards.lemma_filter_pred(free, i);
            dealt_cards_are_free(cards, hero, villain, cards.len() as int, c);
        }
        if cards.contains(c) && free(c) {
            let i = cards.index_of(c);
            cards.lemma_filter_contains(free, i);
        }
    }
}

/// The strategy of one hand at a node.
pub fn strategy_at(node: &TreeNode, hand: usize) -> (r: NodeStrategy)
    requires
        hand < node.hands@.len(),
        table::rows_reach(node.freqs@, node.hands@.len() as int),
        table::rows_reach(node.evs@, node.hands@.len() as int),
    ensures
        text::texts(r.actions@) == text::texts(node.actions@),
        r.frequencies@ == table::column(node.freqs@, hand as int),
        r.action_ev@ == table::column(node.evs@, hand as int),
{
    NodeStrategy {
        actions: text::copy_texts(&node.actions),
        frequencies: table::take_column(&node.freqs, hand, node.hands.len()),
        action_ev: table::take_column(&node.evs, hand, node.hands.len()),
    }
}

/// One decision of the hero, for the replay of the hand.
#[derive(Debug, Clone)]
pub struct HandDecision {
    pub street: &'static str,
    pub line: String,
    pub chosen: String,
    pub best: String,
    pub freq: F32,
}

/// Writes down a decision of the hero at a node.
pub fn hero_decision(node: &TreeNode, ns: &NodeStrategy, chosen: usize) -> (r: HandDecision)
    requires
        chosen < ns.actions@.len(),
        ns.actions@.len() == ns.frequencies@.len(),
        ns.actions@.len() == ns.action_ev@.len(),
    ensures
        r.street@ == if node.board@.len() <= 3 {
            "flop"@
        } else if node.board@.len() == 4 {
            "turn"@
        } else {
            "river"@
        },
        r.line@ == text::joined(text::texts(node.line@), " · "@),
        r.chosen@ == ns.actions@[chosen as int]@,
        exists|b: int|
            #[trigger] solution::is_best(ns.action_ev@, b) && r.best@ == ns.actions@[b]@,
        r.freq == ns.frequencies@[chosen as int],
{
    let best: usize = ns.best();
    HandDecision {
        street: street_name(node.board.len()),
        line: text::join_all(&node.line, " · "),
        chosen: text::copy_text(ns.actions[chosen].as_str()),
        best: text::copy_text(ns.actions[best].as_str()),
        freq: ns.frequencies[chosen],
    }
}

/// The actions, of the first `n`, that are part of the mix, each with its percent.
pub open spec fn mix_parts(
    actions: Seq<Seq<char>>,
    freqs: Seq<F32>,
    percents: Seq<Seq<char>>,
    n: int,
) -> Seq<Seq<char>>
    decreases n,
{
    if n <= 0 {
        Seq::empty()
    } else if in_mix(freqs[n - 1]) {
        mix_parts(actions, freqs, percents, n - 1).push(
            actions[n - 1] + " "@ + percents[n - 1] + "%"@,
        )
    } else {
        mix_parts(actions, freqs, percents, n - 1)
    }
}

/// The mix of a strategy, such as `"Check 55% / Bet 2.0bb 45%"`: the actions that
/// are part of it, with the percents that are given for each action.
pub fn fmt_mix(actions: &Vec<String>, freqs: &Vec<F32>, percents: &Vec<String>) -> (r: String)
    requires
        actions@.len() == freqs@.len(),
        actions@.len() == percents@.len(),
    ensures
        r@ == text::joined(
            mix_parts(
                text::texts(actions@),
                freqs@,
                text::texts(percents@),
                actions@.len() as int,
            ),
            " / "@,
        ),
{
    let mut out: Vec<String> = Vec::new();
    let mut i: usize = 0;
    assert(text::texts(out@) =~= Seq::empty());
    while i < actions.len()
        invariant
            i <= actions@.len(),
            actions@.len() == freqs@.len(),
            actions@.len() == percents@.len(),
            text::texts(out@) == mix_parts(
                text::texts(actions@),
                freqs@,
                text::texts(percents@),
                i as int,
            ),
        decreases actions@.len() - i,
    {
        assert(text::texts(actions@)[i as int] == actions@[i as int]@);
        assert(text::texts(percents@)[i as int] == percents@[i as int]@);
        if on_gto_action(freqs[i]) {
            let ghost before = out@;
            let s = text::join3(actions[i].as_str(), " ", percents[i].as_str());
            let t = text::join2(s.as_str(), "%");
            out.push(t);
            assert(text::texts(out@) =~= text::texts(before).push(t@));
        }
        i = i + 1;
    }
    text::join_all(&out, " / ")
}

// ---------------------------------------------------------------- records

/// What a drill writes down about a decision, apart from where it happened.
#[derive(Debug)]
pub struct Scored {
    pub chosen: String,
    pub best: String,
    pub ev_loss: Option<F32>,
    pub gto_freq: Option<F32>,
}

/// The record of a decision on a flop or later.
pub open spec fn on_board(
    r: StatRecord,
    board: Seq<Seq<char>>,
    hand: Seq<char>,
    formation: Seq<char>,
    street: Seq<char>,
    line: Seq<Seq<char>>,
) -> bool {
    &&& r.formation@ == formation
    &&& r.flop@ == text::lower_case(text::joined(board, Seq::empty()))
    &&& r.texture@ == match flop_of(board) {
        Some(f) => texture::texture_of(f).name(),
        None => Seq::empty(),
    }
    &&& r.street@ == street
    &&& r.hand@ == hand
    &&& text::texts(r.line@) == line
}

/// The bucket that a record gives a hand on a board.
pub open spec fn bucket_name(board: Seq<Seq<char>>, hand: Seq<char>) -> Seq<char> {
    match (flop_of(board), table::hole_of(hand)) {
        (Some(f), Some(h)) => eval::bucket_of(
            eval::best_five(eval::codes_of(eval::five(h, f))).0,
            h,
            f,
        ).name(),
        _ => Seq::empty(),
    }
}

/// The record takes over what was scored.
pub open spec fn scores(r: StatRecord, s: Scored) -> bool {
    &&& r.chosen@ == s.chosen@
    &&& r.best@ == s.best@
    &&& r.ev_loss == s.ev_loss
    &&& r.gto_freq == s.gto_freq
}

/// The record of a decision before the flop.
pub fn preflop_record(
    ts: u64,
    ruleset: &str,
    hero: [Card; 2],
    line: Vec<String>,
    scored: Scored,
) -> (r: StatRecord)
    requires
        board::all_cards(hero@),
    ensures
        r.v == 1,
        r.ts == ts,
        r.drill@ == "preflop"@,
        r.formation@ == ruleset@,
        r.flop@.len() == 0,
        r.texture@.len() == 0,
        r.street@ == "preflop"@,
        r.hand@ == iso::card_text(hero[0].index()) + iso::card_text(hero[1].index()),
        r.bucket@ == preflop::class_text(preflop::class_of(hero[0], hero[1])),
        r.line == line,
        scores(r, scored),
{
    assert(hero@[0].wf() && hero@[1].wf());
    let mut r = StatRecord::new("preflop", ts);
    let a = hero[0].text();
    let b = hero[1].text();
    r.formation = text::copy_text(ruleset);
    r.street = text::copy_text("preflop");
    r.hand = text::join2(a.as_str(), b.as_str());
    r.bucket = preflop::class_name(preflop::class_index(hero));
    r.line = line;
    r.chosen = scored.chosen;
    r.best = scored.best;
    r.ev_loss = scored.ev_loss;
    r.gto_freq = scored.gto_freq;
    r
}

/// The record of a decision of a drill on a board. The bucket is that of the hand
/// on the flop.
pub fn board_record(
    ts: u64,
    drill: &str,
    board: &Vec<String>,
    hand: &str,
    formation: &str,
    street: &str,
    line: Vec<String>,
    scored: Scored,
) -> (r: StatRecord)
    ensures
        r.v == 1,
        r.ts == ts,
        r.drill@ == drill@,
        on_board(r, text::texts(board@), hand@, formation@, street@, text::texts(line@)),
        r.bucket@ == bucket_name(text::texts(board@), hand@),
        scores(r, scored),
{
    let mut r = StatRecord::new(drill, ts);
    let (tex, bucket) = flop_context(board, hand);
    let joined = text::join_all(board, "");
    proof {
        reveal_strlit("");
        assert(""@ =~= Seq::<char>::empty());
    }
    r.formation = text::copy_text(formation);
    r.flop = text::to_lower_case(joined.as_str());
    r.texture = tex;
    r.street = text::copy_text(street);
    r.hand = text::copy_text(hand);
    r.bucket = bucket;
    r.line = line;
    r.chosen = scored.chosen;
    r.best = scored.best;
    r.ev_loss = scored.ev_loss;
    r.gto_freq = scored.gto_freq;
    r
}

/// The record of a decision in the drill of single spots.
pub fn gto_record(ts: u64, spot: &SolvedSpot, hand: &str, scored: Scored) -> (r: StatRecord)
    ensures
        r.v == 1,
        r.ts == ts,
        r.drill@ == "gto"@,
        on_board(
            r,
            text::texts(spot.board@),
            hand@,
            report::formation_name(*spot),
            "flop"@,
            seq![spot.villain_action@],
        ),
        r.bucket@ == bucket_name(text::texts(spot.board@), hand@),
        scores(r, scored),
{
    let mut line: Vec<String> = Vec::new();
    line.push(text::copy_text(spot.villain_action.as_str()));
    assert(text::texts(line@) =~= seq![spot.villain_action@]);
    board_record(
        ts,
        "gto",
        &spot.board,
        hand,
        report::formation_of(spot),
        "flop",
        line,
        scored,
    )
}

/// The record of what was assigned to a part of a range: it speaks for no single
/// hand and has no best action.
pub fn range_record(
    ts: u64,
    spot: &SolvedSpot,
    subrange: Subrange,
    chosen: &str,
    ev_loss: F32,
    gto_freq: F32,
) -> (r: StatRecord)
    ensures
        r.v == 1,
        r.ts == ts,
        r.drill@ == "range"@,
        on_board(
            r,
            text::texts(spot.board@),
            Seq::empty(),
            report::formation_name(*spot),
            "flop"@,
            seq![spot.villain_action@],
        ),
        r.bucket@ == subrange.bucket.name(),
        r.chosen@ == chosen@,
        r.best@.len() == 0,
        r.ev_loss == Some(ev_loss),
        r.gto_freq == Some(gto_freq),
{
    let scored = Scored {
        chosen: text::copy_text(chosen),
        best: String::new(),
        ev_loss: Some(ev_loss),
        gto_freq: Some(gto_freq),
    };
    proof {
        reveal_strlit("");
        assert(""@ =~= Seq::<char>::empty());
    }
    let mut line: Vec<String> = Vec::new();
    line.push(text::copy_text(spot.villain_action.as_str()));
    assert(text::texts(line@) =~= seq![spot.villain_action@]);
    let mut r = board_record(
        ts,
        "range",
        &spot.board,
        "",
        report::formation_of(spot),
        "flop",
        line,
        scored,
    );
    r.bucket = text::copy_text(subrange.bucket.text());
    r
}

/// The record of a decision in the drill of whole hands.
pub fn hand_record(
    ts: u64,
    flop: &Vec<String>,
    hero: &str,
    formation: &str,
    node: &TreeNode,
    d: &HandDecision,
    ev_loss: F32,
) -> (r: StatRecord)
    ensures
        r.v == 1,
        r.ts == ts,
        r.drill@ == "hand"@,
        on_board(r, text::texts(flop@), hero@, formation@, d.street@, text::texts(node.line@)),
        r.bucket@ == bucket_name(text::texts(flop@), hero@),
        r.chosen@ == d.chosen@,
        r.best@ == d.best@,
        r.ev_loss == Some(ev_loss),
        r.gto_freq == Some(d.freq),
{
    let scored = Scored {
        chosen: text::copy_text(d.chosen.as_str()),
        best: text::copy_text(d.best.as_str()),
        ev_loss: Some(ev_loss),
        gto_freq: Some(d.freq),
    };
    board_record(
        ts,
        "hand",
        flop,
        hero,
        formation,
        d.street,
        text::copy_texts(&node.line),
        scored,
    )
}

/// A packed text of plain characters holds its cards two characters each.
pub proof fn packed_cards_have_two_characters(s: Seq<char>, i: int)
    requires
        vstd::utf8::is_ascii_chars(s),
        0 <= i,
        2 * i + 2 <= s.len(),
    ensures
        chunks_of(s).len() == s.len() / 2,
        chunks_of(s)[i] == s.subrange(2 * i, 2 * i + 2),
{
    vstd::utf8::is_ascii_chars_encode_utf8(s);
    let b = vstd::utf8::encode_utf8(s);
    let t = s.subrange(2 * i, 2 * i + 2);
    vstd::utf8::is_ascii_chars_encode_utf8(t);
    let e = vstd::utf8::encode_utf8(t);
    assert(e =~= b.subrange(2 * i, 2 * i + 2));
    vstd::utf8::encode_utf8_decode_utf8(t);
}

/// The number of an action, typed, chooses that action; 0 and numbers that are too
/// high choose none.
pub proof fn numbers_choose_their_action(k: int, n: int)
    requires
        0 <= k,
        0 <= n <= usize::MAX,
    ensures
        1 <= k <= n ==> pick_number(text::decimal(k), n) == Pick::At((k - 1) as usize),
        !(1 <= k <= n) ==> pick_number(text::decimal(k), n) is Retry,
{
    if k <= n {
        text::decimals_read_back(k, n);
    } else {
        text::decimals_read_back(k, k);
    }
}

/// A betting round that goes on to the flop is a line that closes to one, with what
/// was called in the pot where it was called.
pub proof fn flops_are_reached_by_closing_lines(c: PreflopCharts, path: Seq<char>, label: Seq<char>)
    requires
        c.stored(path),
        !c.stored(preflop::longer(path, preflop::token_of_label(label))),
        !game::path_tokens(path).contains("ai"@),
    ensures
        step_of(path, label) matches Step::Flop { called } ==> match c.closing_pot(
            preflop::longer(path, preflop::token_of_label(label)),
        ) {
            Some(preflop::FlopPot::Pot(p)) => !called && p == c.at(path).pot_bb,
            Some(preflop::FlopPot::PotAndCall(p, q)) => called && p == c.at(path).pot_bb && q
                == c.at(path).to_call_bb,
            None => false,
        },
{
    reveal_strlit("Fold");
    reveal_strlit("All-in");
    reveal_strlit("Check");
    reveal_strlit("Call");
    reveal_strlit("x");
    reveal_strlit("c");
    reveal_strlit("f");
    assert("Fold"@[0] == 'F' && "All-in"@[0] == 'A' && "Check"@[1] == 'h' && "Call"@[1] == 'a');
    let tok = preflop::token_of_label(label);
    if step_of(path, label) is Flop {
        assert(tok == "x"@ || tok == "c"@);
        assert(tok.len() == 1 && tok[0] != '-' && tok[0] != 'f');
        assert("f"@[0] == 'f');
        assert(!tok.contains('-'));
        c.checks_and_calls_close_to_a_flop(path, tok);
    }
}

/// Every holding can be dealt from its class, in one order or the other.
pub proof fn every_holding_can_be_dealt(x: Card, y: Card) -> (r: (int, int))
    requires
        x.wf(),
        y.wf(),
        x != y,
    ensures
        0 <= r.0 < 4,
        0 <= r.1 < 3,
        ({
            let h = combo_at(preflop::class_of(x, y), r.0, r.1);
            (h[0] == x && h[1] == y) || (h[0] == y && h[1] == x)
        }),
{
    let (p, q) = if x.rank >= y.rank {
        (x, y)
    } else {
        (y, x)
    };
    let (hi, lo) = (14 - p.rank, 14 - q.rank);
    let i = preflop::class_of(x, y);
    let a = 3 - p.suit;
    let t = 3 - q.suit;
    if x.suit == y.suit {
        vstd::arithmetic::div_mod::lemma_fundamental_div_mod_converse(i, 13, hi, lo);
        (a, 0)
    } else {
        vstd::arithmetic::div_mod::lemma_fundamental_div_mod_converse(i, 13, lo, hi);
        let b = if t > a {
            t - 1
        } else {
            t
        };
        (a, b)
    }
}

/// What led to a path is told of every action that the charts know, in order.
pub proof fn every_known_action_is_told(charts: PreflopCharts, toks: Seq<Seq<char>>, k: int)
    requires
        0 <= k,
    ensures
        said(charts, toks, k) == Seq::new(k as nat, |i: int| i).filter(
            |i: int|
                charts.stored(preflop::prefix(toks, i)) && !charts.at(
                    preflop::prefix(toks, i),
                ).no_token(toks[i]),
        ).map_values(
            |i: int|
                charts.at(preflop::prefix(toks, i)).seat@ + " "@ + verb_of(
                    charts.at(preflop::prefix(toks, i)).actions@[charts.at(
                        preflop::prefix(toks, i),
                    ).token_place(toks[i])]@,
                ),
        ),
    decreases k,
{
    reveal(Seq::filter);
    let known = |i: int|
        charts.stored(preflop::prefix(toks, i)) && !charts.at(preflop::prefix(toks, i)).no_token(
            toks[i],
        );
    let tell = |i: int|
        charts.at(preflop::prefix(toks, i)).seat@ + " "@ + verb_of(
            charts.at(preflop::prefix(toks, i)).actions@[charts.at(
                preflop::prefix(toks, i),
            ).token_place(toks[i])]@,
        );
    let all = Seq::new(k as nat, |i: int| i);
    if k > 0 {
        every_known_action_is_told(charts, toks, k - 1);
        let fewer = Seq::new((k - 1) as nat, |i: int| i);
        assert(all.drop_last() =~= fewer);
        assert(all.last() == k - 1);
        let before = fewer.filter(known);
        if known(k - 1) {
            assert(before.push(k - 1).map_values(tell) =~= before.map_values(tell).push(
                tell(k - 1),
            ));
        }
    } else {
        assert(all.filter(known).map_values(tell) =~= Seq::empty());
    }
}

/// The nodes to drill are all that are reached with a known range, each once and in
/// order.
pub proof fn every_reached_node_is_drilled(charts: PreflopCharts, n: int)
    requires
        0 <= n <= charts.nodes.values@.len() <= usize::MAX,
    ensures
        pool_of(charts, n) == Seq::new(n as nat, |i: int| i as usize).filter(
            |i: usize| drillable(charts, charts.nodes.values@[i as int]),
        ),
    decreases n,
{
    reveal(Seq::filter);
    let all = Seq::new(n as nat, |i: int| i as usize);
    if n > 0 {
        every_reached_node_is_drilled(charts, n - 1);
        assert(all.drop_last() =~= Seq::new((n - 1) as nat, |i: int| i as usize));
        assert(all.last() == (n - 1) as usize);
    } else {
        assert(all =~= Seq::empty());
    }
}

/// The stem of a table's file is read back from its name.
pub proof fn stems_read_back(stem: Seq<char>, hash: Seq<char>)
    ensures
        stem_of(stem + ("-"@ + hash + ".jsonl"@), hash) == Some(stem),
{
    let end = "-"@ + hash + ".jsonl"@;
    let name = stem + end;
    assert(name.skip(name.len() - end.len()) =~= end);
    assert(name.take(name.len() - end.len()) =~= stem);
}

/// The stored tables of a flop are all the files of its shape, in order.
pub proof fn every_file_of_the_shape_is_tried(
    names: Seq<Seq<char>>,
    hash: Seq<char>,
    flop: Seq<char>,
    n: int,
)
    requires
        0 <= n <= names.len(),
    ensures
        stems_for(names, hash, flop, n) == names.take(n).filter(
            |f: Seq<char>| same_shape(f, hash, flop),
        ).map_values(|f: Seq<char>| stem_of(f, hash)->0),
    decreases n,
{
    reveal(Seq::filter);
    let fits = |f: Seq<char>| same_shape(f, hash, flop);
    let stem = |f: Seq<char>| stem_of(f, hash)->0;
    if n > 0 {
        every_file_of_the_shape_is_tried(names, hash, flop, n - 1);
        assert(names.take(n).drop_last() =~= names.take(n - 1));
        assert(names.take(n).last() == names[n - 1]);
        let before = names.take(n - 1).filter(fits);
        if fits(names[n - 1]) {
            assert(before.push(names[n - 1]).map_values(stem) =~= before.map_values(stem).push(
                stem(names[n - 1]),
            ));
        }
    } else {
        assert(names.take(n).filter(fits).map_values(stem) =~= Seq::empty());
    }
}

/// The steps of a line that was joined from them are read back.
pub proof fn lines_of_steps_read_back(steps: Seq<Seq<char>>)
    requires
        steps.len() > 0,
        text::none_holds(steps, ','),
        forall|i: int|
            0 <= i < steps.len() ==> (#[trigger] steps[i]).len() > 0 && !text::is_space(steps[i][0])
                && !text::is_space(steps[i].last()),
    ensures
        steps_from(text::split(text::joined(steps, seq![',']), ',')) == steps,
{
    text::splitting_undoes_joining(steps, ',');
    lemma_steps_kept(steps);
}

proof fn lemma_steps_kept(steps: Seq<Seq<char>>)
    requires
        forall|i: int|
            0 <= i < steps.len() ==> (#[trigger] steps[i]).len() > 0 && !text::is_space(steps[i][0])
                && !text::is_space(steps[i].last()),
    ensures
        steps_from(steps) == steps,
    decreases steps.len(),
{
    if steps.len() > 0 {
        let r = steps.drop_last();
        assert forall|i: int| 0 <= i < r.len() implies (#[trigger] r[i]).len() > 0
            && !text::is_space(r[i][0]) && !text::is_space(r[i].last()) by {
            assert(r[i] == steps[i]);
        }
        lemma_steps_kept(r);
        let last = steps[steps.len() - 1];
        text::lemma_nothing_to_trim(last);
        assert(r.push(last) =~= steps);
    } else {
        assert(steps =~= Seq::empty());
    }
}

/// A step is the first action whose label it is, whatever the case of its letters.
pub proof fn steps_take_the_first_label(actions: Seq<Seq<char>>, step: Seq<char>, i: int)
    requires
        0 <= i <= actions.len(),
    ensures
        label_from(actions, step, i) matches Some(k) ==> i <= k < actions.len() && text::lowered(
            actions[k],
        ) == text::lowered(step) && forall|j: int|
            i <= j < k ==> text::lowered(#[trigger] actions[j]) != text::lowered(step),
        label_from(actions, step, i) is None ==> forall|j: int|
            i <= j < actions.len() ==> text::lowered(#[trigger] actions[j]) != text::lowered(step),
    decreases actions.len() - i,
{
    if i < actions.len() && text::lowered(actions[i]) != text::lowered(step) {
        steps_take_the_first_label(actions, step, i + 1);
    }
}

/// The villain's range is that of the first spot on the same board with the other
/// side to act.
pub proof fn the_villain_sits_on_the_other_side(spots: Seq<SolvedSpot>, spot: SolvedSpot, i: int)
    requires
        0 <= i <= spots.len(),
    ensures
        sibling_from(spots, spot, i) matches Some(k) ==> i <= k < spots.len() && text::texts(
            spots[k].board@,
        ) == text::texts(spot.board@) && spots[k].hero_oop != spot.hero_oop && forall|j: int|
            i <= j < k ==> text::texts((#[trigger] spots[j]).board@) != text::texts(spot.board@)
                || spots[j].hero_oop == spot.hero_oop,
        sibling_from(spots, spot, i) is None ==> forall|j: int|
            i <= j < spots.len() ==> text::texts((#[trigger] spots[j]).board@) != text::texts(
                spot.board@,
            ) || spots[j].hero_oop == spot.hero_oop,
    decreases spots.len() - i,
{
    if i < spots.len() && !(text::texts(spots[i].board@) == text::texts(spot.board@)
        && spots[i].hero_oop != spot.hero_oop) {
        the_villain_sits_on_the_other_side(spots, spot, i + 1);
    }
}

/// A range holds all hands that can be read, in order.
pub proof fn every_readable_hand_is_in_the_range(v: Seq<solution::HandStrategy>, n: int)
    requires
        0 <= n <= v.len(),
    ensures
        holes_of(v, n) == v.take(n).filter(
            |h: solution::HandStrategy| table::hole_of(h.hand@) is Some,
        ).map_values(|h: solution::HandStrategy| table::hole_of(h.hand@)->0),
    decreases n,
{
    reveal(Seq::filter);
    let ok = |h: solution::HandStrategy| table::hole_of(h.hand@) is Some;
    let read = |h: solution::HandStrategy| table::hole_of(h.hand@)->0;
    if n > 0 {
        every_readable_hand_is_in_the_range(v, n - 1);
        assert(v.take(n).drop_last() =~= v.take(n - 1));
        assert(v.take(n).last() == v[n - 1]);
        let before = v.take(n - 1).filter(ok);
        if ok(v[n - 1]) {
            assert(before.push(v[n - 1]).map_values(read) =~= before.map_values(read).push(
                read(v[n - 1]),
            ));
        }
    } else {
        assert(v.take(n).filter(ok).map_values(read) =~= Seq::empty());
    }
}

/// A hand is in the strong half where its equity reaches the median and in the weak
/// one where it does not; each half lists its hands once and in order.
pub proof fn halves_part_at_the_median(v: Seq<u64>, m: u64, reach: bool, n: int)
    requires
        0 <= n <= v.len(),
        v.len() <= usize::MAX,
    ensures
        places_reaching(v, m, reach, n) == Seq::new(n as nat, |i: int| i as usize).filter(
            |i: usize| (v[i as int] >= m) == reach,
        ),
    decreases n,
{
    reveal(Seq::filter);
    let all = Seq::new(n as nat, |i: int| i as usize);
    if n > 0 {
        halves_part_at_the_median(v, m, reach, n - 1);
        assert(all.drop_last() =~= Seq::new((n - 1) as nat, |i: int| i as usize));
        assert(all.last() == (n - 1) as usize);
    } else {
        assert(all =~= Seq::empty());
    }
}

/// The hands of a bucket are all those of the spot that fall into it, in order.
pub proof fn every_hand_is_in_its_bucket(
    v: Seq<solution::HandStrategy>,
    flop: [Card; 3],
    b: Bucket,
    n: int,
)
    requires
        0 <= n <= v.len(),
        v.len() <= usize::MAX,
    ensures
        bucket_places(v, flop, b, n) == Seq::new(n as nat, |i: int| i as usize).filter(
            |i: usize| table::bucket_on(v[i as int].hand@, Some(flop)) == Some(b),
        ),
    decreases n,
{
    reveal(Seq::filter);
    let all = Seq::new(n as nat, |i: int| i as usize);
    if n > 0 {
        every_hand_is_in_its_bucket(v, flop, b, n - 1);
        assert(all.drop_last() =~= Seq::new((n - 1) as nat, |i: int| i as usize));
        assert(all.last() == (n - 1) as usize);
    } else {
        assert(all =~= Seq::empty());
    }
}

/// An action is scored as matched for every hand of a group that plays it as part
/// of its strategy.
pub proof fn matches_are_counted(
    hands: Seq<solution::HandStrategy>,
    places: Seq<usize>,
    action: int,
    n: int,
)
    requires
        0 <= n <= places.len(),
    ensures
        matched_of(hands, places, action, n) == places.take(n).filter(
            |i: usize|
                hands[i as int].strategy.frequencies@[action].reaches(
                    F32 { bits: stats::GTO_ACTION_FREQ },
                ),
        ).len(),
    decreases n,
{
    reveal(Seq::filter);
    if n > 0 {
        matches_are_counted(hands, places, action, n - 1);
        assert(places.take(n).drop_last() =~= places.take(n - 1));
        assert(places.take(n).last() == places[n - 1]);
    } else {
        assert(places.take(n) =~= Seq::empty());
    }
}

/// The other side can hold every hand of its range that shares no card with the
/// hero's, and no other.
pub proof fn the_villain_holds_any_live_hand(hands: Seq<Seq<char>>, hero: Seq<char>, n: int)
    requires
        0 <= n <= hands.len(),
    ensures
        live_of(hands, hero, n) == hands.take(n).filter(
            |h: Seq<char>|
                forall|i: int|
                    0 <= i < chunks_of(h).len() ==> !chunks_of(hero).contains(
                        #[trigger] chunks_of(h)[i],
                    ),
        ),
    decreases n,
{
    reveal(Seq::filter);
    if n > 0 {
        the_villain_holds_any_live_hand(hands, hero, n - 1);
        assert(hands.take(n).drop_last() =~= hands.take(n - 1));
        assert(hands.take(n).last() == hands[n - 1]);
    } else {
        assert(hands.take(n) =~= Seq::empty());
    }
}

/// Whoever is to act does so with their own hand: the hero at the nodes of the
/// hero's seat, the other side everywhere else.
pub proof fn each_side_plays_its_own_hand(
    m: HandMove,
    node: TreeNode,
    hero_seat: Seq<char>,
    hero: Seq<char>,
    villain: Seq<char>,
)
    requires
        node.player@ != "terminal"@,
        node.player@ != "chance"@,
        moves(m, node, hero_seat, hero, villain),
    ensures
        m matches HandMove::Hero(i) ==> node.player@ == hero_seat && i < node.hands@.len()
            && node.hands@[i as int]@ == hero,
        m matches HandMove::Villain(i) ==> node.player@ != hero_seat && i < node.hands@.len()
            && node.hands@[i as int]@ == villain,
        node.player@ == hero_seat ==> (m is Hero <==> text::texts(node.hands@).contains(hero)),
        node.player@ != hero_seat ==> (m is Villain <==> text::texts(node.hands@).contains(
            villain,
        )),
{
    let hands = text::texts(node.hands@);
    match m {
        HandMove::Hero(i) => {
            assert(hands[i as int] == node.hands@[i as int]@);
        },
        HandMove::Villain(i) => {
            assert(hands[i as int] == node.hands@[i as int]@);
        },
        _ => {},
    }
}

/// The mix of a strategy names all actions that are part of it, in order, and no
/// other.
pub proof fn the_mix_names_its_actions(
    actions: Seq<Seq<char>>,
    freqs: Seq<F32>,
    percents: Seq<Seq<char>>,
    n: int,
)
    requires
        0 <= n <= freqs.len(),
    ensures
        mix_parts(actions, freqs, percents, n) == Seq::new(n as nat, |i: int| i).filter(
            |i: int| freqs[i].reaches(F32 { bits: stats::GTO_ACTION_FREQ }),
        ).map_values(|i: int| actions[i] + " "@ + percents[i] + "%"@),
    decreases n,
{
    reveal(Seq::filter);
    let often = |i: int| freqs[i].reaches(F32 { bits: stats::GTO_ACTION_FREQ });
    let part = |i: int| actions[i] + " "@ + percents[i] + "%"@;
    let all = Seq::new(n as nat, |i: int| i);
    if n > 0 {
        the_mix_names_its_actions(actions, freqs, percents, n - 1);
        let fewer = Seq::new((n - 1) as nat, |i: int| i);
        assert(all.drop_last() =~= fewer);
        assert(all.last() == n - 1);
        let before = fewer.filter(often);
        if often(n - 1) {
            assert(before.push(n - 1).map_values(part) =~= before.map_values(part).push(
                part(n - 1),
            ));
        }
    } else {
        assert(all.filter(often).map_values(part) =~= Seq::empty());
    }
}

proof fn lemma_wide_order(x: u64, y: u64)
    ensures
        order::lex_le(
            seq![(x / 0x1_0000_0000) as u32, (x % 0x1_0000_0000) as u32],
            seq![(y / 0x1_0000_0000) as u32, (y % 0x1_0000_0000) as u32],
        ) <==> x <= y,
{
    let a = seq![(x / 0x1_0000_0000) as u32, (x % 0x1_0000_0000) as u32];
    let b = seq![(y / 0x1_0000_0000) as u32, (y % 0x1_0000_0000) as u32];
    if a[0] != b[0] {
        order::the_first_difference_decides(a, b, 0);
    } else if a[1] != b[1] {
        order::the_first_difference_decides(a, b, 1);
    } else {
        order::the_first_difference_decides(a, b, 2);
    }
}

/// The median of equities is one of them: at most half of the hands are weaker, and
/// fewer than half are stronger.
pub proof fn the_median_parts_the_hands(v: Seq<u64>)
    requires
        0 < v.len() <= usize::MAX,
    ensures
        v.contains(middle_of(v)),
        Set::new(|i: int| 0 <= i < v.len() && v[i] < middle_of(v)).len() <= v.len() / 2,
        2 * Set::new(|i: int| 0 <= i < v.len() && v[i] > middle_of(v)).len() < v.len(),
{
    let keys = wide_keys(v);
    let idx = order::order_of(keys);
    order::lemma_order_of_is_stable(keys);
    let at = v.len() as int / 2;
    order::sorted_places_part_the_list(keys, idx, at);
    let m = idx[at] as int;
    assert(v[m] == middle_of(v));
    assert forall|i: int| 0 <= i < v.len() implies (order::lex_le(keys[m], #[trigger] keys[i]) <==> v[m]
        <= v[i]) && (order::lex_le(keys[i], keys[m]) <==> v[i] <= v[m]) by {
        lemma_wide_order(v[m], v[i]);
        lemma_wide_order(v[i], v[m]);
    }
    assert(order::places_below(keys, m) =~= Set::new(
        |i: int| 0 <= i < v.len() && v[i] < middle_of(v),
    ));
    assert(order::places_above(keys, m) =~= Set::new(
        |i: int| 0 <= i < v.len() && v[i] > middle_of(v),
    ));
}

/// A bucket is split only where it is large enough and equities are known: then into
/// a strong and a weak half, each hand of the strong one at least as strong as every
/// hand of the weak one, and no hand of the weak one above the median. Otherwise its
/// hands stay together.
pub proof fn halves_are_strong_and_weak(b: Bucket, places: Seq<usize>, equities: Option<Seq<u64>>)
    requires
        places.len() <= usize::MAX,
    ensures
        ({
            let g = groups_in(b, places, equities);
            &&& places.len() == 0 ==> g.len() == 0
            &&& places.len() > 0 && (equities is None || places.len() < SPLIT_MIN) ==> g.len() == 1
                && g[0].places == places && g[0].subrange.half == Half::Whole
            &&& places.len() >= SPLIT_MIN && equities is Some ==> 1 <= g.len() <= 2
                && g[0].subrange.half == Half::Strong && (g.len() == 2 ==> g[1].subrange.half
                == Half::Weak)
            &&& forall|i: int| 0 <= i < g.len() ==> (#[trigger] g[i]).subrange.bucket == b
            &&& g.len() == 2 ==> forall|x: int, y: int|
                0 <= x < g[0].places.len() && 0 <= y < g[1].places.len() ==> (
                equities->0)[#[trigger] g[0].places[x] as int] > (
                equities->0)[#[trigger] g[1].places[y] as int]
        }),
{
    let g = groups_in(b, places, equities);
    if places.len() >= SPLIT_MIN && equities is Some {
        let v = at_places(equities->0, places);
        let m = middle_of(v);
        let n = v.len() as int;
        halves_part_at_the_median(v, m, true, n);
        halves_part_at_the_median(v, m, false, n);
        let all = Seq::new(n as nat, |i: int| i as usize);
        let up = |i: usize| (v[i as int] >= m) == true;
        let down = |i: usize| (v[i as int] >= m) == false;
        let strong = places_reaching(v, m, true, n);
        let weak = places_reaching(v, m, false, n);
        assert(all.filter(|i: usize| (v[i as int] >= m) == true) == strong);
        if g.len() == 2 {
            assert forall|x: int, y: int|
                0 <= x < g[0].places.len() && 0 <= y < g[1].places.len() implies (
            equities->0)[#[trigger] g[0].places[x] as int] > (
            equities->0)[#[trigger] g[1].places[y] as int] by {
                lemma_reaching(v, m, true, n, x);
                lemma_reaching(v, m, false, n, y);
                assert(g[0].places[x] == places[strong[x] as int]);
                assert(g[1].places[y] == places[weak[y] as int]);
                assert(v[strong[x] as int] == (equities->0)[places[strong[x] as int] as int]);
                assert(v[weak[y] as int] == (equities->0)[places[weak[y] as int] as int]);
            }
        }
    }
}

proof fn lemma_reaching(v: Seq<u64>, m: u64, reach: bool, n: int, x: int)
    requires
        0 <= n <= v.len() <= usize::MAX,
        0 <= x < places_reaching(v, m, reach, n).len(),
    ensures
        places_reaching(v, m, reach, n)[x] < n,
        (v[places_reaching(v, m, reach, n)[x] as int] >= m) == reach,
    decreases n,
{
    if n > 0 {
        let before = places_reaching(v, m, reach, n - 1);
        if x < before.len() {
            lemma_reaching(v, m, reach, n - 1, x);
        }
    }
}

/// The buckets come from strong to weak: every one of the six, each once.
pub proof fn buckets_come_from_strong_to_weak(i: int, j: int)
    requires
        0 <= i < 6,
        0 <= j < 6,
    ensures
        bucket_at(i) == bucket_at(j) <==> i == j,
        bucket_at(0) == Bucket::Value,
        bucket_at(1) == Bucket::Overpair,
        bucket_at(2) == Bucket::TopPair,
        bucket_at(3) == Bucket::Pair,
        bucket_at(4) == Bucket::Draw,
        bucket_at(5) == Bucket::Air,
{
}

/// The flop of a board is its first three cards, whatever follows them.
pub proof fn the_first_three_cards_are_the_flop(cards: Seq<Card>, board: Seq<Seq<char>>)
    requires
        cards.len() >= 3,
        board.len() == cards.len(),
        board::all_cards(cards),
        forall|i: int| 0 <= i < 3 ==> #[trigger] board[i] == iso::card_text(cards[i].index()),
    ensures
        flop_of(board) matches Some(f) && f[0] == cards[0] && f[1] == cards[1] && f[2] == cards[2],
        report::first_three(board) matches Some(f) && f[0] == cards[0] && f[1] == cards[1] && f[2]
            == cards[2],
{
    let three = cards.take(3);
    assert forall|i: int| 0 <= i < 3 implies (#[trigger] three[i]).wf() by {
        assert(cards[i].wf());
    }
    board::card_lists_read_back(three);
    board::written_cards_have_two_characters(three);
    let texts = board.take(3);
    let w = three.map_values(|c: Card| iso::card_text(c.index()));
    assert(texts =~= w) by {
        assert(board[0] == iso::card_text(cards[0].index()));
        assert(board[1] == iso::card_text(cards[1].index()));
        assert(board[2] == iso::card_text(cards[2].index()));
    }
    lemma_joined_with_nothing(w);
    assert(text::joined(texts, Seq::empty()) == board::written(three));
    assert(three[0] == cards[0] && three[1] == cards[1] && three[2] == cards[2]);
    board::cards_read_back(cards[0], Seq::empty());
    board::cards_read_back(cards[1], Seq::empty());
    board::cards_read_back(cards[2], Seq::empty());
    assert(iso::card_text(cards[0].index()) + Seq::empty() =~= board[0]);
    assert(iso::card_text(cards[1].index()) + Seq::empty() =~= board[1]);
    assert(iso::card_text(cards[2].index()) + Seq::empty() =~= board[2]);
    assert(cards[0].wf() && cards[1].wf() && cards[2].wf());
}

proof fn lemma_joined_with_nothing(w: Seq<Seq<char>>)
    ensures
        text::joined(w, Seq::empty()) == w.flatten(),
    decreases w.len(),
{
    w.lemma_flatten_and_flatten_alt_are_equivalent();
    if w.len() == 1 {
        assert(w.drop_last() =~= Seq::<Seq<char>>::empty());
        assert(w.drop_last().flatten_alt() =~= Seq::empty());
        assert(w.flatten_alt() =~= w[0]);
    } else if w.len() > 1 {
        lemma_joined_with_nothing(w.drop_last());
        w.drop_last().lemma_flatten_and_flatten_alt_are_equivalent();
        assert(text::joined(w, Seq::empty()) =~= w.drop_last().flatten_alt() + w.last());
    }
}

impl HuHand {
    /// The small blind acts with the first hand that was dealt and the big blind with
    /// the second.
    pub proof fn each_seat_acts_with_its_own_hand(&self)
        ensures
            self.class_at("SB"@) == preflop::class_of(self.deal.first[0], self.deal.first[1]),
            self.class_at("BB"@) == preflop::class_of(self.deal.second[0], self.deal.second[1]),
    {
        reveal_strlit("SB");
        reveal_strlit("BB");
        assert("SB"@[0] == 'S' && "BB"@[0] == 'B');
    }
}

/// The four suits have four signs.
pub proof fn suits_have_their_signs(s: int, t: int)
    requires
        0 <= s < 4,
        0 <= t < 4,
    ensures
        suit_sign(s) == suit_sign(t) <==> s == t,
        suit_sign(0) == '♣',
        suit_sign(1) == '♦',
        suit_sign(2) == '♥',
        suit_sign(3) == '♠',
{
}

/// The first place of a part of a text is replaced, and only that; a text without
/// the part stays as it is.
pub proof fn the_first_place_is_replaced(
    before: Seq<char>,
    p: Seq<char>,
    after: Seq<char>,
    by: Seq<char>,
)
    ensures
        (forall|i: int|
            0 <= i < before.len() && i + p.len() <= (before + p + after).len() ==> #[trigger] (before + p
                + after).subrange(i, i + p.len()) != p) ==> replaced_once(before + p + after, p, by)
            == before + by + after,
        !text::has_sub(after, p) ==> replaced_once(after, p, by) == after,
{
    let s = before + p + after;
    let n = before.len() as int;
    text::the_first_place_is_found(s, p, 0);
    assert(s.subrange(n, n + p.len()) =~= p);
    assert(s.take(n) =~= before);
    assert(s.skip(n + p.len()) =~= after);
}

proof fn lemma_signed_pairs(pairs: Seq<Seq<u8>>, cards: Seq<Card>)
    requires
        pairs.len() == cards.len(),
        forall|i: int|
            0 <= i < pairs.len() ==> vstd::utf8::valid_utf8(#[trigger] pairs[i])
                && board::leading_card(vstd::utf8::decode_utf8(pairs[i])) == Some(cards[i]),
    ensures
        signed_cards(pairs) == cards.map_values(|c: Card| signed_card(c)),
    decreases pairs.len(),
{
    if pairs.len() > 0 {
        let f = |c: Card| signed_card(c);
        lemma_signed_pairs(pairs.drop_last(), cards.drop_last());
        assert(pairs.last() == pairs[pairs.len() - 1]);
        assert(cards.map_values(f) =~= cards.drop_last().map_values(f).push(signed_card(cards.last())));
    }
}

/// A packed text of cards is shown as those cards, each with its rank and the sign
/// of its suit.
#[verifier::spinoff_prover]
#[verifier::rlimit(40)]
pub proof fn packed_cards_are_shown_with_signs(cards: Seq<Card>)
    requires
        board::all_cards(cards),
    ensures
        signed_cards(solution::byte_pairs(vstd::utf8::encode_utf8(board::written(cards))))
            == cards.map_values(
            |c: Card| seq!["23456789TJQKA"@[c.rank - 2], seq!['♣', '♦', '♥', '♠'][c.suit as int]],
        ),
{
    let t = board::written(cards);
    board::written_cards_have_two_characters(cards);
    vstd::utf8::is_ascii_chars_encode_utf8(t);
    let b = vstd::utf8::encode_utf8(t);
    let pairs = solution::byte_pairs(b);
    solution::pieces_make_the_whole(b);
    assert(pairs.len() == cards.len());
    assert forall|i: int| 0 <= i < pairs.len() implies vstd::utf8::valid_utf8(#[trigger] pairs[i])
        && board::leading_card(vstd::utf8::decode_utf8(pairs[i])) == Some(cards[i]) by {
        let two = iso::card_text(cards[i].index());
        assert(two == t.subrange(2 * i, 2 * i + 2));
        vstd::utf8::is_ascii_chars_encode_utf8(two);
        vstd::utf8::encode_utf8_decode_utf8(two);
        vstd::utf8::encode_utf8_valid_utf8(two);
        assert(vstd::utf8::encode_utf8(two) =~= pairs[i]);
        board::cards_read_back(cards[i], Seq::empty());
        assert(two + Seq::<char>::empty() =~= two);
    }
    lemma_signed_pairs(pairs, cards);
    let shown = |c: Card|
        seq!["23456789TJQKA"@[c.rank - 2], seq!['♣', '♦', '♥', '♠'][c.suit as int]];
    assert forall|i: int| 0 <= i < cards.len() implies #[trigger] signed_card(cards[i]) == shown(
        cards[i],
    ) by {
        let c = cards[i];
        assert(c.wf());
        reveal_strlit("23456789TJQKA");
        suits_have_their_signs(c.suit as int, 0);
        assert(iso::rank_char(c.rank - 2) == "23456789TJQKA"@[c.rank - 2]);
    }
    assert(cards.map_values(|c: Card| signed_card(c)) =~= cards.map_values(shown));
}

} // verus!
