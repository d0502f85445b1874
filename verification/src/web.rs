//! What the browser asks for: a spot for the pot-odds drill, and the equity of
//! one hand against another.

use crate::board;
use crate::board::Card;
use crate::deck;
use crate::deck::HeadsUpDeal;
use crate::eval;
use crate::eval::Equity;
use crate::iso;
use crate::text;
use crate::trainer;
use vstd::prelude::*;

verus! {

/// How many runouts an equity is taken over.
pub const ITERS: u32 = 10_000;

/// A spot of the pot-odds drill with its answer.
#[derive(Debug, Clone, Copy)]
pub struct PotOddsSpot {
    pub deal: HeadsUpDeal,
    /// The equity of the first hand against the second.
    pub equity: Equity,
}

/// Deals a spot of the pot-odds drill: seven different cards, and the equity of
/// the first hand against the second on the flop.
pub fn deal_pot_odds() -> (r: PotOddsSpot)
    ensures
        board::all_cards(r.deal.cards()),
        r.deal.cards().no_duplicates(),
        r.equity.trials == ITERS,
        r.equity.half_points <= 2 * r.equity.trials,
        eval::played_out(
            r.deal.first,
            r.deal.second,
            r.deal.flop@,
            ITERS as int,
            r.equity.half_points as int,
        ),
{
    let deal = deck::deal_heads_up();
    proof {
        let c = deal.cards();
        assert(c[0].wf() && c[1].wf() && c[2].wf() && c[3].wf() && c[4].wf() && c[5].wf()
            && c[6].wf());
        assert(deal.first@ =~= seq![c[0], c[1]]);
        assert(deal.second@ =~= seq![c[2], c[3]]);
        assert(deal.flop@ =~= seq![c[4], c[5], c[6]]);
    }
    let flop: [Card; 3] = deal.flop;
    let e = eval::equity(deal.first, deal.second, flop.as_slice(), ITERS);
    PotOddsSpot { deal, equity: e }
}

/// The cards of a packed text, from the first `n` pairs.
pub open spec fn packed(s: Seq<char>, n: int) -> Option<Seq<Card>>
    decreases n,
{
    if n <= 0 {
        Some(Seq::empty())
    } else {
        match (packed(s, n - 1), board::leading_card(trainer::chunks_of(s)[n - 1])) {
            (Some(v), Some(c)) => Some(v.push(c)),
            _ => None,
        }
    }
}

/// Why a packed text does not hold `n` cards.
pub open spec fn pack_error(s: Seq<char>, n: int) -> Option<Seq<char>> {
    if vstd::utf8::encode_utf8(s).len() != 2 * n {
        Some(text::debug_text(s) + " needs "@ + text::decimal(n) + " cards"@)
    } else if packed(s, n) is None {
        Some("bad card in "@ + text::debug_text(s))
    } else {
        None
    }
}

/// A packed text of `n` cards can be cut into them.
pub open spec fn can_cut(s: Seq<char>, n: int) -> bool {
    vstd::utf8::encode_utf8(s).len() == 2 * n ==> trainer::cuts_cleanly(s)
}

proof fn lemma_packed_none(s: Seq<char>, k: int, n: int)
    requires
        0 <= k <= n,
        packed(s, k) is None,
    ensures
        packed(s, n) is None,
    decreases n,
{
    if k < n {
        lemma_packed_none(s, k, n - 1);
    }
}

/// Reads a packed text of exactly `n` cards.
pub fn cards(s: &str, n: usize) -> (r: Result<Vec<Card>, String>)
    requires
        2 * n <= usize::MAX,
        can_cut(s@, n as int),
    ensures
        match pack_error(s@, n as int) {
            Some(e) => r matches Err(f) && f@ == e,
            None => r matches Ok(v) && packed(s@, n as int) == Some(v@) && v@.len() == n
                && board::all_cards(v@),
        },
{
    let bytes = s.as_bytes();
    if bytes.len() != 2 * n {
        let shown = text::to_debug(s);
        let count = text::decimal_text(n as u64);
        let head = text::join3(shown.as_str(), " needs ", count.as_str());
        return Err(text::join2(head.as_str(), " cards"));
    }
    let chunks = trainer::card_chunks(s);
    assert(text::texts(chunks@).len() == chunks@.len());
    let mut out: Vec<Card> = Vec::new();
    let mut i: usize = 0;
    while i < n
        invariant
            i <= n,
            text::texts(chunks@) == trainer::chunks_of(s@),
            chunks@.len() == n,
            vstd::utf8::encode_utf8(s@).len() == 2 * n,
            packed(s@, i as int) == Some(out@),
            out@.len() == i,
            board::all_cards(out@),
        decreases n - i,
    {
        assert(text::texts(chunks@)[i as int] == chunks@[i as int]@);
        match board::parse_card(chunks[i].as_str()) {
            Some(c) => {
                out.push(c);
            },
            None => {
                proof {
                    lemma_packed_none(s@, i + 1, n as int);
                }
                let shown = text::to_debug(s);
                return Err(text::join2("bad card in ", shown.as_str()));
            },
        }
        i = i + 1;
    }
    Ok(out)
}

/// The first objection to three packed texts.
pub open spec fn equity_error(hero: Seq<char>, villain: Seq<char>, board: Seq<char>) -> Option<
    Seq<char>,
> {
    match pack_error(hero, 2) {
        Some(e) => Some(e),
        None => match pack_error(villain, 2) {
            Some(e) => Some(e),
            None => pack_error(board, 3),
        },
    }
}

/// Two cards of a packed text.
pub open spec fn two(s: Seq<char>) -> [Card; 2] {
    let v = packed(s, 2)->0;
    [v[0], v[1]]
}

/// The equity of one hand against another on a flop, each packed as in `"AsKh"`.
pub fn equity_of(hero: &str, villain: &str, board: &str) -> (r: Result<Equity, String>)
    requires
        can_cut(hero@, 2),
        can_cut(villain@, 2),
        can_cut(board@, 3),
    ensures
        match equity_error(hero@, villain@, board@) {
            Some(e) => r matches Err(f) && f@ == e,
            None => r matches Ok(q) && {
                &&& q.trials == ITERS
                &&& q.half_points <= 2 * q.trials
                &&& eval::played_out(
                    two(hero@),
                    two(villain@),
                    packed(board@, 3)->0,
                    ITERS as int,
                    q.half_points as int,
                )
            },
        },
{
    let h = match cards(hero, 2) {
        Ok(v) => v,
        Err(e) => {
            return Err(e);
        },
    };
    let v = match cards(villain, 2) {
        Ok(v) => v,
        Err(e) => {
            return Err(e);
        },
    };
    let b = match cards(board, 3) {
        Ok(v) => v,
        Err(e) => {
            return Err(e);
        },
    };
    assert(h@[0].wf() && h@[1].wf() && v@[0].wf() && v@[1].wf());
    let hero_cards: [Card; 2] = [h[0], h[1]];
    let villain_cards: [Card; 2] = [v[0], v[1]];
    proof {
        assert(hero_cards@ =~= h@);
        assert(villain_cards@ =~= v@);
        assert(hero_cards@ =~= two(hero@)@);
        assert(villain_cards@ =~= two(villain@)@);
    }
    Ok(eval::equity(hero_cards, villain_cards, b.as_slice(), ITERS))
}

/// Packed cards are read back.
pub proof fn packed_cards_read_back(cards: Seq<Card>, n: int)
    requires
        board::all_cards(cards),
        0 <= n <= cards.len(),
    ensures
        packed(board::written(cards), n) == Some(cards.take(n)),
    decreases n,
{
    let s = board::written(cards);
    if n > 0 {
        packed_cards_read_back(cards, n - 1);
        board::written_cards_have_two_characters(cards);
        trainer::packed_cards_have_two_characters(s, n - 1);
        let c = cards[n - 1];
        board::cards_read_back(c, Seq::empty());
        assert(iso::card_text(c.index()) + Seq::empty() =~= s.subrange(2 * (n - 1), 2 * n));
        assert(cards.take(n - 1).push(c) =~= cards.take(n));
    } else {
        assert(cards.take(n) =~= Seq::empty());
    }
}

/// A packed text of cards is accepted as that many cards and as no other number.
pub proof fn packed_cards_are_accepted(cards: Seq<Card>, n: int)
    requires
        board::all_cards(cards),
        0 <= n,
    ensures
        pack_error(board::written(cards), n) is None <==> n == cards.len(),
{
    let s = board::written(cards);
    board::written_cards_have_two_characters(cards);
    vstd::utf8::is_ascii_chars_encode_utf8(s);
    packed_cards_read_back(cards, cards.len() as int);
}

} // verus!
