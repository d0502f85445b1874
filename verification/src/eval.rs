//! Hand evaluation and equity.

use crate::board;
use crate::board::Card;
use vstd::prelude::*;

verus! {

// ---------------------------------------------------------------- ranking

/// What `rs_poker` makes of a set of cards, given by their numbers there: the
/// category of the best five, 0 for a high card up to 8 for a straight flush,
/// and the strength within the category.
pub uninterp spec fn best_five(codes: Set<u8>) -> (u8, u16);

/// `rs_poker::core::Hand::new_with_cards` and `Rankable::rank`, the rank given
/// by its category and the bits below it. A hand is a set of cards, so neither
/// order nor repetition matters. Seven cards are the most it ranks.
#[verifier::external_body]
fn rs_rank(codes: &[u8]) -> (r: (u8, u16))
    requires
        codes@.len() <= 7,
        forall|i: int| 0 <= i < codes@.len() ==> (#[trigger] codes@[i]) < 52,
    ensures
        r == best_five(codes@.to_set()),
{
    let cards = codes.iter().map(|c| rs_poker::core::Card::from(*c)).collect();
    let hand = rs_poker::core::Hand::new_with_cards(cards);
    let rank = rs_poker::core::Rankable::rank(&hand);
    (rank.category() as u8, rank.value_bits())
}

/// The numbers of the cards.
pub open spec fn codes_of(cards: Seq<Card>) -> Set<u8> {
    cards.map_values(|c: Card| c.rs_code() as u8).to_set()
}

/// The rank of up to seven cards.
pub fn rank_of(cards: &[Card]) -> (r: (u8, u16))
    requires
        cards@.len() <= 7,
        board::all_cards(cards@),
    ensures
        r == best_five(codes_of(cards@)),
{
    let mut codes: Vec<u8> = Vec::new();
    let mut i: usize = 0;
    while i < cards.len()
        invariant
            i <= cards@.len(),
            board::all_cards(cards@),
            codes@.len() == i,
            forall|k: int| 0 <= k < i ==> (#[trigger] codes@[k]) == cards@[k].rs_code() && codes@[k]
                < 52,
        decreases cards@.len() - i,
    {
        codes.push(cards[i].code());
        i = i + 1;
    }
    assert(codes@ =~= cards@.map_values(|c: Card| c.rs_code() as u8));
    rs_rank(codes.as_slice())
}

/// The rank `a` is below `b`: by category, then by strength.
pub open spec fn weaker(a: (u8, u16), b: (u8, u16)) -> bool {
    a.0 < b.0 || (a.0 == b.0 && a.1 < b.1)
}

/// Half points of a showdown: 2 for the better rank, 1 each for equal ones.
pub open spec fn points(hero: (u8, u16), villain: (u8, u16)) -> int {
    if weaker(villain, hero) {
        2
    } else if weaker(hero, villain) {
        0
    } else {
        1
    }
}

/// The half points that the rank `hero` takes from the rank `villain`.
pub fn points_between(hero: (u8, u16), villain: (u8, u16)) -> (r: u64)
    ensures
        r == points(hero, villain),
{
    if villain.0 < hero.0 || (villain.0 == hero.0 && villain.1 < hero.1) {
        2
    } else if hero.0 < villain.0 || (hero.0 == villain.0 && hero.1 < villain.1) {
        0
    } else {
        1
    }
}

// ---------------------------------------------------------------- equity

/// Half points won over a number of showdowns: the equity is
/// `half_points / (2 * trials)`.
#[derive(Debug, Clone, Copy, PartialEq, Eq, Structural)]
pub struct Equity {
    pub half_points: u64,
    pub trials: u64,
}

/// Two hole cards, the board and the runout.
pub open spec fn seven(hole: [Card; 2], board: Seq<Card>, runout: Seq<Card>) -> Seq<Card> {
    hole@ + board + runout
}

/// The half points of one showdown.
pub open spec fn showdown_points(
    hero: [Card; 2],
    villain: [Card; 2],
    board: Seq<Card>,
    runout: Seq<Card>,
) -> int {
    points(
        best_five(codes_of(seven(hero, board, runout))),
        best_five(codes_of(seven(villain, board, runout))),
    )
}

fn seven_cards(hole: [Card; 2], board: &[Card], runout: &[Card]) -> (r: Vec<Card>)
    requires
        board::all_cards(hole@),
        board::all_cards(board@),
        board::all_cards(runout@),
    ensures
        r@ == seven(hole, board@, runout@),
        board::all_cards(r@),
{
    let mut out: Vec<Card> = vec![hole[0], hole[1]];
    assert(out@ =~= hole@);
    let ghost h = out@;
    let mut i: usize = 0;
    while i < board.len()
        invariant
            i <= board@.len(),
            out@ == h + board@.take(i as int),
        decreases board@.len() - i,
    {
        out.push(board[i]);
        i = i + 1;
        assert(h + board@.take(i as int) =~= (h + board@.take(i - 1)).push(board@[i - 1]));
    }
    let mut j: usize = 0;
    assert(board@.take(i as int) =~= board@);
    let ghost b = out@;
    assert(b + runout@.take(0) =~= b);
    while j < runout.len()
        invariant
            j <= runout@.len(),
            out@ == b + runout@.take(j as int),
        decreases runout@.len() - j,
    {
        out.push(runout[j]);
        j = j + 1;
        assert(b + runout@.take(j as int) =~= (b + runout@.take(j - 1)).push(runout@[j - 1]));
    }
    assert(runout@.take(j as int) =~= runout@);
    assert forall|k: int| 0 <= k < out@.len() implies (#[trigger] out@[k]).wf() by {
        if k < 2 {
            assert(hole@[k].wf());
        } else if k < 2 + board@.len() {
            assert(board@[k - 2].wf());
        } else {
            assert(runout@[k - 2 - board@.len()].wf());
        }
    }
    out
}

/// The half points that the hero wins when the runout falls.
pub fn showdown(hero: [Card; 2], villain: [Card; 2], board: &[Card], runout: &[Card]) -> (r: u64)
    requires
        board::all_cards(hero@),
        board::all_cards(villain@),
        board::all_cards(board@),
        board::all_cards(runout@),
        board@.len() + runout@.len() <= 5,
    ensures
        r == showdown_points(hero, villain, board@, runout@),
        r <= 2,
{
    let h = seven_cards(hero, board, runout);
    let v = seven_cards(villain, board, runout);
    points_between(rank_of(h.as_slice()), rank_of(v.as_slice()))
}

/// `s` was drawn from `deck`: cards at different places of it.
pub open spec fn drawn_from(deck: Seq<Card>, s: Seq<Card>) -> bool {
    exists|at: Seq<int>| #[trigger]
        at.no_duplicates() && at.len() == s.len() && forall|i: int|
            0 <= i < s.len() ==> 0 <= #[trigger] at[i] < deck.len() && s[i] == deck[at[i]]
}

/// `rand`'s `IndexedRandom::sample` with the generator of the thread: `n` cards
/// from different places of the deck, all of it where it holds fewer. Which
/// cards come is left to chance.
#[verifier::external_body]
fn rand_sample(deck: &[Card], n: usize) -> (r: Vec<Card>)
    ensures
        r@.len() == if n <= deck@.len() {
            n as nat
        } else {
            deck@.len()
        },
        drawn_from(deck@, r@),
{
    rand::seq::IndexedRandom::sample(deck, &mut rand::rng(), n).copied().collect()
}

/// The cards of the deck that are not among `known`, in ascending order of id.
pub open spec fn unknown_cards(known: Seq<Card>, n: int) -> Seq<Card>
    decreases n,
{
    if n <= 0 {
        Seq::empty()
    } else {
        let c = Card { rank: ((n - 1) / 4 + 2) as u8, suit: ((n - 1) % 4) as u8 };
        if known.contains(c) {
            unknown_cards(known, n - 1)
        } else {
            unknown_cards(known, n - 1).push(c)
        }
    }
}

/// No card of the rest of the deck comes twice.
pub(crate) proof fn lemma_unknown_distinct(known: Seq<Card>, n: int)
    requires
        0 <= n <= 52,
    ensures
        unknown_cards(known, n).no_duplicates(),
        forall|i: int|
            0 <= i < unknown_cards(known, n).len() ==> (#[trigger] unknown_cards(known, n)[i]).wf()
                && unknown_cards(known, n)[i].index() < n,
    decreases n,
{
    if n > 0 {
        lemma_unknown_distinct(known, n - 1);
        let before = unknown_cards(known, n - 1);
        let all = unknown_cards(known, n);
        let c = Card { rank: ((n - 1) / 4 + 2) as u8, suit: ((n - 1) % 4) as u8 };
        assert(c.wf() && c.index() == n - 1);
        assert forall|i: int| 0 <= i < all.len() implies (#[trigger] all[i]).wf() && all[i].index()
            < n by {
            if i < before.len() {
                assert(all[i] == before[i]);
            }
        }
        assert forall|i: int, j: int|
            0 <= i < all.len() && 0 <= j < all.len() && i != j implies all[i] != all[j] by {
            if i < before.len() {
                assert(all[i] == before[i] && before[i].index() < n - 1);
            }
            if j < before.len() {
                assert(all[j] == before[j] && before[j].index() < n - 1);
            }
        }
    }
}

/// What is drawn from a deck without a card twice holds no card twice.
pub(crate) proof fn lemma_drawn_distinct(deck: Seq<Card>, s: Seq<Card>)
    requires
        deck.no_duplicates(),
        drawn_from(deck, s),
    ensures
        s.no_duplicates(),
        forall|i: int| 0 <= i < s.len() ==> deck.contains(#[trigger] s[i]),
{
    let at = choose|at: Seq<int>| #[trigger]
        at.no_duplicates() && at.len() == s.len() && forall|i: int|
            0 <= i < s.len() ==> 0 <= #[trigger] at[i] < deck.len() && s[i] == deck[at[i]];
    assert forall|i: int| 0 <= i < s.len() implies deck.contains(#[trigger] s[i]) by {
        assert(deck[at[i]] == s[i]);
    }
    assert forall|i: int, j: int| 0 <= i < s.len() && 0 <= j < s.len() && i != j implies s[i]
        != s[j] by {
        assert(at[i] != at[j]);
        assert(s[i] == deck[at[i]] && s[j] == deck[at[j]]);
    }
}

/// The rest of the deck.
pub fn rest_of_deck(known: &[Card]) -> (r: Vec<Card>)
    ensures
        r@ == unknown_cards(known@, 52),
        board::all_cards(r@),
        r@.len() + known@.len() >= 52,
        forall|i: int| 0 <= i < r@.len() ==> !known@.contains(#[trigger] r@[i]),
{
    let mut out: Vec<Card> = Vec::new();
    let mut id: u8 = 0;
    let ghost mut hit: Set<int> = Set::empty();
    while id < 52
        invariant
            id <= 52,
            out@ == unknown_cards(known@, id as int),
            board::all_cards(out@),
            forall|i: int| 0 <= i < out@.len() ==> !known@.contains(#[trigger] out@[i]),
            hit.finite(),
            out@.len() + hit.len() == id,
            forall|p: int|
                #[trigger] hit.contains(p) ==> 0 <= p < known@.len() && known@[p].wf()
                    && known@[p].index() < id,
        decreases 52 - id,
    {
        let c = Card::from_id(id);
        assert(c == (Card { rank: (id / 4 + 2) as u8, suit: (id % 4) as u8 }));
        if !board::holds(known, c) {
            out.push(c);
        } else {
            proof {
                let p = choose|p: int| 0 <= p < known@.len() && known@[p] == c;
                assert(!hit.contains(p));
                hit = hit.insert(p);
            }
        }
        id = id + 1;
    }
    proof {
        let all = vstd::set_lib::set_int_range(0, known@.len() as int);
        vstd::set_lib::lemma_int_range(0, known@.len() as int);
        assert(hit.subset_of(all));
        vstd::set_lib::lemma_len_subset(hit, all);
    }
    out
}

/// A runout: as many cards as complete the board, none of them known.
pub open spec fn is_runout(known: Seq<Card>, board: Seq<Card>, runout: Seq<Card>) -> bool {
    &&& runout.len() + board.len() == 5
    &&& drawn_from(unknown_cards(known, 52), runout)
}

/// Half points over a list of runouts.
pub open spec fn points_over(
    hero: [Card; 2],
    villain: [Card; 2],
    board: Seq<Card>,
    runouts: Seq<Seq<Card>>,
) -> int
    decreases runouts.len(),
{
    if runouts.len() == 0 {
        0
    } else {
        points_over(hero, villain, board, runouts.drop_last()) + showdown_points(
            hero,
            villain,
            board,
            runouts.last(),
        )
    }
}

/// What every equity comes from: `n` runouts of unknown cards.
pub open spec fn played_out(
    hero: [Card; 2],
    villain: [Card; 2],
    board: Seq<Card>,
    n: int,
    half_points: int,
) -> bool {
    exists|runouts: Seq<Seq<Card>>| #[trigger]
        points_over(hero, villain, board, runouts) == half_points && runouts.len() == n && forall|
            i: int,
        |
            0 <= i < n ==> is_runout(seven(hero, villain@, board), board, #[trigger] runouts[i])
}

/// How many showdowns are played: one is exact on a full board.
pub open spec fn trials_for(board: Seq<Card>, iters: u32) -> u64 {
    if board.len() == 5 {
        1
    } else {
        iters as u64
    }
}

/// The hero's equity against a hand on a board of 3 to 5 cards, over random
/// runouts; on a full board it is one showdown.
pub fn equity(hero: [Card; 2], villain: [Card; 2], board: &[Card], iters: u32) -> (r: Equity)
    requires
        3 <= board@.len() <= 5,
        board::all_cards(hero@),
        board::all_cards(villain@),
        board::all_cards(board@),
    ensures
        r.trials == trials_for(board@, iters),
        r.half_points <= 2 * r.trials,
        played_out(hero, villain, board@, r.trials as int, r.half_points as int),
        board@.len() == 5 ==> r.half_points == showdown_points(
            hero,
            villain,
            board@,
            Seq::<Card>::empty(),
        ),
{
    let known = seven_cards(hero, &villain, board);
    let deck = rest_of_deck(known.as_slice());
    let n_runout: usize = 5 - board.len();
    let trials: u64 = if n_runout == 0 {
        1
    } else {
        iters as u64
    };
    let mut score: u64 = 0;
    let mut i: u64 = 0;
    let ghost mut runouts: Seq<Seq<Card>> = Seq::empty();
    while i < trials
        invariant
            i <= trials <= 0xffff_ffff,
            3 <= board@.len() <= 5,
            n_runout == 5 - board@.len(),
            board::all_cards(hero@),
            board::all_cards(villain@),
            board::all_cards(board@),
            known@ == seven(hero, villain@, board@),
            known@.len() <= 9,
            deck@ == unknown_cards(known@, 52),
            board::all_cards(deck@),
            deck@.len() + known@.len() >= 52,
            score <= 2 * i,
            runouts.len() == i,
            score == points_over(hero, villain, board@, runouts),
            forall|k: int| 0 <= k < i ==> is_runout(known@, board@, #[trigger] runouts[k]),
        decreases trials - i,
    {
        let run = rand_sample(deck.as_slice(), n_runout);
        proof {
            let at = choose|at: Seq<int>| #[trigger]
                at.no_duplicates() && at.len() == run@.len() && forall|i: int|
                    0 <= i < run@.len() ==> 0 <= #[trigger] at[i] < deck@.len() && run@[i]
                        == deck@[at[i]];
            assert forall|k: int| 0 <= k < run@.len() implies (#[trigger] run@[k]).wf() by {
                assert(deck@[at[k]].wf());
            }
        }
        let p: u64 = showdown(hero, villain, board, run.as_slice());
        proof {
            let before = runouts;
            runouts = runouts.push(run@);
            assert(runouts.drop_last() =~= before);
        }
        score = score + p;
        i = i + 1;
    }
    proof {
        if board@.len() == 5 {
            assert(runouts.drop_last() =~= Seq::empty());
            assert(is_runout(known@, board@, runouts[0]));
            assert(runouts.last() =~= Seq::<Card>::empty());
            assert(points_over(hero, villain, board@, runouts.drop_last()) == 0);
        }
        assert(points_over(hero, villain, board@, runouts) == score);
    }
    Equity { half_points: score, trials }
}

/// One of the two cards is the hero's or on the board.
pub open spec fn blocked(v: [Card; 2], hero: [Card; 2], board: Seq<Card>) -> bool {
    exists|i: int| 0 <= i < 2 && ((hero@.contains(#[trigger] v@[i])) || board.contains(v@[i]))
}

/// Tests for [`blocked`].
pub fn is_blocked(v: [Card; 2], hero: [Card; 2], board: &[Card]) -> (r: bool)
    ensures
        r == blocked(v, hero, board@),
{
    let a = hero[0] == v[0] || hero[1] == v[0] || board::holds(board, v[0]);
    let b = hero[0] == v[1] || hero[1] == v[1] || board::holds(board, v[1]);
    proof {
        assert(hero@.contains(v@[0]) <==> hero@[0] == v@[0] || hero@[1] == v@[0]);
        assert(hero@.contains(v@[1]) <==> hero@[0] == v@[1] || hero@[1] == v@[1]);
        if a {
            assert(hero@.contains(v@[0]) || board@.contains(v@[0]));
        }
        if b {
            assert(hero@.contains(v@[1]) || board@.contains(v@[1]));
        }
    }
    a || b
}

/// The hands of a range that no card of the hero's or the board's blocks.
pub open spec fn live_hands(range: Seq<[Card; 2]>, hero: [Card; 2], board: Seq<Card>) -> Seq<
    [Card; 2],
> {
    range.filter(|v: [Card; 2]| !blocked(v, hero, board))
}

/// The hero's equity against each live hand of a range; the equity against the
/// range is their mean, and one half where there is none.
pub fn equity_vs_range(
    hero: [Card; 2],
    board: &[Card],
    villain_range: &[[Card; 2]],
    iters: u32,
) -> (r: Vec<Equity>)
    requires
        3 <= board@.len() <= 5,
        board::all_cards(hero@),
        board::all_cards(board@),
        forall|i: int| 0 <= i < villain_range@.len() ==> board::all_cards((#[trigger] villain_range@[i])@),
    ensures
        r@.len() == live_hands(villain_range@, hero, board@).len(),
        forall|i: int|
            0 <= i < r@.len() ==> (#[trigger] r@[i]).trials == trials_for(board@, iters)
                && r@[i].half_points <= 2 * r@[i].trials && played_out(
                hero,
                live_hands(villain_range@, hero, board@)[i],
                board@,
                r@[i].trials as int,
                r@[i].half_points as int,
            ),
{
    let mut out: Vec<Equity> = Vec::new();
    let mut i: usize = 0;
    proof {
        reveal(Seq::filter);
    }
    while i < villain_range.len()
        invariant
            i <= villain_range@.len(),
            3 <= board@.len() <= 5,
            board::all_cards(hero@),
            board::all_cards(board@),
            forall|k: int|
                0 <= k < villain_range@.len() ==> board::all_cards((#[trigger] villain_range@[k])@),
            out@.len() == live_hands(villain_range@.take(i as int), hero, board@).len(),
            forall|k: int|
                0 <= k < out@.len() ==> (#[trigger] out@[k]).trials == trials_for(board@, iters)
                    && out@[k].half_points <= 2 * out@[k].trials && played_out(
                    hero,
                    live_hands(villain_range@.take(i as int), hero, board@)[k],
                    board@,
                    out@[k].trials as int,
                    out@[k].half_points as int,
                ),
        decreases villain_range@.len() - i,
    {
        proof {
            reveal(Seq::filter);
            assert(villain_range@.take(i + 1).drop_last() =~= villain_range@.take(i as int));
        }
        let v = villain_range[i];
        if !is_blocked(v, hero, board) {
            out.push(equity(hero, v, board, iters));
        }
        i = i + 1;
    }
    assert(villain_range@.take(i as int) =~= villain_range@);
    out
}

// ---------------------------------------------------------------- buckets

/// Coarse strength of two hole cards on a flop, strong to weak.
#[derive(Debug, Clone, Copy, PartialEq, Eq, PartialOrd, Ord, Structural)]
pub enum Bucket {
    /// Two pair or better.
    Value,
    /// A pocket pair above the whole board.
    Overpair,
    /// The highest board card paired.
    TopPair,
    /// A weaker pair that the hero made.
    Pair,
    /// No made pair, but a flush or straight draw.
    Draw,
    /// No pair, no draw.
    Air,
}

impl Bucket {
    /// The name of the bucket.
    pub open spec fn name(self) -> Seq<char> {
        match self {
            Bucket::Value => "Value"@,
            Bucket::Overpair => "Overpair"@,
            Bucket::TopPair => "TopPair"@,
            Bucket::Pair => "Pair"@,
            Bucket::Draw => "Draw"@,
            Bucket::Air => "Air"@,
        }
    }

    /// The name of the bucket.
    pub fn text(self) -> (r: &'static str)
        ensures
            r@ == self.name(),
    {
        match self {
            Bucket::Value => "Value",
            Bucket::Overpair => "Overpair",
            Bucket::TopPair => "TopPair",
            Bucket::Pair => "Pair",
            Bucket::Draw => "Draw",
            Bucket::Air => "Air",
        }
    }
}

/// How many of the cards have suit `s`.
pub open spec fn suit_count(cards: Seq<Card>, s: int) -> int
    decreases cards.len(),
{
    if cards.len() == 0 {
        0
    } else {
        suit_count(cards.drop_last(), s) + if cards.last().suit == s {
            1int
        } else {
            0int
        }
    }
}

/// Exactly four of the cards share a suit.
pub open spec fn four_flush(cards: Seq<Card>) -> bool {
    exists|s: int| 0 <= s < 4 && #[trigger] suit_count(cards, s) == 4
}

/// Some card has this rank; the ace is also 1.
pub open spec fn rank_held(cards: Seq<Card>, rank: int) -> bool {
    exists|i: int|
        0 <= i < cards.len() && ((#[trigger] cards[i]).rank == rank || (cards[i].rank == 14 && rank
            == 1))
}

/// How many of the `n` ranks from `lo` on are held.
pub open spec fn held_from(cards: Seq<Card>, lo: int, n: int) -> int
    decreases n,
{
    if n <= 0 {
        0
    } else {
        held_from(cards, lo, n - 1) + if rank_held(cards, lo + n - 1) {
            1int
        } else {
            0int
        }
    }
}

/// Four distinct ranks inside some five in a row, the ace high and low.
pub open spec fn four_straight(cards: Seq<Card>) -> bool {
    exists|lo: int| 1 <= lo <= 10 && #[trigger] held_from(cards, lo, 5) >= 4
}

/// All cards but the one at `odd` are of one suit, and that one is not.
pub open spec fn one_off_suit(cards: Seq<Card>, odd: int) -> bool {
    &&& 0 <= odd < cards.len()
    &&& forall|i: int, j: int|
        0 <= i < cards.len() && 0 <= j < cards.len() && i != odd && j != odd ==> (
        #[trigger] cards[i]).suit == (#[trigger] cards[j]).suit
    &&& forall|i: int|
        0 <= i < cards.len() && i != odd ==> (#[trigger] cards[i]).suit != cards[odd].suit
}

proof fn lemma_suit_count_five(cards: Seq<Card>, s: int)
    requires
        cards.len() == 5,
    ensures
        suit_count(cards, s) == is_suit(cards[0], s) + is_suit(cards[1], s) + is_suit(cards[2], s)
            + is_suit(cards[3], s) + is_suit(cards[4], s),
{
    reveal_with_fuel(suit_count, 6);
    let d4 = cards.drop_last();
    let d3 = d4.drop_last();
    let d2 = d3.drop_last();
    let d1 = d2.drop_last();
    assert(d4[3] == cards[3] && d3[2] == cards[2] && d2[1] == cards[1] && d1[0] == cards[0]);
}

spec fn is_suit(c: Card, s: int) -> int {
    if c.suit == s {
        1
    } else {
        0
    }
}

/// Five cards have a flush draw exactly where one of them is off the suit of the
/// other four.
pub proof fn a_flush_draw_misses_one_card(cards: Seq<Card>)
    requires
        cards.len() == 5,
        board::all_cards(cards),
    ensures
        four_flush(cards) <==> exists|odd: int| #[trigger] one_off_suit(cards, odd),
{
    assert(cards[0].wf() && cards[1].wf() && cards[2].wf() && cards[3].wf() && cards[4].wf());
    if four_flush(cards) {
        let s = choose|s: int| 0 <= s < 4 && #[trigger] suit_count(cards, s) == 4;
        lemma_suit_count_five(cards, s);
        let odd = if cards[0].suit != s {
            0int
        } else if cards[1].suit != s {
            1
        } else if cards[2].suit != s {
            2
        } else if cards[3].suit != s {
            3
        } else {
            4
        };
        assert(one_off_suit(cards, odd));
    }
    if exists|odd: int| #[trigger] one_off_suit(cards, odd) {
        let odd = choose|odd: int| #[trigger] one_off_suit(cards, odd);
        let s = if odd == 0 {
            cards[1].suit as int
        } else {
            cards[0].suit as int
        };
        lemma_suit_count_five(cards, s);
        assert(suit_count(cards, s) == 4);
    }
}

/// A card of the rank `v` is held, the ace counting as 14 and as 1.
pub open spec fn holds_value(cards: Seq<Card>, v: int) -> bool {
    exists|c: Card| #[trigger] cards.contains(c) && (c.rank == v || (v == 1 && c.rank == 14))
}

/// Of the five ranks from `lo` on all are held, but perhaps the one at `gap`.
pub open spec fn row_but_one(cards: Seq<Card>, lo: int, gap: int) -> bool {
    &&& 1 <= lo <= 10
    &&& lo <= gap < lo + 5
    &&& forall|v: int| lo <= v < lo + 5 && v != gap ==> #[trigger] holds_value(cards, v)
}

proof fn lemma_rank_held(cards: Seq<Card>, v: int)
    ensures
        rank_held(cards, v) == holds_value(cards, v),
{
    if rank_held(cards, v) {
        let i = choose|i: int|
            0 <= i < cards.len() && ((#[trigger] cards[i]).rank == v || (cards[i].rank == 14 && v
                == 1));
        assert(cards.contains(cards[i]));
    }
    if holds_value(cards, v) {
        let c = choose|c: Card| #[trigger]
            cards.contains(c) && (c.rank == v || (v == 1 && c.rank == 14));
        let i = cards.index_of(c);
        assert(cards[i] == c);
    }
}

/// Cards have a straight draw exactly where, of some five ranks in a row, they
/// hold all but at most one.
pub proof fn a_straight_draw_misses_one_rank(cards: Seq<Card>)
    ensures
        four_straight(cards) <==> exists|lo: int, gap: int| #[trigger] row_but_one(cards, lo, gap),
{
    reveal_with_fuel(held_from, 6);
    assert forall|v: int| rank_held(cards, v) == #[trigger] holds_value(cards, v) by {
        lemma_rank_held(cards, v);
    }
    if four_straight(cards) {
        let lo = choose|lo: int| 1 <= lo <= 10 && #[trigger] held_from(cards, lo, 5) >= 4;
        let gap = if !holds_value(cards, lo) {
            lo
        } else if !holds_value(cards, lo + 1) {
            lo + 1
        } else if !holds_value(cards, lo + 2) {
            lo + 2
        } else if !holds_value(cards, lo + 3) {
            lo + 3
        } else {
            lo + 4
        };
        assert(holds_value(cards, lo + 4) == rank_held(cards, lo + 4));
        assert(row_but_one(cards, lo, gap));
    }
    if exists|lo: int, gap: int| #[trigger] row_but_one(cards, lo, gap) {
        let (lo, gap) = choose|lo: int, gap: int| #[trigger] row_but_one(cards, lo, gap);
        let (a, b, c, d, e) = (
            holds_value(cards, lo),
            holds_value(cards, lo + 1),
            holds_value(cards, lo + 2),
            holds_value(cards, lo + 3),
            holds_value(cards, lo + 4),
        );
        assert(held_from(cards, lo, 5) >= 4);
    }
}

/// Whether the five cards hold exactly four of one suit.
pub fn flush_draw(cards: &[Card; 5]) -> (r: bool)
    requires
        board::all_cards(cards@),
    ensures
        r == four_flush(cards@),
{
    let mut s: u8 = 0;
    while s < 4
        invariant
            s <= 4,
            forall|t: int| 0 <= t < s ==> #[trigger] suit_count(cards@, t) != 4,
        decreases 4 - s,
    {
        let mut n: usize = 0;
        let mut i: usize = 0;
        while i < 5
            invariant
                i <= 5,
                n <= i,
                n == suit_count(cards@.take(i as int), s as int),
            decreases 5 - i,
        {
            assert(cards@.take(i + 1).drop_last() =~= cards@.take(i as int));
            assert(cards@.take(i + 1).last() == cards@[i as int]);
            if cards[i].suit == s {
                n = n + 1;
            }
            i = i + 1;
        }
        assert(cards@.take(5) =~= cards@);
        if n == 4 {
            assert(suit_count(cards@, s as int) == 4);
            return true;
        }
        s = s + 1;
    }
    false
}

fn holds_rank(cards: &[Card; 5], rank: u8) -> (r: bool)
    ensures
        r == rank_held(cards@, rank as int),
{
    let mut i: usize = 0;
    while i < 5
        invariant
            i <= 5,
            forall|k: int|
                0 <= k < i ==> (#[trigger] cards@[k]).rank != rank && !(cards@[k].rank == 14 && rank
                    == 1),
        decreases 5 - i,
    {
        if cards[i].rank == rank || (cards[i].rank == 14 && rank == 1) {
            assert(cards@[i as int].rank == rank || (cards@[i as int].rank == 14 && rank == 1));
            return true;
        }
        i = i + 1;
    }
    false
}

/// Whether four distinct ranks lie inside five in a row.
pub fn straight_draw(cards: &[Card; 5]) -> (r: bool)
    ensures
        r == four_straight(cards@),
{
    let mut lo: u8 = 1;
    while lo <= 10
        invariant
            1 <= lo <= 11,
            forall|t: int| 1 <= t < lo ==> #[trigger] held_from(cards@, t, 5) < 4,
        decreases 11 - lo,
    {
        let mut n: usize = 0;
        let mut k: u8 = 0;
        while k < 5
            invariant
                k <= 5,
                1 <= lo <= 10,
                n <= k,
                n == held_from(cards@, lo as int, k as int),
            decreases 5 - k,
        {
            if holds_rank(cards, lo + k) {
                n = n + 1;
            }
            k = k + 1;
        }
        if n >= 4 {
            assert(held_from(cards@, lo as int, 5) >= 4);
            return true;
        }
        lo = lo + 1;
    }
    false
}

/// The highest rank of three cards.
pub open spec fn top_rank(flop: [Card; 3]) -> u8 {
    let m = if flop[0].rank >= flop[1].rank {
        flop[0].rank
    } else {
        flop[1].rank
    };
    if m >= flop[2].rank {
        m
    } else {
        flop[2].rank
    }
}

/// A single pair by board rank: overpair, top pair, or weaker.
pub open spec fn pair_bucket(hole: [Card; 2], flop: [Card; 3]) -> Bucket {
    let top = top_rank(flop);
    if hole[0].rank == hole[1].rank && hole[0].rank > top {
        Bucket::Overpair
    } else if hole[0].rank == top || hole[1].rank == top {
        Bucket::TopPair
    } else {
        Bucket::Pair
    }
}

/// The hero has a pocket pair, or pairs a board card.
pub open spec fn contributes(hole: [Card; 2], flop: [Card; 3]) -> bool {
    ||| hole[0].rank == hole[1].rank
    ||| exists|i: int|
        0 <= i < 3 && ((#[trigger] flop[i]).rank == hole[0].rank || flop[i].rank == hole[1].rank)
}

/// Splits a made single pair by board rank.
pub fn pair_strength(hole: [Card; 2], flop: [Card; 3]) -> (r: Bucket)
    ensures
        r == pair_bucket(hole, flop),
{
    let m: u8 = if flop[0].rank >= flop[1].rank {
        flop[0].rank
    } else {
        flop[1].rank
    };
    let top: u8 = if m >= flop[2].rank {
        m
    } else {
        flop[2].rank
    };
    if hole[0].rank == hole[1].rank && hole[0].rank > top {
        Bucket::Overpair
    } else if hole[0].rank == top || hole[1].rank == top {
        Bucket::TopPair
    } else {
        Bucket::Pair
    }
}

/// A pocket pair above every card of the flop is an overpair. Otherwise a hole
/// card of either place that matches the highest card of the flop makes top pair,
/// and what is left is a weaker pair.
pub proof fn pairs_are_told_by_the_highest_card(hole: [Card; 2], flop: [Card; 3], t: int)
    requires
        0 <= t < 3,
        forall|i: int| 0 <= i < 3 ==> (#[trigger] flop[i]).rank <= flop[t].rank,
    ensures
        pair_bucket(hole, flop) == Bucket::Overpair <==> hole[0].rank == hole[1].rank && forall|
            i: int,
        |
            0 <= i < 3 ==> (#[trigger] flop[i]).rank < hole[0].rank,
        pair_bucket(hole, flop) == Bucket::TopPair <==> exists|k: int|
            0 <= k < 2 && (#[trigger] hole[k]).rank == flop[t].rank,
        pair_bucket(hole, flop) == Bucket::Overpair || pair_bucket(hole, flop) == Bucket::TopPair
            || pair_bucket(hole, flop) == Bucket::Pair,
{
    assert(flop[0].rank <= flop[t].rank && flop[1].rank <= flop[t].rank && flop[2].rank
        <= flop[t].rank);
    assert(top_rank(flop) == flop[t].rank);
    if hole[0].rank == hole[1].rank && hole[0].rank > flop[t].rank {
        assert forall|i: int| 0 <= i < 3 implies (#[trigger] flop[i]).rank < hole[0].rank by {}
    }
    if hole[0].rank == flop[t].rank {
        assert(0 <= 0 < 2 && hole[0].rank == flop[t].rank);
    }
    if hole[1].rank == flop[t].rank {
        assert(0 <= 1 < 2 && hole[1].rank == flop[t].rank);
    }
}

/// A single pair is in the same bucket whichever hole card is written first.
pub proof fn pairs_ignore_hole_order(hole: [Card; 2], other: [Card; 2], flop: [Card; 3])
    requires
        other[0] == hole[1],
        other[1] == hole[0],
    ensures
        pair_bucket(other, flop) == pair_bucket(hole, flop),
{
}

/// Whether the hero contributed to a pair.
pub fn hero_makes_pair(hole: [Card; 2], flop: [Card; 3]) -> (r: bool)
    ensures
        r == contributes(hole, flop),
{
    let a = flop[0].rank == hole[0].rank || flop[0].rank == hole[1].rank;
    let b = flop[1].rank == hole[0].rank || flop[1].rank == hole[1].rank;
    let c = flop[2].rank == hole[0].rank || flop[2].rank == hole[1].rank;
    proof {
        if a {
            assert(flop[0].rank == hole[0].rank || flop[0].rank == hole[1].rank);
        }
        if b {
            assert(flop[1].rank == hole[0].rank || flop[1].rank == hole[1].rank);
        }
        if c {
            assert(flop[2].rank == hole[0].rank || flop[2].rank == hole[1].rank);
        }
    }
    hole[0].rank == hole[1].rank || a || b || c
}

/// Hole cards and flop together.
pub open spec fn five(hole: [Card; 2], flop: [Card; 3]) -> Seq<Card> {
    seq![hole[0], hole[1], flop[0], flop[1], flop[2]]
}

/// The bucket of a hand whose best five have this category.
pub open spec fn bucket_of(category: u8, hole: [Card; 2], flop: [Card; 3]) -> Bucket {
    let cards = five(hole, flop);
    if category >= 2 {
        Bucket::Value
    } else if category == 1 && contributes(hole, flop) {
        pair_bucket(hole, flop)
    } else if four_flush(cards) || four_straight(cards) {
        Bucket::Draw
    } else {
        Bucket::Air
    }
}

/// The bucket of a hand depends neither on which hole card is written first nor on
/// the order of the flop.
pub proof fn buckets_ignore_card_order(
    category: u8,
    hole: [Card; 2],
    flop: [Card; 3],
    other: [Card; 2],
    turned: [Card; 3],
    i: int,
    j: int,
    k: int,
)
    requires
        other == hole || (other[0] == hole[1] && other[1] == hole[0]),
        0 <= i < 3,
        0 <= j < 3,
        0 <= k < 3,
        i != j,
        j != k,
        i != k,
        turned[0] == flop[i],
        turned[1] == flop[j],
        turned[2] == flop[k],
    ensures
        bucket_of(category, other, turned) == bucket_of(category, hole, flop),
        codes_of(five(other, turned)) == codes_of(five(hole, flop)),
{
    let a = five(hole, flop);
    let b = five(other, turned);
    assert forall|s: int| #[trigger] suit_count(a, s) == suit_count(b, s) by {
        lemma_suit_count_five(a, s);
        lemma_suit_count_five(b, s);
    }
    assert(four_flush(a) == four_flush(b)) by {
        if four_flush(a) {
            let s = choose|s: int| 0 <= s < 4 && #[trigger] suit_count(a, s) == 4;
            assert(suit_count(b, s) == 4);
        }
        if four_flush(b) {
            let s = choose|s: int| 0 <= s < 4 && #[trigger] suit_count(b, s) == 4;
            assert(suit_count(a, s) == 4);
        }
    }
    assert forall|c: Card| #[trigger] a.contains(c) == b.contains(c) by {
        lemma_five_contains(hole, flop, c);
        lemma_five_contains(other, turned, c);
    }
    a_straight_draw_misses_one_rank(a);
    a_straight_draw_misses_one_rank(b);
    lemma_same_straights(a, b);
    lemma_same_straights(b, a);
    lemma_codes_of_same(a, b);
    lemma_codes_of_same(b, a);
    assert(codes_of(a) =~= codes_of(b));
    lemma_contributes(hole, flop);
    lemma_contributes(other, turned);
}

proof fn lemma_contributes(hole: [Card; 2], flop: [Card; 3])
    ensures
        contributes(hole, flop) == (hole[0].rank == hole[1].rank || flop[0].rank == hole[0].rank
            || flop[1].rank == hole[0].rank || flop[2].rank == hole[0].rank || flop[0].rank
            == hole[1].rank || flop[1].rank == hole[1].rank || flop[2].rank == hole[1].rank),
{
    assert(flop[0] == flop[0] && flop[1] == flop[1] && flop[2] == flop[2]);
}

proof fn lemma_five_contains(hole: [Card; 2], flop: [Card; 3], c: Card)
    ensures
        five(hole, flop).contains(c) == (c == hole[0] || c == hole[1] || c == flop[0] || c
            == flop[1] || c == flop[2]),
{
    let a = five(hole, flop);
    assert(a[0] == hole[0] && a[1] == hole[1] && a[2] == flop[0] && a[3] == flop[1] && a[4]
        == flop[2]);
}

proof fn lemma_same_straights(a: Seq<Card>, b: Seq<Card>)
    requires
        forall|c: Card| #[trigger] a.contains(c) == b.contains(c),
    ensures
        (exists|lo: int, gap: int| #[trigger] row_but_one(a, lo, gap)) ==> exists|
            lo: int,
            gap: int,
        | #[trigger]
            row_but_one(b, lo, gap),
{
    if exists|lo: int, gap: int| #[trigger] row_but_one(a, lo, gap) {
        let (lo, gap) = choose|lo: int, gap: int| #[trigger] row_but_one(a, lo, gap);
        assert forall|v: int| lo <= v < lo + 5 && v != gap implies #[trigger] holds_value(b, v) by {
            assert(holds_value(a, v));
            let c = choose|c: Card| #[trigger]
                a.contains(c) && (c.rank == v || (v == 1 && c.rank == 14));
            assert(b.contains(c));
        }
        assert(row_but_one(b, lo, gap));
    }
}

proof fn lemma_codes_of_same(a: Seq<Card>, b: Seq<Card>)
    requires
        forall|c: Card| #[trigger] a.contains(c) == b.contains(c),
    ensures
        codes_of(a).subset_of(codes_of(b)),
{
    let f = |c: Card| c.rs_code() as u8;
    assert forall|x: u8| codes_of(a).contains(x) implies codes_of(b).contains(x) by {
        let i = choose|i: int| 0 <= i < a.len() && a.map_values(f)[i] == x;
        assert(a.contains(a[i]));
        let j = b.index_of(a[i]);
        assert(b.map_values(f)[j] == x);
    }
}

/// The bucket of a hand whose best five have this category. A pair that lies on
/// the board alone does not count.
pub fn bucket_for(category: u8, hole: [Card; 2], flop: [Card; 3]) -> (r: Bucket)
    requires
        board::all_cards(hole@),
        board::all_cards(flop@),
    ensures
        r == bucket_of(category, hole, flop),
{
    let cards: [Card; 5] = [hole[0], hole[1], flop[0], flop[1], flop[2]];
    assert(cards@ =~= five(hole, flop));
    assert(board::all_cards(cards@)) by {
        assert(hole@[0].wf() && hole@[1].wf());
        assert(flop@[0].wf() && flop@[1].wf() && flop@[2].wf());
    }
    if category >= 2 {
        Bucket::Value
    } else if category == 1 && hero_makes_pair(hole, flop) {
        pair_strength(hole, flop)
    } else if flush_draw(&cards) || straight_draw(&cards) {
        Bucket::Draw
    } else {
        Bucket::Air
    }
}

/// The bucket of two hole cards on a flop.
pub fn classify_hand(hole: [Card; 2], flop: [Card; 3]) -> (r: Bucket)
    requires
        board::all_cards(hole@),
        board::all_cards(flop@),
    ensures
        r == bucket_of(best_five(codes_of(five(hole, flop))).0, hole, flop),
{
    let cards: Vec<Card> = vec![hole[0], hole[1], flop[0], flop[1], flop[2]];
    assert(cards@ =~= five(hole, flop));
    assert(board::all_cards(cards@)) by {
        assert(hole@[0].wf() && hole@[1].wf());
        assert(flop@[0].wf() && flop@[1].wf() && flop@[2].wf());
    }
    let (category, _bits) = rank_of(cards.as_slice());
    bucket_for(category, hole, flop)
}

/// The better rank takes both half points and equal ones share them: a higher
/// category wins, then the higher strength within it.
pub proof fn the_better_rank_takes_the_points(hero: (u8, u16), villain: (u8, u16))
    ensures
        points(hero, villain) + points(villain, hero) == 2,
        hero.0 > villain.0 ==> points(hero, villain) == 2,
        hero.0 == villain.0 && hero.1 > villain.1 ==> points(hero, villain) == 2,
        hero == villain ==> points(hero, villain) == 1,
{
}

/// What one side does not win over a list of runouts the other side does.
pub proof fn the_two_sides_share_every_pot(
    hero: [Card; 2],
    villain: [Card; 2],
    board: Seq<Card>,
    runouts: Seq<Seq<Card>>,
)
    ensures
        points_over(hero, villain, board, runouts) + points_over(villain, hero, board, runouts) == 2
            * runouts.len(),
        0 <= points_over(hero, villain, board, runouts) <= 2 * runouts.len(),
    decreases runouts.len(),
{
    if runouts.len() > 0 {
        the_two_sides_share_every_pot(hero, villain, board, runouts.drop_last());
    }
}

/// The rest of the deck is every card that is not known, once each.
pub proof fn the_rest_is_every_other_card(known: Seq<Card>, n: int, c: Card)
    requires
        0 <= n <= 52,
    ensures
        unknown_cards(known, n).contains(c) <==> c.wf() && c.index() < n && !known.contains(c),
        unknown_cards(known, n).no_duplicates(),
    decreases n,
{
    lemma_unknown_distinct(known, n);
    if n > 0 {
        the_rest_is_every_other_card(known, n - 1, c);
        let before = unknown_cards(known, n - 1);
        let all = unknown_cards(known, n);
        let d = Card { rank: ((n - 1) / 4 + 2) as u8, suit: ((n - 1) % 4) as u8 };
        assert(d.wf() && d.index() == n - 1);
        if all.contains(c) {
            let i = all.index_of(c);
            if i < before.len() {
                assert(before[i] == c);
            }
        }
        if before.contains(c) {
            let i = before.index_of(c);
            assert(all[i] == c);
        }
        if c.wf() && c.index() == n - 1 {
            board::lemma_index_injective(c, d);
            if !known.contains(d) {
                assert(all[before.len() as int] == c);
            }
        }
    }
}

/// A runout completes the board with different cards, none of them known.
pub proof fn runouts_avoid_known_cards(known: Seq<Card>, board: Seq<Card>, runout: Seq<Card>)
    requires
        is_runout(known, board, runout),
    ensures
        runout.len() + board.len() == 5,
        runout.no_duplicates(),
        board::all_cards(runout),
        forall|i: int| 0 <= i < runout.len() ==> !known.contains(#[trigger] runout[i]),
{
    let deck = unknown_cards(known, 52);
    lemma_unknown_distinct(known, 52);
    lemma_drawn_distinct(deck, runout);
    assert forall|i: int| 0 <= i < runout.len() implies (#[trigger] runout[i]).wf() && !known.contains(
        runout[i],
    ) by {
        the_rest_is_every_other_card(known, 52, runout[i]);
    }
}

/// A runout for two hands on a board: the board is completed with different cards
/// that neither hand holds and that are not on it.
pub open spec fn fair_runout(
    hero: [Card; 2],
    villain: [Card; 2],
    board: Seq<Card>,
    runout: Seq<Card>,
) -> bool {
    &&& runout.len() + board.len() == 5
    &&& runout.no_duplicates()
    &&& board::all_cards(runout)
    &&& forall|i: int|
        0 <= i < runout.len() ==> (#[trigger] runout[i]) != hero[0] && runout[i] != hero[1]
            && runout[i] != villain[0] && runout[i] != villain[1] && !board.contains(runout[i])
}

/// Every equity comes from fair runouts, as many as were asked for.
pub proof fn equities_come_from_fair_runouts(
    hero: [Card; 2],
    villain: [Card; 2],
    board: Seq<Card>,
    n: int,
    half_points: int,
)
    requires
        played_out(hero, villain, board, n, half_points),
    ensures
        exists|runouts: Seq<Seq<Card>>| #[trigger]
            points_over(hero, villain, board, runouts) == half_points && runouts.len() == n
                && forall|i: int|
                0 <= i < n ==> fair_runout(hero, villain, board, #[trigger] runouts[i]),
{
    let runouts = choose|runouts: Seq<Seq<Card>>| #[trigger]
        points_over(hero, villain, board, runouts) == half_points && runouts.len() == n && forall|
            i: int,
        |
            0 <= i < n ==> is_runout(seven(hero, villain@, board), board, #[trigger] runouts[i]);
    let known = seven(hero, villain@, board);
    assert(known[0] == hero[0] && known[1] == hero[1]);
    assert(known[2] == villain@[0] && known[3] == villain@[1]);
    assert forall|i: int| 0 <= i < n implies fair_runout(
        hero,
        villain,
        board,
        #[trigger] runouts[i],
    ) by {
        let r = runouts[i];
        runouts_avoid_known_cards(known, board, r);
        assert forall|k: int| 0 <= k < r.len() implies (#[trigger] r[k]) != hero[0] && r[k]
            != hero[1] && r[k] != villain[0] && r[k] != villain[1] && !board.contains(r[k]) by {
            assert(!known.contains(r[k]));
            assert(known.contains(known[0]) && known.contains(known[1]) && known.contains(known[2])
                && known.contains(known[3]));
            if board.contains(r[k]) {
                let j = board.index_of(r[k]);
                assert(known[4 + j] == r[k]);
            }
        }
    }
    assert(points_over(hero, villain, board, runouts) == half_points);
}

/// The live hands of a range are all of which no card is the hero's or on the board.
pub proof fn live_hands_share_no_card(
    range: Seq<[Card; 2]>,
    hero: [Card; 2],
    board: Seq<Card>,
    v: [Card; 2],
)
    ensures
        live_hands(range, hero, board).contains(v) <==> range.contains(v) && v[0] != hero[0] && v[0]
            != hero[1] && v[1] != hero[0] && v[1] != hero[1] && !board.contains(v[0])
            && !board.contains(v[1]),
{
    let ok = |v: [Card; 2]| !blocked(v, hero, board);
    let live = range.filter(ok);
    assert(hero@.contains(v@[0]) <==> hero@[0] == v@[0] || hero@[1] == v@[0]);
    assert(hero@.contains(v@[1]) <==> hero@[0] == v@[1] || hero@[1] == v@[1]);
    assert(v@[0] == v[0] && v@[1] == v[1]);
    if live.contains(v) {
        let i = live.index_of(v);
        range.lemma_filter_pred(ok, i);
        range.lemma_filter_contains_rev(ok, v);
    }
    if range.contains(v) && ok(v) {
        let i = range.index_of(v);
        range.lemma_filter_contains(ok, i);
    }
}

/// Two pair or better is value. A single pair counts where a hole card is part of it:
/// the hole cards are a pair, or one of them pairs a card of the flop. Everything
/// else is a draw where the five cards draw to a flush or a straight, and air where
/// they do not.
pub proof fn buckets_follow_what_the_hero_made(category: u8, hole: [Card; 2], flop: [Card; 3])
    ensures
        ({
            let b = bucket_of(category, hole, flop);
            let made = hole[0].rank == hole[1].rank || hole[0].rank == flop[0].rank || hole[0].rank
                == flop[1].rank || hole[0].rank == flop[2].rank || hole[1].rank == flop[0].rank
                || hole[1].rank == flop[1].rank || hole[1].rank == flop[2].rank;
            let draws = four_flush(five(hole, flop)) || four_straight(five(hole, flop));
            &&& b == Bucket::Value <==> category >= 2
            &&& b == Bucket::Overpair || b == Bucket::TopPair || b == Bucket::Pair <==> category
                == 1 && made
            &&& category == 1 && made ==> b == pair_bucket(hole, flop)
            &&& b == Bucket::Draw <==> category < 2 && !(category == 1 && made) && draws
            &&& b == Bucket::Air <==> category < 2 && !(category == 1 && made) && !draws
        }),
{
    lemma_contributes(hole, flop);
}

/// The hero makes a pair where a hole card has the rank of another of the five cards.
pub proof fn pairs_need_a_hole_card(hole: [Card; 2], flop: [Card; 3])
    ensures
        contributes(hole, flop) <==> exists|i: int, j: int|
            0 <= i < 2 && i < j < 5 && (#[trigger] five(hole, flop)[i]).rank == (#[trigger] five(
                hole,
                flop,
            )[j]).rank,
{
    let f = five(hole, flop);
    assert(f[0] == hole[0] && f[1] == hole[1] && f[2] == flop[0] && f[3] == flop[1] && f[4]
        == flop[2]);
    if contributes(hole, flop) && hole[0].rank != hole[1].rank {
        let k = choose|k: int|
            0 <= k < 3 && ((#[trigger] flop[k]).rank == hole[0].rank || flop[k].rank
                == hole[1].rank);
        assert(f[k + 2] == flop[k]);
        if flop[k].rank == hole[0].rank {
            assert(f[0].rank == f[k + 2].rank);
        } else {
            assert(f[1].rank == f[k + 2].rank);
        }
    }
    if exists|i: int, j: int|
        0 <= i < 2 && i < j < 5 && (#[trigger] f[i]).rank == (#[trigger] f[j]).rank {
        let (i, j) = choose|i: int, j: int|
            0 <= i < 2 && i < j < 5 && (#[trigger] f[i]).rank == (#[trigger] f[j]).rank;
        if j >= 2 {
            assert(f[j] == flop[j - 2]);
        }
    }
}

} // verus!
