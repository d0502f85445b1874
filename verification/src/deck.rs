//! Dealing cards from a deck.

use crate::board;
use crate::board::Card;
use vstd::prelude::*;

verus! {

/// `rs_poker::core::Deck`, a set of cards that are dealt one by one.
#[verifier::external_type_specification]
#[verifier::external_body]
pub struct ExDeck(rs_poker::core::Deck);

/// The numbers of the cards that a deck still holds.
pub uninterp spec fn deck_codes(deck: rs_poker::core::Deck) -> Set<u8>;

/// The numbers of all cards.
pub open spec fn all_codes() -> Set<u8> {
    Set::new(|c: u8| c < 52)
}

/// `rs_poker::core::Deck::default`: a deck of all 52 cards.
#[verifier::external_body]
fn full_deck() -> (r: rs_poker::core::Deck)
    ensures
        deck_codes(r) == all_codes(),
{
    rs_poker::core::Deck::default()
}

/// `rs_poker::core::Deck::deal` with the generator of the thread, the card given
/// by its number (`u8::from`): one of the cards, which one being left to chance,
/// leaves the deck. There is none where the deck is empty.
#[verifier::external_body]
fn deal_code(deck: &mut rs_poker::core::Deck) -> (r: Option<u8>)
    ensures
        r is None ==> deck_codes(*old(deck)) == Set::<u8>::empty() && deck_codes(*final(deck))
            == deck_codes(*old(deck)),
        r matches Some(c) ==> deck_codes(*old(deck)).contains(c) && deck_codes(*final(deck))
            == deck_codes(*old(deck)).remove(c),
{
    deck.deal(&mut rand::rng()).map(u8::from)
}

/// Two hands and a flop.
#[derive(Debug, Clone, Copy)]
pub struct HeadsUpDeal {
    pub first: [Card; 2],
    pub second: [Card; 2],
    pub flop: [Card; 3],
}

impl HeadsUpDeal {
    /// All seven cards.
    pub open spec fn cards(self) -> Seq<Card> {
        seq![
            self.first[0],
            self.first[1],
            self.second[0],
            self.second[1],
            self.flop[0],
            self.flop[1],
            self.flop[2],
        ]
    }
}

/// Draws a card that has not been drawn.
fn draw(deck: &mut rs_poker::core::Deck, drawn: &Vec<Card>) -> (r: Card)
    requires
        drawn@.len() < 52,
        board::all_cards(drawn@),
        forall|c: u8|
            #![trigger deck_codes(*old(deck)).contains(c)]
            deck_codes(*old(deck)).contains(c) == (c < 52 && !drawn_code(drawn@, c)),
    ensures
        r.wf(),
        !drawn@.contains(r),
        forall|c: u8|
            #![trigger deck_codes(*final(deck)).contains(c)]
            deck_codes(*final(deck)).contains(c) == (c < 52 && !drawn_code(drawn@.push(r), c)),
{
    match deal_code(deck) {
        Some(c) => {
            assert(deck_codes(*old(deck)).contains(c));
            let card = Card::from_code(c);
            proof {
                if drawn@.contains(card) {
                    let i = choose|i: int| 0 <= i < drawn@.len() && drawn@[i] == card;
                    assert(drawn@[i].rs_code() == c);
                }
                assert forall|d: u8|
                    #![trigger deck_codes(*deck).contains(d)]
                    deck_codes(*deck).contains(d) == (d < 52 && !drawn_code(
                        drawn@.push(card),
                        d,
                    )) by {
                    assert(deck_codes(*old(deck)).contains(d) == (d < 52 && !drawn_code(
                        drawn@,
                        d,
                    )));
                    let p = drawn@.push(card);
                    assert(p[drawn@.len() as int] == card);
                    if drawn_code(drawn@, d) {
                        let i = choose|i: int|
                            0 <= i < drawn@.len() && (#[trigger] drawn@[i]).rs_code() == d;
                        assert(p[i].rs_code() == d);
                    }
                    if drawn_code(p, d) && d != c {
                        let i = choose|i: int| 0 <= i < p.len() && (#[trigger] p[i]).rs_code() == d;
                        assert(drawn@[i].rs_code() == d);
                    }
                }
            }
            card
        },
        None => {
            proof {
                lemma_code_left(drawn@);
                let c = choose|c: u8| c < 52 && !drawn_code(drawn@, c);
                assert(deck_codes(*old(deck)).contains(c));
                assert(false);
            }
            Card::from_code(0)
        },
    }
}

/// Some card has this number.
pub open spec fn drawn_code(drawn: Seq<Card>, c: u8) -> bool {
    exists|i: int| 0 <= i < drawn.len() && (#[trigger] drawn[i]).rs_code() == c
}

proof fn lemma_code_left(drawn: Seq<Card>)
    requires
        drawn.len() < 52,
    ensures
        exists|c: u8| c < 52 && !drawn_code(drawn, c),
{
    let used = drawn.map_values(|c: Card| c.rs_code()).to_set();
    let all = vstd::set_lib::set_int_range(0, 52);
    vstd::set_lib::lemma_int_range(0, 52);
    drawn.map_values(|c: Card| c.rs_code()).lemma_cardinality_of_set();
    if forall|c: int| all.contains(c) ==> used.contains(c) {
        assert(all.subset_of(used));
        vstd::set_lib::lemma_len_subset(all, used);
    }
    let c = choose|c: int| all.contains(c) && !used.contains(c);
    assert(!drawn_code(drawn, c as u8)) by {
        if drawn_code(drawn, c as u8) {
            let i = choose|i: int| 0 <= i < drawn.len() && (#[trigger] drawn[i]).rs_code() == c;
            assert(drawn.map_values(|c: Card| c.rs_code())[i] == c);
            assert(used.contains(c));
        }
    }
}

/// Deals two hands and a flop: seven different cards.
pub fn deal_heads_up() -> (r: HeadsUpDeal)
    ensures
        board::all_cards(r.cards()),
        r.cards().no_duplicates(),
{
    let mut deck = full_deck();
    let mut drawn: Vec<Card> = Vec::new();
    let mut i: usize = 0;
    while i < 7
        invariant
            i <= 7,
            drawn@.len() == i,
            board::all_cards(drawn@),
            drawn@.no_duplicates(),
            forall|c: u8|
                #![trigger deck_codes(deck).contains(c)]
                deck_codes(deck).contains(c) == (c < 52 && !drawn_code(drawn@, c)),
        decreases 7 - i,
    {
        let c = draw(&mut deck, &drawn);
        drawn.push(c);
        i = i + 1;
    }
    let r = HeadsUpDeal {
        first: [drawn[0], drawn[1]],
        second: [drawn[2], drawn[3]],
        flop: [drawn[4], drawn[5], drawn[6]],
    };
    assert(r.cards() =~= drawn@);
    r
}

} // verus!
