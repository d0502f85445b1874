//! Cards and the board.

use crate::iso;
use crate::text;
use vstd::prelude::*;

verus! {

/// One card.
#[derive(Debug, Clone, Copy, PartialEq, Eq, Structural)]
pub struct Card {
    /// 2 to 14, the ace high.
    pub rank: u8,
    /// 0 to 3: clubs, diamonds, hearts, spades.
    pub suit: u8,
}

/// Community cards after the flop.
#[derive(Debug, Clone)]
pub struct Board {
    pub flop: [Card; 3],
    pub turn: Option<Card>,
    pub river: Option<Card>,
}

impl Card {
    /// A card of the deck.
    pub open spec fn wf(self) -> bool {
        2 <= self.rank <= 14 && self.suit < 4
    }

    /// The id of the card: `(rank - 2) * 4 + suit`.
    pub open spec fn index(self) -> int {
        (self.rank - 2) * 4 + self.suit
    }

    /// The number of the card in `rs_poker`, which counts the suits spades,
    /// clubs, hearts, diamonds and 13 values in each.
    pub open spec fn rs_code(self) -> int {
        rs_suit(self.suit as int) * 13 + (self.rank - 2)
    }

    /// The card with this id.
    pub fn from_id(id: u8) -> (r: Self)
        requires
            id < 52,
        ensures
            r.wf(),
            r.index() == id,
    {
        Card { rank: id / 4 + 2, suit: id % 4 }
    }

    /// The id of the card.
    pub fn id(self) -> (r: u8)
        requires
            self.wf(),
        ensures
            r == self.index(),
            r < 52,
    {
        (self.rank - 2) * 4 + self.suit
    }

    /// The number of the card in `rs_poker`.
    pub fn code(self) -> (r: u8)
        requires
            self.wf(),
        ensures
            r == self.rs_code(),
            r < 52,
    {
        let s: u8 = if self.suit == 0 {
            1
        } else if self.suit == 1 {
            3
        } else if self.suit == 2 {
            2
        } else {
            0
        };
        s * 13 + (self.rank - 2)
    }

    /// The card with this number in `rs_poker`.
    pub fn from_code(code: u8) -> (r: Self)
        requires
            code < 52,
        ensures
            r.wf(),
            r.rs_code() == code,
    {
        let s: u8 = code / 13;
        let suit: u8 = if s == 1 {
            0
        } else if s == 3 {
            1
        } else if s == 2 {
            2
        } else {
            3
        };
        Card { rank: code % 13 + 2, suit }
    }

    /// The card as text, such as `"Td"`.
    pub fn text(self) -> (r: String)
        requires
            self.wf(),
        ensures
            r@ == iso::card_text(self.index()),
    {
        iso::card_str(self.id())
    }
}

/// The place of a suit in the order spades, clubs, hearts, diamonds.
pub open spec fn rs_suit(s: int) -> int {
    if s == 0 {
        1
    } else if s == 1 {
        3
    } else if s == 2 {
        2
    } else {
        0
    }
}

/// A card is determined by its id.
pub proof fn lemma_index_injective(a: Card, b: Card)
    requires
        a.wf(),
        b.wf(),
        a.index() == b.index(),
    ensures
        a == b,
{
}

/// All of them are cards of the deck.
pub open spec fn all_cards(s: Seq<Card>) -> bool {
    forall|i: int| 0 <= i < s.len() ==> (#[trigger] s[i]).wf()
}

/// Whether `c` is one of `cards`.
pub fn holds(cards: &[Card], c: Card) -> (r: bool)
    ensures
        r == cards@.contains(c),
{
    let mut i: usize = 0;
    while i < cards.len()
        invariant
            i <= cards@.len(),
            forall|k: int| 0 <= k < i ==> cards@[k] != c,
        decreases cards@.len() - i,
    {
        if cards[i] == c {
            assert(cards@[i as int] == c);
            return true;
        }
        i = i + 1;
    }
    false
}

/// The card that the first two characters of a text stand for; what follows is
/// not read.
pub open spec fn leading_card(s: Seq<char>) -> Option<Card> {
    if s.len() >= 2 && iso::rank_index(s[0]) is Some && iso::suit_index(s[1]) is Some {
        Some(
            Card {
                rank: (iso::rank_index(s[0])->0 + 2) as u8,
                suit: iso::suit_index(s[1])->0 as u8,
            },
        )
    } else {
        None
    }
}

/// `rs_poker::core::Card::try_from(&str)`, the card given by its number
/// (`u8::from`): the first two characters are read as a value and a suit, in
/// either case, and the rest is ignored.
#[verifier::external_body]
fn rs_parse_card(s: &str) -> (r: Option<u8>)
    ensures
        r is Some == leading_card(s@) is Some,
        r matches Some(n) ==> n == (leading_card(s@)->0).rs_code(),
{
    rs_poker::core::Card::try_from(s).ok().map(u8::from)
}

/// Reads the card at the start of a text.
pub fn parse_card(s: &str) -> (r: Option<Card>)
    ensures
        r == leading_card(s@),
        r matches Some(c) ==> c.wf(),
{
    match rs_parse_card(s) {
        Some(n) => {
            let ghost c = leading_card(s@)->0;
            assert(c.wf());
            let d = Card::from_code(n);
            assert(c == d);
            Some(d)
        },
        None => None,
    }
}

/// The cards of a text read two characters at a time.
pub open spec fn cards_of(t: Seq<char>) -> Option<Seq<Card>>
    decreases t.len(),
{
    if t.len() == 0 {
        Some(Seq::empty())
    } else if t.len() == 1 {
        None
    } else {
        let n = t.len() as int;
        match (cards_of(t.take(n - 2)), leading_card(t.skip(n - 2))) {
            (Some(s), Some(c)) => Some(s.push(c)),
            _ => None,
        }
    }
}

/// Reads cards such as `"AhKh"` or `"Td 9d 6h"`, spaces ignored. `None` where
/// there is no card, half a card, or one that does not parse. The same card may
/// come twice.
pub fn parse_cards(s: &str) -> (r: Option<Vec<Card>>)
    ensures
        r is Some == (text::unspaced(s@).len() > 0 && cards_of(text::unspaced(s@)) is Some),
        r matches Some(v) ==> cards_of(text::unspaced(s@)) == Some(v@) && all_cards(v@) && v@.len()
            * 2 == text::unspaced(s@).len(),
{
    let all = text::chars_of(s);
    let t = text::without_spaces(all.as_slice());
    if t.len() == 0 || t.len() % 2 != 0 {
        proof {
            if t@.len() % 2 != 0 {
                lemma_odd_is_none(t@);
            }
        }
        return None;
    }
    let mut out: Vec<Card> = Vec::new();
    let mut i: usize = 0;
    assert(cards_of(t@.take(0)) == Some(Seq::<Card>::empty()));
    while i < t.len()
        invariant
            i <= t@.len(),
            i % 2 == 0,
            t@.len() % 2 == 0,
            t@ == text::unspaced(s@),
            out@.len() * 2 == i,
            all_cards(out@),
            cards_of(t@.take(i as int)) == Some(out@),
        decreases t@.len() - i,
    {
        let two = text::part(t.as_slice(), i, i + 2);
        let w = text::string_of(two.as_slice());
        proof {
            let u = t@.take(i + 2);
            assert(u.take(u.len() - 2) =~= t@.take(i as int));
            assert(u.skip(u.len() - 2) =~= w@);
        }
        match parse_card(w.as_str()) {
            Some(c) => {
                out.push(c);
            },
            None => {
                proof {
                    assert(cards_of(t@.take(i + 2)) is None);
                    lemma_prefix_none(t@, i as int + 2);
                }
                return None;
            },
        }
        i = i + 2;
    }
    assert(t@.take(i as int) =~= t@);
    Some(out)
}

proof fn lemma_odd_is_none(t: Seq<char>)
    requires
        t.len() % 2 != 0,
    ensures
        cards_of(t) is None,
    decreases t.len(),
{
    if t.len() > 1 {
        lemma_odd_is_none(t.take(t.len() - 2));
    }
}

proof fn lemma_prefix_none(t: Seq<char>, n: int)
    requires
        0 <= n <= t.len(),
        n % 2 == 0,
        t.len() % 2 == 0,
        cards_of(t.take(n)) is None,
    ensures
        cards_of(t) is None,
    decreases t.len(),
{
    if n == t.len() {
        assert(t.take(n) =~= t);
    } else {
        let u = t.take(t.len() - 2);
        assert(u.take(n) =~= t.take(n));
        lemma_prefix_none(u, n);
    }
}

/// A card that was written is read back, whatever follows it.
pub proof fn cards_read_back(c: Card, rest: Seq<char>)
    requires
        c.wf(),
    ensures
        leading_card(iso::card_text(c.index()) + rest) == Some(c),
{
    let id = c.index();
    let t = iso::card_text(id);
    iso::card_round_trip(id);
    assert((t + rest)[0] == t[0] && (t + rest)[1] == t[1]);
    assert(id / 4 == c.rank - 2 && id % 4 == c.suit);
    assert(iso::rank_index(iso::rank_char(c.rank - 2)) == Some(c.rank - 2));
    assert(iso::suit_index(iso::suit_char(c.suit as int)) == Some(c.suit as int));
}

/// The texts of cards, one after the other.
pub open spec fn written(cards: Seq<Card>) -> Seq<char> {
    cards.map_values(|c: Card| iso::card_text(c.index())).flatten()
}

/// Cards that were written one after the other are read back.
pub proof fn card_lists_read_back(cards: Seq<Card>)
    requires
        all_cards(cards),
    ensures
        cards_of(written(cards)) == Some(cards),
    decreases cards.len(),
{
    let f = |c: Card| iso::card_text(c.index());
    let ts = cards.map_values(f);
    ts.lemma_flatten_and_flatten_alt_are_equivalent();
    if cards.len() == 0 {
        assert(ts =~= Seq::empty());
        assert(cards =~= Seq::empty());
    } else {
        let r = cards.drop_last();
        assert forall|i: int| 0 <= i < r.len() implies (#[trigger] r[i]).wf() by {
            assert(cards[i].wf());
        }
        card_lists_read_back(r);
        assert(ts.drop_last() =~= r.map_values(f));
        r.map_values(f).lemma_flatten_and_flatten_alt_are_equivalent();
        let c = cards[cards.len() - 1];
        assert(c.wf());
        let t = written(cards);
        assert(t =~= written(r) + f(c));
        assert(f(c).len() == 2);
        assert(t.take(t.len() - 2) =~= written(r));
        assert(t.skip(t.len() - 2) =~= f(c) + Seq::empty());
        cards_read_back(c, Seq::empty());
        assert(r.push(c) =~= cards);
    }
}

/// A written list of cards has two characters per card, all of them letters or
/// digits, in the order of the cards.
pub proof fn written_cards_have_two_characters(cards: Seq<Card>)
    requires
        all_cards(cards),
    ensures
        written(cards).len() == 2 * cards.len(),
        vstd::utf8::is_ascii_chars(written(cards)),
        text::unspaced(written(cards)) == written(cards),
        forall|i: int|
            0 <= i < cards.len() ==> written(cards).subrange(2 * i, 2 * i + 2)
                == #[trigger] iso::card_text(cards[i].index()),
{
    lemma_written(cards);
    let t = written(cards);
    lemma_plain_is_ascii(t);
    lemma_nothing_to_drop(t);
    lemma_pairs_of_letters(cards, t);
}

proof fn lemma_plain_is_ascii(t: Seq<char>)
    requires
        forall|i: int| 0 <= i < t.len() ==> plain_letter(#[trigger] t[i]),
    ensures
        vstd::utf8::is_ascii_chars(t),
{
    reveal(plain_letter);
}

proof fn lemma_pairs_of_letters(cards: Seq<Card>, t: Seq<char>)
    requires
        t.len() == 2 * cards.len(),
        forall|i: int|
            #![trigger cards[i]]
            0 <= i < cards.len() ==> t[2 * i] == iso::card_text(cards[i].index())[0] && t[2 * i + 1]
                == iso::card_text(cards[i].index())[1],
    ensures
        forall|i: int|
            0 <= i < cards.len() ==> t.subrange(2 * i, 2 * i + 2) == #[trigger] iso::card_text(
                cards[i].index(),
            ),
{
    assert forall|i: int| 0 <= i < cards.len() implies t.subrange(2 * i, 2 * i + 2)
        == #[trigger] iso::card_text(cards[i].index()) by {
        let w = iso::card_text(cards[i].index());
        assert(t[2 * i] == w[0] && t[2 * i + 1] == w[1]);
        assert(t.subrange(2 * i, 2 * i + 2) =~= w);
    }
}

#[verifier::opaque]
spec fn plain_letter(c: char) -> bool {
    '\0' <= c <= '\u{7f}' && !text::is_space(c)
}

proof fn lemma_nothing_to_drop(t: Seq<char>)
    requires
        forall|i: int| 0 <= i < t.len() ==> plain_letter(#[trigger] t[i]),
    ensures
        text::unspaced(t) == t,
    decreases t.len(),
{
    reveal(Seq::filter);
    reveal(plain_letter);
    if t.len() > 0 {
        let r = t.drop_last();
        assert forall|i: int| 0 <= i < r.len() implies plain_letter(#[trigger] r[i]) by {
            assert(r[i] == t[i]);
        }
        lemma_nothing_to_drop(r);
        assert(plain_letter(t[t.len() - 1]));
        assert(r.push(t.last()) =~= t);
    }
}

proof fn lemma_written(cards: Seq<Card>)
    requires
        all_cards(cards),
    ensures
        written(cards).len() == 2 * cards.len(),
        forall|k: int| 0 <= k < written(cards).len() ==> plain_letter(#[trigger] written(cards)[k]),
        forall|i: int|
            #![trigger cards[i]]
            0 <= i < cards.len() ==> written(cards)[2 * i] == iso::card_text(cards[i].index())[0]
                && written(cards)[2 * i + 1] == iso::card_text(cards[i].index())[1],
    decreases cards.len(),
{
    let f = |c: Card| iso::card_text(c.index());
    let ts = cards.map_values(f);
    ts.lemma_flatten_and_flatten_alt_are_equivalent();
    let t = written(cards);
    if cards.len() == 0 {
        assert(ts =~= Seq::empty());
        assert(t =~= Seq::empty());
    } else {
        let r = cards.drop_last();
        assert forall|i: int| 0 <= i < r.len() implies (#[trigger] r[i]).wf() by {
            assert(cards[i].wf());
        }
        lemma_written(r);
        assert(ts.drop_last() =~= r.map_values(f));
        r.map_values(f).lemma_flatten_and_flatten_alt_are_equivalent();
        let c = cards[cards.len() - 1];
        assert(c.wf());
        let w = written(r);
        assert(t =~= w + f(c));
        lemma_letters(c);
        assert forall|k: int| 0 <= k < t.len() implies plain_letter(#[trigger] t[k]) by {
            if k < w.len() {
                assert(t[k] == w[k]);
            }
        }
        assert forall|i: int|
            #![trigger cards[i]]
            0 <= i < cards.len() implies t[2 * i] == iso::card_text(cards[i].index())[0] && t[2 * i
            + 1] == iso::card_text(cards[i].index())[1] by {
            if i < r.len() {
                assert(r[i] == cards[i]);
            }
        }
    }
}

proof fn lemma_letters(c: Card)
    requires
        c.wf(),
    ensures
        ({
            let t = iso::card_text(c.index());
            &&& plain_letter(t[0])
            &&& plain_letter(t[1])
        }),
{
    reveal(plain_letter);
    let id = c.index();
    assert(id / 4 == c.rank - 2 && id % 4 == c.suit);
}

} // verus!
