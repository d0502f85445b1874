//! Ranges of starting hands written as text, such as `"22+, AKs, ATo+"`.

use crate::board;
use crate::board::Card;
use vstd::prelude::*;

verus! {

/// A range of starting hands.
#[derive(Debug, Clone, Copy)]
pub struct Range {}

impl Default for Range {
    fn default() -> (r: Self)
        ensures
            r == (Range {  }),
    {
        Range {  }
    }
}

/// What `rs_poker` makes of the text of a range: the hands in it, each as the
/// numbers of its first and second card there, or the words of its complaint.
pub uninterp spec fn range_parse(s: Seq<char>) -> Result<Set<(u8, u8)>, Seq<char>>;

/// `rs_poker::holdem::RangeParser::parse_many`, a hand given by the numbers of
/// its two cards (`u8::from`) and an error by its text. The hands come out of a
/// hash set: each once, and in no particular order. A hand may hold one card
/// twice (`"A2-AA"`).
#[verifier::external_body]
fn rs_parse_range(s: &str) -> (r: Result<Vec<(u8, u8)>, String>)
    ensures
        r is Ok == range_parse(s@) is Ok,
        r matches Ok(v) ==> v@.no_duplicates() && v@.to_set() == range_parse(s@)->Ok_0,
        r matches Ok(v) ==> forall|i: int|
            0 <= i < v@.len() ==> (#[trigger] v@[i]).0 < 52 && v@[i].1 < 52,
        r matches Err(e) ==> e@ == range_parse(s@)->Err_0,
{
    rs_poker::holdem::RangeParser::parse_many(s).map_err(|e| e.to_string()).map(
        |hands| hands.iter().map(|h| (u8::from(h[0]), u8::from(h[1]))).collect(),
    )
}

/// The numbers of the two cards of a hand.
pub open spec fn hand_codes(h: [Card; 2]) -> (u8, u8) {
    (h[0].rs_code() as u8, h[1].rs_code() as u8)
}

/// The numbers of the cards of hands.
pub open spec fn codes_of_hands(v: Seq<[Card; 2]>) -> Seq<(u8, u8)> {
    v.map_values(|h: [Card; 2]| hand_codes(h))
}

/// All cards of all hands are cards.
pub open spec fn all_hands(v: Seq<[Card; 2]>) -> bool {
    forall|i: int| 0 <= i < v.len() ==> board::all_cards((#[trigger] v[i])@)
}

/// Reads a range: its hands in some order, each once, or why it is none.
pub fn parse_range(s: &str) -> (r: Result<Vec<[Card; 2]>, String>)
    ensures
        r is Ok == range_parse(s@) is Ok,
        r matches Ok(v) ==> {
            &&& all_hands(v@)
            &&& codes_of_hands(v@).no_duplicates()
            &&& codes_of_hands(v@).to_set() == range_parse(s@)->Ok_0
        },
        r matches Err(e) ==> e@ == range_parse(s@)->Err_0,
{
    match rs_parse_range(s) {
        Ok(codes) => {
            let mut out: Vec<[Card; 2]> = Vec::new();
            let mut i: usize = 0;
            while i < codes.len()
                invariant
                    i <= codes@.len(),
                    forall|k: int|
                        0 <= k < codes@.len() ==> (#[trigger] codes@[k]).0 < 52 && codes@[k].1 < 52,
                    out@.len() == i,
                    all_hands(out@),
                    forall|k: int| 0 <= k < i ==> hand_codes(#[trigger] out@[k]) == codes@[k],
                decreases codes@.len() - i,
            {
                let h: [Card; 2] = [Card::from_code(codes[i].0), Card::from_code(codes[i].1)];
                assert(h@[0].wf() && h@[1].wf());
                assert(board::all_cards(h@));
                out.push(h);
                i = i + 1;
            }
            assert(codes_of_hands(out@) =~= codes@);
            Ok(out)
        },
        Err(e) => Err(e),
    }
}

/// A hand holds a card of the flop.
pub open spec fn dead(h: [Card; 2], flop: [Card; 3]) -> bool {
    flop@.contains(h[0]) || flop@.contains(h[1])
}

/// The hands that hold no card of the flop, in their order.
pub fn live_combos(range: &Vec<[Card; 2]>, flop: [Card; 3]) -> (r: Vec<[Card; 2]>)
    ensures
        r@ == range@.filter(|h: [Card; 2]| !dead(h, flop)),
        all_hands(range@) ==> all_hands(r@),
{
    let ghost keep = |h: [Card; 2]| !dead(h, flop);
    let mut out: Vec<[Card; 2]> = Vec::new();
    let mut i: usize = 0;
    proof {
        reveal(Seq::filter);
        assert(range@.take(0).filter(keep) =~= Seq::empty());
    }
    while i < range.len()
        invariant
            i <= range@.len(),
            keep == (|h: [Card; 2]| !dead(h, flop)),
            out@ == range@.take(i as int).filter(keep),
            all_hands(range@) ==> all_hands(out@),
        decreases range@.len() - i,
    {
        let h = range[i];
        proof {
            reveal(Seq::filter);
            assert(range@.take(i + 1).drop_last() =~= range@.take(i as int));
            assert(range@.take(i + 1).last() == h);
            assert(keep(h) == !dead(h, flop));
        }
        if !board::holds(flop.as_slice(), h[0]) && !board::holds(flop.as_slice(), h[1]) {
            out.push(h);
        }
        i = i + 1;
    }
    assert(range@.take(i as int) =~= range@);
    out
}

/// A hand is dead where either of its cards is on the flop.
pub proof fn hands_die_by_either_card(h: [Card; 2], flop: [Card; 3])
    ensures
        dead(h, flop) <==> exists|i: int|
            0 <= i < 3 && ((#[trigger] flop[i]) == h[0] || flop[i] == h[1]),
{
    if flop@.contains(h[0]) {
        let i = flop@.index_of(h[0]);
        assert(flop[i] == h[0]);
    }
    if flop@.contains(h[1]) {
        let i = flop@.index_of(h[1]);
        assert(flop[i] == h[1]);
    }
    assert(flop@[0] == flop[0] && flop@[1] == flop[1] && flop@[2] == flop[2]);
}

} // verus!
