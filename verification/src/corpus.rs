//! The training corpus: one fixed-width record per stored turn root.
//!
//! A record holds the flop and formation, the board, the pot, how often the root
//! is reached, and four blocks of half-precision numbers with one slot for each
//! pair of cards: both reaches and both values in pots.

use crate::bits;
use crate::bits::F32;
use crate::board::Card;
use crate::fnv;
use crate::iso;
use crate::order;
use crate::postflop_table::PostflopTable;
use crate::postflop_table::TableNode;
use crate::preflop;
use crate::range;
use crate::report;
use crate::text;
use vstd::prelude::*;

verus! {

/// How many pairs of cards there are.
pub const N_COMBOS: usize = 1326;

/// The length of a record: 16 bytes and four blocks.
pub const RECORD_BYTES: usize = 10624;

/// One flop in so many is held out.
pub const VAL_MOD: u64 = 10;

// ---------------------------------------------------------------- combos

/// How many pairs have a higher card below `hi`.
pub open spec fn tri(hi: int) -> int {
    hi * (hi - 1) / 2
}

/// The slot of two different cards.
pub open spec fn slot(a: int, b: int) -> int {
    if a > b {
        tri(a) + b
    } else {
        tri(b) + a
    }
}

proof fn lemma_tri(hi: int)
    requires
        0 <= hi,
    ensures
        tri(hi + 1) == tri(hi) + hi,
        tri(hi) >= 0,
    decreases hi,
{
    assert(hi * (hi - 1) % 2 == 0) by {
        lemma_even(hi);
    }
    assert((hi + 1) * hi == hi * (hi - 1) + 2 * hi) by (nonlinear_arith);
    assert(hi * (hi - 1) >= 0) by (nonlinear_arith)
        requires
            hi >= 0,
    ;
}

proof fn lemma_even(hi: int)
    requires
        0 <= hi,
    ensures
        hi * (hi - 1) % 2 == 0,
    decreases hi,
{
    if hi > 0 {
        lemma_even(hi - 1);
        let prev = (hi - 1) * (hi - 2);
        assert((hi - 1) * ((hi - 1) - 1) == prev);
        assert(hi * (hi - 1) == (hi - 1) * (hi - 2) + 2 * (hi - 1)) by (nonlinear_arith);
    } else {
        assert(hi * (hi - 1) == 0) by (nonlinear_arith)
            requires
                hi == 0,
        ;
    }
}

proof fn lemma_tri_zero()
    ensures
        tri(0) == 0,
{
    let hi: int = 0;
    assert(hi * (hi - 1) == 0) by (nonlinear_arith)
        requires
            hi == 0,
    ;
}

proof fn lemma_tri_grows(a: int, b: int)
    requires
        0 <= a <= b,
    ensures
        tri(a) <= tri(b),
    decreases b - a,
{
    if a < b {
        lemma_tri_grows(a, b - 1);
        lemma_tri(b - 1);
    }
}

proof fn lemma_tri_bound(hi: int)
    requires
        0 <= hi <= 52,
    ensures
        0 <= tri(hi) <= N_COMBOS,
{
    lemma_tri_grows(0, hi);
    lemma_tri_grows(hi, 52);
    assert(tri(52) == 1326);
    lemma_tri_zero();
}

/// Two pairs with one slot are one pair.
pub proof fn slots_are_distinct(a: int, b: int, c: int, d: int)
    requires
        0 <= b < a,
        0 <= d < c,
        slot(a, b) == slot(c, d),
    ensures
        a == c,
        b == d,
{
    if a < c {
        lemma_tri(a);
        lemma_tri_grows(a + 1, c);
    } else if c < a {
        lemma_tri(c);
        lemma_tri_grows(c + 1, a);
    }
}

/// The slots of the pairs of cards are the numbers below `N_COMBOS`.
pub proof fn slots_fill_the_block(a: int, b: int)
    requires
        0 <= b < a < 52,
    ensures
        0 <= slot(a, b) < N_COMBOS,
{
    lemma_tri(a);
    lemma_tri_bound(a);
    lemma_tri_bound(a + 1);
}

/// Every slot below `N_COMBOS` is the slot of some pair.
pub proof fn every_slot_is_taken(ix: int) -> (r: (int, int))
    requires
        0 <= ix < N_COMBOS,
    ensures
        0 <= r.1 < r.0 < 52,
        slot(r.0, r.1) == ix,
{
    lemma_slot_below(ix, 52)
}

proof fn lemma_slot_below(ix: int, hi: int) -> (r: (int, int))
    requires
        0 <= ix < tri(hi),
        0 <= hi <= 52,
    ensures
        0 <= r.1 < r.0 < hi,
        slot(r.0, r.1) == ix,
    decreases hi,
{
    if hi == 0 {
        lemma_tri_zero();
        (0, 0)
    } else {
        lemma_tri(hi - 1);
        if ix < tri(hi - 1) {
            lemma_slot_below(ix, hi - 1)
        } else {
            (hi - 1, ix - tri(hi - 1))
        }
    }
}

/// The slot of the pair `(hi, lo)`, the higher card first.
pub fn combo_index(hi: u8, lo: u8) -> (r: usize)
    requires
        hi > lo,
    ensures
        r == slot(hi as int, lo as int),
        hi < 52 ==> r < N_COMBOS,
{
    proof {
        lemma_tri(hi as int);
        assert(hi as int * (hi - 1) <= 255 * 254) by (nonlinear_arith)
            requires
                0 < hi <= 255,
        ;
        if hi < 52 {
            slots_fill_the_block(hi as int, lo as int);
        }
    }
    hi as usize * (hi as usize - 1) / 2 + lo as usize
}

/// The cards of a hand such as `"AsKs"`, the higher first.
pub open spec fn pair_ids(hand: Seq<char>) -> Option<(int, int)> {
    if text::plain(hand) && hand.len() == 4 {
        match (iso::id_of(hand.take(2)), iso::id_of(hand.skip(2))) {
            (Some(a), Some(b)) => if a > b {
                Some((a, b))
            } else if b > a {
                Some((b, a))
            } else {
                None
            },
            _ => None,
        }
    } else {
        None
    }
}

/// The cards of a hand, the higher first, and their slot.
pub fn combo_of(hand: &str) -> (r: Option<(u8, u8, usize)>)
    ensures
        r is Some == pair_ids(hand@) is Some,
        r matches Some((hi, lo, ix)) ==> {
            &&& pair_ids(hand@) == Some((hi as int, lo as int))
            &&& lo < hi < 52
            &&& ix == slot(hi as int, lo as int)
            &&& ix < N_COMBOS
        },
{
    let cs = text::chars_of(hand);
    if cs.len() != 4 {
        return None;
    }
    let x = text::part(cs.as_slice(), 0, 2);
    let y = text::part(cs.as_slice(), 2, 4);
    let xs = text::string_of(x.as_slice());
    let ys = text::string_of(y.as_slice());
    proof {
        assert(x@ =~= hand@.take(2));
        assert(y@ =~= hand@.skip(2));
    }
    match (iso::card_id(xs.as_str()), iso::card_id(ys.as_str())) {
        (Some(a), Some(b)) => {
            proof {
                lemma_card_chars_plain(hand@);
            }
            if a == b {
                None
            } else if a > b {
                Some((a, b, combo_index(a, b)))
            } else {
                Some((b, a, combo_index(b, a)))
            }
        },
        _ => None,
    }
}

proof fn lemma_card_chars_plain(hand: Seq<char>)
    requires
        hand.len() == 4,
        iso::id_of(hand.take(2)) is Some,
        iso::id_of(hand.skip(2)) is Some,
    ensures
        text::plain(hand),
{
    assert(hand.take(2)[0] == hand[0] && hand.take(2)[1] == hand[1]);
    assert(hand.skip(2)[0] == hand[2] && hand.skip(2)[1] == hand[3]);
}

// ---------------------------------------------------------------- ranges

/// One part of a range: hands and their weight, as written.
#[derive(Debug, Clone)]
pub struct RangeToken {
    pub token: String,
    pub hands: String,
    pub weight: Option<String>,
}

/// A part of a range, as text.
#[verifier::ext_equal]
pub struct TokenView {
    pub token: Seq<char>,
    pub hands: Seq<char>,
    pub weight: Option<Seq<char>>,
}

impl View for RangeToken {
    type V = TokenView;

    open spec fn view(&self) -> TokenView {
        TokenView {
            token: self.token@,
            hands: self.hands@,
            weight: match self.weight {
                Some(w) => Some(w@),
                None => None,
            },
        }
    }
}

/// A part of a range: the weight stands after the last `:`.
pub open spec fn token_of(t: Seq<char>) -> TokenView {
    let at = text::char_before(t, ':', t.len() as int);
    if at < 0 {
        TokenView { token: t, hands: t, weight: None }
    } else {
        TokenView {
            token: t,
            hands: t.take(at),
            weight: Some(text::trimmed(t.skip(at + 1))),
        }
    }
}

/// The parts of the first `n` pieces: what is left of each without the spaces
/// around it, empty ones left out.
pub open spec fn tokens_of(pieces: Seq<Seq<char>>, n: int) -> Seq<TokenView>
    decreases n,
{
    if n <= 0 {
        Seq::empty()
    } else if text::trimmed(pieces[n - 1]).len() == 0 {
        tokens_of(pieces, n - 1)
    } else {
        tokens_of(pieces, n - 1).push(token_of(text::trimmed(pieces[n - 1])))
    }
}

/// The tokens of a list.
pub open spec fn token_views(v: Seq<RangeToken>) -> Seq<TokenView> {
    v.map_values(|t: RangeToken| t@)
}

/// The text of a weight: it holds nothing that ends a part of a range.
pub open spec fn plain_weight(w: Seq<char>) -> bool {
    &&& w.len() > 0
    &&& forall|i: int|
        0 <= i < w.len() ==> !text::is_space(#[trigger] w[i]) && w[i] != ',' && w[i] != ':'
}

/// The parts of a written range: the classes of the first `n` that count, each
/// with its weight.
pub open spec fn written_tokens(scaled: Seq<F32>, shown: Seq<Seq<char>>, n: int) -> Seq<TokenView>
    decreases n,
{
    if n <= 0 {
        Seq::empty()
    } else if scaled[n - 1].reaches(F32 { bits: preflop::LEAST_WEIGHT }) {
        written_tokens(scaled, shown, n - 1).push(
            TokenView {
                token: preflop::class_text(n - 1) + ":"@ + shown[n - 1],
                hands: preflop::class_text(n - 1),
                weight: Some(shown[n - 1]),
            },
        )
    } else {
        written_tokens(scaled, shown, n - 1)
    }
}

proof fn lemma_class_chars(i: int)
    requires
        0 <= i < 169,
    ensures
        plain_weight(preflop::class_text(i)),
{
    let t = preflop::class_text(i);
    assert forall|k: int| 0 <= k < t.len() implies !text::is_space(#[trigger] t[k]) && t[k] != ','
        && t[k] != ':' by {
        assert(k == 0 || k == 1 || k == 2);
    }
}

proof fn lemma_last_colon(t: Seq<char>, at: int, n: int)
    requires
        0 <= at < n <= t.len(),
        t[at] == ':',
        forall|k: int| at < k < t.len() ==> #[trigger] t[k] != ':',
    ensures
        text::char_before(t, ':', n) == at,
    decreases n,
{
    if n - 1 > at {
        lemma_last_colon(t, at, n - 1);
    }
}

proof fn lemma_written_token(class: Seq<char>, w: Seq<char>)
    requires
        plain_weight(class),
        plain_weight(w),
    ensures
        ({
            let t = class + ":"@ + w;
            &&& !t.contains(',')
            &&& text::trimmed(t) == t
            &&& t.len() > 0
            &&& token_of(t) == (TokenView { token: t, hands: class, weight: Some(w) })
        }),
{
    reveal_strlit(":");
    let t = class + ":"@ + w;
    let at = class.len() as int;
    if t.contains(',') {
        let k = choose|k: int| 0 <= k < t.len() && t[k] == ',';
        if k < at {
            assert(t[k] == class[k]);
        } else if k > at {
            assert(t[k] == w[k - at - 1]);
        }
    }
    assert(t[0] == class[0]);
    assert(t.last() == w[w.len() - 1]);
    text::lemma_nothing_to_trim(t);
    assert forall|k: int| at < k < t.len() implies #[trigger] t[k] != ':' by {
        assert(t[k] == w[k - at - 1]);
    }
    lemma_last_colon(t, at, t.len() as int);
    assert(t.take(at) =~= class);
    assert(t.skip(at + 1) =~= w);
    assert(w[0] == w[0] && !text::is_space(w[w.len() - 1]));
    text::lemma_nothing_to_trim(w);
}

proof fn lemma_written_entries(scaled: Seq<F32>, shown: Seq<Seq<char>>, n: int)
    requires
        0 <= n <= 169,
        forall|i: int| 0 <= i < n ==> plain_weight(#[trigger] shown[i]),
    ensures
        text::none_holds(preflop::range_entries(scaled, shown, n), ','),
        tokens_of(
            preflop::range_entries(scaled, shown, n),
            preflop::range_entries(scaled, shown, n).len() as int,
        ) == written_tokens(scaled, shown, n),
    decreases n,
{
    if n > 0 {
        lemma_written_entries(scaled, shown, n - 1);
        if scaled[n - 1].reaches(F32 { bits: preflop::LEAST_WEIGHT }) {
            lemma_class_chars(n - 1);
            assert(plain_weight(shown[n - 1]));
            lemma_written_token(preflop::class_text(n - 1), shown[n - 1]);
            let before = preflop::range_entries(scaled, shown, n - 1);
            let all = preflop::range_entries(scaled, shown, n);
            lemma_tokens_prefix(all, before, before.len() as int);
        }
    }
}

proof fn lemma_tokens_prefix(a: Seq<Seq<char>>, b: Seq<Seq<char>>, n: int)
    requires
        0 <= n <= a.len(),
        n <= b.len(),
        forall|i: int| 0 <= i < n ==> #[trigger] a[i] == b[i],
    ensures
        tokens_of(a, n) == tokens_of(b, n),
    decreases n,
{
    if n > 0 {
        lemma_tokens_prefix(a, b, n - 1);
    }
}

/// A range that was written from weights is read back as its classes and the
/// texts of their weights.
pub proof fn written_ranges_read_back(scaled: Seq<F32>, shown: Seq<Seq<char>>, n: int)
    requires
        0 <= n <= 169,
        forall|i: int| 0 <= i < n ==> plain_weight(#[trigger] shown[i]),
    ensures
        ({
            let pieces = text::split(
                text::joined(preflop::range_entries(scaled, shown, n), ","@),
                ',',
            );
            tokens_of(pieces, pieces.len() as int) == written_tokens(scaled, shown, n)
        }),
{
    reveal_strlit(",");
    assert(","@ =~= seq![',']);
    lemma_written_entries(scaled, shown, n);
    let entries = preflop::range_entries(scaled, shown, n);
    if entries.len() > 0 {
        text::splitting_undoes_joining(entries, ',');
    } else {
        let none = Seq::<char>::empty();
        assert(text::split(none, ',') == seq![none]);
        assert(text::trimmed(none) == none);
        assert(tokens_of(seq![none], 0) =~= Seq::<TokenView>::empty());
        assert(tokens_of(seq![none], 1) == tokens_of(seq![none], 0));
        assert(tokens_of(entries, 0) =~= Seq::<TokenView>::empty());
    }
}

/// Splits a range such as `"AA:0.25, KK"` at its commas.
pub fn range_tokens(s: &str) -> (r: Vec<RangeToken>)
    ensures
        token_views(r@) == tokens_of(text::split(s@, ','), text::split(s@, ',').len() as int),
{
    let cs = text::chars_of(s);
    let ps = text::split_at_char(cs.as_slice(), ',');
    let ghost pv = text::split(s@, ',');
    let mut out: Vec<RangeToken> = Vec::new();
    let mut i: usize = 0;
    assert(token_views(out@) =~= Seq::<TokenView>::empty());
    assert(pv.len() == ps@.len());
    while i < ps.len()
        invariant
            i <= ps@.len(),
            pv == text::pieces(ps@),
            token_views(out@) == tokens_of(pv, i as int),
        decreases ps@.len() - i,
    {
        assert(pv[i as int] == ps@[i as int]@);
        let t = text::trim_chars(ps[i].as_slice());
        if t.len() > 0 {
            let n: usize = text::after_last_char(t.as_slice(), ':');
            let token = text::string_of(t.as_slice());
            let tok = if n == 0 {
                RangeToken { hands: token.clone(), token, weight: None }
            } else {
                let h = text::part(t.as_slice(), 0, n - 1);
                let w = text::part(t.as_slice(), n, t.len());
                proof {
                    assert(h@ =~= t@.take(n - 1));
                    assert(w@ =~= t@.skip(n as int));
                }
                let wt = text::trim_chars(w.as_slice());
                RangeToken {
                    token,
                    hands: text::string_of(h.as_slice()),
                    weight: Some(text::string_of(wt.as_slice())),
                }
            };
            let ghost before = out@;
            assert(tok@ =~= token_of(t@));
            out.push(tok);
            assert(token_views(out@) =~= token_views(before).push(tok@));
        }
        i = i + 1;
    }
    out
}

/// The slot of a hand.
pub open spec fn hand_slot(h: [Card; 2]) -> int {
    slot(h[0].index(), h[1].index())
}

/// One of the hands, given by the numbers of their cards, has this slot.
pub open spec fn covers(s: Set<(u8, u8)>, ix: int) -> bool {
    exists|h: [Card; 2]|
        h[0].wf() && h[1].wf() && s.contains(range::hand_codes(h)) && #[trigger] hand_slot(h) == ix
}

/// One of the hands holds one card twice.
pub open spec fn repeats(s: Set<(u8, u8)>) -> bool {
    exists|c: u8| s.contains((c, c))
}

/// Why a range has no weights.
#[derive(Debug, Clone)]
pub enum RangeError {
    /// The weight of a part is no number.
    Weight { token: String },
    /// The hands of a part do not parse.
    Hands { hands: String, why: String },
    /// The hands of a part hold one card twice.
    Repeated { hands: String },
}

/// A part of a range cannot be used: its weight is no number, its hands do not
/// parse, or one holds a card twice.
pub open spec fn unusable(t: TokenView, w: Option<F32>) -> bool {
    ||| t.weight is Some && w is None
    ||| range::range_parse(t.hands) is Err
    ||| repeats(range::range_parse(t.hands)->Ok_0)
}

/// The error of an unusable part.
pub open spec fn error_of(e: RangeError, t: TokenView, w: Option<F32>) -> bool {
    match e {
        RangeError::Weight { token } => t.weight is Some && w is None && token@ == t.token,
        RangeError::Hands { hands, why } => {
            &&& !(t.weight is Some && w is None)
            &&& range::range_parse(t.hands) is Err
            &&& hands@ == t.hands
            &&& why@ == range::range_parse(t.hands)->Err_0
        },
        RangeError::Repeated { hands } => {
            &&& !(t.weight is Some && w is None)
            &&& range::range_parse(t.hands) is Ok
            &&& hands@ == t.hands
        },
    }
}

/// The weight of a part, 1 where none is written.
pub open spec fn weight_of(t: TokenView, w: Option<F32>) -> F32 {
    if t.weight is Some {
        w->0
    } else {
        F32 { bits: 0x3f80_0000 }
    }
}

/// The weight of a slot after the first `n` parts: that of the last part with a
/// hand there, 0 where there is none.
pub open spec fn slot_weight(
    tokens: Seq<TokenView>,
    weights: Seq<Option<F32>>,
    n: int,
    ix: int,
) -> F32
    decreases n,
{
    if n <= 0 {
        F32 { bits: 0 }
    } else if covers(range::range_parse(tokens[n - 1].hands)->Ok_0, ix) {
        weight_of(tokens[n - 1], weights[n - 1])
    } else {
        slot_weight(tokens, weights, n - 1, ix)
    }
}

proof fn lemma_covers(v: Seq<[Card; 2]>, s: Set<(u8, u8)>, ix: int)
    requires
        range::all_hands(v),
        range::codes_of_hands(v).to_set() == s,
    ensures
        covers(s, ix) == exists|k: int| 0 <= k < v.len() && hand_slot(#[trigger] v[k]) == ix,
{
    let codes = range::codes_of_hands(v);
    if covers(s, ix) {
        let h = choose|h: [Card; 2]|
            h[0].wf() && h[1].wf() && s.contains(range::hand_codes(h)) && #[trigger] hand_slot(h)
                == ix;
        assert(codes.to_set().contains(range::hand_codes(h)));
        let k = choose|k: int| 0 <= k < codes.len() && codes[k] == range::hand_codes(h);
        assert(v[k]@[0].wf() && v[k]@[1].wf());
        report::lemma_code_injective(v[k][0], h[0]);
        report::lemma_code_injective(v[k][1], h[1]);
        assert(hand_slot(v[k]) == ix);
    }
    if exists|k: int| 0 <= k < v.len() && hand_slot(#[trigger] v[k]) == ix {
        let k = choose|k: int| 0 <= k < v.len() && hand_slot(#[trigger] v[k]) == ix;
        assert(v[k]@[0].wf() && v[k]@[1].wf());
        assert(codes[k] == range::hand_codes(v[k]));
        assert(codes.to_set().contains(codes[k]));
        assert(hand_slot(v[k]) == ix);
    }
}

fn repeated_hand(v: &Vec<[Card; 2]>) -> (r: bool)
    requires
        range::all_hands(v@),
    ensures
        r == repeats(range::codes_of_hands(v@).to_set()),
        !r ==> forall|k: int| 0 <= k < v@.len() ==> (#[trigger] v@[k])[0].index() != v@[k][1].index(),
{
    let ghost codes = range::codes_of_hands(v@);
    let mut i: usize = 0;
    while i < v.len()
        invariant
            i <= v@.len(),
            range::all_hands(v@),
            codes == range::codes_of_hands(v@),
            forall|k: int| 0 <= k < i ==> (#[trigger] v@[k])[0] != v@[k][1],
        decreases v@.len() - i,
    {
        assert(v@[i as int]@[0].wf() && v@[i as int]@[1].wf());
        let h = v[i];
        if h[0] == h[1] {
            proof {
                assert(codes[i as int] == range::hand_codes(v@[i as int]));
                assert(codes.to_set().contains(codes[i as int]));
            }
            return true;
        }
        i = i + 1;
    }
    proof {
        if repeats(codes.to_set()) {
            let c = choose|c: u8| codes.to_set().contains((c, c));
            let k = choose|k: int| 0 <= k < codes.len() && codes[k] == (c, c);
            assert(v@[k]@[0].wf() && v@[k]@[1].wf());
            report::lemma_code_injective(v@[k][0], v@[k][1]);
        }
        assert forall|k: int| 0 <= k < v@.len() implies (#[trigger] v@[k])[0].index()
            != v@[k][1].index() by {
            assert(v@[k]@[0].wf() && v@[k]@[1].wf());
            if v@[k][0].index() == v@[k][1].index() {
                crate::board::lemma_index_injective(v@[k][0], v@[k][1]);
            }
        }
    }
    false
}

fn set_weights(w: &mut Vec<F32>, hands: &Vec<[Card; 2]>, weight: F32)
    requires
        old(w)@.len() == N_COMBOS,
        range::all_hands(hands@),
        forall|k: int|
            0 <= k < hands@.len() ==> (#[trigger] hands@[k])[0].index() != hands@[k][1].index(),
    ensures
        final(w)@.len() == N_COMBOS,
        forall|ix: int|
            0 <= ix < N_COMBOS ==> #[trigger] final(w)@[ix] == if exists|k: int|
                0 <= k < hands@.len() && hand_slot(#[trigger] hands@[k]) == ix {
                weight
            } else {
                old(w)@[ix]
            },
{
    let ghost start = w@;
    let mut i: usize = 0;
    while i < hands.len()
        invariant
            i <= hands@.len(),
            w@.len() == N_COMBOS,
            start.len() == N_COMBOS,
            range::all_hands(hands@),
            forall|k: int|
                0 <= k < hands@.len() ==> (#[trigger] hands@[k])[0].index()
                    != hands@[k][1].index(),
            forall|ix: int|
                0 <= ix < N_COMBOS ==> #[trigger] w@[ix] == if exists|k: int|
                    0 <= k < i && hand_slot(#[trigger] hands@[k]) == ix {
                    weight
                } else {
                    start[ix]
                },
        decreases hands@.len() - i,
    {
        assert(hands@[i as int]@[0].wf() && hands@[i as int]@[1].wf());
        let a: u8 = hands[i][0].id();
        let b: u8 = hands[i][1].id();
        let ix: usize = if a > b {
            combo_index(a, b)
        } else {
            combo_index(b, a)
        };
        let ghost before = w@;
        w.set(ix, weight);
        proof {
            assert(hand_slot(hands@[i as int]) == ix);
            assert forall|x: int| 0 <= x < N_COMBOS implies #[trigger] w@[x] == if exists|k: int|
                0 <= k < i + 1 && hand_slot(#[trigger] hands@[k]) == x {
                weight
            } else {
                start[x]
            } by {
                if x != ix {
                    assert(w@[x] == before[x]);
                    if exists|k: int| 0 <= k < i + 1 && hand_slot(#[trigger] hands@[k]) == x {
                        let k = choose|k: int|
                            0 <= k < i + 1 && hand_slot(#[trigger] hands@[k]) == x;
                        assert(k < i);
                    }
                }
            }
        }
        i = i + 1;
    }
}

/// The weight of every slot under a range: of each part the hands are read and
/// take its weight, a later part over an earlier one. `weights` holds the number
/// that each written weight stands for, where it is one. The first part that
/// cannot be used decides the error.
pub fn parse_weighted_range(tokens: &Vec<RangeToken>, weights: &Vec<Option<F32>>) -> (r: Result<
    Vec<F32>,
    RangeError,
>)
    requires
        tokens@.len() == weights@.len(),
    ensures
        r is Ok == forall|i: int|
            0 <= i < tokens@.len() ==> !unusable(#[trigger] tokens@[i]@, weights@[i]),
        r matches Ok(w) ==> w@.len() == N_COMBOS && forall|ix: int|
            0 <= ix < N_COMBOS ==> #[trigger] w@[ix] == slot_weight(
                token_views(tokens@),
                weights@,
                tokens@.len() as int,
                ix,
            ),
        r matches Err(e) ==> exists|i: int|
            0 <= i < tokens@.len() && unusable(#[trigger] tokens@[i]@, weights@[i]) && error_of(
                e,
                tokens@[i]@,
                weights@[i],
            ) && forall|k: int| 0 <= k < i ==> !unusable(#[trigger] tokens@[k]@, weights@[k]),
{
    let ghost tv = token_views(tokens@);
    let mut w: Vec<F32> = Vec::new();
    let mut z: usize = 0;
    while z < N_COMBOS
        invariant
            z <= N_COMBOS,
            w@.len() == z,
            forall|ix: int| 0 <= ix < z ==> #[trigger] w@[ix] == (F32 { bits: 0 }),
        decreases N_COMBOS - z,
    {
        w.push(F32 { bits: 0 });
        z = z + 1;
    }
    let mut i: usize = 0;
    while i < tokens.len()
        invariant
            i <= tokens@.len(),
            tokens@.len() == weights@.len(),
            tv == token_views(tokens@),
            w@.len() == N_COMBOS,
            forall|k: int| 0 <= k < i ==> !unusable(#[trigger] tokens@[k]@, weights@[k]),
            forall|ix: int|
                0 <= ix < N_COMBOS ==> #[trigger] w@[ix] == slot_weight(tv, weights@, i as int, ix),
        decreases tokens@.len() - i,
    {
        let t = &tokens[i];
        assert(tv[i as int] == t@);
        let weight = match &t.weight {
            Some(_) => match weights[i] {
                Some(x) => x,
                None => {
                    let e = RangeError::Weight { token: t.token.clone() };
                    assert(unusable(tokens@[i as int]@, weights@[i as int]));
                    assert(error_of(e, tokens@[i as int]@, weights@[i as int]));
                    return Err(e);
                },
            },
            None => F32 { bits: 0x3f80_0000 },
        };
        let hands = match range::parse_range(t.hands.as_str()) {
            Ok(v) => v,
            Err(why) => {
                let e = RangeError::Hands { hands: t.hands.clone(), why };
                assert(unusable(tokens@[i as int]@, weights@[i as int]));
                assert(error_of(e, tokens@[i as int]@, weights@[i as int]));
                return Err(e);
            },
        };
        if repeated_hand(&hands) {
            let e = RangeError::Repeated { hands: t.hands.clone() };
            assert(unusable(tokens@[i as int]@, weights@[i as int]));
            assert(error_of(e, tokens@[i as int]@, weights@[i as int]));
            return Err(e);
        }
        let ghost before = w@;
        set_weights(&mut w, &hands, weight);
        proof {
            let s = range::range_parse(t@.hands)->Ok_0;
            assert forall|ix: int| 0 <= ix < N_COMBOS implies #[trigger] w@[ix] == slot_weight(
                tv,
                weights@,
                i + 1,
                ix,
            ) by {
                lemma_covers(hands@, s, ix);
                assert(before[ix] == slot_weight(tv, weights@, i as int, ix));
            }
        }
        i = i + 1;
    }
    Ok(w)
}

// ---------------------------------------------------------------- roots

/// The rows of frequencies and values fit: one of each per action, with a number
/// per hand.
pub open spec fn shaped(t: TableNode, n: int) -> bool {
    &&& t.node.freqs@.len() == t.node.actions@.len()
    &&& t.node.evs@.len() == t.node.actions@.len()
    &&& forall|i: int| 0 <= i < t.node.freqs@.len() ==> (#[trigger] t.node.freqs@[i])@.len() == n
    &&& forall|i: int| 0 <= i < t.node.evs@.len() ==> (#[trigger] t.node.evs@[i])@.len() == n
}

fn rows_fit(rows: &Vec<Vec<F32>>, n: usize) -> (r: bool)
    ensures
        r == forall|i: int| 0 <= i < rows@.len() ==> (#[trigger] rows@[i])@.len() == n,
{
    let mut i: usize = 0;
    while i < rows.len()
        invariant
            i <= rows@.len(),
            forall|k: int| 0 <= k < i ==> (#[trigger] rows@[k])@.len() == n,
        decreases rows@.len() - i,
    {
        if rows[i].len() != n {
            return false;
        }
        i = i + 1;
    }
    true
}

/// Whether a node has one row of frequencies and one of values per action, each
/// with `n` numbers.
pub fn well_formed(t: &TableNode, n: usize) -> (r: bool)
    ensures
        r == shaped(*t, n as int),
{
    t.node.freqs.len() == t.node.actions.len() && t.node.evs.len() == t.node.actions.len()
        && rows_fit(&t.node.freqs, n) && rows_fit(&t.node.evs, n)
}

/// A line that ends with a card: its node is a root of the turn or river.
pub open spec fn ends_with_card(line: Seq<Seq<char>>) -> bool {
    line.len() > 0 && text::begins(line.last(), "deal "@)
}

/// The first node, from `i` on, of the player.
pub open spec fn first_of(nodes: Seq<TableNode>, player: Seq<char>, i: int) -> Option<int>
    decreases nodes.len() - i,
{
    if i >= nodes.len() {
        None
    } else if nodes[i].node.player@ == player {
        Some(i)
    } else {
        first_of(nodes, player, i + 1)
    }
}

/// All hands are pairs of cards.
pub open spec fn all_pairs(hands: Seq<Seq<char>>) -> bool {
    forall|i: int| 0 <= i < hands.len() ==> pair_ids(#[trigger] hands[i]) is Some
}

/// The combos of hands: cards, the higher first, and slots.
pub open spec fn combos_for(c: Seq<(u8, u8, usize)>, hands: Seq<Seq<char>>) -> bool {
    &&& c.len() == hands.len()
    &&& forall|i: int|
        0 <= i < c.len() ==> pair_ids(hands[i]) == Some(
            ((#[trigger] c[i]).0 as int, c[i].1 as int),
        ) && c[i].2 == slot(c[i].0 as int, c[i].1 as int) && c[i].2 < N_COMBOS
}

/// The combos of hands, `None` where one is no pair of cards.
pub fn index_side(hands: &Vec<String>) -> (r: Option<Vec<(u8, u8, usize)>>)
    ensures
        r is Some == all_pairs(text::texts(hands@)),
        r matches Some(c) ==> combos_for(c@, text::texts(hands@)),
{
    let ghost hv = text::texts(hands@);
    let mut out: Vec<(u8, u8, usize)> = Vec::new();
    let mut i: usize = 0;
    while i < hands.len()
        invariant
            i <= hands@.len(),
            hv == text::texts(hands@),
            out@.len() == i,
            forall|k: int| 0 <= k < i ==> pair_ids(#[trigger] hv[k]) is Some,
            forall|k: int|
                0 <= k < i ==> pair_ids(hv[k]) == Some(
                    ((#[trigger] out@[k]).0 as int, out@[k].1 as int),
                ) && out@[k].2 == slot(out@[k].0 as int, out@[k].1 as int) && out@[k].2
                    < N_COMBOS,
        decreases hands@.len() - i,
    {
        assert(hv[i as int] == hands@[i as int]@);
        match combo_of(hands[i].as_str()) {
            Some(c) => {
                out.push(c);
            },
            None => {
                return None;
            },
        }
        i = i + 1;
    }
    Some(out)
}

/// One step of a line: whose frequencies multiply, at which prefix of the line,
/// and of which action.
#[derive(Debug, Clone, Copy)]
pub struct ReachStep {
    pub oop: bool,
    pub at: usize,
    pub action: usize,
}

/// How the record of one root is computed.
#[derive(Debug, Clone)]
pub struct RootPlan {
    /// The place of the root among the nodes.
    pub node: usize,
    pub board: [u8; 4],
    pub steps: Vec<ReachStep>,
    /// The actions with a stored node of the other player.
    pub children: Vec<usize>,
    /// Whether all actions have one.
    pub complete: bool,
}

/// What a table holds besides: sides and sizes.
pub struct Sides {
    pub oop_hands: Seq<Seq<char>>,
    pub oop: int,
    pub ip: int,
}

/// The place of a label, from `i` on.
pub open spec fn label_at(actions: Seq<Seq<char>>, label: Seq<char>, i: int) -> Option<int>
    decreases actions.len() - i,
{
    if i >= actions.len() {
        None
    } else if actions[i] == label {
        Some(i)
    } else {
        label_at(actions, label, i + 1)
    }
}

/// The step that the label at place `j` of the line takes, where there is one.
pub open spec fn step_at(t: PostflopTable, s: Sides, line: Seq<Seq<char>>, j: int) -> Option<
    ReachStep,
> {
    let at = line.take(j);
    let anc = t.at(at);
    let oop = anc.node.player@ == "oop"@;
    let place = label_at(text::texts(anc.node.actions@), line[j], 0);
    if !t.stored(at) || !(oop || anc.node.player@ == "ip"@) || place is None || !shaped(
        anc,
        if oop {
            s.oop
        } else {
            s.ip
        },
    ) {
        None
    } else {
        Some(ReachStep { oop, at: j as usize, action: place->0 as usize })
    }
}

/// The steps of the first `n` labels; cards take none.
pub open spec fn steps_of(t: PostflopTable, s: Sides, line: Seq<Seq<char>>, n: int) -> Option<
    Seq<ReachStep>,
>
    decreases n,
{
    if n <= 0 {
        Some(Seq::empty())
    } else if text::begins(line[n - 1], "deal "@) {
        steps_of(t, s, line, n - 1)
    } else {
        match (steps_of(t, s, line, n - 1), step_at(t, s, line, n - 1)) {
            (Some(v), Some(step)) => Some(v.push(step)),
            _ => None,
        }
    }
}

/// The action leads to a stored node of the player in position.
pub open spec fn has_child(
    t: PostflopTable,
    s: Sides,
    line: Seq<Seq<char>>,
    action: Seq<char>,
) -> bool {
    let at = line.push(action);
    t.stored(at) && t.at(at).node.player@ == "ip"@ && shaped(t.at(at), s.ip)
}

/// The actions, of the first `n`, that lead to a stored node.
pub open spec fn children_of(
    t: PostflopTable,
    s: Sides,
    line: Seq<Seq<char>>,
    actions: Seq<Seq<char>>,
    n: int,
) -> Seq<usize>
    decreases n,
{
    if n <= 0 {
        Seq::empty()
    } else if has_child(t, s, line, actions[n - 1]) {
        children_of(t, s, line, actions, n - 1).push((n - 1) as usize)
    } else {
        children_of(t, s, line, actions, n - 1)
    }
}

/// The root has the shape that a record needs.
pub open spec fn usable_root(n: TableNode, s: Sides) -> bool {
    let hands = text::texts(n.node.hands@);
    &&& n.node.player@ == "oop"@
    &&& n.node.board@.len() == 4
    &&& n.node.actions@.len() > 0
    &&& hands.len() == s.oop
    &&& s.oop > 0 ==> hands[0] == s.oop_hands[0] && hands.last() == s.oop_hands.last()
    &&& shaped(n, s.oop)
    &&& n.node.weights@.len() == s.oop
    &&& forall|i: int| 0 <= i < 4 ==> iso::id_of(#[trigger] text::texts(n.node.board@)[i]) is Some
}

/// The root can be recorded: its shape fits and every step of its line is stored.
pub open spec fn recordable(t: PostflopTable, s: Sides, n: TableNode) -> bool {
    let line = text::texts(n.node.line@);
    usable_root(n, s) && steps_of(t, s, line, line.len() as int) is Some
}

/// The plan of a root.
pub open spec fn plan_of(p: RootPlan, t: PostflopTable, s: Sides, i: int) -> bool {
    let n = t.nodes.values@[i];
    let line = text::texts(n.node.line@);
    let actions = text::texts(n.node.actions@);
    &&& p.node == i
    &&& forall|k: int|
        0 <= k < 4 ==> iso::id_of(text::texts(n.node.board@)[k]) == Some(
            (#[trigger] p.board@[k]) as int,
        )
    &&& steps_of(t, s, line, line.len() as int) == Some(p.steps@)
    &&& p.children@ == children_of(t, s, line, actions, actions.len() as int)
    &&& p.complete == (p.children@.len() == actions.len())
}

fn deals_card(label: &str) -> (r: bool)
    ensures
        r == text::begins(label@, "deal "@),
{
    let cs = text::chars_of(label);
    text::has_prefix(cs.as_slice(), "deal ")
}

fn find_label(actions: &Vec<String>, label: &str) -> (r: Option<usize>)
    ensures
        r is Some == label_at(text::texts(actions@), label@, 0) is Some,
        r matches Some(i) ==> label_at(text::texts(actions@), label@, 0) == Some(i as int),
{
    let ghost av = text::texts(actions@);
    let mut i: usize = 0;
    while i < actions.len()
        invariant
            i <= actions@.len(),
            av == text::texts(actions@),
            label_at(av, label@, 0) == label_at(av, label@, i as int),
        decreases actions@.len() - i,
    {
        assert(av[i as int] == actions@[i as int]@);
        if text::same_text(actions[i].as_str(), label) {
            return Some(i);
        }
        i = i + 1;
    }
    None
}

fn plan_steps(t: &PostflopTable, line: &Vec<String>, oop: usize, ip: usize, s: Ghost<Sides>) -> (r:
    Option<Vec<ReachStep>>)
    requires
        t.wf(),
        s@.oop == oop,
        s@.ip == ip,
    ensures
        r is Some == steps_of(*t, s@, text::texts(line@), line@.len() as int) is Some,
        r matches Some(v) ==> steps_of(*t, s@, text::texts(line@), line@.len() as int) == Some(v@),
{
    let ghost lv = text::texts(line@);
    let mut out: Vec<ReachStep> = Vec::new();
    let mut prefix: Vec<String> = Vec::new();
    let mut j: usize = 0;
    assert(text::texts(prefix@) =~= lv.take(0));
    while j < line.len()
        invariant
            j <= line@.len(),
            t.wf(),
            s@.oop == oop,
            s@.ip == ip,
            lv == text::texts(line@),
            text::texts(prefix@) == lv.take(j as int),
            steps_of(*t, s@, lv, j as int) == Some(out@),
        decreases line@.len() - j,
    {
        let ghost before = prefix@;
        assert(lv[j as int] == line@[j as int]@);
        if !deals_card(line[j].as_str()) {
            let mut step: Option<ReachStep> = None;
            match t.node(&prefix) {
                Some(anc) => {
                    let is_oop = text::same_text(anc.node.player.as_str(), "oop");
                    let is_ip = text::same_text(anc.node.player.as_str(), "ip");
                    let n: usize = if is_oop {
                        oop
                    } else {
                        ip
                    };
                    if is_oop || is_ip {
                        match find_label(&anc.node.actions, line[j].as_str()) {
                            Some(a) => {
                                if well_formed(anc, n) {
                                    step = Some(ReachStep { oop: is_oop, at: j, action: a });
                                }
                            },
                            None => {},
                        }
                    }
                },
                None => {},
            }
            assert(step == step_at(*t, s@, lv, j as int));
            match step {
                Some(x) => {
                    out.push(x);
                },
                None => {
                    proof {
                        lemma_no_steps(*t, s@, lv, j + 1, line@.len() as int);
                    }
                    return None;
                },
            }
        }
        prefix.push(line[j].clone());
        assert(text::texts(prefix@) =~= lv.take(j + 1));
        j = j + 1;
    }
    Some(out)
}

proof fn lemma_no_steps(t: PostflopTable, s: Sides, line: Seq<Seq<char>>, j: int, n: int)
    requires
        0 <= j <= n,
        steps_of(t, s, line, j) is None,
    ensures
        steps_of(t, s, line, n) is None,
    decreases n - j,
{
    if j < n {
        lemma_no_steps(t, s, line, j, n - 1);
    }
}

fn plan_children(t: &PostflopTable, n: &TableNode, ip: usize, s: Ghost<Sides>) -> (r: Vec<usize>)
    requires
        t.wf(),
        s@.ip == ip,
    ensures
        r@ == children_of(
            *t,
            s@,
            text::texts(n.node.line@),
            text::texts(n.node.actions@),
            n.node.actions@.len() as int,
        ),
        r@.len() <= n.node.actions@.len(),
{
    let ghost lv = text::texts(n.node.line@);
    let ghost av = text::texts(n.node.actions@);
    let mut out: Vec<usize> = Vec::new();
    let mut i: usize = 0;
    while i < n.node.actions.len()
        invariant
            i <= n.node.actions@.len(),
            t.wf(),
            s@.ip == ip,
            lv == text::texts(n.node.line@),
            av == text::texts(n.node.actions@),
            out@ == children_of(*t, s@, lv, av, i as int),
            out@.len() <= i,
        decreases n.node.actions@.len() - i,
    {
        let mut line = text::copy_texts(&n.node.line);
        line.push(n.node.actions[i].clone());
        proof {
            assert(av[i as int] == n.node.actions@[i as int]@);
            assert(text::texts(line@) =~= lv.push(av[i as int]));
        }
        match t.node(&line) {
            Some(c) => {
                if text::same_text(c.node.player.as_str(), "ip") && well_formed(c, ip) {
                    out.push(i);
                }
            },
            None => {},
        }
        i = i + 1;
    }
    out
}

/// The roots of a table: the places, of the first `n` nodes, whose line ends with
/// a card.
pub open spec fn root_places(nodes: Seq<TableNode>, n: int) -> Seq<usize>
    decreases n,
{
    if n <= 0 {
        Seq::empty()
    } else if ends_with_card(text::texts(nodes[n - 1].node.line@)) {
        root_places(nodes, n - 1).push((n - 1) as usize)
    } else {
        root_places(nodes, n - 1)
    }
}

/// The keys by which roots are sorted: their lines.
pub open spec fn line_keys(nodes: Seq<TableNode>, roots: Seq<usize>) -> Seq<Seq<u32>> {
    roots.map_values(|i: usize| order::list_key(text::texts(nodes[i as int].node.line@)))
}

/// The roots of a table by line.
pub open spec fn sorted_roots(nodes: Seq<TableNode>) -> Seq<usize> {
    let roots = root_places(nodes, nodes.len() as int);
    order::in_order(roots, order::order_of(line_keys(nodes, roots)))
}

/// The roots, of the first `n`, that can be recorded.
pub open spec fn recorded(t: PostflopTable, s: Sides, roots: Seq<usize>, n: int) -> Seq<usize>
    decreases n,
{
    if n <= 0 {
        Seq::empty()
    } else if recordable(t, s, t.nodes.values@[roots[n - 1] as int]) {
        recorded(t, s, roots, n - 1).push(roots[n - 1])
    } else {
        recorded(t, s, roots, n - 1)
    }
}

/// How the records of a table are computed.
#[derive(Debug, Clone)]
pub struct ExtractPlan {
    pub oop: Vec<(u8, u8, usize)>,
    pub ip: Vec<(u8, u8, usize)>,
    pub roots: Vec<RootPlan>,
    /// Nodes that do not have the expected shape.
    pub bad_nodes: usize,
    /// Roots without the values of the player in position.
    pub ip_masked: usize,
}

/// The hands of both players can be indexed.
pub open spec fn indexed(nodes: Seq<TableNode>) -> bool {
    let o = first_of(nodes, "oop"@, 0);
    let i = first_of(nodes, "ip"@, 0);
    &&& o is Some
    &&& i is Some
    &&& all_pairs(text::texts(nodes[o->0].node.hands@))
    &&& all_pairs(text::texts(nodes[i->0].node.hands@))
}

/// The sides of a table whose hands can be indexed.
pub open spec fn sides_of(nodes: Seq<TableNode>) -> Sides {
    let o = nodes[first_of(nodes, "oop"@, 0)->0].node.hands@;
    let i = nodes[first_of(nodes, "ip"@, 0)->0].node.hands@;
    Sides { oop_hands: text::texts(o), oop: o.len() as int, ip: i.len() as int }
}

/// How many of the plans have no values of the player in position.
pub open spec fn incomplete(v: Seq<RootPlan>) -> nat
    decreases v.len(),
{
    if v.len() == 0 {
        0
    } else {
        incomplete(v.drop_last()) + if v.last().complete {
            0nat
        } else {
            1nat
        }
    }
}

/// The plan of a table whose hands can be indexed.
pub open spec fn extracts(p: ExtractPlan, t: PostflopTable) -> bool {
    let nodes = t.nodes.values@;
    let s = sides_of(nodes);
    let roots = sorted_roots(nodes);
    let kept = recorded(t, s, roots, roots.len() as int);
    &&& combos_for(p.oop@, s.oop_hands)
    &&& combos_for(p.ip@, text::texts(nodes[first_of(nodes, "ip"@, 0)->0].node.hands@))
    &&& p.roots@.len() == kept.len()
    &&& forall|i: int|
        0 <= i < kept.len() ==> plan_of(#[trigger] p.roots@[i], t, s, kept[i] as int)
    &&& p.bad_nodes == roots.len() - kept.len()
    &&& p.ip_masked == incomplete(p.roots@)
}

fn find_player(nodes: &Vec<TableNode>, player: &str) -> (r: Option<usize>)
    ensures
        r is Some == first_of(nodes@, player@, 0) is Some,
        r matches Some(i) ==> first_of(nodes@, player@, 0) == Some(i as int) && i < nodes@.len(),
{
    let mut i: usize = 0;
    while i < nodes.len()
        invariant
            i <= nodes@.len(),
            first_of(nodes@, player@, 0) == first_of(nodes@, player@, i as int),
        decreases nodes@.len() - i,
    {
        if text::same_text(nodes[i].node.player.as_str(), player) {
            return Some(i);
        }
        i = i + 1;
    }
    None
}

fn root_order(nodes: &Vec<TableNode>) -> (r: Vec<usize>)
    ensures
        r@ == sorted_roots(nodes@),
        forall|k: int| 0 <= k < r@.len() ==> #[trigger] r@[k] < nodes@.len(),
{
    let mut roots: Vec<usize> = Vec::new();
    let mut keys: Vec<Vec<u32>> = Vec::new();
    let mut i: usize = 0;
    while i < nodes.len()
        invariant
            i <= nodes@.len(),
            roots@ == root_places(nodes@, i as int),
            keys@.len() == roots@.len(),
            forall|k: int| 0 <= k < roots@.len() ==> #[trigger] roots@[k] < nodes@.len(),
            forall|k: int|
                0 <= k < keys@.len() ==> (#[trigger] keys@[k])@ == order::list_key(
                    text::texts(nodes@[roots@[k] as int].node.line@),
                ),
        decreases nodes@.len() - i,
    {
        let line = &nodes[i].node.line;
        let n: usize = line.len();
        proof {
            assert(text::texts(line@).len() == n);
            if n > 0 {
                assert(text::texts(line@).last() == line@.last()@);
            }
        }
        if n > 0 && deals_card(line[n - 1].as_str()) {
            roots.push(i);
            keys.push(order::key_of_list(line));
        }
        i = i + 1;
    }
    let idx = order::sorted_positions(&keys);
    proof {
        assert(order::keys_of(keys@) =~= line_keys(nodes@, roots@));
        order::lemma_order_of(order::keys_of(keys@), idx@);
    }
    let mut out: Vec<usize> = Vec::new();
    let mut k: usize = 0;
    while k < idx.len()
        invariant
            k <= idx@.len(),
            out@.len() == k,
            order::stable_order(order::keys_of(keys@), idx@),
            keys@.len() == roots@.len(),
            forall|j: int| 0 <= j < roots@.len() ==> #[trigger] roots@[j] < nodes@.len(),
            forall|j: int|
                0 <= j < k ==> (#[trigger] out@[j]) == roots@[idx@[j] as int] && out@[j]
                    < nodes@.len(),
        decreases idx@.len() - k,
    {
        out.push(roots[idx[k]]);
        k = k + 1;
    }
    assert(out@ =~= order::in_order(roots@, idx@));
    out
}

fn board_ids(board: &Vec<String>) -> (r: Option<Vec<u8>>)
    requires
        board@.len() == 4,
    ensures
        r is Some == forall|i: int|
            0 <= i < 4 ==> iso::id_of(#[trigger] text::texts(board@)[i]) is Some,
        r matches Some(v) ==> v@.len() == 4 && forall|k: int|
            0 <= k < 4 ==> iso::id_of(text::texts(board@)[k]) == Some((#[trigger] v@[k]) as int),
{
    let ghost bv = text::texts(board@);
    let mut out: Vec<u8> = Vec::new();
    let mut i: usize = 0;
    while i < 4
        invariant
            i <= 4,
            board@.len() == 4,
            bv == text::texts(board@),
            out@.len() == i,
            forall|k: int| 0 <= k < i ==> iso::id_of(#[trigger] bv[k]) is Some,
            forall|k: int| 0 <= k < i ==> iso::id_of(bv[k]) == Some((#[trigger] out@[k]) as int),
        decreases 4 - i,
    {
        assert(bv[i as int] == board@[i as int]@);
        match iso::card_id(board[i].as_str()) {
            Some(id) => {
                out.push(id);
            },
            None => {
                return None;
            },
        }
        i = i + 1;
    }
    Some(out)
}

fn same_ends(hands: &Vec<String>, oop_hands: &Vec<String>) -> (r: bool)
    requires
        hands@.len() == oop_hands@.len(),
    ensures
        r == (hands@.len() > 0 ==> text::texts(hands@)[0] == text::texts(oop_hands@)[0]
            && text::texts(hands@).last() == text::texts(oop_hands@).last()),
{
    let n: usize = hands.len();
    if n == 0 {
        return true;
    }
    proof {
        assert(text::texts(hands@)[0] == hands@[0]@);
        assert(text::texts(oop_hands@)[0] == oop_hands@[0]@);
        assert(text::texts(hands@).last() == hands@.last()@);
        assert(text::texts(oop_hands@).last() == oop_hands@.last()@);
    }
    text::same_text(hands[0].as_str(), oop_hands[0].as_str()) && text::same_text(
        hands[n - 1].as_str(),
        oop_hands[n - 1].as_str(),
    )
}

fn plan_root(
    t: &PostflopTable,
    i: usize,
    oop_hands: &Vec<String>,
    ip: usize,
    s: Ghost<Sides>,
) -> (r: Option<RootPlan>)
    requires
        t.wf(),
        i < t.nodes.values@.len(),
        s@.oop_hands == text::texts(oop_hands@),
        s@.oop == oop_hands@.len(),
        s@.ip == ip,
    ensures
        r is Some == recordable(*t, s@, t.nodes.values@[i as int]),
        r matches Some(p) ==> plan_of(p, *t, s@, i as int),
{
    let n = &t.nodes()[i];
    let oop: usize = oop_hands.len();
    assert(text::texts(n.node.hands@).len() == n.node.hands@.len());
    assert(text::texts(n.node.line@).len() == n.node.line@.len());
    assert(text::texts(n.node.actions@).len() == n.node.actions@.len());
    if !text::same_text(n.node.player.as_str(), "oop") || n.node.board.len() != 4
        || n.node.actions.len() == 0 || n.node.hands.len() != oop {
        return None;
    }
    if !same_ends(&n.node.hands, oop_hands) || !well_formed(n, oop) || n.node.weights.len() != oop {
        return None;
    }
    let board = match board_ids(&n.node.board) {
        Some(b) => b,
        None => {
            return None;
        },
    };
    let board: [u8; 4] = [board[0], board[1], board[2], board[3]];
    let steps = match plan_steps(t, &n.node.line, oop, ip, s) {
        Some(v) => v,
        None => {
            return None;
        },
    };
    let children = plan_children(t, n, ip, s);
    let complete = children.len() == n.node.actions.len();
    Some(RootPlan { node: i, board, steps, children, complete })
}

/// Plans the records of a table: the combos of both players, and for each root
/// in the order of lines its board, the frequencies that multiply along its line
/// and the children that its values come from. A node that does not have the
/// expected shape is counted and left out.
pub fn extract_file(t: &PostflopTable) -> (r: ExtractPlan)
    requires
        t.wf(),
    ensures
        indexed(t.nodes.values@) ==> extracts(r, *t),
        !indexed(t.nodes.values@) ==> r.roots@.len() == 0 && r.bad_nodes == 1 && r.ip_masked == 0
            && r.oop@.len() == 0 && r.ip@.len() == 0,
{
    let nodes = t.nodes();
    let none = ExtractPlan {
        oop: Vec::new(),
        ip: Vec::new(),
        roots: Vec::new(),
        bad_nodes: 1,
        ip_masked: 0,
    };
    let (o, i) = match (find_player(nodes, "oop"), find_player(nodes, "ip")) {
        (Some(o), Some(i)) => (o, i),
        _ => {
            return none;
        },
    };
    let oop_hands = &nodes[o].node.hands;
    let ip_hands = &nodes[i].node.hands;
    let (oop, ip) = match (index_side(oop_hands), index_side(ip_hands)) {
        (Some(x), Some(y)) => (x, y),
        _ => {
            return none;
        },
    };
    let ghost s = sides_of(nodes@);
    let order = root_order(nodes);
    let ip_len: usize = ip_hands.len();
    let mut roots: Vec<RootPlan> = Vec::new();
    let mut bad: usize = 0;
    let mut masked: usize = 0;
    let mut k: usize = 0;
    while k < order.len()
        invariant
            k <= order@.len(),
            t.wf(),
            nodes@ == t.nodes.values@,
            s == sides_of(nodes@),
            s.oop_hands == text::texts(oop_hands@),
            s.oop == oop_hands@.len(),
            s.ip == ip_len,
            forall|j: int| 0 <= j < order@.len() ==> #[trigger] order@[j] < nodes@.len(),
            roots@.len() == recorded(*t, s, order@, k as int).len(),
            forall|j: int|
                0 <= j < roots@.len() ==> plan_of(
                    #[trigger] roots@[j],
                    *t,
                    s,
                    recorded(*t, s, order@, k as int)[j] as int,
                ),
            bad + roots@.len() == k,
            masked == incomplete(roots@),
            masked <= roots@.len(),
        decreases order@.len() - k,
    {
        match plan_root(t, order[k], oop_hands, ip_len, Ghost(s)) {
            Some(p) => {
                let ghost before = roots@;
                if !p.complete {
                    masked = masked + 1;
                }
                roots.push(p);
                assert(roots@.drop_last() =~= before);
            },
            None => {
                bad = bad + 1;
            },
        }
        k = k + 1;
    }
    ExtractPlan { oop, ip, roots, bad_nodes: bad, ip_masked: masked }
}

/// The frequencies that a step of a line multiplies by; `None` where there is no
/// such node or action.
pub fn step_freqs<'a>(t: &'a PostflopTable, line: &Vec<String>, s: &ReachStep) -> (r: Option<
    &'a Vec<F32>,
>)
    requires
        t.wf(),
    ensures
        ({
            let at = text::texts(line@).take(s.at as int);
            let rows = t.at(at).node.freqs@;
            &&& r is Some == (s.at <= line@.len() && t.stored(at) && s.action < rows.len())
            &&& r matches Some(v) ==> *v == rows[s.action as int]
        }),
{
    if s.at > line.len() {
        return None;
    }
    let mut prefix: Vec<String> = Vec::new();
    let ghost lv = text::texts(line@);
    let mut j: usize = 0;
    assert(text::texts(prefix@) =~= lv.take(0));
    while j < s.at
        invariant
            j <= s.at <= line@.len(),
            lv == text::texts(line@),
            text::texts(prefix@) == lv.take(j as int),
        decreases s.at - j,
    {
        let ghost before = prefix@;
        prefix.push(line[j].clone());
        proof {
            assert(lv[j as int] == line@[j as int]@);
            assert(text::texts(prefix@) =~= text::texts(before).push(lv[j as int]));
            assert(text::texts(prefix@) =~= lv.take(j + 1));
        }
        j = j + 1;
    }
    match t.node(&prefix) {
        Some(n) => if s.action < n.node.freqs.len() {
            Some(&n.node.freqs[s.action])
        } else {
            None
        },
        None => None,
    }
}

proof fn lemma_planned_step(
    t: PostflopTable,
    s: Sides,
    line: Seq<Seq<char>>,
    n: int,
    steps: Seq<ReachStep>,
    k: int,
)
    requires
        0 <= n <= line.len() <= usize::MAX,
        steps_of(t, s, line, n) == Some(steps),
        0 <= k < steps.len(),
    ensures
        ({
            let st = steps[k];
            &&& st.at < n
            &&& step_at(t, s, line, st.at as int) == Some(st)
        }),
    decreases n,
{
    if n > 0 {
        let before = steps_of(t, s, line, n - 1)->0;
        if k < before.len() {
            lemma_planned_step(t, s, line, n - 1, before, k);
            assert(steps[k] == before[k]);
        }
    }
}

proof fn lemma_label_at(actions: Seq<Seq<char>>, label: Seq<char>, i: int)
    requires
        0 <= i <= actions.len(),
    ensures
        label_at(actions, label, i) matches Some(p) ==> i <= p < actions.len() && actions[p]
            == label,
    decreases actions.len() - i,
{
    if i < actions.len() && actions[i] != label {
        lemma_label_at(actions, label, i + 1);
    }
}

/// Every step of a planned root has its node and its row of frequencies, one for
/// each hand of the player who acts there.
pub proof fn planned_steps_have_their_rows(
    p: RootPlan,
    t: PostflopTable,
    s: Sides,
    i: int,
    k: int,
)
    requires
        plan_of(p, t, s, i),
        0 <= k < p.steps@.len(),
    ensures
        ({
            let line = text::texts(t.nodes.values@[i].node.line@);
            let st = p.steps@[k];
            let node = t.at(line.take(st.at as int)).node;
            &&& st.at < line.len()
            &&& t.stored(line.take(st.at as int))
            &&& st.action < node.freqs@.len()
            &&& node.actions@[st.action as int]@ == line[st.at as int]
            &&& node.freqs@[st.action as int]@.len() == if st.oop {
                s.oop
            } else {
                s.ip
            }
        }),
{
    let line = text::texts(t.nodes.values@[i].node.line@);
    let st = p.steps@[k];
    assert(t.nodes.values@[i].node.line.len() == t.nodes.values@[i].node.line@.len());
    lemma_planned_step(t, s, line, line.len() as int, p.steps@, k);
    let anc = t.at(line.take(st.at as int));
    let actions = text::texts(anc.node.actions@);
    lemma_label_at(actions, line[st.at as int], 0);
    assert(anc.node.actions.len() == anc.node.actions@.len());
}

/// The stored node that an action of a root leads to.
pub fn child_node<'a>(t: &'a PostflopTable, root: &TableNode, action: usize) -> (r: Option<
    &'a TableNode,
>)
    requires
        t.wf(),
    ensures
        ({
            let at = text::texts(root.node.line@).push(root.node.actions@[action as int]@);
            &&& r is Some == (action < root.node.actions@.len() && t.stored(at))
            &&& r matches Some(c) ==> *c == t.at(at)
        }),
{
    if action >= root.node.actions.len() {
        return None;
    }
    let mut line = text::copy_texts(&root.node.line);
    line.push(root.node.actions[action].clone());
    assert(text::texts(line@) =~= text::texts(root.node.line@).push(
        root.node.actions@[action as int]@,
    ));
    t.node(&line)
}

// ---------------------------------------------------------------- records

/// The card is on the board.
pub open spec fn on_board(board: [u8; 4], c: int) -> bool {
    board[0] == c || board[1] == c || board[2] == c || board[3] == c
}

/// A range without the hands that the board blocks: they weigh 0, the others what
/// they did.
pub fn unblocked(base: &Vec<F32>, board: [u8; 4]) -> (r: Vec<F32>)
    requires
        base@.len() == N_COMBOS,
    ensures
        r@.len() == N_COMBOS,
        forall|a: int, b: int|
            0 <= b < a < 52 ==> #[trigger] r@[slot(a, b)] == if on_board(board, a) || on_board(
                board,
                b,
            ) {
                F32 { bits: 0 }
            } else {
                base@[slot(a, b)]
            },
{
    let mut out: Vec<F32> = Vec::new();
    let mut hi: u8 = 0;
    proof {
        lemma_tri_zero();
    }
    while hi < 52
        invariant
            hi <= 52,
            base@.len() == N_COMBOS,
            out@.len() == tri(hi as int),
            forall|a: int, b: int|
                0 <= b < a < hi ==> #[trigger] out@[slot(a, b)] == if on_board(board, a)
                    || on_board(board, b) {
                    F32 { bits: 0 }
                } else {
                    base@[slot(a, b)]
                },
        decreases 52 - hi,
    {
        let high = hi == board[0] || hi == board[1] || hi == board[2] || hi == board[3];
        let mut lo: u8 = 0;
        while lo < hi
            invariant
                lo <= hi < 52,
                base@.len() == N_COMBOS,
                high == on_board(board, hi as int),
                out@.len() == tri(hi as int) + lo,
                forall|a: int, b: int|
                    0 <= b < a && (a < hi || a == hi && b < lo) ==> #[trigger] out@[slot(a, b)]
                        == if on_board(board, a) || on_board(board, b) {
                        F32 { bits: 0 }
                    } else {
                        base@[slot(a, b)]
                    },
            decreases hi - lo,
        {
            let ix: usize = combo_index(hi, lo);
            let low = lo == board[0] || lo == board[1] || lo == board[2] || lo == board[3];
            let ghost before = out@;
            if high || low {
                out.push(F32 { bits: 0 });
            } else {
                out.push(base[ix]);
            }
            proof {
                assert forall|a: int, b: int|
                    0 <= b < a && (a < hi || a == hi && b < lo + 1) implies #[trigger] out@[slot(
                    a,
                    b,
                )] == if on_board(board, a) || on_board(board, b) {
                    F32 { bits: 0 }
                } else {
                    base@[slot(a, b)]
                } by {
                    if a < hi {
                        lemma_tri(a);
                        lemma_tri_grows(a + 1, hi as int);
                        assert(out@[slot(a, b)] == before[slot(a, b)]);
                    } else if b < lo {
                        assert(out@[slot(a, b)] == before[slot(a, b)]);
                    }
                }
            }
            lo = lo + 1;
        }
        proof {
            lemma_tri(hi as int);
        }
        hi = hi + 1;
    }
    assert(tri(52) == 1326);
    out
}

/// The values of the first `n` hands, each at the slot of its hand; the other
/// slots hold 0.
pub open spec fn by_slot(values: Seq<F32>, combos: Seq<(u8, u8, usize)>, n: int) -> Seq<F32>
    decreases n,
{
    if n <= 0 {
        Seq::new(N_COMBOS as nat, |i: int| F32 { bits: 0 })
    } else {
        by_slot(values, combos, n - 1).update(combos[n - 1].2 as int, values[n - 1])
    }
}

/// The equities of the hands by slot; all 0 where there is not one for each hand.
pub fn equity_by_slot(equity: &Vec<F32>, oop: &Vec<(u8, u8, usize)>) -> (r: Vec<F32>)
    requires
        forall|i: int| 0 <= i < oop@.len() ==> (#[trigger] oop@[i]).2 < N_COMBOS,
    ensures
        r@ == by_slot(
            equity@,
            oop@,
            if equity@.len() == oop@.len() {
                oop@.len() as int
            } else {
                0
            },
        ),
{
    let mut out: Vec<F32> = Vec::new();
    let mut i: usize = 0;
    while i < N_COMBOS
        invariant
            i <= N_COMBOS,
            out@.len() == i,
            forall|k: int| 0 <= k < i ==> #[trigger] out@[k] == (F32 { bits: 0 }),
        decreases N_COMBOS - i,
    {
        out.push(F32 { bits: 0 });
        i = i + 1;
    }
    assert(out@ =~= by_slot(equity@, oop@, 0));
    if equity.len() == oop.len() {
        let mut p: usize = 0;
        while p < oop.len()
            invariant
                p <= oop@.len(),
                equity@.len() == oop@.len(),
                forall|i: int| 0 <= i < oop@.len() ==> (#[trigger] oop@[i]).2 < N_COMBOS,
                out@.len() == N_COMBOS,
                out@ == by_slot(equity@, oop@, p as int),
            decreases oop@.len() - p,
        {
            let ix: usize = oop[p].2;
            out.set(ix, equity[p]);
            p = p + 1;
        }
    }
    out
}

/// The flag byte of a record: bit 0 says that the values of the player in position
/// are there, which takes a stored node for every action.
pub fn record_flags(complete: bool) -> (r: u8)
    ensures
        r == if complete {
            1u8
        } else {
            0u8
        },
{
    if complete {
        1
    } else {
        0
    }
}

/// One root, ready to be written.
#[derive(Debug, Clone)]
pub struct RootRecord {
    pub board: [u8; 4],
    pub pot_bb: F32,
    pub reach: F32,
    /// Bit 0: the values of the player in position are there.
    pub flags: u8,
    pub oop_reach: Vec<F32>,
    pub ip_reach: Vec<F32>,
    pub oop_cfv_pot: Vec<F32>,
    pub ip_cfv_pot: Vec<F32>,
    /// Equity of the player out of position, by slot.
    pub oop_equity: Vec<F32>,
}

impl RootRecord {
    /// All blocks have one number per slot.
    pub open spec fn wf(self) -> bool {
        &&& self.oop_reach@.len() == N_COMBOS
        &&& self.ip_reach@.len() == N_COMBOS
        &&& self.oop_cfv_pot@.len() == N_COMBOS
        &&& self.ip_cfv_pot@.len() == N_COMBOS
    }
}

/// The two bytes at a place, the lower first.
pub open spec fn half_at(buf: Seq<u8>, at: int) -> u16 {
    (buf[at] + 256 * buf[at + 1]) as u16
}

/// The numbers stand in half precision from a place on.
pub open spec fn halves_at(buf: Seq<u8>, at: int, block: Seq<F32>) -> bool {
    forall|i: int| 0 <= i < block.len() ==> bits::packs(#[trigger] block[i], half_at(buf, at + 2 * i))
}

/// The bytes of a record.
pub open spec fn record_layout(buf: Seq<u8>, flop_id: u16, formation_id: u8, r: RootRecord) -> bool {
    &&& buf.len() == RECORD_BYTES
    &&& half_at(buf, 0) == flop_id
    &&& buf[2] == formation_id
    &&& buf[3] == r.flags
    &&& forall|i: int| 0 <= i < 4 ==> #[trigger] r.board[i] == buf[4 + i]
    &&& buf.subrange(8, 12) == fnv::le4(r.pot_bb.bits)
    &&& buf.subrange(12, 16) == fnv::le4(r.reach.bits)
    &&& halves_at(buf, 16, r.oop_reach@)
    &&& halves_at(buf, 16 + 2 * N_COMBOS, r.ip_reach@)
    &&& halves_at(buf, 16 + 4 * N_COMBOS, r.oop_cfv_pot@)
    &&& halves_at(buf, 16 + 6 * N_COMBOS, r.ip_cfv_pot@)
}

fn push_halves(out: &mut Vec<u8>, block: &Vec<F32>)
    requires
        old(out)@.len() + 2 * block@.len() <= usize::MAX,
    ensures
        final(out)@.len() == old(out)@.len() + 2 * block@.len(),
        final(out)@.take(old(out)@.len() as int) == old(out)@,
        halves_at(final(out)@, old(out)@.len() as int, block@),
{
    let ghost start = out@;
    let mut i: usize = 0;
    assert(out@.take(start.len() as int) =~= start);
    while i < block.len()
        invariant
            i <= block@.len(),
            out@.len() == start.len() + 2 * i,
            out@.take(start.len() as int) == start,
            forall|k: int|
                0 <= k < i ==> bits::packs(
                    #[trigger] block@[k],
                    half_at(out@, start.len() + 2 * k),
                ),
        decreases block@.len() - i,
    {
        let h: u16 = bits::f16_bits(block[i]);
        let ghost before = out@;
        out.push((h % 256) as u8);
        out.push((h / 256) as u8);
        proof {
            assert(out@.take(start.len() as int) =~= start) by {
                assert(out@.take(start.len() as int) =~= before.take(start.len() as int));
            }
            assert(half_at(out@, start.len() + 2 * i) == h);
            assert forall|k: int| 0 <= k < i + 1 implies bits::packs(
                #[trigger] block@[k],
                half_at(out@, start.len() + 2 * k),
            ) by {
                if k < i {
                    assert(half_at(out@, start.len() + 2 * k) == half_at(
                        before,
                        start.len() + 2 * k,
                    ));
                }
            }
        }
        i = i + 1;
    }
}

proof fn lemma_halves_stay(a: Seq<u8>, b: Seq<u8>, at: int, block: Seq<F32>)
    requires
        halves_at(a, at, block),
        0 <= at,
        at + 2 * block.len() <= a.len() <= b.len(),
        b.take(a.len() as int) == a,
    ensures
        halves_at(b, at, block),
{
    assert forall|i: int| 0 <= i < block.len() implies bits::packs(
        #[trigger] block[i],
        half_at(b, at + 2 * i),
    ) by {
        assert(b.take(a.len() as int)[at + 2 * i] == b[at + 2 * i]);
        assert(b.take(a.len() as int)[at + 2 * i + 1] == b[at + 2 * i + 1]);
        assert(half_at(b, at + 2 * i) == half_at(a, at + 2 * i));
    }
}

/// The bytes of a record, little-endian.
pub fn write_record(flop_id: u16, formation_id: u8, r: &RootRecord) -> (buf: Vec<u8>)
    requires
        r.wf(),
    ensures
        record_layout(buf@, flop_id, formation_id, *r),
{
    let mut buf: Vec<u8> = Vec::new();
    buf.push((flop_id % 256) as u8);
    buf.push((flop_id / 256) as u8);
    buf.push(formation_id);
    buf.push(r.flags);
    buf.push(r.board[0]);
    buf.push(r.board[1]);
    buf.push(r.board[2]);
    buf.push(r.board[3]);
    fnv::push_le4(&mut buf, r.pot_bb.bits);
    fnv::push_le4(&mut buf, r.reach.bits);
    let ghost head = buf@;
    proof {
        assert(head.len() == 16);
        assert(head.subrange(8, 12) =~= fnv::le4(r.pot_bb.bits));
        assert(head.subrange(12, 16) =~= fnv::le4(r.reach.bits));
        assert(half_at(head, 0) == flop_id);
    }
    push_halves(&mut buf, &r.oop_reach);
    let ghost b1 = buf@;
    push_halves(&mut buf, &r.ip_reach);
    let ghost b2 = buf@;
    push_halves(&mut buf, &r.oop_cfv_pot);
    let ghost b3 = buf@;
    push_halves(&mut buf, &r.ip_cfv_pot);
    proof {
        let b = buf@;
        assert(b.take(b2.len() as int) =~= b2) by {
            assert(b.take(b2.len() as int) =~= b.take(b3.len() as int).take(b2.len() as int));
        }
        assert(b.take(b1.len() as int) =~= b1) by {
            assert(b.take(b1.len() as int) =~= b.take(b2.len() as int).take(b1.len() as int));
        }
        assert(b.take(16) =~= head) by {
            assert(b.take(16) =~= b.take(b1.len() as int).take(16));
        }
        lemma_halves_stay(b1, b, 16, r.oop_reach@);
        lemma_halves_stay(b2, b, 16 + 2 * N_COMBOS, r.ip_reach@);
        lemma_halves_stay(b3, b, 16 + 4 * N_COMBOS, r.oop_cfv_pot@);
        assert(forall|i: int| 0 <= i < 16 ==> #[trigger] b.take(16)[i] == b[i]);
        assert(b.subrange(8, 12) =~= b.take(16).subrange(8, 12));
        assert(b.subrange(12, 16) =~= b.take(16).subrange(12, 16));
        assert(half_at(b, 0) == half_at(b.take(16), 0));
        assert(head[2] == formation_id && head[3] == r.flags);
        assert(head[4] == r.board[0] && head[5] == r.board[1] && head[6] == r.board[2] && head[7]
            == r.board[3]);
        assert(b[2] == head[2] && b[3] == head[3]);
        assert forall|i: int| 0 <= i < 4 implies #[trigger] r.board[i] == b[4 + i] by {
            assert(b.take(16)[4 + i] == b[4 + i]);
        }
    }
    buf
}

/// The bytes of the equities of a root.
pub fn write_equity(r: &RootRecord) -> (buf: Vec<u8>)
    requires
        2 * r.oop_equity@.len() <= usize::MAX,
    ensures
        buf@.len() == 2 * r.oop_equity@.len(),
        halves_at(buf@, 0, r.oop_equity@),
{
    let mut buf: Vec<u8> = Vec::new();
    push_halves(&mut buf, &r.oop_equity);
    buf
}

// ---------------------------------------------------------------- flops and files

/// The flops of a corpus, numbered as they come.
#[derive(Debug, Clone)]
pub struct FlopRegistry {
    pub list: Vec<String>,
}

impl FlopRegistry {
    pub open spec fn wf(&self) -> bool {
        text::texts(self.list@).no_duplicates()
    }

    /// An empty registry.
    pub fn new() -> (r: Self)
        ensures
            r.wf(),
            r.list@.len() == 0,
    {
        FlopRegistry { list: Vec::new() }
    }

    /// The number of a flop, the next one where it is new. A flop keeps its place;
    /// numbers count modulo 65536.
    pub fn id(&mut self, canon: &str) -> (r: u16)
        requires
            old(self).wf(),
        ensures
            final(self).wf(),
            text::texts(final(self).list@) == if text::texts(old(self).list@).contains(canon@) {
                text::texts(old(self).list@)
            } else {
                text::texts(old(self).list@).push(canon@)
            },
            text::texts(final(self).list@).contains(canon@),
            r as int == text::texts(final(self).list@).index_of(canon@) % 0x1_0000,
    {
        let ghost tv = text::texts(self.list@);
        let mut i: usize = 0;
        while i < self.list.len()
            invariant
                i <= self.list@.len(),
                tv == text::texts(self.list@),
                tv.no_duplicates(),
                forall|k: int| 0 <= k < i ==> #[trigger] tv[k] != canon@,
            decreases self.list@.len() - i,
        {
            assert(tv[i as int] == self.list@[i as int]@);
            if text::same_text(self.list[i].as_str(), canon) {
                assert(tv.index_of(canon@) == i) by {
                    let j = tv.index_of(canon@);
                    assert(tv[j] == tv[i as int]);
                }
                return (i % 0x1_0000) as u16;
            }
            i = i + 1;
        }
        let n: usize = self.list.len();
        self.list.push(text::copy_text(canon));
        proof {
            let now = text::texts(self.list@);
            assert(now =~= tv.push(canon@));
            assert(!tv.contains(canon@));
            assert(now[n as int] == canon@);
            let j = now.index_of(canon@);
            assert(now[j] == canon@);
            assert(j == n);
        }
        (n % 0x1_0000) as u16
    }
}

/// Whether a flop is held out: one in ten by the hash of its canonical form.
pub fn is_val(canon: &str) -> (r: bool)
    ensures
        r == (fnv::fnv(vstd::utf8::encode_utf8(canon@)) % VAL_MOD == 0),
{
    fnv::fnv1a64(canon) % VAL_MOD == 0
}

/// The hash in the name of a header file.
pub open spec fn header_hash(name: Seq<char>) -> Option<Seq<char>> {
    let rest = name.skip("header-"@.len() as int);
    if text::begins(name, "header-"@) && text::ends(rest, ".json"@) {
        Some(rest.take(rest.len() - ".json"@.len()))
    } else {
        None
    }
}

/// The hashes in the first `n` names.
pub open spec fn header_hashes(names: Seq<Seq<char>>, n: int) -> Seq<Seq<char>>
    decreases n,
{
    if n <= 0 {
        Seq::empty()
    } else {
        match header_hash(names[n - 1]) {
            Some(h) => header_hashes(names, n - 1).push(h),
            None => header_hashes(names, n - 1),
        }
    }
}

fn hash_in_header(name: &str) -> (r: Option<String>)
    ensures
        r is Some == header_hash(name@) is Some,
        r matches Some(h) ==> header_hash(name@) == Some(h@),
{
    let cs = text::chars_of(name);
    proof {
        reveal_strlit("header-");
        reveal_strlit(".json");
    }
    if !text::has_prefix(cs.as_slice(), "header-") {
        return None;
    }
    let rest = text::part(cs.as_slice(), 7, cs.len());
    assert(rest@ =~= name@.skip(7));
    if !text::has_suffix(rest.as_slice(), ".json") {
        return None;
    }
    let h = text::part(rest.as_slice(), 0, rest.len() - 5);
    assert(h@ =~= rest@.take(rest@.len() - 5));
    Some(text::string_of(h.as_slice()))
}

/// The hash of the one header among the names of a directory; an error with
/// their number where there is not exactly one.
pub fn only_header(names: &Vec<String>) -> (r: Result<String, usize>)
    ensures
        ({
            let found = header_hashes(text::texts(names@), names@.len() as int);
            &&& r is Ok == (found.len() == 1)
            &&& r matches Ok(h) ==> h@ == found[0]
            &&& r matches Err(n) ==> n == found.len()
        }),
{
    let ghost nv = text::texts(names@);
    let mut found: Vec<String> = Vec::new();
    let mut i: usize = 0;
    assert(text::texts(found@) =~= Seq::<Seq<char>>::empty());
    while i < names.len()
        invariant
            i <= names@.len(),
            nv == text::texts(names@),
            text::texts(found@) == header_hashes(nv, i as int),
        decreases names@.len() - i,
    {
        assert(nv[i as int] == names@[i as int]@);
        match hash_in_header(names[i].as_str()) {
            Some(h) => {
                let ghost before = found@;
                found.push(h);
                assert(text::texts(found@) =~= text::texts(before).push(h@));
            },
            None => {},
        }
        i = i + 1;
    }
    assert(text::texts(found@).len() == found@.len());
    if found.len() == 1 {
        assert(text::texts(found@)[0] == found@[0]@);
        Ok(found[0].clone())
    } else {
        Err(found.len())
    }
}

/// What a file is to a corpus.
#[derive(Debug, Clone)]
pub enum TableFile {
    /// No table.
    Other,
    /// A table of another configuration, or of a flop that is not canonical.
    Skipped,
    Flop { flop: String, canon: String },
}

/// The stem of a table file, split at its last `-`.
pub open spec fn table_stem(name: Seq<char>) -> Option<(Seq<char>, Seq<char>)> {
    let stem = name.take(name.len() - ".jsonl"@.len());
    let at = text::char_before(stem, '-', stem.len() as int);
    if !text::ends(name, ".jsonl"@) || at < 0 {
        None
    } else {
        Some((stem.take(at), stem.skip(at + 1)))
    }
}

/// The name is of the table of a flop that is its own canonical form, in either
/// case, under this configuration.
pub open spec fn canonical_table(name: Seq<char>, hash: Seq<char>) -> bool {
    match table_stem(name) {
        Some((flop, h)) => {
            &&& h == hash
            &&& iso::canonical_text(flop) is Some
            &&& text::lowered(iso::canonical_text(flop)->0) == text::lowered(flop)
        },
        None => false,
    }
}

/// What a file is to the corpus of a configuration.
pub fn table_file_of(name: &str, hash: &str) -> (r: TableFile)
    ensures
        r is Other == table_stem(name@) is None,
        r is Flop == canonical_table(name@, hash@),
        r matches TableFile::Flop { flop, canon } ==> flop@ == (table_stem(name@)->0).0
            && iso::canonical_text(flop@) == Some(canon@),
{
    proof {
        reveal_strlit(".jsonl");
    }
    let cs = text::chars_of(name);
    if !text::has_suffix(cs.as_slice(), ".jsonl") {
        return TableFile::Other;
    }
    let stem = text::part(cs.as_slice(), 0, cs.len() - 6);
    assert(stem@ =~= name@.take(name@.len() - 6));
    let n: usize = text::after_last_char(stem.as_slice(), '-');
    if n == 0 {
        return TableFile::Other;
    }
    let f = text::part(stem.as_slice(), 0, n - 1);
    let h = text::part(stem.as_slice(), n, stem.len());
    proof {
        assert(f@ =~= stem@.take(n - 1));
        assert(h@ =~= stem@.skip(n as int));
    }
    let hs = text::string_of(h.as_slice());
    if !text::same_text(hs.as_str(), hash) {
        return TableFile::Skipped;
    }
    let flop = text::string_of(f.as_slice());
    match iso::canonical_flop(flop.as_str()) {
        Some((canon, _)) => {
            if text::same_lowered(canon.as_str(), flop.as_str()) {
                TableFile::Flop { flop, canon }
            } else {
                TableFile::Skipped
            }
        },
        None => TableFile::Skipped,
    }
}

/// The tables, of the first `n` names, that go into the corpus.
pub open spec fn flops_in(names: Seq<Seq<char>>, hash: Seq<char>, n: int) -> Seq<
    (Seq<char>, Seq<char>),
>
    decreases n,
{
    if n <= 0 {
        Seq::empty()
    } else if canonical_table(names[n - 1], hash) {
        let flop = (table_stem(names[n - 1])->0).0;
        flops_in(names, hash, n - 1).push((flop, iso::canonical_text(flop)->0))
    } else {
        flops_in(names, hash, n - 1)
    }
}

/// How many, of the first `n` names, are tables.
pub open spec fn tables_in(names: Seq<Seq<char>>, n: int) -> int
    decreases n,
{
    if n <= 0 {
        0
    } else {
        tables_in(names, n - 1) + if table_stem(names[n - 1]) is Some {
            1int
        } else {
            0int
        }
    }
}

/// The keys of flops and their canonical forms.
pub open spec fn flop_keys(v: Seq<(Seq<char>, Seq<char>)>) -> Seq<Seq<u32>> {
    v.map_values(|p: (Seq<char>, Seq<char>)| report::pair_key(p.0, p.1))
}

/// The flops of a corpus in ascending order.
pub open spec fn sorted_flops(v: Seq<(Seq<char>, Seq<char>)>) -> Seq<(Seq<char>, Seq<char>)> {
    order::in_order(v, order::order_of(flop_keys(v)))
}

/// Pairs as text.
pub open spec fn flop_pairs(v: Seq<(String, String)>) -> Seq<(Seq<char>, Seq<char>)> {
    v.map_values(|p: (String, String)| (p.0@, p.1@))
}

/// Which flops of a directory go into the corpus, in order and at most `limit` of
/// them, each with its canonical form, and how many tables do not.
pub fn corpus_flops(names: &Vec<String>, hash: &str, limit: Option<usize>) -> (r: (
    Vec<(String, String)>,
    usize,
))
    ensures
        ({
            let all = sorted_flops(flops_in(text::texts(names@), hash@, names@.len() as int));
            &&& flop_pairs(r.0@) == match limit {
                Some(l) => if l < all.len() {
                    all.take(l as int)
                } else {
                    all
                },
                None => all,
            }
            &&& r.1 + all.len() == tables_in(text::texts(names@), names@.len() as int)
        }),
{
    let ghost nv = text::texts(names@);
    let mut flops: Vec<(String, String)> = Vec::new();
    let mut keys: Vec<Vec<u32>> = Vec::new();
    let mut skipped: usize = 0;
    let mut i: usize = 0;
    assert(flop_pairs(flops@) =~= Seq::empty());
    while i < names.len()
        invariant
            i <= names@.len(),
            nv == text::texts(names@),
            flop_pairs(flops@) == flops_in(nv, hash@, i as int),
            skipped + flops@.len() == tables_in(nv, i as int),
            skipped + flops@.len() <= i,
            keys@.len() == flops@.len(),
            forall|k: int|
                0 <= k < keys@.len() ==> (#[trigger] keys@[k])@ == report::pair_key(
                    flops@[k].0@,
                    flops@[k].1@,
                ),
        decreases names@.len() - i,
    {
        assert(nv[i as int] == names@[i as int]@);
        match table_file_of(names[i].as_str(), hash) {
            TableFile::Other => {},
            TableFile::Skipped => {
                skipped = skipped + 1;
            },
            TableFile::Flop { flop, canon } => {
                let ghost before = flops@;
                keys.push(report::key_of_pair(flop.as_str(), canon.as_str()));
                flops.push((flop, canon));
                assert(flop_pairs(flops@) =~= flop_pairs(before).push((flop@, canon@)));
            },
        }
        i = i + 1;
    }
    let idx = order::sorted_positions(&keys);
    let ghost fv = flop_pairs(flops@);
    proof {
        assert(order::keys_of(keys@) =~= flop_keys(fv));
        order::lemma_order_of(flop_keys(fv), idx@);
    }
    let n: usize = match limit {
        Some(l) => if l < idx.len() {
            l
        } else {
            idx.len()
        },
        None => idx.len(),
    };
    let mut out: Vec<(String, String)> = Vec::new();
    let mut k: usize = 0;
    while k < n
        invariant
            k <= n <= idx@.len(),
            order::stable_order(flop_keys(fv), idx@),
            fv == flop_pairs(flops@),
            out@.len() == k,
            forall|j: int|
                0 <= j < k ==> ((#[trigger] out@[j]).0@, out@[j].1@) == fv[idx@[j] as int],
        decreases n - k,
    {
        assert(fv[idx@[k as int] as int] == (
            flops@[idx@[k as int] as int].0@,
            flops@[idx@[k as int] as int].1@,
        ));
        let p = &flops[idx[k]];
        out.push((p.0.clone(), p.1.clone()));
        k = k + 1;
    }
    proof {
        let all = sorted_flops(fv);
        assert(all.len() == idx@.len());
        if n < all.len() {
            assert(flop_pairs(out@) =~= all.take(n as int));
        } else {
            assert(flop_pairs(out@) =~= all);
        }
    }
    (out, skipped)
}

// ---------------------------------------------------------------- checks

/// What was found in one table, or in several.
#[derive(Debug, Clone)]
pub struct FileStats {
    pub roots: usize,
    /// Roots with a child that is not stored.
    pub ip_masked: usize,
    /// Hands whose mixing mass was zero.
    pub denom_zero: usize,
    /// Nodes that do not have the expected shape.
    pub bad_nodes: usize,
    pub weight_breaches: usize,
    pub zero_sum_breaches: usize,
    pub max_weight_dev: F32,
    pub max_zero_sum_dev_bb: F32,
    /// The line of the root with the largest zero-sum deviation, how many of its
    /// children are stored and how many actions it has.
    pub worst_zero_sum: Option<(String, usize, usize)>,
}

/// The larger of two numbers; what is not a number never replaces one.
pub open spec fn larger(a: F32, b: F32) -> F32 {
    if a.below(b) {
        b
    } else {
        a
    }
}

/// A hundredth: the largest deviation of weights that counts as rounding.
pub const WEIGHT_DEV_TOL: u32 = 0x3c23_d70a;

/// The numbers by their total order.
pub open spec fn number_keys(v: Seq<F32>) -> Seq<Seq<u32>> {
    v.map_values(|x: F32| seq![x.total_rank() as u32])
}

/// The median of the ratios: the middle one by the total order of numbers, the
/// upper of two.
pub fn median(v: &Vec<F32>) -> (r: Option<F32>)
    ensures
        r is Some == (v@.len() > 0),
        r matches Some(m) ==> m == order::in_order(v@, order::order_of(number_keys(v@)))[v@.len()
            as int / 2],
{
    if v.len() == 0 {
        return None;
    }
    let mut keys: Vec<Vec<u32>> = Vec::new();
    let mut i: usize = 0;
    while i < v.len()
        invariant
            i <= v@.len(),
            keys@.len() == i,
            forall|k: int| 0 <= k < i ==> (#[trigger] keys@[k])@ == seq![v@[k].total_rank() as u32],
        decreases v@.len() - i,
    {
        let t: u32 = v[i].total_key();
        let key = vec![t];
        assert(key@ =~= seq![v@[i as int].total_rank() as u32]);
        keys.push(key);
        i = i + 1;
    }
    let idx = order::sorted_positions(&keys);
    proof {
        assert(order::keys_of(keys@) =~= number_keys(v@));
        order::lemma_order_of(number_keys(v@), idx@);
    }
    Some(v[idx[v.len() / 2]])
}

impl FileStats {
    /// Nothing found.
    pub fn new() -> (r: Self)
        ensures
            r.roots == 0,
            r.ip_masked == 0,
            r.denom_zero == 0,
            r.bad_nodes == 0,
            r.weight_breaches == 0,
            r.zero_sum_breaches == 0,
            r.max_weight_dev.bits == 0,
            r.max_zero_sum_dev_bb.bits == 0,
            r.worst_zero_sum is None,
    {
        FileStats {
            roots: 0,
            ip_masked: 0,
            denom_zero: 0,
            bad_nodes: 0,
            weight_breaches: 0,
            zero_sum_breaches: 0,
            max_weight_dev: F32 { bits: 0 },
            max_zero_sum_dev_bb: F32 { bits: 0 },
            worst_zero_sum: None,
        }
    }

    /// The stored weights of a root are this far from reach times unblocked mass,
    /// in parts of the largest weight.
    pub fn note_weights(&mut self, dev: F32)
        requires
            old(self).weight_breaches < usize::MAX,
        ensures
            final(self).max_weight_dev == larger(old(self).max_weight_dev, dev),
            final(self).weight_breaches == old(self).weight_breaches + if (F32 {
                bits: WEIGHT_DEV_TOL,
            }).below(dev) {
                1int
            } else {
                0int
            },
            final(self).roots == old(self).roots,
            final(self).ip_masked == old(self).ip_masked,
            final(self).denom_zero == old(self).denom_zero,
            final(self).bad_nodes == old(self).bad_nodes,
            final(self).zero_sum_breaches == old(self).zero_sum_breaches,
            final(self).max_zero_sum_dev_bb == old(self).max_zero_sum_dev_bb,
            final(self).worst_zero_sum == old(self).worst_zero_sum,
    {
        if self.max_weight_dev.lt(dev) {
            self.max_weight_dev = dev;
        }
        if (F32 { bits: WEIGHT_DEV_TOL }).lt(dev) {
            self.weight_breaches = self.weight_breaches + 1;
        }
    }

    /// The values of a root are this far from summing to the pot; `tolerance` is
    /// what its pot allows.
    pub fn note_zero_sum(
        &mut self,
        dev: F32,
        tolerance: F32,
        line: &Vec<String>,
        children: usize,
        actions: usize,
    )
        requires
            old(self).zero_sum_breaches < usize::MAX,
        ensures
            final(self).max_zero_sum_dev_bb == larger(old(self).max_zero_sum_dev_bb, dev),
            old(self).max_zero_sum_dev_bb.below(dev) ==> final(self).worst_zero_sum is Some && (
            final(self).worst_zero_sum->0).0@ == text::joined(text::texts(line@), " "@) && (
            final(self).worst_zero_sum->0).1 == children && (final(self).worst_zero_sum->0).2
                == actions,
            !old(self).max_zero_sum_dev_bb.below(dev) ==> final(self).worst_zero_sum == old(self).worst_zero_sum,
            final(self).zero_sum_breaches == old(self).zero_sum_breaches + if tolerance.below(dev) {
                1int
            } else {
                0int
            },
            final(self).roots == old(self).roots,
            final(self).ip_masked == old(self).ip_masked,
            final(self).denom_zero == old(self).denom_zero,
            final(self).bad_nodes == old(self).bad_nodes,
            final(self).weight_breaches == old(self).weight_breaches,
            final(self).max_weight_dev == old(self).max_weight_dev,
    {
        if self.max_zero_sum_dev_bb.lt(dev) {
            self.max_zero_sum_dev_bb = dev;
            self.worst_zero_sum = Some((text::join_all(line, " "), children, actions));
        }
        if tolerance.lt(dev) {
            self.zero_sum_breaches = self.zero_sum_breaches + 1;
        }
    }

    /// The numbers of both add up.
    pub open spec fn adds_up(&self, o: &FileStats) -> bool {
        &&& self.roots + o.roots <= usize::MAX
        &&& self.ip_masked + o.ip_masked <= usize::MAX
        &&& self.denom_zero + o.denom_zero <= usize::MAX
        &&& self.bad_nodes + o.bad_nodes <= usize::MAX
        &&& self.weight_breaches + o.weight_breaches <= usize::MAX
        &&& self.zero_sum_breaches + o.zero_sum_breaches <= usize::MAX
    }

    /// Takes in what was found in the table of a flop.
    pub fn absorb(&mut self, o: &FileStats, flop: &str)
        requires
            old(self).adds_up(o),
        ensures
            final(self).roots == old(self).roots + o.roots,
            final(self).ip_masked == old(self).ip_masked + o.ip_masked,
            final(self).denom_zero == old(self).denom_zero + o.denom_zero,
            final(self).bad_nodes == old(self).bad_nodes + o.bad_nodes,
            final(self).weight_breaches == old(self).weight_breaches + o.weight_breaches,
            final(self).zero_sum_breaches == old(self).zero_sum_breaches + o.zero_sum_breaches,
            final(self).max_weight_dev == larger(old(self).max_weight_dev, o.max_weight_dev),
            final(self).max_zero_sum_dev_bb == larger(
                old(self).max_zero_sum_dev_bb,
                o.max_zero_sum_dev_bb,
            ),
            !old(self).max_zero_sum_dev_bb.below(o.max_zero_sum_dev_bb) ==> final(self).worst_zero_sum == old(self).worst_zero_sum,
            old(self).max_zero_sum_dev_bb.below(o.max_zero_sum_dev_bb) ==> match o.worst_zero_sum {
                Some(w) => {
                    &&& final(self).worst_zero_sum is Some
                    &&& (final(self).worst_zero_sum->0).0@ == flop@ + ": "@ + w.0@
                    &&& (final(self).worst_zero_sum->0).1 == w.1
                    &&& (final(self).worst_zero_sum->0).2 == w.2
                },
                None => final(self).worst_zero_sum is None,
            },
    {
        self.roots = self.roots + o.roots;
        self.ip_masked = self.ip_masked + o.ip_masked;
        self.denom_zero = self.denom_zero + o.denom_zero;
        self.bad_nodes = self.bad_nodes + o.bad_nodes;
        self.weight_breaches = self.weight_breaches + o.weight_breaches;
        self.zero_sum_breaches = self.zero_sum_breaches + o.zero_sum_breaches;
        if self.max_weight_dev.lt(o.max_weight_dev) {
            self.max_weight_dev = o.max_weight_dev;
        }
        if self.max_zero_sum_dev_bb.lt(o.max_zero_sum_dev_bb) {
            self.max_zero_sum_dev_bb = o.max_zero_sum_dev_bb;
            self.worst_zero_sum = match &o.worst_zero_sum {
                Some(w) => Some((text::join3(flop, ": ", w.0.as_str()), w.1, w.2)),
                None => None,
            };
        }
    }

    /// Whether the corpus can be trusted: no check failed and no node was left
    /// out.
    pub fn clean(&self) -> (r: bool)
        ensures
            r == (self.weight_breaches == 0 && self.zero_sum_breaches == 0 && self.bad_nodes == 0),
    {
        self.weight_breaches == 0 && self.zero_sum_breaches == 0 && self.bad_nodes == 0
    }
}

/// The directories that a comma-separated list names, without spaces around them
/// and empty ones.
pub open spec fn named_dirs(pieces: Seq<Seq<char>>, n: int) -> Seq<Seq<char>>
    decreases n,
{
    if n <= 0 {
        Seq::empty()
    } else if text::trimmed(pieces[n - 1]).len() == 0 {
        named_dirs(pieces, n - 1)
    } else {
        named_dirs(pieces, n - 1).push(text::trimmed(pieces[n - 1]))
    }
}

/// Reads the list of formation directories.
pub fn formation_dirs(csv: &str) -> (r: Vec<String>)
    ensures
        text::texts(r@) == named_dirs(text::split(csv@, ','), text::split(csv@, ',').len() as int),
{
    let cs = text::chars_of(csv);
    let ps = text::split_at_char(cs.as_slice(), ',');
    let ghost pv = text::split(csv@, ',');
    let mut out: Vec<String> = Vec::new();
    let mut i: usize = 0;
    assert(text::texts(out@) =~= Seq::<Seq<char>>::empty());
    assert(pv.len() == ps@.len());
    while i < ps.len()
        invariant
            i <= ps@.len(),
            pv == text::pieces(ps@),
            text::texts(out@) == named_dirs(pv, i as int),
        decreases ps@.len() - i,
    {
        assert(pv[i as int] == ps@[i as int]@);
        let t = text::trim_chars(ps[i].as_slice());
        if t.len() > 0 {
            let ghost before = out@;
            out.push(text::string_of(t.as_slice()));
            assert(text::texts(out@) =~= text::texts(before).push(t@));
        }
        i = i + 1;
    }
    out
}

/// A hand is the same pair of cards whichever is written first.
pub proof fn pairs_ignore_the_order_of_cards(a: int, b: int)
    requires
        0 <= a < 52,
        0 <= b < 52,
        a > b,
    ensures
        pair_ids(iso::card_text(a) + iso::card_text(b)) == Some((a, b)),
        pair_ids(iso::card_text(b) + iso::card_text(a)) == Some((a, b)),
        pair_ids(iso::card_text(a) + iso::card_text(a)) is None,
{
    iso::card_round_trip(a);
    iso::card_round_trip(b);
    let (x, y) = (iso::card_text(a), iso::card_text(b));
    lemma_plain_pair(a, b);
    lemma_plain_pair(b, a);
    lemma_plain_pair(a, a);
    assert((x + y).take(2) =~= x && (x + y).skip(2) =~= y);
    assert((y + x).take(2) =~= y && (y + x).skip(2) =~= x);
    assert((x + x).take(2) =~= x && (x + x).skip(2) =~= x);
}

proof fn lemma_plain_pair(a: int, b: int)
    requires
        0 <= a < 52,
        0 <= b < 52,
    ensures
        text::plain(iso::card_text(a) + iso::card_text(b)),
        (iso::card_text(a) + iso::card_text(b)).len() == 4,
{
    let t = iso::card_text(a) + iso::card_text(b);
    assert(t[0] == iso::rank_char(a / 4) && t[1] == iso::suit_char(a % 4));
    assert(t[2] == iso::rank_char(b / 4) && t[3] == iso::suit_char(b % 4));
}

/// A slot weighs what the last part of the range with a hand there says, and nothing
/// where no part has one.
#[verifier::spinoff_prover]
#[verifier::rlimit(40)]
pub proof fn the_last_part_of_a_range_counts(
    tokens: Seq<TokenView>,
    weights: Seq<Option<F32>>,
    n: int,
    ix: int,
)
    requires
        0 <= n <= tokens.len(),
    ensures
        forall|k: int|
            0 <= k < n && covers(range::range_parse((#[trigger] tokens[k]).hands)->Ok_0, ix) && (
            forall|j: int|
                k < j < n ==> !covers(range::range_parse((#[trigger] tokens[j]).hands)->Ok_0, ix))
                ==> slot_weight(tokens, weights, n, ix) == if tokens[k].weight is Some {
                weights[k]->0
            } else {
                F32 { bits: 0x3f80_0000 }
            },
        (forall|j: int|
            0 <= j < n ==> !covers(range::range_parse((#[trigger] tokens[j]).hands)->Ok_0, ix))
            ==> slot_weight(tokens, weights, n, ix) == (F32 { bits: 0 }),
    decreases n,
{
    if n > 0 {
        the_last_part_of_a_range_counts(tokens, weights, n - 1, ix);
        assert(tokens[n - 1] == tokens[n - 1]);
    }
}

/// The first node of a player is found.
pub proof fn the_first_node_of_a_player_is_found(nodes: Seq<TableNode>, player: Seq<char>, i: int)
    requires
        0 <= i <= nodes.len(),
    ensures
        first_of(nodes, player, i) matches Some(k) ==> i <= k < nodes.len()
            && nodes[k].node.player@ == player && forall|j: int|
            i <= j < k ==> (#[trigger] nodes[j]).node.player@ != player,
        first_of(nodes, player, i) is None ==> forall|j: int|
            i <= j < nodes.len() ==> (#[trigger] nodes[j]).node.player@ != player,
    decreases nodes.len() - i,
{
    if i < nodes.len() && nodes[i].node.player@ != player {
        the_first_node_of_a_player_is_found(nodes, player, i + 1);
    }
}

/// The first action with a label is found.
pub proof fn the_first_label_is_found(actions: Seq<Seq<char>>, label: Seq<char>, i: int)
    requires
        0 <= i <= actions.len(),
    ensures
        label_at(actions, label, i) matches Some(k) ==> i <= k < actions.len() && actions[k]
            == label && forall|j: int| i <= j < k ==> #[trigger] actions[j] != label,
        label_at(actions, label, i) is None ==> forall|j: int|
            i <= j < actions.len() ==> #[trigger] actions[j] != label,
    decreases actions.len() - i,
{
    if i < actions.len() && actions[i] != label {
        the_first_label_is_found(actions, label, i + 1);
    }
}

/// Every label of a line but those of cards takes its step, in order; a line with a
/// label that takes none has no steps.
#[verifier::spinoff_prover]
#[verifier::rlimit(40)]
pub proof fn every_action_of_a_line_takes_its_step(
    t: PostflopTable,
    s: Sides,
    line: Seq<Seq<char>>,
    n: int,
)
    requires
        0 <= n <= line.len(),
    ensures
        steps_of(t, s, line, n) is Some <==> forall|j: int|
            0 <= j < n && !text::begins(#[trigger] line[j], "deal "@) ==> step_at(t, s, line, j)
                is Some,
        steps_of(t, s, line, n) matches Some(v) ==> v == Seq::new(n as nat, |j: int| j).filter(
            |j: int| !text::begins(line[j], "deal "@),
        ).map_values(|j: int| step_at(t, s, line, j)->0),
    decreases n,
{
    reveal(Seq::filter);
    let acts = |j: int| !text::begins(line[j], "deal "@);
    let step = |j: int| step_at(t, s, line, j)->0;
    let all = Seq::new(n as nat, |j: int| j);
    if n > 0 {
        every_action_of_a_line_takes_its_step(t, s, line, n - 1);
        let fewer = Seq::new((n - 1) as nat, |j: int| j);
        assert(all.drop_last() =~= fewer);
        assert(all.last() == n - 1);
        let before = fewer.filter(acts);
        if acts(n - 1) {
            assert(before.push(n - 1).map_values(step) =~= before.map_values(step).push(
                step(n - 1),
            ));
        }
        if steps_of(t, s, line, n - 1) is None {
            let j = choose|j: int|
                0 <= j < n - 1 && !text::begins(#[trigger] line[j], "deal "@) && step_at(
                    t,
                    s,
                    line,
                    j,
                ) is None;
            assert(!text::begins(line[j], "deal "@));
        }
        assert(line[n - 1] == line[n - 1]);
    } else {
        assert(all.filter(acts).map_values(step) =~= Seq::empty());
    }
}

/// The children of a root are all actions that lead to a stored node of the player in
/// position, in order.
pub proof fn every_stored_child_is_listed(
    t: PostflopTable,
    s: Sides,
    line: Seq<Seq<char>>,
    actions: Seq<Seq<char>>,
    n: int,
)
    requires
        0 <= n <= actions.len() <= usize::MAX,
    ensures
        children_of(t, s, line, actions, n) == Seq::new(n as nat, |i: int| i as usize).filter(
            |i: usize| has_child(t, s, line, actions[i as int]),
        ),
    decreases n,
{
    reveal(Seq::filter);
    let all = Seq::new(n as nat, |i: int| i as usize);
    if n > 0 {
        every_stored_child_is_listed(t, s, line, actions, n - 1);
        assert(all.drop_last() =~= Seq::new((n - 1) as nat, |i: int| i as usize));
        assert(all.last() == (n - 1) as usize);
    } else {
        assert(all =~= Seq::empty());
    }
}

/// The roots of a table are all nodes whose line ends with a card, in order.
pub proof fn every_line_that_ends_with_a_card_is_a_root(nodes: Seq<TableNode>, n: int)
    requires
        0 <= n <= nodes.len() <= usize::MAX,
    ensures
        root_places(nodes, n) == Seq::new(n as nat, |i: int| i as usize).filter(
            |i: usize| {
                let line = text::texts(nodes[i as int].node.line@);
                line.len() > 0 && text::begins(line.last(), "deal "@)
            },
        ),
    decreases n,
{
    reveal(Seq::filter);
    let all = Seq::new(n as nat, |i: int| i as usize);
    if n > 0 {
        every_line_that_ends_with_a_card_is_a_root(nodes, n - 1);
        assert(all.drop_last() =~= Seq::new((n - 1) as nat, |i: int| i as usize));
        assert(all.last() == (n - 1) as usize);
    } else {
        assert(all =~= Seq::empty());
    }
}

/// Every root that can be recorded is, in order.
pub proof fn every_recordable_root_is_recorded(
    t: PostflopTable,
    s: Sides,
    roots: Seq<usize>,
    n: int,
)
    requires
        0 <= n <= roots.len(),
    ensures
        recorded(t, s, roots, n) == roots.take(n).filter(
            |r: usize| recordable(t, s, t.nodes.values@[r as int]),
        ),
    decreases n,
{
    reveal(Seq::filter);
    if n > 0 {
        every_recordable_root_is_recorded(t, s, roots, n - 1);
        assert(roots.take(n).drop_last() =~= roots.take(n - 1));
        assert(roots.take(n).last() == roots[n - 1]);
    } else {
        assert(roots.take(n) =~= Seq::empty());
    }
}

/// The roots that lack values of the player in position are counted.
pub proof fn incomplete_roots_are_counted(v: Seq<RootPlan>)
    ensures
        incomplete(v) == v.filter(|p: RootPlan| !p.complete).len(),
    decreases v.len(),
{
    reveal(Seq::filter);
    if v.len() > 0 {
        incomplete_roots_are_counted(v.drop_last());
    }
}

/// A slot holds the value of the last hand that has it, and 0 where none has.
pub proof fn values_stand_at_their_slots(
    values: Seq<F32>,
    combos: Seq<(u8, u8, usize)>,
    n: int,
    ix: int,
)
    requires
        0 <= n <= combos.len(),
        0 <= ix < N_COMBOS,
        forall|i: int| 0 <= i < combos.len() ==> (#[trigger] combos[i]).2 < N_COMBOS,
    ensures
        by_slot(values, combos, n).len() == N_COMBOS,
        forall|k: int|
            0 <= k < n && (#[trigger] combos[k]).2 == ix && (forall|j: int|
                k < j < n ==> (#[trigger] combos[j]).2 != ix) ==> by_slot(values, combos, n)[ix]
                == values[k],
        (forall|j: int| 0 <= j < n ==> (#[trigger] combos[j]).2 != ix) ==> by_slot(
            values,
            combos,
            n,
        )[ix] == (F32 { bits: 0 }),
    decreases n,
{
    if n > 0 {
        values_stand_at_their_slots(values, combos, n - 1, ix);
        assert(combos[n - 1] == combos[n - 1]);
    }
}

/// The hash in the name of a header file is read back.
pub proof fn header_names_read_back(hash: Seq<char>)
    ensures
        header_hash("header-"@ + hash + ".json"@) == Some(hash),
{
    let name = "header-"@ + hash + ".json"@;
    let h = "header-"@.len() as int;
    let rest = name.skip(h);
    assert(name.take(h) =~= "header-"@);
    assert(rest =~= hash + ".json"@);
    assert(rest.skip(rest.len() - ".json"@.len()) =~= ".json"@);
    assert(rest.take(rest.len() - ".json"@.len()) =~= hash);
}

/// The hashes of a directory are those of all its header files, in order.
pub proof fn every_header_is_found(names: Seq<Seq<char>>, n: int)
    requires
        0 <= n <= names.len(),
    ensures
        header_hashes(names, n) == names.take(n).filter(|x: Seq<char>| header_hash(x) is Some).map_values(
            |x: Seq<char>| header_hash(x)->0,
        ),
    decreases n,
{
    reveal(Seq::filter);
    let keep = |x: Seq<char>| header_hash(x) is Some;
    let made = |x: Seq<char>| header_hash(x)->0;
    if n > 0 {
        every_header_is_found(names, n - 1);
        assert(names.take(n).drop_last() =~= names.take(n - 1));
        assert(names.take(n).last() == names[n - 1]);
        let before = names.take(n - 1).filter(keep);
        if keep(names[n - 1]) {
            assert(before.push(names[n - 1]).map_values(made) =~= before.map_values(made).push(
                made(names[n - 1]),
            ));
        }
    } else {
        assert(names.take(n).filter(keep).map_values(made) =~= Seq::empty());
    }
}

/// The flop and the hash in the name of a table file are read back.
pub proof fn table_names_read_back(flop: Seq<char>, hash: Seq<char>)
    requires
        !hash.contains('-'),
    ensures
        table_stem(flop + "-"@ + hash + ".jsonl"@) == Some((flop, hash)),
{
    reveal_strlit("-");
    let name = flop + "-"@ + hash + ".jsonl"@;
    let stem = name.take(name.len() - ".jsonl"@.len());
    assert(stem =~= flop + "-"@ + hash);
    assert(name.skip(name.len() - ".jsonl"@.len()) =~= ".jsonl"@);
    let k = flop.len() as int;
    assert(stem[k] == '-');
    text::the_last_char_is_found(stem, '-', stem.len() as int);
    let at = text::char_before(stem, '-', stem.len() as int);
    assert(at == k) by {
        if at > k {
            assert(stem[at] == hash[at - k - 1]);
            assert(hash.contains('-'));
        }
    }
    assert(stem.take(k) =~= flop);
    assert(stem.skip(k + 1) =~= hash);
}

/// The corpus has every table of a flop that is its own canonical form, in order, each
/// with that form.
pub proof fn every_canonical_table_is_in_the_corpus(names: Seq<Seq<char>>, hash: Seq<char>, n: int)
    requires
        0 <= n <= names.len(),
    ensures
        flops_in(names, hash, n) == names.take(n).filter(|x: Seq<char>| canonical_table(x, hash)).map_values(
            |x: Seq<char>| ((table_stem(x)->0).0, iso::canonical_text((table_stem(x)->0).0)->0),
        ),
    decreases n,
{
    reveal(Seq::filter);
    let keep = |x: Seq<char>| canonical_table(x, hash);
    let made = |x: Seq<char>| ((table_stem(x)->0).0, iso::canonical_text((table_stem(x)->0).0)->0);
    if n > 0 {
        every_canonical_table_is_in_the_corpus(names, hash, n - 1);
        assert(names.take(n).drop_last() =~= names.take(n - 1));
        assert(names.take(n).last() == names[n - 1]);
        let before = names.take(n - 1).filter(keep);
        if keep(names[n - 1]) {
            assert(before.push(names[n - 1]).map_values(made) =~= before.map_values(made).push(
                made(names[n - 1]),
            ));
        }
    } else {
        assert(names.take(n).filter(keep).map_values(made) =~= Seq::empty());
    }
}

/// The tables among names are counted.
pub proof fn tables_are_counted(names: Seq<Seq<char>>, n: int)
    requires
        0 <= n <= names.len(),
    ensures
        tables_in(names, n) == names.take(n).filter(|x: Seq<char>| table_stem(x) is Some).len(),
    decreases n,
{
    reveal(Seq::filter);
    if n > 0 {
        tables_are_counted(names, n - 1);
        assert(names.take(n).drop_last() =~= names.take(n - 1));
        assert(names.take(n).last() == names[n - 1]);
    } else {
        assert(names.take(n) =~= Seq::empty());
    }
}

/// The larger of two numbers is one of them and not below either.
pub proof fn the_larger_is_not_below(a: F32, b: F32)
    ensures
        larger(a, b) == a || larger(a, b) == b,
        !larger(a, b).below(a),
        !larger(a, b).below(b),
        a.nan() ==> larger(a, b) == a,
        b.nan() ==> larger(a, b) == a,
{
}

/// The directories of a list are all pieces that hold more than white space, without
/// what stands around them.
pub proof fn every_named_directory_is_listed(pieces: Seq<Seq<char>>, n: int)
    requires
        0 <= n <= pieces.len(),
    ensures
        named_dirs(pieces, n) == pieces.take(n).filter(|x: Seq<char>| text::trimmed(x).len() > 0).map_values(
            |x: Seq<char>| text::trimmed(x),
        ),
    decreases n,
{
    reveal(Seq::filter);
    let keep = |x: Seq<char>| text::trimmed(x).len() > 0;
    let made = |x: Seq<char>| text::trimmed(x);
    if n > 0 {
        every_named_directory_is_listed(pieces, n - 1);
        assert(pieces.take(n).drop_last() =~= pieces.take(n - 1));
        assert(pieces.take(n).last() == pieces[n - 1]);
        let before = pieces.take(n - 1).filter(keep);
        if keep(pieces[n - 1]) {
            assert(before.push(pieces[n - 1]).map_values(made) =~= before.map_values(made).push(
                made(pieces[n - 1]),
            ));
        }
    } else {
        assert(pieces.take(n).filter(keep).map_values(made) =~= Seq::empty());
    }
}

/// The parts of a range are all pieces that hold more than white space, in order.
pub proof fn every_part_of_a_range_is_read(pieces: Seq<Seq<char>>, n: int)
    requires
        0 <= n <= pieces.len(),
    ensures
        tokens_of(pieces, n) == pieces.take(n).filter(|x: Seq<char>| text::trimmed(x).len() > 0).map_values(
            |x: Seq<char>| token_of(text::trimmed(x)),
        ),
    decreases n,
{
    reveal(Seq::filter);
    let keep = |x: Seq<char>| text::trimmed(x).len() > 0;
    let made = |x: Seq<char>| token_of(text::trimmed(x));
    if n > 0 {
        every_part_of_a_range_is_read(pieces, n - 1);
        assert(pieces.take(n).drop_last() =~= pieces.take(n - 1));
        assert(pieces.take(n).last() == pieces[n - 1]);
        let before = pieces.take(n - 1).filter(keep);
        if keep(pieces[n - 1]) {
            assert(before.push(pieces[n - 1]).map_values(made) =~= before.map_values(made).push(
                made(pieces[n - 1]),
            ));
        }
    } else {
        assert(pieces.take(n).filter(keep).map_values(made) =~= Seq::empty());
    }
}

/// The bytes of a record tell what it is of: the flop, the formation, the flags, the
/// board, the pot and the reach.
pub proof fn records_tell_what_they_are_of(
    buf: Seq<u8>,
    flop_a: u16,
    formation_a: u8,
    a: RootRecord,
    flop_b: u16,
    formation_b: u8,
    b: RootRecord,
)
    requires
        record_layout(buf, flop_a, formation_a, a),
        record_layout(buf, flop_b, formation_b, b),
    ensures
        flop_a == flop_b,
        formation_a == formation_b,
        a.flags == b.flags,
        a.board@ == b.board@,
        a.pot_bb == b.pot_bb,
        a.reach == b.reach,
{
    fnv::lemma_le4_injective(a.pot_bb.bits, b.pot_bb.bits);
    fnv::lemma_le4_injective(a.reach.bits, b.reach.bits);
    assert forall|i: int| 0 <= i < 4 implies #[trigger] a.board@[i] == b.board@[i] by {
        assert(a.board[i] == buf[4 + i] && b.board[i] == buf[4 + i]);
    }
    assert(a.board@ =~= b.board@);
}

/// The blocks of a record stand one after the other: what each player reaches the
/// root with, the one out of position first, then their values.
pub proof fn blocks_stand_one_after_the_other(
    buf: Seq<u8>,
    flop_id: u16,
    formation_id: u8,
    r: RootRecord,
    ix: int,
)
    requires
        record_layout(buf, flop_id, formation_id, r),
        r.wf(),
        0 <= ix < N_COMBOS,
    ensures
        bits::packs(r.oop_reach@[ix], half_at(buf, 16 + 2 * ix)),
        bits::packs(r.ip_reach@[ix], half_at(buf, 16 + 2 * (N_COMBOS + ix))),
        bits::packs(r.oop_cfv_pot@[ix], half_at(buf, 16 + 2 * (2 * N_COMBOS + ix))),
        bits::packs(r.ip_cfv_pot@[ix], half_at(buf, 16 + 2 * (3 * N_COMBOS + ix))),
        half_at(buf, 0) == flop_id,
        buf[2] == formation_id,
        buf[3] == r.flags,
{
    assert(16 + 2 * N_COMBOS + 2 * ix == 16 + 2 * (N_COMBOS + ix));
    assert(16 + 4 * N_COMBOS + 2 * ix == 16 + 2 * (2 * N_COMBOS + ix));
    assert(16 + 6 * N_COMBOS + 2 * ix == 16 + 2 * (3 * N_COMBOS + ix));
}

} // verus!
