//! Suit isomorphism of flops: the canonical representative of a flop among the
//! relabelings of its suits, and the translation of a solved node between two
//! suit spaces.
//!
//! Card ids are `rank*4 + suit`, suits in the order `cdhs`, so `2c` is 0 and
//! `As` is 51.

use crate::bits::F32;
use crate::order;
use crate::text;
use crate::tree;
use crate::tree::TreeNode;
use vstd::prelude::*;

verus! {

// ---------------------------------------------------------------- cards

/// The rank that a character stands for, 0 for `2` up to 12 for `A`, in either
/// case.
pub open spec fn rank_index(c: char) -> Option<int> {
    let l = text::lower(c);
    if '2' <= l && l <= '9' {
        Some(l as int - '2' as int)
    } else if l == 't' {
        Some(8)
    } else if l == 'j' {
        Some(9)
    } else if l == 'q' {
        Some(10)
    } else if l == 'k' {
        Some(11)
    } else if l == 'a' {
        Some(12)
    } else {
        None
    }
}

/// The suit that a character stands for, in either case: `c` 0, `d` 1, `h` 2,
/// `s` 3.
pub open spec fn suit_index(c: char) -> Option<int> {
    let l = text::lower(c);
    if l == 'c' {
        Some(0)
    } else if l == 'd' {
        Some(1)
    } else if l == 'h' {
        Some(2)
    } else if l == 's' {
        Some(3)
    } else {
        None
    }
}

/// The id of a card written as two characters.
pub open spec fn id_of(s: Seq<char>) -> Option<int> {
    if s.len() == 2 && rank_index(s[0]) is Some && suit_index(s[1]) is Some {
        Some(rank_index(s[0])->0 * 4 + suit_index(s[1])->0)
    } else {
        None
    }
}

/// The character of a rank, upper case.
pub open spec fn rank_char(r: int) -> char {
    if r < 8 {
        ('2' as int + r) as char
    } else if r == 8 {
        'T'
    } else if r == 9 {
        'J'
    } else if r == 10 {
        'Q'
    } else if r == 11 {
        'K'
    } else {
        'A'
    }
}

/// The character of a suit, lower case.
pub open spec fn suit_char(s: int) -> char {
    if s == 0 {
        'c'
    } else if s == 1 {
        'd'
    } else if s == 2 {
        'h'
    } else {
        's'
    }
}

/// How a card is written: upper case rank, lower case suit.
pub open spec fn card_text(id: int) -> Seq<char> {
    seq![rank_char(id / 4), suit_char(id % 4)]
}

fn rank_of_char(c: char) -> (r: Option<u8>)
    ensures
        r is Some == rank_index(c) is Some,
        r matches Some(n) ==> n == rank_index(c)->0 && n < 13,
{
    let l = text::lower_char(c);
    if '2' <= l && l <= '9' {
        let n: u8 = l as u8;
        Some(n - 50)
    } else if l == 't' {
        Some(8)
    } else if l == 'j' {
        Some(9)
    } else if l == 'q' {
        Some(10)
    } else if l == 'k' {
        Some(11)
    } else if l == 'a' {
        Some(12)
    } else {
        None
    }
}

fn suit_of_char(c: char) -> (r: Option<u8>)
    ensures
        r is Some == suit_index(c) is Some,
        r matches Some(n) ==> n == suit_index(c)->0 && n < 4,
{
    let l = text::lower_char(c);
    if l == 'c' {
        Some(0)
    } else if l == 'd' {
        Some(1)
    } else if l == 'h' {
        Some(2)
    } else if l == 's' {
        Some(3)
    } else {
        None
    }
}

/// The character of rank `r`.
pub fn char_of_rank(r: u8) -> (c: char)
    requires
        r < 13,
    ensures
        c == rank_char(r as int),
{
    if r < 8 {
        let n: u8 = 50 + r;
        n as char
    } else if r == 8 {
        'T'
    } else if r == 9 {
        'J'
    } else if r == 10 {
        'Q'
    } else if r == 11 {
        'K'
    } else {
        'A'
    }
}

/// The character of suit `s`.
pub fn char_of_suit(s: u8) -> (c: char)
    requires
        s < 4,
    ensures
        c == suit_char(s as int),
{
    if s == 0 {
        'c'
    } else if s == 1 {
        'd'
    } else if s == 2 {
        'h'
    } else {
        's'
    }
}

/// The id of the two characters `r` and `s` read as a card.
pub fn id_of_chars(r: char, s: char) -> (id: Option<u8>)
    ensures
        id is Some == id_of(seq![r, s]) is Some,
        id matches Some(n) ==> n == id_of(seq![r, s])->0 && n < 52,
{
    match (rank_of_char(r), suit_of_char(s)) {
        (Some(a), Some(b)) => Some(a * 4 + b),
        _ => None,
    }
}

/// Card id of a two-character card in either case; `None` for anything else.
pub fn card_id(card: &str) -> (r: Option<u8>)
    ensures
        r is Some == id_of(card@) is Some,
        r matches Some(n) ==> n == id_of(card@)->0 && n < 52,
{
    let cs = text::chars_of(card);
    if cs.len() != 2 {
        return None;
    }
    assert(card@ =~= seq![cs@[0], cs@[1]]);
    id_of_chars(cs[0], cs[1])
}

/// The card with this id: upper case rank, lower case suit.
pub fn card_str(id: u8) -> (r: String)
    requires
        id < 52,
    ensures
        r@ == card_text(id as int),
{
    let mut out = String::new();
    out.push(char_of_rank(id / 4));
    out.push(char_of_suit(id % 4));
    assert(out@ =~= card_text(id as int));
    out
}

/// Writing a card and reading it gives the same card.
pub proof fn card_round_trip(id: int)
    requires
        0 <= id < 52,
    ensures
        id_of(card_text(id)) == Some(id),
{
    let r = id / 4;
    assert(rank_index(rank_char(r)) == Some(r));
    assert(suit_index(suit_char(id % 4)) == Some(id % 4));
}

// ---------------------------------------------------------------- flops

/// The three distinct cards of a flop, spaces between them ignored.
pub open spec fn flop_ids(flop: Seq<char>) -> Option<(int, int, int)> {
    let t = text::unspaced(flop);
    let a = id_of(t.subrange(0, 2));
    let b = id_of(t.subrange(2, 4));
    let c = id_of(t.subrange(4, 6));
    if t.len() == 6 && a is Some && b is Some && c is Some && a != b && a != c && b != c {
        Some((a->0, b->0, c->0))
    } else {
        None
    }
}

/// Reads three distinct cards, with or without spaces, in either case.
pub fn parse_flop(flop: &str) -> (r: Option<[u8; 3]>)
    ensures
        r is Some == flop_ids(flop@) is Some,
        r matches Some(f) ==> flop_ids(flop@) == Some((f[0] as int, f[1] as int, f[2] as int))
            && f[0] < 52 && f[1] < 52 && f[2] < 52 && f[0] != f[1] && f[0] != f[2] && f[1] != f[2],
{
    let all = text::chars_of(flop);
    let t = text::without_spaces(all.as_slice());
    if t.len() != 6 {
        return None;
    }
    assert(t@.subrange(0, 2) =~= seq![t@[0], t@[1]]);
    assert(t@.subrange(2, 4) =~= seq![t@[2], t@[3]]);
    assert(t@.subrange(4, 6) =~= seq![t@[4], t@[5]]);
    match (id_of_chars(t[0], t[1]), id_of_chars(t[2], t[3]), id_of_chars(t[4], t[5])) {
        (Some(a), Some(b), Some(c)) => {
            if a == b || a == c || b == c {
                None
            } else {
                Some([a, b, c])
            }
        },
        _ => None,
    }
}

// ---------------------------------------------------------------- relabelings

/// A relabeling of the suits: entry `s` is the image of suit `s`.
#[derive(Debug, Clone, Copy, PartialEq, Eq)]
pub struct SuitPerm(pub [u8; 4]);

impl SuitPerm {
    /// The four images are the four suits.
    pub open spec fn wf(self) -> bool {
        &&& forall|i: int| 0 <= i < 4 ==> (#[trigger] self.0[i]) < 4
        &&& forall|i: int, j: int| 0 <= i < j < 4 ==> #[trigger] self.0[i] != #[trigger] self.0[j]
    }

    /// The image of suit `s`.
    pub open spec fn image(self, s: int) -> int {
        self.0[s] as int
    }

    /// The place in the enumeration of all relabelings.
    pub open spec fn code(self) -> int {
        64 * self.0[0] + 16 * self.0[1] + 4 * self.0[2] + self.0[3]
    }

    /// The image of a card.
    pub open spec fn map_id(self, id: int) -> int {
        id / 4 * 4 + self.image(id % 4)
    }

    /// The suit whose image is `t`.
    pub open spec fn preimage(self, t: int) -> int {
        if self.image(0) == t {
            0
        } else if self.image(1) == t {
            1
        } else if self.image(2) == t {
            2
        } else {
            3
        }
    }

    /// The card whose image is `id`.
    pub open spec fn unmap_id(self, id: int) -> int {
        id / 4 * 4 + self.preimage(id % 4)
    }

    /// The do-nothing relabeling.
    pub fn identity() -> (r: Self)
        ensures
            r.wf(),
            forall|s: int| 0 <= s < 4 ==> #[trigger] r.image(s) == s,
    {
        SuitPerm([0, 1, 2, 3])
    }

    /// Whether this relabels nothing.
    pub fn is_identity(&self) -> (r: bool)
        ensures
            r == (forall|s: int| 0 <= s < 4 ==> #[trigger] self.image(s) == s),
    {
        let r = self.0[0] == 0 && self.0[1] == 1 && self.0[2] == 2 && self.0[3] == 3;
        proof {
            if !r {
                assert(self.image(0) != 0 || self.image(1) != 1 || self.image(2) != 2 || self.image(
                    3,
                ) != 3);
            }
        }
        r
    }

    /// The relabeling that undoes this one.
    pub fn inverse(&self) -> (r: Self)
        requires
            self.wf(),
        ensures
            r.wf(),
            forall|s: int| 0 <= s < 4 ==> r.image(#[trigger] self.image(s)) == s,
            forall|s: int| 0 <= s < 4 ==> self.image(#[trigger] r.image(s)) == s,
            forall|s: int| 0 <= s < 4 ==> #[trigger] r.image(s) == self.preimage(s),
    {
        let mut inv: [u8; 4] = [0, 0, 0, 0];
        let mut s: usize = 0;
        while s < 4
            invariant
                s <= 4,
                self.wf(),
                forall|t: int| 0 <= t < s ==> inv[#[trigger] self.image(t)] == t,
            decreases 4 - s,
        {
            let t: usize = self.0[s] as usize;
            inv[t] = s as u8;
            s = s + 1;
        }
        let r = SuitPerm(inv);
        proof {
            let (a, b, c, d) = (self.image(0), self.image(1), self.image(2), self.image(3));
            assert(self.0[0] < 4 && self.0[1] < 4 && self.0[2] < 4 && self.0[3] < 4);
            assert(a != b && a != c && a != d && b != c && b != d && c != d);
            assert(inv[a] == 0 && inv[b] == 1 && inv[c] == 2 && inv[d] == 3);
            assert forall|u: int| 0 <= u < 4 implies self.image(#[trigger] r.image(u)) == u
                && r.0[u] < 4 && r.image(u) == self.preimage(u) by {
                assert(u == a || u == b || u == c || u == d);
            }
            assert forall|i: int, j: int| 0 <= i < j < 4 implies #[trigger] r.0[i]
                != #[trigger] r.0[j] by {
                assert(self.image(r.image(i)) == i);
                assert(self.image(r.image(j)) == j);
            }
        }
        r
    }

    /// `self` after `other`.
    pub fn compose(&self, other: &Self) -> (r: Self)
        requires
            self.wf(),
            other.wf(),
        ensures
            r.wf(),
            forall|s: int| 0 <= s < 4 ==> #[trigger] r.image(s) == self.image(other.image(s)),
    {
        assert(other.0[0] < 4 && other.0[1] < 4 && other.0[2] < 4 && other.0[3] < 4);
        let r = SuitPerm(
            [
                self.0[other.0[0] as usize],
                self.0[other.0[1] as usize],
                self.0[other.0[2] as usize],
                self.0[other.0[3] as usize],
            ],
        );
        proof {
            assert forall|i: int, j: int| 0 <= i < j < 4 implies #[trigger] r.0[i]
                != #[trigger] r.0[j] by {
                assert(other.0[i] != other.0[j]);
                let (x, y) = (other.0[i] as int, other.0[j] as int);
                assert(0 <= x < 4 && 0 <= y < 4);
                if x < y {
                    assert(self.0[x] != self.0[y]);
                } else {
                    assert(self.0[y] != self.0[x]);
                }
            }
        }
        r
    }

    /// The image of the card `id`.
    pub fn id(&self, id: u8) -> (r: u8)
        requires
            self.wf(),
        ensures
            r == self.map_id(id as int),
            id < 52 ==> r < 52,
    {
        let s: usize = (id % 4) as usize;
        assert(self.0[s as int] < 4);
        id / 4 * 4 + self.0[s]
    }

    /// Maps one card; `None` if it is not one.
    pub fn card(&self, card: &str) -> (r: Option<String>)
        requires
            self.wf(),
        ensures
            r is Some == id_of(card@) is Some,
            r matches Some(s) ==> s@ == card_text(self.map_id(id_of(card@)->0)),
    {
        match card_id(card) {
            Some(id) => Some(card_str(self.id(id))),
            None => None,
        }
    }

    /// Maps a hand of two cards and writes it with the higher card first.
    pub fn hand(&self, hand: &str) -> (r: Option<String>)
        requires
            self.wf(),
        ensures
            r is Some == pair_of(hand@) is Some,
            r matches Some(s) ==> s@ == hand_text(
                self.map_id((pair_of(hand@)->0).0),
                self.map_id((pair_of(hand@)->0).1),
            ),
    {
        match hand_ids(hand) {
            Some((x, y)) => {
                let a = self.id(x);
                let b = self.id(y);
                let (hi, lo) = if a >= b {
                    (a, b)
                } else {
                    (b, a)
                };
                let h = card_str(hi);
                let l = card_str(lo);
                Some(text::join2(h.as_str(), l.as_str()))
            },
            None => None,
        }
    }
}

/// The two cards of a hand of four characters, as written.
pub open spec fn pair_of(hand: Seq<char>) -> Option<(int, int)> {
    let a = id_of(hand.subrange(0, 2));
    let b = id_of(hand.subrange(2, 4));
    if hand.len() == 4 && a is Some && b is Some {
        Some((a->0, b->0))
    } else {
        None
    }
}

/// Two cards written with the higher id first.
pub open spec fn hand_text(a: int, b: int) -> Seq<char> {
    if a >= b {
        card_text(a) + card_text(b)
    } else {
        card_text(b) + card_text(a)
    }
}

/// The ids of the two cards of a hand such as `"AsKs"`.
pub fn hand_ids(hand: &str) -> (r: Option<(u8, u8)>)
    ensures
        r is Some == pair_of(hand@) is Some,
        r matches Some(p) ==> pair_of(hand@) == Some((p.0 as int, p.1 as int)) && p.0 < 52 && p.1
            < 52,
{
    let cs = text::chars_of(hand);
    if cs.len() != 4 {
        return None;
    }
    assert(hand@.subrange(0, 2) =~= seq![cs@[0], cs@[1]]);
    assert(hand@.subrange(2, 4) =~= seq![cs@[2], cs@[3]]);
    match (id_of_chars(cs[0], cs[1]), id_of_chars(cs[2], cs[3])) {
        (Some(a), Some(b)) => Some((a, b)),
        _ => None,
    }
}

/// Undoing a relabeling gives back every card.
pub proof fn inverse_undoes(p: SuitPerm, q: SuitPerm, id: int)
    requires
        p.wf(),
        0 <= id < 52,
        forall|s: int| 0 <= s < 4 ==> q.image(#[trigger] p.image(s)) == s,
    ensures
        q.map_id(p.map_id(id)) == id,
{
    let s = id % 4;
    assert(p.0[s] < 4);
    assert(q.image(p.image(s)) == s);
    assert(p.map_id(id) / 4 == id / 4);
    assert(p.map_id(id) % 4 == p.image(s));
}

/// All relabelings, the identity first, in ascending order of their codes.
pub fn perms() -> (r: Vec<SuitPerm>)
    ensures
        r@.len() == 24,
        r@[0].code() == 27,
        forall|i: int| 0 <= i < 24 ==> (#[trigger] r@[i]).wf(),
        forall|i: int, j: int| 0 <= i < j < 24 ==> (#[trigger] r@[i]).code() < (#[trigger] r@[j]).code(),
        forall|p: SuitPerm| p.wf() ==> #[trigger] listed(r@, p),
{
    let mut out: Vec<SuitPerm> = Vec::new();
    let mut n: u16 = 0;
    while n < 256
        invariant
            n <= 256,
            perms_listed(out@, n as int),
        decreases 256 - n,
    {
        let a: u8 = (n / 64) as u8;
        let b: u8 = (n / 16 % 4) as u8;
        let c: u8 = (n / 4 % 4) as u8;
        let d: u8 = (n % 4) as u8;
        let p = SuitPerm([a, b, c, d]);
        let ghost before = out@;
        proof {
            lemma_digits(p, n as int);
        }
        if a != b && a != c && a != d && b != c && b != d && c != d {
            out.push(p);
        }
        proof {
            lemma_perms_step(before, p, n as int);
            assert(out@ == if all_distinct(n as int) {
                before.push(p)
            } else {
                before
            });
        }
        n = n + 1;
    }
    proof {
        lemma_24_perms();
        assert forall|p: SuitPerm| p.wf() implies #[trigger] p.code() < 256 by {
            assert(p.0[0] < 4 && p.0[1] < 4 && p.0[2] < 4 && p.0[3] < 4);
        }
        let id = SuitPerm([0, 1, 2, 3]);
        assert(id.wf() && id.code() == 27);
        assert(listed(out@, id));
        let i = choose|i: int| 0 <= i < out@.len() && (#[trigger] out@[i]).code() == id.code();
        if i > 0 {
            assert(out@[0].code() < 27);
            lemma_identity_first(out@[0]);
        }
    }
    out
}

/// `p` is one of `s`.
pub open spec fn listed(s: Seq<SuitPerm>, p: SuitPerm) -> bool {
    exists|i: int| 0 <= i < s.len() && (#[trigger] s[i]).code() == p.code()
}

/// `s` lists the relabelings with codes below `n`, in ascending order.
pub open spec fn perms_listed(s: Seq<SuitPerm>, n: int) -> bool {
    &&& s.len() == perms_below(n)
    &&& forall|i: int| 0 <= i < s.len() ==> (#[trigger] s[i]).wf() && s[i].code() < n
    &&& forall|i: int, j: int|
        0 <= i < j < s.len() ==> (#[trigger] s[i]).code() < (#[trigger] s[j]).code()
    &&& forall|p: SuitPerm| p.wf() && p.code() < n ==> #[trigger] listed(s, p)
}

proof fn lemma_digits(p: SuitPerm, n: int)
    requires
        0 <= n < 256,
        p.0[0] == n / 64,
        p.0[1] == n / 16 % 4,
        p.0[2] == n / 4 % 4,
        p.0[3] == n % 4,
    ensures
        p.code() == n,
        p.wf() <==> all_distinct(n),
{
    let (a, b, c, d) = (n / 64, n / 16 % 4, n / 4 % 4, n % 4);
    assert(64 * a + 16 * b + 4 * c + d == n) by {
        assert(n / 16 == n / 64 * 4 + n / 16 % 4);
        assert(n / 4 == n / 16 * 4 + n / 4 % 4);
    }
    assert(0 <= a < 4 && 0 <= b < 4 && 0 <= c < 4 && 0 <= d < 4);
    let distinct = a != b && a != c && a != d && b != c && b != d && c != d;
    assert(all_distinct(n) == distinct);
    if p.wf() {
        assert(p.0[0] != p.0[1] && p.0[0] != p.0[2] && p.0[0] != p.0[3]);
        assert(p.0[1] != p.0[2] && p.0[1] != p.0[3] && p.0[2] != p.0[3]);
        assert(distinct);
    }
    if distinct {
        assert forall|i: int, j: int| 0 <= i < j < 4 implies #[trigger] p.0[i]
            != #[trigger] p.0[j] by {}
    }
}

proof fn lemma_same_code(p: SuitPerm, q: SuitPerm)
    requires
        p.wf(),
        forall|i: int| 0 <= i < 4 ==> (#[trigger] q.0[i]) < 4,
        p.code() == q.code(),
    ensures
        p.0@ == q.0@,
{
    assert(p.0[0] < 4 && p.0[1] < 4 && p.0[2] < 4 && p.0[3] < 4);
    assert(q.0[0] < 4 && q.0[1] < 4 && q.0[2] < 4 && q.0[3] < 4);
    assert(p.0@ =~= q.0@);
}

proof fn lemma_perms_step(s: Seq<SuitPerm>, p: SuitPerm, n: int)
    requires
        0 <= n < 256,
        perms_listed(s, n),
        p.code() == n,
        p.wf() <==> all_distinct(n),
        forall|i: int| 0 <= i < 4 ==> (#[trigger] p.0[i]) < 4,
    ensures
        perms_listed(
            if all_distinct(n) {
                s.push(p)
            } else {
                s
            },
            n + 1,
        ),
{
    let t = if all_distinct(n) {
        s.push(p)
    } else {
        s
    };
    assert forall|q: SuitPerm| q.wf() && q.code() < n + 1 implies #[trigger] listed(t, q) by {
        if q.code() < n {
            assert(listed(s, q));
            let i = choose|i: int| 0 <= i < s.len() && (#[trigger] s[i]).code() == q.code();
            assert(t[i] == s[i]);
        } else {
            lemma_same_code(q, p);
            assert(p.wf()) by {
                assert forall|i: int, j: int| 0 <= i < j < 4 implies #[trigger] p.0[i]
                    != #[trigger] p.0[j] by {
                    assert(p.0@[i] == q.0@[i] && p.0@[j] == q.0@[j]);
                    assert(q.0[i] != q.0[j]);
                }
            }
            assert(t[s.len() as int] == p);
        }
    }
}

/// The digits of `n` in base 4 are four distinct suits.
pub open spec fn all_distinct(n: int) -> bool {
    let (a, b, c, d) = (n / 64, n / 16 % 4, n / 4 % 4, n % 4);
    a != b && a != c && a != d && b != c && b != d && c != d
}

/// How many numbers below `n` are the code of a relabeling.
pub open spec fn perms_below(n: int) -> nat
    decreases n,
{
    if n <= 0 {
        0
    } else {
        perms_below(n - 1) + if all_distinct(n - 1) {
            1nat
        } else {
            0nat
        }
    }
}

#[verifier::rlimit(60)]
proof fn lemma_24_perms()
    ensures
        perms_below(256) == 24,
{
    assert(perms_below(16) == 0) by {
        reveal_with_fuel(perms_below, 17);
    }
    assert(perms_below(32) == 2) by {
        reveal_with_fuel(perms_below, 17);
    }
    assert(perms_below(48) == 4) by {
        reveal_with_fuel(perms_below, 17);
    }
    assert(perms_below(64) == 6) by {
        reveal_with_fuel(perms_below, 17);
    }
    assert(perms_below(80) == 8) by {
        reveal_with_fuel(perms_below, 17);
    }
    assert(perms_below(96) == 8) by {
        reveal_with_fuel(perms_below, 17);
    }
    assert(perms_below(112) == 10) by {
        reveal_with_fuel(perms_below, 17);
    }
    assert(perms_below(128) == 12) by {
        reveal_with_fuel(perms_below, 17);
    }
    assert(perms_below(144) == 14) by {
        reveal_with_fuel(perms_below, 17);
    }
    assert(perms_below(160) == 16) by {
        reveal_with_fuel(perms_below, 17);
    }
    assert(perms_below(176) == 16) by {
        reveal_with_fuel(perms_below, 17);
    }
    assert(perms_below(192) == 18) by {
        reveal_with_fuel(perms_below, 17);
    }
    assert(perms_below(208) == 20) by {
        reveal_with_fuel(perms_below, 17);
    }
    assert(perms_below(224) == 22) by {
        reveal_with_fuel(perms_below, 17);
    }
    assert(perms_below(240) == 24) by {
        reveal_with_fuel(perms_below, 17);
    }
    assert(perms_below(256) == 24) by {
        reveal_with_fuel(perms_below, 17);
    }
}

proof fn lemma_identity_first(p: SuitPerm)
    requires
        p.wf(),
    ensures
        p.code() >= 27,
{
    assert(p.0[0] < 4 && p.0[1] < 4 && p.0[2] < 4 && p.0[3] < 4);
    assert(p.0[0] != p.0[1] && p.0[0] != p.0[2] && p.0[0] != p.0[3]);
    assert(p.0[1] != p.0[2] && p.0[1] != p.0[3] && p.0[2] != p.0[3]);
}

// ---------------------------------------------------------------- canonical flops

/// Three numbers in ascending order.
pub open spec fn sorted3(a: int, b: int, c: int) -> (int, int, int) {
    let (x, y) = if a <= b {
        (a, b)
    } else {
        (b, a)
    };
    if c <= x {
        (c, x, y)
    } else if c <= y {
        (x, c, y)
    } else {
        (x, y, c)
    }
}

/// The cards of a flop under a relabeling, in ascending order.
#[verifier::opaque]
pub open spec fn relabeled(f: (int, int, int), p: SuitPerm) -> (int, int, int) {
    sorted3(p.map_id(f.0), p.map_id(f.1), p.map_id(f.2))
}

/// Orders triples of card ids lexicographically.
pub open spec fn triple_key(f: (int, int, int)) -> int {
    f.0 * 4096 + f.1 * 64 + f.2
}

/// Three different cards.
pub open spec fn is_flop(f: (int, int, int)) -> bool {
    &&& 0 <= f.0 < 52
    &&& 0 <= f.1 < 52
    &&& 0 <= f.2 < 52
    &&& f.0 != f.1
    &&& f.0 != f.2
    &&& f.1 != f.2
}

/// No relabeling takes `f` to a smaller triple than `p` does.
pub open spec fn minimizes(f: (int, int, int), p: SuitPerm) -> bool {
    &&& p.wf()
    &&& forall|q: SuitPerm| #[trigger]
        q.wf() ==> triple_key(relabeled(f, p)) <= triple_key(relabeled(f, q))
}

/// `p` is the first relabeling, in order of codes, that minimizes `f`.
pub open spec fn first_minimizer(f: (int, int, int), p: SuitPerm) -> bool {
    &&& minimizes(f, p)
    &&& forall|q: SuitPerm| #[trigger]
        q.wf() && q.code() < p.code() ==> triple_key(relabeled(f, p)) < triple_key(relabeled(f, q))
}

/// Three cards written one after the other.
pub open spec fn flop_text(f: (int, int, int)) -> Seq<char> {
    card_text(f.0) + card_text(f.1) + card_text(f.2)
}

fn sort3(a: u8, b: u8, c: u8) -> (r: (u8, u8, u8))
    ensures
        (r.0 as int, r.1 as int, r.2 as int) == sorted3(a as int, b as int, c as int),
{
    let (x, y) = if a <= b {
        (a, b)
    } else {
        (b, a)
    };
    if c <= x {
        (c, x, y)
    } else if c <= y {
        (x, c, y)
    } else {
        (x, y, c)
    }
}

pub(crate) fn relabel(f: &[u8; 3], p: &SuitPerm) -> (r: (u8, u8, u8))
    requires
        p.wf(),
        f[0] < 52,
        f[1] < 52,
        f[2] < 52,
    ensures
        (r.0 as int, r.1 as int, r.2 as int) == relabeled(
            (f[0] as int, f[1] as int, f[2] as int),
            *p,
        ),
        r.0 < 52,
        r.1 < 52,
        r.2 < 52,
{
    reveal(relabeled);
    sort3(p.id(f[0]), p.id(f[1]), p.id(f[2]))
}

fn key3(f: (u8, u8, u8)) -> (r: u32)
    ensures
        r == triple_key((f.0 as int, f.1 as int, f.2 as int)),
{
    f.0 as u32 * 4096 + f.1 as u32 * 64 + f.2 as u32
}

proof fn lemma_same_images(f: (int, int, int), p: SuitPerm, q: SuitPerm)
    requires
        is_flop(f),
        p.0@ == q.0@,
    ensures
        relabeled(f, p) == relabeled(f, q),
{
    assert(forall|s: int| 0 <= s < 4 ==> p.0@[s] == q.0@[s]);
    assert(p.image(f.0 % 4) == q.image(f.0 % 4));
    assert(p.image(f.1 % 4) == q.image(f.1 % 4));
    assert(p.image(f.2 % 4) == q.image(f.2 % 4));
    reveal(relabeled);
}

/// `ps` lists all relabelings in ascending order of their codes.
pub open spec fn lists_all(ps: Seq<SuitPerm>) -> bool {
    &&& forall|i: int| 0 <= i < ps.len() ==> (#[trigger] ps[i]).wf()
    &&& forall|i: int, j: int|
        0 <= i < j < ps.len() ==> (#[trigger] ps[i]).code() < (#[trigger] ps[j]).code()
    &&& forall|p: SuitPerm| p.wf() ==> #[trigger] listed(ps, p)
}

proof fn lemma_best_of_list(ids: (int, int, int), ps: Seq<SuitPerm>, best: int, q: SuitPerm)
    requires
        is_flop(ids),
        lists_all(ps),
        0 <= best < ps.len(),
        forall|k: int|
            0 <= k < ps.len() ==> triple_key(relabeled(ids, ps[best])) <= triple_key(
                relabeled(ids, #[trigger] ps[k]),
            ),
        forall|k: int|
            0 <= k < best ==> triple_key(relabeled(ids, ps[best])) < triple_key(
                relabeled(ids, #[trigger] ps[k]),
            ),
        q.wf(),
    ensures
        triple_key(relabeled(ids, ps[best])) <= triple_key(relabeled(ids, q)),
        q.code() < ps[best].code() ==> triple_key(relabeled(ids, ps[best])) < triple_key(
            relabeled(ids, q),
        ),
{
    assert(listed(ps, q));
    let k = choose|k: int| 0 <= k < ps.len() && (#[trigger] ps[k]).code() == q.code();
    lemma_same_code(q, ps[k]);
    lemma_same_images(ids, q, ps[k]);
    if q.code() < ps[best].code() && k > best {
        assert(ps[best].code() < ps[k].code());
    }
}

pub(crate) fn best_perm(f: &[u8; 3]) -> (p: SuitPerm)
    requires
        is_flop((f[0] as int, f[1] as int, f[2] as int)),
    ensures
        first_minimizer((f[0] as int, f[1] as int, f[2] as int), p),
{
    let ghost ids = (f[0] as int, f[1] as int, f[2] as int);
    let ps = perms();
    let mut best: usize = 0;
    let mut i: usize = 1;
    while i < ps.len()
        invariant
            1 <= i <= ps@.len(),
            best < i,
            is_flop(ids),
            ids == (f[0] as int, f[1] as int, f[2] as int),
            lists_all(ps@),
            forall|k: int|
                0 <= k < i ==> triple_key(relabeled(ids, ps@[best as int])) <= triple_key(
                    relabeled(ids, #[trigger] ps@[k]),
                ),
            forall|k: int|
                0 <= k < best ==> triple_key(relabeled(ids, ps@[best as int])) < triple_key(
                    relabeled(ids, #[trigger] ps@[k]),
                ),
        decreases ps@.len() - i,
    {
        if key3(relabel(f, &ps[i])) < key3(relabel(f, &ps[best])) {
            best = i;
        }
        i = i + 1;
    }
    let p = ps[best];
    proof {
        assert forall|q: SuitPerm| #[trigger] q.wf() implies triple_key(relabeled(ids, p))
            <= triple_key(relabeled(ids, q)) && (q.code() < p.code() ==> triple_key(
            relabeled(ids, p),
        ) < triple_key(relabeled(ids, q))) by {
            lemma_best_of_list(ids, ps@, best as int, q);
        }
    }
    p
}

/// The smallest triple that a relabeling of the suits makes of this flop, and
/// the first relabeling that takes it there. `None` unless the flop is three
/// distinct cards.
pub fn canonical_flop(flop: &str) -> (r: Option<(String, SuitPerm)>)
    ensures
        r is Some == flop_ids(flop@) is Some,
        r matches Some((s, p)) ==> first_minimizer(flop_ids(flop@)->0, p) && s@ == flop_text(
            relabeled(flop_ids(flop@)->0, p),
        ) && canonical_text(flop@) == Some(s@),
{
    match parse_flop(flop) {
        Some(f) => {
            let p = best_perm(&f);
            proof {
                let ids = flop_ids(flop@)->0;
                lemma_canonical_text(ids, p, choose|q: SuitPerm| minimizes(ids, q));
            }
            let t = relabel(&f, &p);
            let a = card_str(t.0);
            let b = card_str(t.1);
            let c = card_str(t.2);
            Some((text::join3(a.as_str(), b.as_str(), c.as_str()), p))
        },
        None => None,
    }
}

/// `p` after `q`.
pub open spec fn composed(p: SuitPerm, q: SuitPerm) -> SuitPerm {
    SuitPerm(
        [
            p.0[q.image(0)],
            p.0[q.image(1)],
            p.0[q.image(2)],
            p.0[q.image(3)],
        ],
    )
}

proof fn lemma_composed(p: SuitPerm, q: SuitPerm, id: int)
    requires
        p.wf(),
        q.wf(),
        0 <= id < 52,
    ensures
        composed(p, q).wf(),
        composed(p, q).map_id(id) == p.map_id(q.map_id(id)),
        0 <= q.map_id(id) < 52,
{
    let r = composed(p, q);
    assert(q.0[0] < 4 && q.0[1] < 4 && q.0[2] < 4 && q.0[3] < 4);
    assert(forall|i: int| 0 <= i < 4 ==> #[trigger] r.0[i] == p.0[q.0[i] as int]);
    assert forall|i: int, j: int| 0 <= i < j < 4 implies #[trigger] r.0[i] != #[trigger] r.0[j] by {
        assert(q.0[i] != q.0[j]);
        let (x, y) = (q.0[i] as int, q.0[j] as int);
        if x < y {
            assert(p.0[x] != p.0[y]);
        } else {
            assert(p.0[y] != p.0[x]);
        }
    }
    let s = id % 4;
    assert(q.map_id(id) / 4 == id / 4);
    assert(q.map_id(id) % 4 == q.image(s));
    assert(r.0[s] == p.0[q.0[s] as int]);
}

/// The inverse relabeling.
pub open spec fn inverted(p: SuitPerm) -> SuitPerm {
    SuitPerm(
        [p.preimage(0) as u8, p.preimage(1) as u8, p.preimage(2) as u8, p.preimage(3) as u8],
    )
}

proof fn lemma_inverted(p: SuitPerm, id: int)
    requires
        p.wf(),
        0 <= id < 52,
    ensures
        inverted(p).wf(),
        inverted(p).map_id(p.map_id(id)) == id,
{
    let r = inverted(p);
    let (a, b, c, d) = (p.image(0), p.image(1), p.image(2), p.image(3));
    assert(p.0[0] < 4 && p.0[1] < 4 && p.0[2] < 4 && p.0[3] < 4);
    assert(a != b && a != c && a != d && b != c && b != d && c != d) by {
        assert(p.0[0] != p.0[1] && p.0[0] != p.0[2] && p.0[0] != p.0[3]);
        assert(p.0[1] != p.0[2] && p.0[1] != p.0[3] && p.0[2] != p.0[3]);
    }
    assert(r.0[0] == p.preimage(0) && r.0[1] == p.preimage(1) && r.0[2] == p.preimage(2) && r.0[3]
        == p.preimage(3));
    let s = id % 4;
    assert(p.map_id(id) / 4 == id / 4);
    assert(p.map_id(id) % 4 == p.image(s));
}

/// The three cards of `f`, each under `q`.
pub open spec fn moved(f: (int, int, int), q: SuitPerm) -> (int, int, int) {
    (q.map_id(f.0), q.map_id(f.1), q.map_id(f.2))
}

proof fn lemma_minimum_not_above(f: (int, int, int), q: SuitPerm, p: SuitPerm, r: SuitPerm)
    requires
        is_flop(f),
        q.wf(),
        minimizes(f, p),
        r.wf(),
    ensures
        triple_key(relabeled(f, p)) <= triple_key(relabeled(moved(f, q), r)),
{
    lemma_composed(r, q, f.0);
    lemma_composed(r, q, f.1);
    lemma_composed(r, q, f.2);
    assert(relabeled(f, composed(r, q)) == relabeled(moved(f, q), r)) by {
        reveal(relabeled);
    }
}

proof fn lemma_moved_is_flop(f: (int, int, int), q: SuitPerm)
    requires
        is_flop(f),
        q.wf(),
    ensures
        is_flop(moved(f, q)),
        moved(moved(f, q), inverted(q)) == f,
        inverted(q).wf(),
{
    lemma_inverted(q, f.0);
    lemma_inverted(q, f.1);
    lemma_inverted(q, f.2);
    lemma_composed(q, q, f.0);
    lemma_composed(q, q, f.1);
    lemma_composed(q, q, f.2);
}

proof fn lemma_relabeled_sorted(f: (int, int, int), p: SuitPerm)
    requires
        is_flop(f),
        p.wf(),
    ensures
        is_flop(relabeled(f, p)),
        relabeled(f, p).0 < relabeled(f, p).1 < relabeled(f, p).2,
        relabeled(f, p) == sorted3(moved(f, p).0, moved(f, p).1, moved(f, p).2),
{
    lemma_moved_is_flop(f, p);
    reveal(relabeled);
}

proof fn lemma_key_injective(x: (int, int, int), y: (int, int, int))
    requires
        is_flop(x),
        is_flop(y),
        triple_key(x) == triple_key(y),
    ensures
        x == y,
{
}

/// All relabelings of a flop have the same canonical form.
pub proof fn canonical_form_is_invariant(
    f: (int, int, int),
    q: SuitPerm,
    p: SuitPerm,
    r: SuitPerm,
)
    requires
        is_flop(f),
        q.wf(),
        minimizes(f, p),
        minimizes(moved(f, q), r),
    ensures
        relabeled(f, p) == relabeled(moved(f, q), r),
{
    let g = moved(f, q);
    lemma_moved_is_flop(f, q);
    lemma_minimum_not_above(f, q, p, r);
    lemma_minimum_not_above(g, inverted(q), r, p);
    lemma_relabeled_sorted(f, p);
    lemma_relabeled_sorted(g, r);
    lemma_key_injective(relabeled(f, p), relabeled(g, r));
}

proof fn lemma_order_free(m: (int, int, int), q: SuitPerm)
    requires
        is_flop(m),
        q.wf(),
    ensures
        relabeled(sorted3(m.0, m.1, m.2), q) == relabeled(m, q),
{
    lemma_moved_is_flop(m, q);
    reveal(relabeled);
}

/// The relabeling that changes nothing.
pub open spec fn unchanged() -> SuitPerm {
    SuitPerm([0, 1, 2, 3])
}

pub(crate) proof fn lemma_unchanged(g: (int, int, int))
    requires
        is_flop(g),
        g.0 < g.1 < g.2,
    ensures
        unchanged().wf(),
        unchanged().code() == 27,
        relabeled(g, unchanged()) == g,
{
    reveal(relabeled);
    let id = unchanged();
    assert(id.map_id(g.0) == g.0 && id.map_id(g.1) == g.1 && id.map_id(g.2) == g.2);
}

/// A canonical flop is its own canonical form, under the identity.
pub proof fn canonical_form_is_fixed(f: (int, int, int), p: SuitPerm, r: SuitPerm)
    requires
        is_flop(f),
        minimizes(f, p),
        first_minimizer(relabeled(f, p), r),
    ensures
        relabeled(relabeled(f, p), r) == relabeled(f, p),
        r.code() == 27,
{
    let g = relabeled(f, p);
    let m = moved(f, p);
    let id = unchanged();
    lemma_moved_is_flop(f, p);
    lemma_relabeled_sorted(f, p);
    lemma_unchanged(g);
    lemma_minimum_not_above(f, p, p, r);
    lemma_order_free(m, r);
    lemma_relabeled_sorted(g, r);
    lemma_identity_first(r);
    assert(triple_key(relabeled(g, r)) <= triple_key(relabeled(g, id)));
    if r.code() > 27 {
        assert(triple_key(relabeled(g, r)) < triple_key(relabeled(g, id)));
    }
    lemma_key_injective(relabeled(g, r), g);
}

/// The canonical form of a flop, as text.
pub open spec fn canonical_text(flop: Seq<char>) -> Option<Seq<char>> {
    match flop_ids(flop) {
        Some(f) => Some(flop_text(relabeled(f, choose|p: SuitPerm| minimizes(f, p)))),
        None => None,
    }
}

pub proof fn lemma_canonical_text(f: (int, int, int), p: SuitPerm, q: SuitPerm)
    requires
        is_flop(f),
        minimizes(f, p),
        minimizes(f, q),
    ensures
        relabeled(f, p) == relabeled(f, q),
{
    assert(q.wf() && p.wf());
    lemma_relabeled_sorted(f, p);
    lemma_relabeled_sorted(f, q);
    lemma_key_injective(relabeled(f, p), relabeled(f, q));
}

/// There is a relabeling.
pub proof fn lemma_a_perm() -> (r: SuitPerm)
    ensures
        r.wf(),
{
    let id = unchanged();
    assert(id.wf());
    id
}

proof fn lemma_nothing_spaced(s: Seq<char>)
    requires
        forall|i: int| 0 <= i < s.len() ==> !text::is_space(#[trigger] s[i]),
    ensures
        text::unspaced(s) == s,
    decreases s.len(),
{
    reveal(Seq::filter);
    if s.len() > 0 {
        lemma_nothing_spaced(s.drop_last());
        assert(!text::is_space(s.last()));
        assert(s.drop_last().push(s.last()) =~= s);
    }
}

proof fn lemma_cards_hold_no_space(id: int)
    requires
        0 <= id < 52,
    ensures
        card_text(id).len() == 2,
        !text::is_space(card_text(id)[0]),
        !text::is_space(card_text(id)[1]),
{
    let c = rank_char(id / 4);
    assert(48 <= c as u32 <= 90);
    assert(97 <= suit_char(id % 4) as u32 <= 122);
}

proof fn lemma_three_words(a: Seq<char>, b: Seq<char>, c: Seq<char>)
    requires
        a.len() == 2,
        b.len() == 2,
        c.len() == 2,
        !text::is_space(a[0]) && !text::is_space(a[1]),
        !text::is_space(b[0]) && !text::is_space(b[1]),
        !text::is_space(c[0]) && !text::is_space(c[1]),
    ensures
        text::unspaced(a + b + c) == a + b + c,
        (a + b + c).len() == 6,
        (a + b + c).subrange(0, 2) == a,
        (a + b + c).subrange(2, 4) == b,
        (a + b + c).subrange(4, 6) == c,
{
    let t = a + b + c;
    assert(t.subrange(0, 2) =~= a);
    assert(t.subrange(2, 4) =~= b);
    assert(t.subrange(4, 6) =~= c);
    assert(t =~= seq![a[0], a[1], b[0], b[1], c[0], c[1]]);
    lemma_nothing_spaced(t);
}

/// A flop as it is written here reads as that flop.
pub proof fn written_flops_read_back(f: (int, int, int))
    requires
        is_flop(f),
    ensures
        flop_ids(flop_text(f)) == Some(f),
{
    card_round_trip(f.0);
    card_round_trip(f.1);
    card_round_trip(f.2);
    lemma_cards_hold_no_space(f.0);
    lemma_cards_hold_no_space(f.1);
    lemma_cards_hold_no_space(f.2);
    let (a, b, c) = (card_text(f.0), card_text(f.1), card_text(f.2));
    lemma_three_words(a, b, c);
    assert(a + b + c == flop_text(f));
}

/// A flop that some relabeling leaves as it is and that none makes smaller is its
/// own canonical form, and the first relabeling that shows it changes nothing.
pub proof fn lemma_own_form(g: (int, int, int), p: SuitPerm, r: SuitPerm)
    requires
        is_flop(g),
        g.0 < g.1 < g.2,
        minimizes(g, p),
        relabeled(g, p) == g,
        first_minimizer(g, r),
    ensures
        relabeled(g, r) == g,
        r.0@ == unchanged().0@,
{
    let id = unchanged();
    lemma_unchanged(g);
    lemma_canonical_text(g, p, r);
    lemma_identity_first(r);
    assert(id.wf());
    if r.code() > 27 {
        assert(triple_key(relabeled(g, r)) < triple_key(relabeled(g, id)));
    }
    lemma_same_code(r, id);
}

/// What reads as a flop is one.
pub proof fn lemma_flop_ids(flop: Seq<char>)
    requires
        flop_ids(flop) is Some,
    ensures
        is_flop(flop_ids(flop)->0),
{
}

/// Some relabeling minimizes a flop.
pub proof fn lemma_some_minimizer(f: (int, int, int), p: SuitPerm) -> (r: SuitPerm)
    requires
        is_flop(f),
        p.wf(),
    ensures
        minimizes(f, r),
    decreases triple_key(relabeled(f, p)),
{
    if minimizes(f, p) {
        p
    } else {
        let q = choose|q: SuitPerm|
            q.wf() && !(triple_key(relabeled(f, p)) <= triple_key(relabeled(f, q)));
        lemma_relabeled_sorted(f, p);
        lemma_relabeled_sorted(f, q);
        lemma_some_minimizer(f, q)
    }
}

/// The canonical form of a flop is a flop in ascending order that some relabeling
/// minimizes and leaves as it is.
pub proof fn lemma_canonical_is_minimal(f: (int, int, int), p: SuitPerm) -> (r: SuitPerm)
    requires
        is_flop(f),
        minimizes(f, p),
    ensures
        is_flop(relabeled(f, p)),
        relabeled(f, p).0 < relabeled(f, p).1 < relabeled(f, p).2,
        minimizes(relabeled(f, p), r),
        relabeled(relabeled(f, p), r) == relabeled(f, p),
{
    let g = relabeled(f, p);
    let m = moved(f, p);
    lemma_moved_is_flop(f, p);
    lemma_relabeled_sorted(f, p);
    let r = lemma_some_minimizer(g, p);
    assert(minimizes(m, r)) by {
        lemma_order_free(m, r);
        assert forall|q: SuitPerm| #[trigger] q.wf() implies triple_key(relabeled(m, r))
            <= triple_key(relabeled(m, q)) by {
            lemma_order_free(m, q);
        }
    }
    canonical_form_is_invariant(f, p, p, r);
    lemma_order_free(m, r);
    r
}

// ---------------------------------------------------------------- nodes

/// A card in the space that `p` maps from; what is no card stays as it is.
pub open spec fn back_card(p: SuitPerm, s: Seq<char>) -> Seq<char> {
    match id_of(s) {
        Some(id) => card_text(p.unmap_id(id)),
        None => s,
    }
}

/// A hand in the space that `p` maps from, higher card first; what is no hand
/// stays as it is.
pub open spec fn back_hand(p: SuitPerm, s: Seq<char>) -> Seq<char> {
    match pair_of(s) {
        Some((a, b)) => hand_text(p.unmap_id(a), p.unmap_id(b)),
        None => s,
    }
}

/// A label `deal <card>` with its card moved; any other label as it is.
pub open spec fn back_label(p: SuitPerm, s: Seq<char>) -> Seq<char> {
    if s.len() >= 5 && s.take(5) == "deal "@ && id_of(s.skip(5)) is Some {
        "deal "@ + card_text(p.unmap_id(id_of(s.skip(5))->0))
    } else {
        s
    }
}

/// Sorts cards by id, and what is no card last.
pub open spec fn card_key(s: Seq<char>) -> Seq<u32> {
    match id_of(s) {
        Some(id) => seq![id as u32],
        None => seq![255u32],
    }
}

/// Sorts hands by the lower card, then the higher; what is no hand comes last.
pub open spec fn hand_key(s: Seq<char>) -> Seq<u32> {
    match pair_of(s) {
        Some((a, b)) => if a <= b {
            seq![a as u32, b as u32]
        } else {
            seq![b as u32, a as u32]
        },
        None => seq![255u32, 255u32],
    }
}

/// The order of cards by id.
pub open spec fn card_order(cards: Seq<Seq<char>>) -> Seq<usize> {
    order::order_of(cards.map_values(|s: Seq<char>| card_key(s)))
}

/// The order of hands by their cards.
pub open spec fn hand_order(hands: Seq<Seq<char>>) -> Seq<usize> {
    order::order_of(hands.map_values(|s: Seq<char>| hand_key(s)))
}

pub open spec fn back_cards(p: SuitPerm, cards: Seq<Seq<char>>) -> Seq<Seq<char>> {
    cards.map_values(|s: Seq<char>| back_card(p, s))
}

pub open spec fn back_hands(p: SuitPerm, hands: Seq<Seq<char>>) -> Seq<Seq<char>> {
    hands.map_values(|s: Seq<char>| back_hand(p, s))
}

/// Cards in ascending order.
pub open spec fn sorted_cards(cards: Seq<Seq<char>>) -> Seq<Seq<char>> {
    order::in_order(cards, card_order(cards))
}

/// The board in the other space: its first three cards in ascending order, the
/// later ones where they were.
pub open spec fn back_board(p: SuitPerm, board: Seq<Seq<char>>) -> Seq<Seq<char>> {
    let m = back_cards(p, board);
    let n = if m.len() < 3 {
        m.len() as int
    } else {
        3
    };
    sorted_cards(m.take(n)) + m.skip(n)
}

/// A list that runs parallel to the hands, in their new order; one of another
/// length as it is.
pub open spec fn reordered<T>(row: Seq<T>, idx: Seq<usize>) -> Seq<T> {
    if row.len() == idx.len() {
        order::in_order(row, idx)
    } else {
        row
    }
}

/// `r` is the node `n` in the space that `p` maps from.
pub open spec fn moved_back(n: TreeNode, p: SuitPerm, r: TreeNode) -> bool {
    let hands = back_hands(p, text::texts(n.hands@));
    let idx = hand_order(hands);
    &&& r.player@ == n.player@
    &&& r.pot_bb == n.pot_bb
    &&& text::texts(r.actions@) == text::texts(n.actions@)
    &&& text::texts(r.board@) == back_board(p, text::texts(n.board@))
    &&& text::texts(r.dealable@) == sorted_cards(back_cards(p, text::texts(n.dealable@)))
    &&& text::texts(r.line@) == text::texts(n.line@).map_values(|s: Seq<char>| back_label(p, s))
    &&& text::texts(r.hands@) == order::in_order(hands, idx)
    &&& r.weights@ == reordered(n.weights@, idx)
    &&& r.equity@ == reordered(n.equity@, idx)
    &&& r.freqs@.len() == n.freqs@.len()
    &&& forall|a: int| 0 <= a < n.freqs@.len() ==> (#[trigger] r.freqs@[a])@ == reordered(n.freqs@[a]@, idx)
    &&& r.evs@.len() == n.evs@.len()
    &&& forall|a: int| 0 <= a < n.evs@.len() ==> (#[trigger] r.evs@[a])@ == reordered(n.evs@[a]@, idx)
}

proof fn lemma_unmap(p: SuitPerm, q: SuitPerm, id: int)
    requires
        p.wf(),
        forall|s: int| 0 <= s < 4 ==> #[trigger] q.image(s) == p.preimage(s),
        0 <= id < 52,
    ensures
        q.map_id(id) == p.unmap_id(id),
{
    assert(q.image(id % 4) == p.preimage(id % 4));
}

fn cards_back(cards: &Vec<String>, p: &SuitPerm, back: &SuitPerm) -> (r: Vec<String>)
    requires
        p.wf(),
        back.wf(),
        forall|s: int| 0 <= s < 4 ==> #[trigger] back.image(s) == p.preimage(s),
    ensures
        text::texts(r@) == back_cards(*p, text::texts(cards@)),
{
    let mut out: Vec<String> = Vec::new();
    let mut i: usize = 0;
    while i < cards.len()
        invariant
            i <= cards@.len(),
            out@.len() == i,
            p.wf(),
            back.wf(),
            forall|s: int| 0 <= s < 4 ==> #[trigger] back.image(s) == p.preimage(s),
            forall|k: int| 0 <= k < i ==> (#[trigger] out@[k])@ == back_card(*p, cards@[k]@),
        decreases cards@.len() - i,
    {
        let s = match card_id(cards[i].as_str()) {
            Some(id) => {
                proof {
                    lemma_unmap(*p, *back, id as int);
                }
                card_str(back.id(id))
            },
            None => cards[i].clone(),
        };
        out.push(s);
        i = i + 1;
    }
    assert(text::texts(out@) =~= back_cards(*p, text::texts(cards@)));
    out
}

fn hands_back(hands: &Vec<String>, p: &SuitPerm, back: &SuitPerm) -> (r: Vec<String>)
    requires
        p.wf(),
        back.wf(),
        forall|s: int| 0 <= s < 4 ==> #[trigger] back.image(s) == p.preimage(s),
    ensures
        text::texts(r@) == back_hands(*p, text::texts(hands@)),
{
    let mut out: Vec<String> = Vec::new();
    let mut i: usize = 0;
    while i < hands.len()
        invariant
            i <= hands@.len(),
            out@.len() == i,
            p.wf(),
            back.wf(),
            forall|s: int| 0 <= s < 4 ==> #[trigger] back.image(s) == p.preimage(s),
            forall|k: int| 0 <= k < i ==> (#[trigger] out@[k])@ == back_hand(*p, hands@[k]@),
        decreases hands@.len() - i,
    {
        let s = match back.hand(hands[i].as_str()) {
            Some(m) => {
                proof {
                    let q = pair_of(hands@[i as int]@)->0;
                    lemma_pair_range(hands@[i as int]@);
                    lemma_unmap(*p, *back, q.0);
                    lemma_unmap(*p, *back, q.1);
                }
                m
            },
            None => hands[i].clone(),
        };
        out.push(s);
        i = i + 1;
    }
    assert(text::texts(out@) =~= back_hands(*p, text::texts(hands@)));
    out
}

proof fn lemma_pair_range(s: Seq<char>)
    ensures
        pair_of(s) matches Some((a, b)) ==> 0 <= a < 52 && 0 <= b < 52,
{
}

fn labels_back(line: &Vec<String>, p: &SuitPerm, back: &SuitPerm) -> (r: Vec<String>)
    requires
        p.wf(),
        back.wf(),
        forall|s: int| 0 <= s < 4 ==> #[trigger] back.image(s) == p.preimage(s),
    ensures
        text::texts(r@) == text::texts(line@).map_values(|s: Seq<char>| back_label(*p, s)),
{
    let mut out: Vec<String> = Vec::new();
    let mut i: usize = 0;
    while i < line.len()
        invariant
            i <= line@.len(),
            out@.len() == i,
            p.wf(),
            back.wf(),
            forall|s: int| 0 <= s < 4 ==> #[trigger] back.image(s) == p.preimage(s),
            forall|k: int| 0 <= k < i ==> (#[trigger] out@[k])@ == back_label(*p, line@[k]@),
        decreases line@.len() - i,
    {
        let s = match dealt_card(line[i].as_str()) {
            Some(id) => {
                proof {
                    lemma_unmap(*p, *back, id as int);
                }
                let c = card_str(back.id(id));
                text::join2("deal ", c.as_str())
            },
            None => line[i].clone(),
        };
        out.push(s);
        i = i + 1;
    }
    assert(text::texts(out@) =~= text::texts(line@).map_values(
        |s: Seq<char>| back_label(*p, s),
    ));
    out
}

/// A line with its dealt cards in the space that `p` maps from.
pub fn line_back(line: &Vec<String>, p: &SuitPerm) -> (r: Vec<String>)
    requires
        p.wf(),
    ensures
        text::texts(r@) == text::texts(line@).map_values(|s: Seq<char>| back_label(*p, s)),
{
    let back = p.inverse();
    labels_back(line, p, &back)
}

/// The card of a label `deal <card>`.
pub fn dealt_card(label: &str) -> (r: Option<u8>)
    ensures
        r is Some == (label@.len() >= 5 && label@.take(5) == "deal "@ && id_of(label@.skip(5))
            is Some),
        r matches Some(id) ==> id == id_of(label@.skip(5))->0 && id < 52,
{
    let cs = text::chars_of(label);
    let pre = text::chars_of("deal ");
    proof {
        reveal_strlit("deal ");
    }
    if cs.len() != 7 {
        proof {
            if label@.len() >= 5 {
                assert(label@.skip(5).len() == label@.len() - 5);
            }
        }
        return None;
    }
    let head = text::part(cs.as_slice(), 0, 5);
    assert(head@ =~= label@.take(5));
    if !text::same_chars(head.as_slice(), pre.as_slice()) {
        return None;
    }
    assert(label@.skip(5) =~= seq![cs@[5], cs@[6]]);
    id_of_chars(cs[5], cs[6])
}

fn order_cards(cards: &Vec<String>) -> (r: Vec<usize>)
    ensures
        r@ == card_order(text::texts(cards@)),
        r@.len() == cards@.len(),
        forall|i: int| 0 <= i < r@.len() ==> (#[trigger] r@[i]) < cards@.len(),
{
    let mut keys: Vec<Vec<u32>> = Vec::new();
    let mut i: usize = 0;
    while i < cards.len()
        invariant
            i <= cards@.len(),
            keys@.len() == i,
            forall|k: int| 0 <= k < i ==> (#[trigger] keys@[k])@ == card_key(cards@[k]@),
        decreases cards@.len() - i,
    {
        let k: u32 = match card_id(cards[i].as_str()) {
            Some(id) => id as u32,
            None => 255,
        };
        let key: Vec<u32> = vec![k];
        assert(key@ =~= card_key(cards@[i as int]@));
        keys.push(key);
        i = i + 1;
    }
    let idx = order::sorted_positions(&keys);
    proof {
        assert(order::keys_of(keys@) =~= text::texts(cards@).map_values(
            |s: Seq<char>| card_key(s),
        ));
        order::lemma_order_of(order::keys_of(keys@), idx@);
    }
    idx
}

fn order_hands(hands: &Vec<String>) -> (r: Vec<usize>)
    ensures
        r@ == hand_order(text::texts(hands@)),
        r@.len() == hands@.len(),
        forall|i: int| 0 <= i < r@.len() ==> (#[trigger] r@[i]) < hands@.len(),
{
    let mut keys: Vec<Vec<u32>> = Vec::new();
    let mut i: usize = 0;
    while i < hands.len()
        invariant
            i <= hands@.len(),
            keys@.len() == i,
            forall|k: int| 0 <= k < i ==> (#[trigger] keys@[k])@ == hand_key(hands@[k]@),
        decreases hands@.len() - i,
    {
        let key: Vec<u32> = match hand_ids(hands[i].as_str()) {
            Some((a, b)) => if a <= b {
                vec![a as u32, b as u32]
            } else {
                vec![b as u32, a as u32]
            },
            None => vec![255, 255],
        };
        assert(key@ =~= hand_key(hands@[i as int]@));
        keys.push(key);
        i = i + 1;
    }
    let idx = order::sorted_positions(&keys);
    proof {
        assert(order::keys_of(keys@) =~= text::texts(hands@).map_values(
            |s: Seq<char>| hand_key(s),
        ));
        order::lemma_order_of(order::keys_of(keys@), idx@);
    }
    idx
}

fn texts_in_order(v: &Vec<String>, idx: &Vec<usize>) -> (r: Vec<String>)
    requires
        forall|i: int| 0 <= i < idx@.len() ==> (#[trigger] idx@[i]) < v@.len(),
    ensures
        text::texts(r@) == order::in_order(text::texts(v@), idx@),
{
    let r = order::permuted(v.as_slice(), idx.as_slice());
    assert(text::texts(r@) =~= order::in_order(text::texts(v@), idx@)) by {
        assert forall|i: int| 0 <= i < r@.len() implies (#[trigger] r@[i])@ == v@[idx@[i] as int]@ by {
            assert(cloned(v@[idx@[i] as int], r@[i]));
        }
    }
    r
}

fn row_in_order(row: &Vec<F32>, idx: &Vec<usize>) -> (r: Vec<F32>)
    requires
        forall|i: int| 0 <= i < idx@.len() ==> (#[trigger] idx@[i]) < idx@.len(),
    ensures
        r@ == reordered(row@, idx@),
{
    if row.len() == idx.len() {
        let r = order::permuted(row.as_slice(), idx.as_slice());
        assert(r@ =~= order::in_order(row@, idx@)) by {
            assert forall|i: int| 0 <= i < r@.len() implies #[trigger] r@[i] == row@[idx@[i] as int] by {
                assert(cloned(row@[idx@[i] as int], r@[i]));
            }
        }
        r
    } else {
        let r = row.clone();
        assert(r@ =~= row@);
        r
    }
}

fn rows_in_order(rows: &Vec<Vec<F32>>, idx: &Vec<usize>) -> (r: Vec<Vec<F32>>)
    requires
        forall|i: int| 0 <= i < idx@.len() ==> (#[trigger] idx@[i]) < idx@.len(),
    ensures
        r@.len() == rows@.len(),
        forall|a: int| 0 <= a < rows@.len() ==> (#[trigger] r@[a])@ == reordered(rows@[a]@, idx@),
{
    let mut out: Vec<Vec<F32>> = Vec::new();
    let mut i: usize = 0;
    while i < rows.len()
        invariant
            i <= rows@.len(),
            out@.len() == i,
            forall|k: int| 0 <= k < idx@.len() ==> (#[trigger] idx@[k]) < idx@.len(),
            forall|a: int| 0 <= a < i ==> (#[trigger] out@[a])@ == reordered(rows@[a]@, idx@),
        decreases rows@.len() - i,
    {
        out.push(row_in_order(&rows[i], idx));
        i = i + 1;
    }
    out
}

fn board_back(board: &Vec<String>, p: &SuitPerm, back: &SuitPerm) -> (r: Vec<String>)
    requires
        p.wf(),
        back.wf(),
        forall|s: int| 0 <= s < 4 ==> #[trigger] back.image(s) == p.preimage(s),
    ensures
        text::texts(r@) == back_board(*p, text::texts(board@)),
{
    let all = cards_back(board, p, back);
    let n: usize = if all.len() < 3 {
        all.len()
    } else {
        3
    };
    let mut flop: Vec<String> = Vec::new();
    let mut i: usize = 0;
    while i < n
        invariant
            i <= n <= all@.len(),
            flop@.len() == i,
            forall|k: int| 0 <= k < i ==> (#[trigger] flop@[k])@ == all@[k]@,
        decreases n - i,
    {
        flop.push(all[i].clone());
        i = i + 1;
    }
    let idx = order_cards(&flop);
    let mut out = texts_in_order(&flop, &idx);
    let ghost m = back_cards(*p, text::texts(board@));
    let ghost first = text::texts(out@);
    proof {
        assert(text::texts(flop@) =~= m.take(n as int));
        assert(m.skip(n as int).take(0) =~= Seq::empty());
        assert(first + m.skip(n as int).take(0) =~= first);
    }
    while i < all.len()
        invariant
            n <= i <= all@.len(),
            text::texts(all@) == m,
            text::texts(out@) == first + m.skip(n as int).take(i - n),
        decreases all@.len() - i,
    {
        proof {
            assert(m.skip(n as int).take(i + 1 - n) =~= m.skip(n as int).take(i - n).push(
                m[i as int],
            ));
            assert(m[i as int] == all@[i as int]@);
        }
        let ghost before = out@;
        out.push(all[i].clone());
        assert(text::texts(out@) =~= text::texts(before).push(all@[i as int]@));
        i = i + 1;
    }
    assert(m.skip(n as int).take(m.len() - n) =~= m.skip(n as int));
    out
}

/// A stored node in the user's suit space, where `to_stored` maps the user's
/// cards to the stored ones. Cards and hands come in the order in which a solve
/// of the user's flop lists them, and everything that runs parallel to the hands
/// moves with them.
pub fn translate_node(node: TreeNode, to_stored: &SuitPerm) -> (r: TreeNode)
    requires
        to_stored.wf(),
    ensures
        moved_back(node, *to_stored, r),
{
    let back = to_stored.inverse();
    let board = board_back(&node.board, to_stored, &back);
    let cards = cards_back(&node.dealable, to_stored, &back);
    let card_idx = order_cards(&cards);
    let dealable = texts_in_order(&cards, &card_idx);
    let line = labels_back(&node.line, to_stored, &back);
    let moved_hands = hands_back(&node.hands, to_stored, &back);
    let idx = order_hands(&moved_hands);
    let hands = texts_in_order(&moved_hands, &idx);
    let weights = row_in_order(&node.weights, &idx);
    let equity = row_in_order(&node.equity, &idx);
    let freqs = rows_in_order(&node.freqs, &idx);
    let evs = rows_in_order(&node.evs, &idx);
    TreeNode {
        player: node.player,
        board,
        pot_bb: node.pot_bb,
        line,
        actions: node.actions,
        dealable,
        hands,
        freqs,
        evs,
        weights,
        equity,
    }
}

/// A card sent to the stored space and brought back is the same card.
pub proof fn card_there_and_back(p: SuitPerm, id: int)
    requires
        p.wf(),
        0 <= id < 52,
    ensures
        back_card(p, card_text(p.map_id(id))) == card_text(id),
{
    assert(p.0[0] < 4 && p.0[1] < 4 && p.0[2] < 4 && p.0[3] < 4);
    let s = id % 4;
    assert(p.map_id(id) / 4 == id / 4);
    assert(p.map_id(id) % 4 == p.image(s));
    card_round_trip(p.map_id(id));
    assert(p.preimage(p.image(s)) == s) by {
        assert(p.0[0] != p.0[1] && p.0[0] != p.0[2] && p.0[0] != p.0[3]);
        assert(p.0[1] != p.0[2] && p.0[1] != p.0[3] && p.0[2] != p.0[3]);
    }
}

pub(crate) proof fn lemma_flop_text_injective(x: (int, int, int), y: (int, int, int))
    requires
        is_flop(x),
        is_flop(y),
        flop_text(x) == flop_text(y),
    ensures
        x == y,
{
    card_round_trip(x.0);
    card_round_trip(x.1);
    card_round_trip(x.2);
    card_round_trip(y.0);
    card_round_trip(y.1);
    card_round_trip(y.2);
    assert(flop_text(x).subrange(0, 2) =~= card_text(x.0));
    assert(flop_text(x).subrange(2, 4) =~= card_text(x.1));
    assert(flop_text(x).subrange(4, 6) =~= card_text(x.2));
    assert(flop_text(y).subrange(0, 2) =~= card_text(y.0));
    assert(flop_text(y).subrange(2, 4) =~= card_text(y.1));
    assert(flop_text(y).subrange(4, 6) =~= card_text(y.2));
}

/// The renaming of suits that leads from one flop to the canonical flop and from
/// there back to another: where both have the same canonical flop, it carries the
/// cards of the first onto those of the second.
pub proof fn isomorphic_flops_serve_each_other(
    a: Seq<char>,
    b: Seq<char>,
    p: SuitPerm,
    r: SuitPerm,
    q: SuitPerm,
)
    requires
        flop_ids(a) is Some,
        flop_ids(b) is Some,
        canonical_text(a) == canonical_text(b),
        minimizes(flop_ids(a)->0, p),
        minimizes(flop_ids(b)->0, r),
        q.wf(),
        forall|s: int| 0 <= s < 4 ==> #[trigger] q.image(s) == r.preimage(p.image(s)),
    ensures
        ({
            let g = flop_ids(b)->0;
            relabeled(flop_ids(a)->0, q) == sorted3(g.0, g.1, g.2)
        }),
{
    let f = flop_ids(a)->0;
    let g = flop_ids(b)->0;
    lemma_flop_ids(a);
    lemma_flop_ids(b);
    let pf = choose|p: SuitPerm| minimizes(f, p);
    let pg = choose|p: SuitPerm| minimizes(g, p);
    lemma_canonical_text(f, p, pf);
    lemma_canonical_text(g, r, pg);
    lemma_relabeled_sorted(f, p);
    lemma_relabeled_sorted(g, r);
    lemma_flop_text_injective(relabeled(f, p), relabeled(g, r));
    let back = inverted(r);
    lemma_moved_is_flop(g, r);
    lemma_moved_is_flop(f, p);
    // q moves f as p and then the way back from r do.
    lemma_back_from(f.0, p, r, q);
    lemma_back_from(f.1, p, r, q);
    lemma_back_from(f.2, p, r, q);
    let m = moved(f, p);
    let n = moved(g, r);
    assert(q.map_id(f.0) == back.map_id(m.0));
    assert(q.map_id(f.1) == back.map_id(m.1));
    assert(q.map_id(f.2) == back.map_id(m.2));
    assert(relabeled(f, q) == relabeled(m, back)) by {
        reveal(relabeled);
    }
    lemma_order_free(m, back);
    lemma_order_free(n, back);
    assert(moved(n, back) == g);
    assert(back.map_id(n.0) == g.0 && back.map_id(n.1) == g.1 && back.map_id(n.2) == g.2);
    assert(relabeled(n, back) == sorted3(g.0, g.1, g.2)) by {
        reveal(relabeled);
    }
}

proof fn lemma_back_from(id: int, p: SuitPerm, r: SuitPerm, q: SuitPerm)
    requires
        0 <= id < 52,
        p.wf(),
        r.wf(),
        forall|s: int| 0 <= s < 4 ==> #[trigger] q.image(s) == r.preimage(p.image(s)),
    ensures
        q.map_id(id) == inverted(r).map_id(p.map_id(id)),
{
    let s = id % 4;
    assert(0 <= p.image(s) < 4);
    let t = p.image(s);
    assert(p.map_id(id) % 4 == t);
    assert(p.map_id(id) / 4 == id / 4);
    assert(inverted(r).image(t) == r.preimage(t));
    assert(q.image(s) == r.preimage(t));
}

// ---------------------------------------------------------------- laws of nodes

/// The keys by which cards are ordered.
pub open spec fn card_keys(cards: Seq<Seq<char>>) -> Seq<Seq<u32>> {
    cards.map_values(|s: Seq<char>| card_key(s))
}

/// The keys by which hands are ordered.
pub open spec fn hand_keys(hands: Seq<Seq<char>>) -> Seq<Seq<u32>> {
    hands.map_values(|s: Seq<char>| hand_key(s))
}

/// Keys in ascending order, equal ones side by side.
pub open spec fn not_descending(keys: Seq<Seq<u32>>) -> bool {
    forall|i: int, j: int|
        0 <= i < j < keys.len() ==> order::lex_le(#[trigger] keys[i], #[trigger] keys[j])
}

proof fn lemma_read_in_order(keys: Seq<Seq<u32>>)
    requires
        keys.len() <= usize::MAX,
    ensures
        order::rearranges(order::order_of(keys), keys.len() as int),
        not_descending(order::in_order(keys, order::order_of(keys))),
{
    let idx = order::order_of(keys);
    order::lemma_order_of_is_stable(keys);
    order::lemma_stable_order_onto(keys, idx);
    let read = order::in_order(keys, idx);
    assert forall|i: int, j: int| 0 <= i < j < read.len() implies order::lex_le(
        #[trigger] read[i],
        #[trigger] read[j],
    ) by {
        assert(order::comes_before(keys, idx[i] as int, idx[j] as int));
    }
}

proof fn lemma_cards_ascend(cards: Seq<Seq<char>>)
    requires
        cards.len() <= usize::MAX,
    ensures
        not_descending(card_keys(sorted_cards(cards))),
{
    let keys = card_keys(cards);
    lemma_read_in_order(keys);
    assert(card_order(cards) == order::order_of(keys));
    assert(card_keys(sorted_cards(cards)) =~= order::in_order(keys, order::order_of(keys)));
}

/// However a stored node lists them, the node that is served lists the cards of
/// the flop and the cards that can be dealt in ascending order, and the hands by
/// their lower card and then their higher.
pub proof fn served_lists_ascend(n: TreeNode, p: SuitPerm, r: TreeNode)
    requires
        p.wf(),
        moved_back(n, p, r),
    ensures
        not_descending(card_keys(text::texts(r.dealable@))),
        not_descending(hand_keys(text::texts(r.hands@))),
        ({
            let b = card_keys(text::texts(r.board@));
            forall|i: int, j: int|
                0 <= i < j < b.len() && j < 3 ==> order::lex_le(#[trigger] b[i], #[trigger] b[j])
        }),
{
    assert(n.dealable.len() == n.dealable@.len());
    assert(n.hands.len() == n.hands@.len());
    assert(n.board.len() == n.board@.len());
    lemma_cards_ascend(back_cards(p, text::texts(n.dealable@)));
    let hands = back_hands(p, text::texts(n.hands@));
    let keys = hand_keys(hands);
    lemma_read_in_order(keys);
    assert(hand_order(hands) == order::order_of(keys));
    assert(hand_keys(order::in_order(hands, hand_order(hands))) =~= order::in_order(
        keys,
        order::order_of(keys),
    ));
    let m = back_cards(p, text::texts(n.board@));
    let k = if m.len() < 3 {
        m.len() as int
    } else {
        3
    };
    let first = sorted_cards(m.take(k));
    lemma_cards_ascend(m.take(k));
    lemma_read_in_order(card_keys(m.take(k)));
    let b = card_keys(text::texts(r.board@));
    assert forall|i: int, j: int| 0 <= i < j < b.len() && j < 3 implies order::lex_le(
        #[trigger] b[i],
        #[trigger] b[j],
    ) by {
        assert(first.len() == k);
        assert(b[i] == card_keys(first)[i] && b[j] == card_keys(first)[j]);
    }
}

/// Place `j` of `r` holds what place `i` of `n` held: the hand, moved, and all
/// that runs parallel to it.
pub open spec fn came_from(n: TreeNode, p: SuitPerm, r: TreeNode, i: int, j: int) -> bool {
    let hands = n.hands@.len();
    &&& r.hands@[j]@ == back_hand(p, n.hands@[i]@)
    &&& n.weights@.len() == hands ==> r.weights@[j] == n.weights@[i]
    &&& n.equity@.len() == hands ==> r.equity@[j] == n.equity@[i]
    &&& forall|a: int|
        0 <= a < n.freqs@.len() && n.freqs@[a]@.len() == hands ==> (#[trigger] r.freqs@[a])@[j]
            == n.freqs@[a]@[i]
    &&& forall|a: int|
        0 <= a < n.evs@.len() && n.evs@[a]@.len() == hands ==> (#[trigger] r.evs@[a])@[j]
            == n.evs@[a]@[i]
}

/// What place `j` of `r` holds was in `n`.
pub open spec fn has_origin(n: TreeNode, p: SuitPerm, r: TreeNode, j: int) -> bool {
    exists|i: int| 0 <= i < n.hands@.len() && #[trigger] came_from(n, p, r, i, j)
}

/// What place `i` of `n` held is in `r`.
pub open spec fn is_kept(n: TreeNode, p: SuitPerm, r: TreeNode, i: int) -> bool {
    exists|j: int| 0 <= j < r.hands@.len() && #[trigger] came_from(n, p, r, i, j)
}

/// Where the hands of a node are served in another order, each takes its weight,
/// its equity, its frequencies and its EVs along, and none is lost.
pub proof fn columns_move_with_their_hands(n: TreeNode, p: SuitPerm, r: TreeNode)
    requires
        p.wf(),
        moved_back(n, p, r),
    ensures
        r.hands@.len() == n.hands@.len(),
        forall|j: int| 0 <= j < r.hands@.len() ==> #[trigger] has_origin(n, p, r, j),
        forall|i: int| 0 <= i < n.hands@.len() ==> #[trigger] is_kept(n, p, r, i),
{
    assert(n.hands.len() == n.hands@.len());
    let hands = back_hands(p, text::texts(n.hands@));
    let keys = hand_keys(hands);
    let idx = hand_order(hands);
    order::lemma_order_of_is_stable(keys);
    order::lemma_stable_order_onto(keys, idx);
    assert(text::texts(r.hands@).len() == r.hands@.len());
    assert forall|j: int| 0 <= j < r.hands@.len() implies came_from(n, p, r, idx[j] as int, j) by {
        let i = idx[j] as int;
        assert(i < keys.len());
        assert(text::texts(r.hands@)[j] == r.hands@[j]@);
        assert(text::texts(n.hands@)[i] == n.hands@[i]@);
        assert(r.hands@[j]@ == back_hand(p, n.hands@[i]@));
    }
    assert forall|j: int| 0 <= j < r.hands@.len() implies #[trigger] has_origin(n, p, r, j) by {
        assert(idx[j] < keys.len());
        assert(came_from(n, p, r, idx[j] as int, j));
    }
    assert forall|i: int| 0 <= i < n.hands@.len() implies #[trigger] is_kept(n, p, r, i) by {
        assert(idx.contains(i as usize));
        let j = choose|j: int| 0 <= j < idx.len() && idx[j] == i as usize;
        assert(came_from(n, p, r, idx[j] as int, j));
    }
}

/// A card as it is written here.
pub open spec fn shown_card(s: Seq<char>) -> bool {
    id_of(s) is Some && s == card_text(id_of(s)->0)
}

/// A hand as it is written here: two cards, the higher first.
pub open spec fn shown_hand(s: Seq<char>) -> bool {
    pair_of(s) is Some && s == hand_text((pair_of(s)->0).0, (pair_of(s)->0).1)
}

/// A label whose card, where it has one, is written as cards are here.
pub open spec fn shown_label(s: Seq<char>) -> bool {
    s.len() >= 5 && s.take(5) == "deal "@ && id_of(s.skip(5)) is Some ==> shown_card(s.skip(5))
}

/// A node as a solve lists it: no card and no hand twice, the flop, the cards
/// that can be dealt and the hands in ascending order.
pub open spec fn as_solved(n: TreeNode) -> bool {
    let board = text::texts(n.board@);
    let dealable = text::texts(n.dealable@);
    let hands = text::texts(n.hands@);
    let line = text::texts(n.line@);
    &&& forall|i: int| 0 <= i < board.len() ==> shown_card(#[trigger] board[i])
    &&& order::ascending(
        card_keys(
            board.take(
                if board.len() < 3 {
                    board.len() as int
                } else {
                    3
                },
            ),
        ),
    )
    &&& forall|i: int| 0 <= i < dealable.len() ==> shown_card(#[trigger] dealable[i])
    &&& order::ascending(card_keys(dealable))
    &&& forall|i: int| 0 <= i < hands.len() ==> shown_hand(#[trigger] hands[i])
    &&& order::ascending(hand_keys(hands))
    &&& forall|i: int| 0 <= i < line.len() ==> shown_label(#[trigger] line[i])
}

/// The relabeling `q` undoes `p`.
pub open spec fn undoes(q: SuitPerm, p: SuitPerm) -> bool {
    forall|s: int| 0 <= s < 4 ==> #[trigger] q.image(s) == p.preimage(s)
}

proof fn lemma_unmap_twice(p: SuitPerm, q: SuitPerm, id: int)
    requires
        p.wf(),
        undoes(q, p),
        0 <= id < 52,
    ensures
        0 <= p.unmap_id(id) < 52,
        q.unmap_id(p.unmap_id(id)) == id,
{
    assert(p.0[0] < 4 && p.0[1] < 4 && p.0[2] < 4 && p.0[3] < 4);
    assert(p.0[0] != p.0[1] && p.0[0] != p.0[2] && p.0[0] != p.0[3]);
    assert(p.0[1] != p.0[2] && p.0[1] != p.0[3] && p.0[2] != p.0[3]);
    let t = id % 4;
    let s = p.preimage(t);
    assert(q.image(0) == p.preimage(0) && q.image(1) == p.preimage(1));
    assert(q.image(2) == p.preimage(2) && q.image(3) == p.preimage(3));
    assert(p.unmap_id(id) / 4 == id / 4);
    assert(p.unmap_id(id) % 4 == s);
    assert(q.preimage(s) == t);
}

proof fn lemma_card_twice(p: SuitPerm, q: SuitPerm, s: Seq<char>)
    requires
        p.wf(),
        undoes(q, p),
        shown_card(s),
    ensures
        back_card(q, back_card(p, s)) == s,
{
    let id = id_of(s)->0;
    lemma_unmap_twice(p, q, id);
    card_round_trip(p.unmap_id(id));
}

proof fn lemma_pair_of_hand(a: int, b: int)
    requires
        0 <= a < 52,
        0 <= b < 52,
    ensures
        a >= b ==> pair_of(hand_text(a, b)) == Some((a, b)),
        a < b ==> pair_of(hand_text(a, b)) == Some((b, a)),
{
    card_round_trip(a);
    card_round_trip(b);
    let h = hand_text(a, b);
    let (x, y) = if a >= b {
        (a, b)
    } else {
        (b, a)
    };
    assert(h.subrange(0, 2) =~= card_text(x));
    assert(h.subrange(2, 4) =~= card_text(y));
}

proof fn lemma_hand_twice(p: SuitPerm, q: SuitPerm, s: Seq<char>)
    requires
        p.wf(),
        undoes(q, p),
        shown_hand(s),
    ensures
        back_hand(q, back_hand(p, s)) == s,
{
    lemma_pair_range(s);
    let (a, b) = pair_of(s)->0;
    lemma_unmap_twice(p, q, a);
    lemma_unmap_twice(p, q, b);
    lemma_pair_of_hand(a, b);
    lemma_pair_of_hand(p.unmap_id(a), p.unmap_id(b));
}

proof fn lemma_label_twice(p: SuitPerm, q: SuitPerm, s: Seq<char>)
    requires
        p.wf(),
        undoes(q, p),
        shown_label(s),
    ensures
        back_label(q, back_label(p, s)) == s,
{
    if s.len() >= 5 && s.take(5) == "deal "@ && id_of(s.skip(5)) is Some {
        let id = id_of(s.skip(5))->0;
        lemma_unmap_twice(p, q, id);
        card_round_trip(p.unmap_id(id));
        reveal_strlit("deal ");
        let t = back_label(p, s);
        assert(t.take(5) =~= "deal "@);
        assert(t.skip(5) =~= card_text(p.unmap_id(id)));
        assert(s =~= s.take(5) + s.skip(5));
    }
}

/// The cards moved there, sorted, moved back and sorted again are what they were.
proof fn lemma_cards_twice(p: SuitPerm, q: SuitPerm, cards: Seq<Seq<char>>)
    requires
        p.wf(),
        undoes(q, p),
        cards.len() <= usize::MAX,
        forall|i: int| 0 <= i < cards.len() ==> shown_card(#[trigger] cards[i]),
        order::ascending(card_keys(cards)),
    ensures
        sorted_cards(back_cards(q, sorted_cards(back_cards(p, cards)))) == cards,
{
    let there = back_cards(p, cards);
    let idx = card_order(there);
    order::lemma_order_of_is_stable(card_keys(there));
    order::lemma_stable_order_onto(card_keys(there), idx);
    let again = back_cards(q, sorted_cards(there));
    assert forall|j: int| 0 <= j < cards.len() implies #[trigger] again[j] == cards[idx[j] as int] by {
        let i = idx[j] as int;
        assert(idx[j] < card_keys(there).len());
        assert(there[i] == back_card(p, cards[i]));
        lemma_card_twice(p, q, cards[i]);
    }
    let back = card_order(again);
    order::lemma_order_of_is_stable(card_keys(again));
    assert(card_keys(again) =~= order::in_order(card_keys(cards), idx)) by {
        assert forall|j: int| 0 <= j < cards.len() implies #[trigger] card_keys(again)[j]
            == card_keys(cards)[idx[j] as int] by {
            assert(idx[j] < card_keys(there).len());
            assert(again[j] == cards[idx[j] as int]);
        }
    }
    order::lemma_sorted_back(card_keys(cards), idx, back);
    assert forall|j: int| 0 <= j < cards.len() implies #[trigger] sorted_cards(again)[j] == cards[j] by {
        assert(back[j] < cards.len());
        assert(again[back[j] as int] == cards[idx[back[j] as int] as int]);
    }
    assert(sorted_cards(again) =~= cards);
}

/// A list parallel to the hands is brought back to its order with them.
proof fn lemma_row_twice<T>(row: Seq<T>, idx: Seq<usize>, back: Seq<usize>)
    requires
        order::rearranges(idx, idx.len() as int),
        back.len() == idx.len(),
        forall|j: int|
            0 <= j < idx.len() ==> (#[trigger] back[j]) < idx.len() && idx[back[j] as int] == j,
    ensures
        reordered(reordered(row, idx), back) == row,
{
    if row.len() == idx.len() {
        let there = order::in_order(row, idx);
        assert forall|j: int| 0 <= j < row.len() implies #[trigger] order::in_order(there, back)[j]
            == row[j] by {
            assert(back[j] < idx.len());
        }
        assert(order::in_order(there, back) =~= row);
    }
}

/// A node of a solve that is moved into another suit space and back is the same
/// node.
pub proof fn nodes_there_and_back(n: TreeNode, p: SuitPerm, q: SuitPerm, m: TreeNode, r: TreeNode)
    requires
        p.wf(),
        undoes(q, p),
        as_solved(n),
        moved_back(n, p, m),
        moved_back(m, q, r),
    ensures
        tree::same_node(r, n),
{
    assert(n.dealable.len() == n.dealable@.len());
    assert(n.hands.len() == n.hands@.len());
    assert(n.board.len() == n.board@.len());
    let board = text::texts(n.board@);
    let hands = text::texts(n.hands@);
    let line = text::texts(n.line@);
    lemma_cards_twice(p, q, text::texts(n.dealable@));
    lemma_board_twice(p, q, board);
    // The line.
    let moved_line = text::texts(m.line@);
    assert forall|i: int| 0 <= i < line.len() implies #[trigger] text::texts(r.line@)[i] == line[i] by {
        assert(moved_line[i] == back_label(p, line[i]));
        assert(shown_label(line[i]));
        lemma_label_twice(p, q, line[i]);
    }
    assert(text::texts(r.line@) =~= line);
    // The hands.
    let there = back_hands(p, hands);
    let idx = hand_order(there);
    order::lemma_order_of_is_stable(hand_keys(there));
    order::lemma_stable_order_onto(hand_keys(there), idx);
    let again = back_hands(q, text::texts(m.hands@));
    assert forall|j: int| 0 <= j < hands.len() implies #[trigger] again[j] == hands[idx[j] as int] by {
        let i = idx[j] as int;
        assert(idx[j] < hand_keys(there).len());
        assert(there[i] == back_hand(p, hands[i]));
        assert(text::texts(m.hands@)[j] == there[i]);
        assert(shown_hand(hands[i]));
        lemma_hand_twice(p, q, hands[i]);
    }
    let back = hand_order(again);
    order::lemma_order_of_is_stable(hand_keys(again));
    assert(hand_keys(again) =~= order::in_order(hand_keys(hands), idx)) by {
        assert forall|j: int| 0 <= j < hands.len() implies #[trigger] hand_keys(again)[j]
            == hand_keys(hands)[idx[j] as int] by {
            assert(idx[j] < hand_keys(there).len());
            assert(again[j] == hands[idx[j] as int]);
        }
    }
    order::lemma_sorted_back(hand_keys(hands), idx, back);
    assert forall|j: int| 0 <= j < hands.len() implies #[trigger] text::texts(r.hands@)[j]
        == hands[j] by {
        assert(back[j] < hands.len());
        assert(again[back[j] as int] == hands[idx[back[j] as int] as int]);
    }
    assert(text::texts(r.hands@) =~= hands);
    // What runs parallel to them.
    lemma_row_twice(n.weights@, idx, back);
    lemma_row_twice(n.equity@, idx, back);
    assert forall|a: int| 0 <= a < r.freqs@.len() implies (#[trigger] r.freqs@[a])@ == n.freqs@[a]@ by {
        assert(m.freqs@[a]@ == reordered(n.freqs@[a]@, idx));
        lemma_row_twice(n.freqs@[a]@, idx, back);
    }
    assert forall|a: int| 0 <= a < r.evs@.len() implies (#[trigger] r.evs@[a])@ == n.evs@[a]@ by {
        assert(m.evs@[a]@ == reordered(n.evs@[a]@, idx));
        lemma_row_twice(n.evs@[a]@, idx, back);
    }
}

proof fn lemma_board_twice(p: SuitPerm, q: SuitPerm, board: Seq<Seq<char>>)
    requires
        p.wf(),
        undoes(q, p),
        board.len() <= usize::MAX,
        forall|i: int| 0 <= i < board.len() ==> shown_card(#[trigger] board[i]),
        order::ascending(
            card_keys(
                board.take(
                    if board.len() < 3 {
                        board.len() as int
                    } else {
                        3
                    },
                ),
            ),
        ),
    ensures
        back_board(q, back_board(p, board)) == board,
{
    let k = if board.len() < 3 {
        board.len() as int
    } else {
        3
    };
    let flop = board.take(k);
    let there = back_cards(p, board);
    let first = sorted_cards(there.take(k));
    lemma_read_in_order(card_keys(there.take(k)));
    assert(first.len() == k);
    assert(there.take(k) =~= back_cards(p, flop));
    assert forall|i: int| 0 <= i < flop.len() implies shown_card(#[trigger] flop[i]) by {
        assert(shown_card(board[i]));
    }
    lemma_cards_twice(p, q, flop);
    let mid = back_board(p, board);
    assert(mid == first + there.skip(k));
    let again = back_cards(q, mid);
    assert(again.take(k) =~= back_cards(q, first));
    assert(again.skip(k) =~= board.skip(k)) by {
        assert forall|i: int| 0 <= i < board.len() - k implies #[trigger] again.skip(k)[i]
            == board.skip(k)[i] by {
            assert(mid[i + k] == there[i + k]);
            assert(shown_card(board[i + k]));
            lemma_card_twice(p, q, board[i + k]);
        }
    }
    assert(board =~= board.take(k) + board.skip(k));
}

/// A card is written by the letters of its rank, the two lowest and the ace
/// highest, and of its suit, and is read in either case.
pub proof fn cards_have_their_letters(id: int)
    requires
        0 <= id < 52,
    ensures
        card_text(id) == seq!["23456789TJQKA"@[id / 4], "cdhs"@[id % 4]],
        id_of(seq![text::lower(card_text(id)[0]), text::upper(card_text(id)[1])]) == Some(id),
{
    reveal_strlit("23456789TJQKA");
    reveal_strlit("cdhs");
    let r = id / 4;
    let t = card_text(id);
    assert(rank_char(r) == "23456789TJQKA"@[r]);
    assert(suit_char(id % 4) == "cdhs"@[id % 4]);
    assert(rank_index(text::lower(t[0])) == Some(r));
    assert(suit_index(text::upper(t[1])) == Some(id % 4));
}

/// Relabeling keeps the rank of a card and changes its suit to the image of it, and
/// takes different cards to different cards.
pub proof fn relabeling_keeps_ranks(p: SuitPerm, id: int, other: int)
    requires
        p.wf(),
        0 <= id < 52,
        0 <= other < 52,
    ensures
        0 <= p.map_id(id) < 52,
        p.map_id(id) / 4 == id / 4,
        p.map_id(id) % 4 == p.image(id % 4),
        p.map_id(id) == p.map_id(other) ==> id == other,
        p.unmap_id(p.map_id(id)) == id,
{
    let (s, t) = (id % 4, other % 4);
    assert(p.0[s] < 4 && p.0[t] < 4);
    if s < t {
        assert(p.0[s] != p.0[t]);
    } else if t < s {
        assert(p.0[t] != p.0[s]);
    }
    if 0 < s {
        assert(p.0[0] != p.0[s]);
    }
    if 1 < s {
        assert(p.0[1] != p.0[s]);
    }
    if 2 < s {
        assert(p.0[2] != p.0[s]);
    }
}

/// Three numbers come out in ascending order, and they are the same three.
pub proof fn three_numbers_are_sorted(a: int, b: int, c: int)
    ensures
        sorted3(a, b, c).0 <= sorted3(a, b, c).1 <= sorted3(a, b, c).2,
        seq![sorted3(a, b, c).0, sorted3(a, b, c).1, sorted3(a, b, c).2].to_multiset() == seq![
            a,
            b,
            c,
        ].to_multiset(),
{
    let r = sorted3(a, b, c);
    lemma_three_items(r.0, r.1, r.2);
    lemma_three_items(a, b, c);
    let m = |x: int, y: int, z: int|
        vstd::multiset::Multiset::singleton(x).add(vstd::multiset::Multiset::singleton(y)).add(
            vstd::multiset::Multiset::singleton(z),
        );
    assert(m(r.0, r.1, r.2) =~= m(a, b, c));
}

proof fn lemma_three_items(a: int, b: int, c: int)
    ensures
        seq![a, b, c].to_multiset() == vstd::multiset::Multiset::singleton(a).add(
            vstd::multiset::Multiset::singleton(b),
        ).add(vstd::multiset::Multiset::singleton(c)),
{
    broadcast use vstd::seq_lib::group_to_multiset_ensures;

    let e = Seq::<int>::empty();
    assert(seq![a, b, c] =~= e.push(a).push(b).push(c));
    assert(e.to_multiset() =~= vstd::multiset::Multiset::empty());
    assert(e.push(a).to_multiset() =~= e.to_multiset().insert(a));
    assert(e.push(a).push(b).to_multiset() =~= e.push(a).to_multiset().insert(b));
    assert(e.push(a).push(b).push(c).to_multiset() =~= e.push(a).push(b).to_multiset().insert(c));
    assert(seq![a, b, c].to_multiset() =~= vstd::multiset::Multiset::singleton(a).add(
        vstd::multiset::Multiset::singleton(b),
    ).add(vstd::multiset::Multiset::singleton(c)));
}

/// A hand is written the same way whichever card comes first, the higher one in
/// front, and is read back so.
pub proof fn hands_are_written_higher_card_first(a: int, b: int)
    requires
        0 <= b <= a < 52,
    ensures
        hand_text(a, b) == hand_text(b, a),
        pair_of(hand_text(a, b)) == Some((a, b)),
{
    card_round_trip(a);
    card_round_trip(b);
    let t = hand_text(a, b);
    assert(t.subrange(0, 2) =~= card_text(a));
    assert(t.subrange(2, 4) =~= card_text(b));
    if a == b {
        assert(hand_text(b, a) =~= t);
    }
}

} // verus!
