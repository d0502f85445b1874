//! Equities before the flop: classes of hands against each other over all
//! boards, and samples of deals with several players.

use crate::board;
use crate::board::Card;
use crate::eval;
use crate::order;
use crate::preflop;
use rand::rngs::SmallRng;
use vstd::prelude::*;

verus! {

/// How many classes of hands there are.
pub const CLASSES: usize = 169;

/// The holdings of a class: 6 for a pair, 4 suited, 12 offsuit.
pub fn combos_of(class: usize) -> (r: Vec<[Card; 2]>)
    requires
        class < CLASSES,
    ensures
        r@ == preflop::class_holdings(class as int),
        r@.len() == preflop::combos_in(class as int),
        forall|k: int| 0 <= k < r@.len() ==> board::all_cards((#[trigger] r@[k])@),
{
    preflop::class_combos_cards(class)
}

/// One holding of a class.
pub fn canonical(class: usize) -> (r: [Card; 2])
    requires
        class < CLASSES,
    ensures
        r == preflop::class_holdings(class as int)[0],
        board::all_cards(r@),
{
    let v = combos_of(class);
    v[0]
}

// ---------------------------------------------------------------- enumeration

/// The points of a hand against others on a board, and how many of them it
/// meets: those that hold no card of the board.
pub open spec fn board_tally(hero: [Card; 2], villains: Seq<[Card; 2]>, board: Seq<Card>, n: int) -> (
    int,
    int,
)
    decreases n,
{
    if n <= 0 {
        (0, 0)
    } else {
        let t = board_tally(hero, villains, board, n - 1);
        let v = villains[n - 1];
        if board.contains(v[0]) || board.contains(v[1]) {
            t
        } else {
            (t.0 + eval::showdown_points(hero, v, board, Seq::<Card>::empty()), t.1 + 1)
        }
    }
}

/// The points over all boards that complete `chosen` with cards of the deck from
/// `from` on, and how many pairs of a board and another hand they come from.
pub open spec fn total_tally(
    hero: [Card; 2],
    villains: Seq<[Card; 2]>,
    deck: Seq<Card>,
    from: int,
    chosen: Seq<Card>,
) -> (int, int)
    decreases deck.len() - from,
{
    if chosen.len() >= 5 {
        board_tally(hero, villains, chosen, villains.len() as int)
    } else if from >= deck.len() {
        (0, 0)
    } else {
        let with = total_tally(hero, villains, deck, from + 1, chosen.push(deck[from]));
        let without = total_tally(hero, villains, deck, from + 1, chosen);
        (with.0 + without.0, with.1 + without.1)
    }
}

/// The points that a hand takes, in halves, and out of how many meetings.
#[derive(Debug, Clone, Copy)]
pub struct Tally {
    pub half_points: u64,
    pub meetings: u64,
}

fn tally_board(hero: [Card; 2], villains: &Vec<[Card; 2]>, board: &Vec<Card>) -> (r: Tally)
    requires
        board@.len() == 5,
        board::all_cards(board@),
        board::all_cards(hero@),
        villains@.len() <= 12,
        forall|k: int| 0 <= k < villains@.len() ==> board::all_cards((#[trigger] villains@[k])@),
    ensures
        (r.half_points as int, r.meetings as int) == board_tally(
            hero,
            villains@,
            board@,
            villains@.len() as int,
        ),
        r.meetings <= villains@.len(),
        r.half_points <= 2 * r.meetings,
{
    let none: Vec<Card> = Vec::new();
    assert(none@ =~= Seq::<Card>::empty());
    let mut half_points: u64 = 0;
    let mut meetings: u64 = 0;
    let mut i: usize = 0;
    while i < villains.len()
        invariant
            i <= villains@.len(),
            villains@.len() <= 12,
            board@.len() == 5,
            none@ == Seq::<Card>::empty(),
            board::all_cards(board@),
            board::all_cards(hero@),
            forall|k: int| 0 <= k < villains@.len() ==> board::all_cards((#[trigger] villains@[k])@),
            (half_points as int, meetings as int) == board_tally(hero, villains@, board@, i as int),
            meetings <= i,
            half_points <= 2 * meetings,
        decreases villains@.len() - i,
    {
        let v = villains[i];
        if !board::holds(board.as_slice(), v[0]) && !board::holds(board.as_slice(), v[1]) {
            let p: u64 = eval::showdown(hero, v, board.as_slice(), none.as_slice());
            half_points = half_points + p;
            meetings = meetings + 1;
        }
        i = i + 1;
    }
    Tally { half_points, meetings }
}

fn tally_from(
    hero: [Card; 2],
    villains: &Vec<[Card; 2]>,
    deck: &Vec<Card>,
    from: usize,
    chosen: &mut Vec<Card>,
) -> (r: Tally)
    requires
        from <= deck@.len() <= 50,
        old(chosen)@.len() <= 5,
        board::all_cards(old(chosen)@),
        board::all_cards(deck@),
        board::all_cards(hero@),
        villains@.len() <= 12,
        forall|k: int| 0 <= k < villains@.len() ==> board::all_cards((#[trigger] villains@[k])@),
    ensures
        final(chosen)@ == old(chosen)@,
        (r.half_points as int, r.meetings as int) == total_tally(
            hero,
            villains@,
            deck@,
            from as int,
            old(chosen)@,
        ),
        r.meetings <= 12 * vstd::arithmetic::power2::pow2((deck@.len() - from) as nat),
        r.half_points <= 2 * r.meetings,
    decreases deck@.len() - from,
{
    let ghost start = chosen@;
    proof {
        vstd::arithmetic::power2::lemma_pow2_pos((deck@.len() - from) as nat);
    }
    if chosen.len() == 5 {
        return tally_board(hero, villains, chosen);
    }
    if from == deck.len() {
        return Tally { half_points: 0, meetings: 0 };
    }
    let c = deck[from];
    assert(c.wf());
    chosen.push(c);
    assert(board::all_cards(chosen@));
    let a = tally_from(hero, villains, deck, from + 1, chosen);
    let _ = chosen.pop();
    assert(chosen@ =~= start);
    let b = tally_from(hero, villains, deck, from + 1, chosen);
    proof {
        let n = (deck@.len() - from) as nat;
        vstd::arithmetic::power2::lemma_pow2_unfold(n);
        vstd::arithmetic::power2::lemma2_to64();
        if n < 50 {
            vstd::arithmetic::power2::lemma_pow2_strictly_increases(n, 50);
        }
        assert(vstd::arithmetic::power2::pow2(50) == 0x4_0000_0000_0000) by {
            vstd::arithmetic::power2::lemma2_to64_rest();
        }
    }
    Tally { half_points: a.half_points + b.half_points, meetings: a.meetings + b.meetings }
}

/// The other class's holdings that share no card with a hand.
pub open spec fn unblocked(villains: Seq<[Card; 2]>, hero: [Card; 2]) -> Seq<[Card; 2]> {
    villains.filter(|v: [Card; 2]| !hero@.contains(v[0]) && !hero@.contains(v[1]))
}

/// One class against another: a holding of the first against every holding of
/// the second that shares no card with it, on every board of five other cards.
/// One holding is enough, as suits can be renamed.
pub fn exact_pair_equity(hero_class: usize, villain_class: usize) -> (r: Tally)
    requires
        hero_class < CLASSES,
        villain_class < CLASSES,
    ensures
        ({
            let hero = preflop::class_holdings(hero_class as int)[0];
            (r.half_points as int, r.meetings as int) == total_tally(
                hero,
                unblocked(preflop::class_holdings(villain_class as int), hero),
                eval::unknown_cards(hero@, 52),
                0,
                Seq::empty(),
            )
        }),
{
    let hero = canonical(hero_class);
    let all = combos_of(villain_class);
    let ghost keep = |v: [Card; 2]| !hero@.contains(v[0]) && !hero@.contains(v[1]);
    let mut villains: Vec<[Card; 2]> = Vec::new();
    let mut i: usize = 0;
    proof {
        reveal(Seq::filter);
        assert(all@.take(0).filter(keep) =~= Seq::empty());
    }
    while i < all.len()
        invariant
            i <= all@.len(),
            all@.len() <= 12,
            keep == (|v: [Card; 2]| !hero@.contains(v[0]) && !hero@.contains(v[1])),
            villains@ == all@.take(i as int).filter(keep),
            villains@.len() <= i,
            forall|k: int| 0 <= k < all@.len() ==> board::all_cards((#[trigger] all@[k])@),
            forall|k: int| 0 <= k < villains@.len() ==> board::all_cards((#[trigger] villains@[k])@),
        decreases all@.len() - i,
    {
        let v = all[i];
        proof {
            reveal(Seq::filter);
            assert(all@.take(i + 1).drop_last() =~= all@.take(i as int));
            assert(all@.take(i + 1).last() == v);
            assert(board::all_cards(all@[i as int]@));
        }
        if !board::holds(hero.as_slice(), v[0]) && !board::holds(hero.as_slice(), v[1]) {
            villains.push(v);
        }
        i = i + 1;
    }
    assert(all@.take(i as int) =~= all@);
    let deck = eval::rest_of_deck(hero.as_slice());
    proof {
        lemma_fifty(hero);
    }
    let mut chosen: Vec<Card> = Vec::new();
    assert(chosen@ =~= Seq::<Card>::empty());
    tally_from(hero, &villains, &deck, 0, &mut chosen)
}

proof fn lemma_fifty(hero: [Card; 2])
    requires
        board::all_cards(hero@),
        hero[0] != hero[1],
    ensures
        eval::unknown_cards(hero@, 52).len() == 50,
{
    lemma_unknown_count(hero, 52);
}

proof fn lemma_unknown_count(hero: [Card; 2], n: int)
    requires
        board::all_cards(hero@),
        hero[0] != hero[1],
        0 <= n <= 52,
    ensures
        eval::unknown_cards(hero@, n).len() == n - (if hero[0].index() < n {
            1int
        } else {
            0int
        }) - (if hero[1].index() < n {
            1int
        } else {
            0int
        }),
    decreases n,
{
    assert(hero@[0].wf() && hero@[1].wf());
    if n > 0 {
        lemma_unknown_count(hero, n - 1);
        let c = Card { rank: ((n - 1) / 4 + 2) as u8, suit: ((n - 1) % 4) as u8 };
        assert(c.wf() && c.index() == n - 1);
        if hero[0].index() == hero[1].index() {
            board::lemma_index_injective(hero[0], hero[1]);
        }
        if hero@.contains(c) {
            let i = choose|i: int| 0 <= i < hero@.len() && hero@[i] == c;
            assert(i == 0 || i == 1);
        }
        if hero[0].index() == n - 1 {
            board::lemma_index_injective(hero[0], c);
            assert(hero@[0] == c);
        }
        if hero[1].index() == n - 1 {
            board::lemma_index_injective(hero[1], c);
            assert(hero@[1] == c);
        }
    }
}

/// The pairs of classes from `(a, b)` on, each pair once, in order.
pub open spec fn pairs_from(a: int, b: int) -> Seq<(usize, usize)>
    decreases CLASSES - a, CLASSES - b,
{
    if a >= CLASSES {
        Seq::empty()
    } else if b >= CLASSES {
        pairs_from(a + 1, a + 1)
    } else {
        seq![(a as usize, b as usize)] + pairs_from(a, b + 1)
    }
}

/// All pairs of classes with the first not above the second: what a table of
/// pairs has to be computed for.
pub fn class_pairs() -> (r: Vec<(usize, usize)>)
    ensures
        r@ == pairs_from(0, 0),
{
    let mut out: Vec<(usize, usize)> = Vec::new();
    let mut a: usize = 0;
    assert(out@ + pairs_from(0, 0) =~= pairs_from(0, 0));
    while a < CLASSES
        invariant
            a <= CLASSES,
            pairs_from(0, 0) == out@ + pairs_from(a as int, a as int),
        decreases CLASSES - a,
    {
        let mut b: usize = a;
        while b < CLASSES
            invariant
                a < CLASSES,
                a <= b <= CLASSES,
                pairs_from(0, 0) == out@ + pairs_from(a as int, b as int),
            decreases CLASSES - b,
        {
            let ghost before = out@;
            out.push((a, b));
            assert(out@ + pairs_from(a as int, b + 1) =~= before + pairs_from(a as int, b as int));
            b = b + 1;
        }
        a = a + 1;
    }
    assert(out@ + pairs_from(a as int, a as int) =~= out@);
    out
}

/// Every pair of classes has its place among the pairs, in one order or the
/// other.
pub proof fn every_pair_is_listed(a: int, b: int, x: int, y: int)
    requires
        0 <= a <= b <= CLASSES,
        0 <= x <= y < CLASSES,
        a < x || (a == x && b <= y),
    ensures
        pairs_from(a, b).contains((x as usize, y as usize)),
    decreases CLASSES - a, CLASSES - b,
{
    if b >= CLASSES {
        every_pair_is_listed(a + 1, a + 1, x, y);
    } else if a == x && b == y {
        assert(pairs_from(a, b)[0] == (x as usize, y as usize));
    } else {
        every_pair_is_listed(a, b + 1, x, y);
        let rest = pairs_from(a, b + 1);
        let i = choose|i: int| 0 <= i < rest.len() && rest[i] == (x as usize, y as usize);
        assert(pairs_from(a, b)[i + 1] == (x as usize, y as usize));
    }
}

/// How many pairs of holdings of two classes share no card.
pub open spec fn disjoint_count(a: Seq<[Card; 2]>, b: Seq<[Card; 2]>, n: int) -> int
    decreases n,
{
    if n <= 0 {
        0
    } else {
        disjoint_count(a, b, n - 1) + unblocked(b, a[n - 1]).len()
    }
}

/// How many ways two players can hold these classes at once.
pub fn disjoint_pairs(i: usize, j: usize) -> (r: usize)
    requires
        i < CLASSES,
        j < CLASSES,
    ensures
        r == disjoint_count(
            preflop::class_holdings(i as int),
            preflop::class_holdings(j as int),
            preflop::combos_in(i as int),
        ),
{
    let a = combos_of(i);
    let b = combos_of(j);
    let mut n: usize = 0;
    let mut k: usize = 0;
    while k < a.len()
        invariant
            k <= a@.len() <= 12,
            b@.len() <= 12,
            n <= 12 * k,
            n == disjoint_count(a@, b@, k as int),
        decreases a@.len() - k,
    {
        let h = a[k];
        let ghost keep = |v: [Card; 2]| !h@.contains(v[0]) && !h@.contains(v[1]);
        let mut m: usize = 0;
        let mut c: usize = 0;
        proof {
            reveal(Seq::filter);
            assert(b@.take(0).filter(keep) =~= Seq::empty());
        }
        while m < b.len()
            invariant
                m <= b@.len() <= 12,
                c <= m,
                keep == (|v: [Card; 2]| !h@.contains(v[0]) && !h@.contains(v[1])),
                c == b@.take(m as int).filter(keep).len(),
            decreases b@.len() - m,
        {
            let v = b[m];
            proof {
                reveal(Seq::filter);
                assert(b@.take(m + 1).drop_last() =~= b@.take(m as int));
                assert(b@.take(m + 1).last() == v);
            }
            if !board::holds(h.as_slice(), v[0]) && !board::holds(h.as_slice(), v[1]) {
                c = c + 1;
            }
            m = m + 1;
        }
        assert(b@.take(m as int) =~= b@);
        n = n + c;
        k = k + 1;
    }
    n
}

// ---------------------------------------------------------------- shares

/// Numbers in double precision, given by their bits: the shares of the pot.
pub struct EquityCache {
    /// Row by row, the share of the row's class against the column's.
    pub hu: Vec<u64>,
    /// Sorted classes of three or more players,
    pub keys: Vec<Vec<u8>>,
    /// and their shares in the same order.
    pub values: Vec<Vec<u64>>,
    /// How many boards a new entry is sampled on.
    pub mc_boards: u32,
}

/// Classes in ascending order.
pub open spec fn sorted_classes(c: Seq<u8>) -> Seq<u8> {
    c.sort_by(|x: u8, y: u8| x <= y)
}

/// The shares of players by class, as far as they are known.
#[derive(Debug, Clone)]
pub enum Shares {
    Known { shares: Vec<u64> },
    /// Nothing is stored for these sorted classes.
    Missing { key: Vec<u8> },
}

impl EquityCache {
    /// One share per pair of classes, and for each stored tuple one share per
    /// player.
    pub open spec fn wf(&self) -> bool {
        &&& self.hu@.len() == CLASSES * CLASSES
        &&& self.keys@.len() == self.values@.len()
        &&& forall|i: int|
            0 <= i < self.keys@.len() ==> (#[trigger] self.keys@[i])@.len()
                == self.values@[i]@.len()
        &&& forall|i: int, j: int|
            0 <= i < j < self.keys@.len() ==> (#[trigger] self.keys@[i])@ != (
            #[trigger] self.keys@[j])@
    }

    /// The stored tuples.
    pub open spec fn stored(&self) -> Map<Seq<u8>, Seq<u64>> {
        Map::new(
            |k: Seq<u8>| exists|i: int| 0 <= i < self.keys@.len() && (#[trigger] self.keys@[i])@ == k,
            |k: Seq<u8>|
                self.values@[choose|i: int|
                    0 <= i < self.keys@.len() && (#[trigger] self.keys@[i])@ == k]@,
        )
    }

    proof fn lemma_stored(&self, i: int)
        requires
            self.wf(),
            0 <= i < self.keys@.len(),
        ensures
            self.stored().dom().contains(self.keys@[i]@),
            self.stored()[self.keys@[i]@] == self.values@[i]@,
    {
        let k = self.keys@[i]@;
        let j = choose|j: int| 0 <= j < self.keys@.len() && (#[trigger] self.keys@[j])@ == k;
        assert(self.keys@[i]@ == k);
        if i < j {
            assert(self.keys@[i]@ != self.keys@[j]@);
        } else if j < i {
            assert(self.keys@[j]@ != self.keys@[i]@);
        }
    }

    /// A cache over a table of pairs.
    pub fn new(hu: Vec<u64>) -> (r: Self)
        requires
            hu@.len() == CLASSES * CLASSES,
        ensures
            r.wf(),
            r.hu == hu,
            r.stored() == Map::<Seq<u8>, Seq<u64>>::empty(),
            r.mc_boards == 20000,
    {
        let r = EquityCache { hu, keys: Vec::new(), values: Vec::new(), mc_boards: 20000 };
        assert(r.stored() =~= Map::empty());
        r
    }

    /// The share of one class against another.
    pub fn hu(&self, hero: usize, villain: usize) -> (r: u64)
        requires
            self.wf(),
            hero < CLASSES,
            villain < CLASSES,
        ensures
            r == self.hu@[hero * CLASSES + villain],
    {
        self.hu[hero * CLASSES + villain]
    }

    /// How many tuples are stored.
    pub fn kway_len(&self) -> (r: usize)
        ensures
            r == self.keys@.len(),
    {
        self.keys.len()
    }

    fn place(&self, key: &Vec<u8>) -> (r: Option<usize>)
        requires
            self.wf(),
        ensures
            r is Some == self.stored().dom().contains(key@),
            r matches Some(i) ==> i < self.keys@.len() && self.keys@[i as int]@ == key@
                && self.stored()[key@] == self.values@[i as int]@,
    {
        let mut i: usize = 0;
        while i < self.keys.len()
            invariant
                i <= self.keys@.len(),
                self.wf(),
                forall|k: int| 0 <= k < i ==> (#[trigger] self.keys@[k])@ != key@,
            decreases self.keys@.len() - i,
        {
            if same_bytes(&self.keys[i], key) {
                proof {
                    self.lemma_stored(i as int);
                }
                return Some(i);
            }
            i = i + 1;
        }
        None
    }

    /// The shares of players by class, in the order in which they are given: the
    /// table for two, what is stored under the sorted classes for more.
    pub fn shares(&self, classes: &Vec<u8>) -> (r: Shares)
        requires
            self.wf(),
            forall|i: int| 0 <= i < classes@.len() ==> #[trigger] classes@[i] < CLASSES,
        ensures
            ({
                let c = classes@;
                let key = sorted_classes(c);
                if c.len() == 2 {
                    r matches Shares::Known { shares } && shares@ == seq![
                        self.hu@[c[0] * CLASSES + c[1]],
                        self.hu@[c[1] * CLASSES + c[0]],
                    ]
                } else if self.stored().dom().contains(key) {
                    &&& r matches Shares::Known { shares }
                    &&& shares@ == shares_from(self.stored(), c)
                } else {
                    r matches Shares::Missing { key: k } && k@ == key
                }
            }),
    {
        if classes.len() == 2 {
            let a: usize = classes[0] as usize;
            let b: usize = classes[1] as usize;
            let mut shares: Vec<u64> = Vec::new();
            shares.push(self.hu(a, b));
            shares.push(self.hu(b, a));
            assert(shares@ =~= seq![
                self.hu@[classes@[0] * CLASSES + classes@[1]],
                self.hu@[classes@[1] * CLASSES + classes@[0]],
            ]);
            return Shares::Known { shares };
        }
        let key = sort_classes(classes);
        match self.place(&key) {
            Some(p) => {
                let stored = &self.values[p];
                let mut shares: Vec<u64> = Vec::new();
                let mut i: usize = 0;
                while i < classes.len()
                    invariant
                        i <= classes@.len(),
                        self.wf(),
                        p < self.keys@.len(),
                        self.keys@[p as int]@ == key@,
                        *stored == self.values@[p as int],
                        key@.to_multiset() == classes@.to_multiset(),
                        shares@.len() == i,
                        forall|k: int|
                            0 <= k < i ==> #[trigger] shares@[k]
                                == stored@[key@.index_of_first(classes@[k])->0],
                    decreases classes@.len() - i,
                {
                    proof {
                        lemma_same_items(key@, classes@, i as int);
                    }
                    let at: usize = first_place(&key, classes[i]);
                    shares.push(stored[at]);
                    i = i + 1;
                }
                Shares::Known { shares }
            },
            None => Shares::Missing { key },
        }
    }

    /// Stores the shares of sorted classes, in place of what was stored.
    pub fn remember(&mut self, key: Vec<u8>, shares: Vec<u64>)
        requires
            old(self).wf(),
            key@.len() == shares@.len(),
        ensures
            final(self).wf(),
            final(self).stored() == old(self).stored().insert(key@, shares@),
            final(self).hu == old(self).hu,
            final(self).mc_boards == old(self).mc_boards,
    {
        let ghost before = *self;
        match self.place(&key) {
            Some(p) => {
                let ghost kv = key@;
                let ghost sv = shares@;
                self.values.set(p, shares);
                proof {
                    assert(self.keys@ == before.keys@);
                    assert forall|k: Seq<u8>| #[trigger] self.stored().dom().contains(k) implies
                        self.stored()[k] == before.stored().insert(kv, sv)[k] by {
                        let i = choose|i: int|
                            0 <= i < self.keys@.len() && (#[trigger] self.keys@[i])@ == k;
                        self.lemma_stored(i);
                        before.lemma_stored(i);
                    }
                    assert(before.stored().dom().contains(kv));
                    assert(self.stored().dom() =~= before.stored().insert(kv, sv).dom());
                    assert(self.stored() =~= before.stored().insert(kv, sv));
                }
            },
            None => {
                let ghost kv = key@;
                let ghost sv = shares@;
                self.keys.push(key);
                self.values.push(shares);
                proof {
                    let n = before.keys@.len() as int;
                    assert forall|i: int| 0 <= i < n implies (#[trigger] self.keys@[i])@ != kv by {
                        before.lemma_stored(i);
                        assert(self.keys@[i] == before.keys@[i]);
                    }
                    assert(self.wf());
                    self.lemma_stored(n);
                    assert forall|k: Seq<u8>| #[trigger] self.stored().dom().contains(k)
                        == before.stored().insert(kv, sv).dom().contains(k) by {
                        if before.stored().dom().contains(k) {
                            let i = choose|i: int|
                                0 <= i < before.keys@.len() && (#[trigger] before.keys@[i])@ == k;
                            assert(self.keys@[i]@ == k);
                        }
                        if self.stored().dom().contains(k) {
                            let i = choose|i: int|
                                0 <= i < self.keys@.len() && (#[trigger] self.keys@[i])@ == k;
                            if i < n {
                                assert(before.keys@[i]@ == k);
                            }
                        }
                    }
                    assert forall|k: Seq<u8>| #[trigger] self.stored().dom().contains(k) implies
                        self.stored()[k] == before.stored().insert(kv, sv)[k] by {
                        let i = choose|i: int|
                            0 <= i < self.keys@.len() && (#[trigger] self.keys@[i])@ == k;
                        self.lemma_stored(i);
                        if i < n {
                            assert(before.keys@[i] == self.keys@[i]);
                            before.lemma_stored(i);
                        }
                    }
                    assert(self.stored() =~= before.stored().insert(kv, sv));
                }
            },
        }
    }
}

fn same_bytes(a: &Vec<u8>, b: &Vec<u8>) -> (r: bool)
    ensures
        r == (a@ == b@),
{
    if a.len() != b.len() {
        return false;
    }
    let mut i: usize = 0;
    while i < a.len()
        invariant
            i <= a@.len(),
            a@.len() == b@.len(),
            forall|k: int| 0 <= k < i ==> #[trigger] a@[k] == b@[k],
        decreases a@.len() - i,
    {
        if a[i] != b[i] {
            return false;
        }
        i = i + 1;
    }
    assert(a@ =~= b@);
    true
}

proof fn lemma_byte_order()
    ensures
        vstd::relations::total_ordering(|x: u8, y: u8| x <= y),
{
}

fn sort_classes(c: &Vec<u8>) -> (r: Vec<u8>)
    ensures
        r@ == sorted_classes(c@),
        r@.to_multiset() == c@.to_multiset(),
        r@.len() == c@.len(),
{
    let ghost leq = |x: u8, y: u8| x <= y;
    let mut keys: Vec<Vec<u32>> = Vec::new();
    let mut i: usize = 0;
    while i < c.len()
        invariant
            i <= c@.len(),
            keys@.len() == i,
            forall|k: int| 0 <= k < i ==> (#[trigger] keys@[k])@ == seq![c@[k] as u32],
        decreases c@.len() - i,
    {
        let n: u32 = c[i] as u32;
        let key = vec![n];
        assert(key@ =~= seq![c@[i as int] as u32]);
        keys.push(key);
        i = i + 1;
    }
    let idx = order::sorted_positions(&keys);
    let ghost kv = order::keys_of(keys@);
    let mut out: Vec<u8> = Vec::new();
    let mut k: usize = 0;
    while k < idx.len()
        invariant
            k <= idx@.len(),
            order::stable_order(kv, idx@),
            kv.len() == c@.len(),
            out@.len() == k,
            forall|j: int| 0 <= j < k ==> #[trigger] out@[j] == c@[idx@[j] as int],
        decreases idx@.len() - k,
    {
        out.push(c[idx[k]]);
        k = k + 1;
    }
    proof {
        assert(out@ =~= order::in_order(c@, idx@));
        order::lemma_stable_order_onto(kv, idx@);
        order::lemma_in_order_items(c@, idx@);
        assert(vstd::relations::sorted_by(out@, leq)) by {
            assert forall|a: int, b: int| 0 <= a < b < out@.len() implies #[trigger] leq(
                out@[a],
                out@[b],
            ) by {
                assert(order::comes_before(kv, idx@[a] as int, idx@[b] as int));
                assert(kv[idx@[a] as int] == seq![c@[idx@[a] as int] as u32]);
                assert(kv[idx@[b] as int] == seq![c@[idx@[b] as int] as u32]);
            }
        }
        lemma_byte_order();
        c@.lemma_sort_by_ensures(leq);
        vstd::seq_lib::lemma_sorted_unique(out@, sorted_classes(c@), leq);
    }
    out
}

proof fn lemma_same_items(a: Seq<u8>, b: Seq<u8>, i: int)
    requires
        a.to_multiset() == b.to_multiset(),
        0 <= i < b.len(),
    ensures
        a.contains(b[i]),
{
    broadcast use vstd::seq_lib::group_to_multiset_ensures;

    assert(b.contains(b[i]));
    assert(b.to_multiset().count(b[i]) > 0);
}

fn first_place(key: &Vec<u8>, c: u8) -> (r: usize)
    requires
        key@.contains(c),
    ensures
        r < key@.len(),
        key@.index_of_first(c) == Some(r as int),
{
    let n: usize = key.len();
    let mut i: usize = 0;
    while key[i] != c
        invariant
            i < n,
            n == key@.len(),
            key@.contains(c),
            forall|k: int| 0 <= k < i ==> #[trigger] key@[k] != c,
        decreases key@.len() - i,
    {
        proof {
            let k = choose|k: int| 0 <= k < key@.len() && key@[k] == c;
            assert(k > i);
        }
        i = i + 1;
    }
    proof {
        key@.index_of_first_ensures(c);
    }
    i
}

/// Players in another order have the same shares: what is stored does not depend
/// on the order in which they are given.
pub proof fn shares_ignore_order(a: Seq<u8>, b: Seq<u8>)
    requires
        a.to_multiset() == b.to_multiset(),
    ensures
        sorted_classes(a) == sorted_classes(b),
{
    let leq = |x: u8, y: u8| x <= y;
    lemma_byte_order();
    a.lemma_sort_by_ensures(leq);
    b.lemma_sort_by_ensures(leq);
    vstd::seq_lib::lemma_sorted_unique(sorted_classes(a), sorted_classes(b), leq);
}

/// The shares of players by class, read from what is stored under their sorted
/// classes.
pub open spec fn shares_from(stored: Map<Seq<u8>, Seq<u64>>, c: Seq<u8>) -> Seq<u64> {
    let key = sorted_classes(c);
    Seq::new(c.len(), |i: int| stored[key][key.index_of_first(c[i])->0])
}

/// `x` stands among the shares where `class` stands in the key.
pub open spec fn is_share_of(x: u64, key: Seq<u8>, shares: Seq<u64>, class: u8) -> bool {
    exists|at: int| 0 <= at < key.len() && #[trigger] key[at] == class && x == shares[at]
}

/// What was remembered is given back, to each player the share of its class.
pub proof fn remembered_shares_are_given(
    stored: Map<Seq<u8>, Seq<u64>>,
    shares: Seq<u64>,
    c: Seq<u8>,
)
    requires
        shares.len() == c.len(),
    ensures
        stored.insert(sorted_classes(c), shares).dom().contains(sorted_classes(c)),
        forall|i: int|
            0 <= i < c.len() ==> is_share_of(
                #[trigger] shares_from(stored.insert(sorted_classes(c), shares), c)[i],
                sorted_classes(c),
                shares,
                c[i],
            ),
{
    let leq = |x: u8, y: u8| x <= y;
    lemma_byte_order();
    c.lemma_sort_by_ensures(leq);
    let key = sorted_classes(c);
    c.to_multiset_ensures();
    key.to_multiset_ensures();
    let given = shares_from(stored.insert(key, shares), c);
    assert forall|i: int| 0 <= i < c.len() implies is_share_of(
        #[trigger] given[i],
        key,
        shares,
        c[i],
    ) by {
        assert(c.contains(c[i]));
        assert(c.to_multiset().count(c[i]) > 0);
        assert(key.to_multiset().count(c[i]) > 0);
        assert(key.contains(c[i]));
        key.index_of_first_ensures(c[i]);
        assert(key[key.index_of_first(c[i])->0] == c[i]);
    }
}

// ---------------------------------------------------------------- sampling

/// `rand::rngs::SmallRng`, a seeded generator.
#[verifier::external_type_specification]
#[verifier::external_body]
pub struct ExSmallRng(rand::rngs::SmallRng);

/// `rand::RngExt::random_range` over places: one of `lo..hi`, which one being left
/// to the generator.
#[verifier::external_body]
pub(crate) fn random_place(rng: &mut SmallRng, lo: usize, hi: usize) -> (r: usize)
    requires
        lo < hi,
    ensures
        lo <= r < hi,
{
    rand::RngExt::random_range(rng, lo..hi)
}

/// `rand::seq::IndexedRandom::sample`: `n` cards from different places of the
/// deck, which ones being left to the generator.
#[verifier::external_body]
fn random_cards(rng: &mut SmallRng, deck: &[Card], n: usize) -> (r: Vec<Card>)
    requires
        n <= deck@.len(),
    ensures
        r@.len() == n,
        eval::drawn_from(deck@, r@),
{
    rand::seq::IndexedRandom::sample(deck, rng, n).copied().collect()
}

/// The rank of a hand on a full board.
pub open spec fn rank_on(h: [Card; 2], board: Seq<Card>) -> (u8, u16) {
    eval::best_five(eval::codes_of(eval::seven(h, board, Seq::<Card>::empty())))
}

/// No hand beats this one.
pub open spec fn unbeaten(hands: Seq<[Card; 2]>, board: Seq<Card>, i: int) -> bool {
    forall|j: int|
        0 <= j < hands.len() ==> !eval::weaker(
            rank_on(hands[i], board),
            rank_on(#[trigger] hands[j], board),
        )
}

/// The places, of the first `n` hands, of those that no hand beats.
pub open spec fn winners_of(hands: Seq<[Card; 2]>, board: Seq<Card>, n: int) -> Seq<usize>
    decreases n,
{
    if n <= 0 {
        Seq::empty()
    } else if unbeaten(hands, board, n - 1) {
        winners_of(hands, board, n - 1).push((n - 1) as usize)
    } else {
        winners_of(hands, board, n - 1)
    }
}

fn rank_seven(h: [Card; 2], board: &Vec<Card>) -> (r: (u8, u16))
    requires
        board::all_cards(h@),
        board@.len() == 5,
        board::all_cards(board@),
    ensures
        r == rank_on(h, board@),
{
    let mut cards: Vec<Card> = Vec::new();
    cards.push(h[0]);
    cards.push(h[1]);
    cards.push(board[0]);
    cards.push(board[1]);
    cards.push(board[2]);
    cards.push(board[3]);
    cards.push(board[4]);
    proof {
        assert(h@[0].wf() && h@[1].wf());
        assert(cards@ =~= eval::seven(h, board@, Seq::<Card>::empty()));
        assert forall|i: int| 0 <= i < cards@.len() implies (#[trigger] cards@[i]).wf() by {
            if i >= 2 {
                assert(cards@[i] == board@[i - 2]);
            }
        }
    }
    eval::rank_of(cards.as_slice())
}

/// Who wins on a full board: the places of the hands that no other beats.
pub fn showdown_winners(hands: &Vec<[Card; 2]>, board: &Vec<Card>) -> (r: Vec<usize>)
    requires
        forall|k: int| 0 <= k < hands@.len() ==> board::all_cards((#[trigger] hands@[k])@),
        board@.len() == 5,
        board::all_cards(board@),
    ensures
        r@ == winners_of(hands@, board@, hands@.len() as int),
{
    let mut ranks: Vec<(u8, u16)> = Vec::new();
    let mut i: usize = 0;
    while i < hands.len()
        invariant
            i <= hands@.len(),
            forall|k: int| 0 <= k < hands@.len() ==> board::all_cards((#[trigger] hands@[k])@),
            board@.len() == 5,
            board::all_cards(board@),
            ranks@.len() == i,
            forall|k: int| 0 <= k < i ==> #[trigger] ranks@[k] == rank_on(hands@[k], board@),
        decreases hands@.len() - i,
    {
        assert(board::all_cards(hands@[i as int]@));
        ranks.push(rank_seven(hands[i], board));
        i = i + 1;
    }
    let mut out: Vec<usize> = Vec::new();
    let mut k: usize = 0;
    while k < hands.len()
        invariant
            k <= hands@.len(),
            ranks@.len() == hands@.len(),
            forall|j: int| 0 <= j < ranks@.len() ==> #[trigger] ranks@[j] == rank_on(hands@[j], board@),
            out@ == winners_of(hands@, board@, k as int),
        decreases hands@.len() - k,
    {
        let mut best = true;
        let mut j: usize = 0;
        while j < ranks.len()
            invariant
                j <= ranks@.len(),
                k < hands@.len(),
                ranks@.len() == hands@.len(),
                forall|m: int|
                    0 <= m < ranks@.len() ==> #[trigger] ranks@[m] == rank_on(hands@[m], board@),
                best == forall|m: int|
                    0 <= m < j ==> !eval::weaker(
                        rank_on(hands@[k as int], board@),
                        rank_on(#[trigger] hands@[m], board@),
                    ),
            decreases ranks@.len() - j,
        {
            let a = ranks[k];
            let b = ranks[j];
            assert(b == rank_on(hands@[j as int], board@));
            if a.0 < b.0 || (a.0 == b.0 && a.1 < b.1) {
                best = false;
            }
            j = j + 1;
        }
        assert(best == unbeaten(hands@, board@, k as int));
        if best {
            out.push(k);
        }
        k = k + 1;
    }
    out
}

/// The cards of hands, one after the other.
pub open spec fn cards_held(hands: Seq<[Card; 2]>) -> Seq<Card>
    decreases hands.len(),
{
    if hands.len() == 0 {
        Seq::empty()
    } else {
        cards_held(hands.drop_last()) + hands.last()@
    }
}

/// A deal to players of these classes: a holding of each class, no card twice.
pub open spec fn deal_of(hands: Seq<[Card; 2]>, classes: Seq<u8>) -> bool {
    &&& hands.len() == classes.len()
    &&& forall|i: int|
        0 <= i < hands.len() ==> preflop::class_holdings(classes[i] as int).contains(
            #[trigger] hands[i],
        )
    &&& cards_held(hands).no_duplicates()
}

/// The holdings share a card.
pub open spec fn meet(g: [Card; 2], h: [Card; 2]) -> bool {
    g@.contains(h[0]) || g@.contains(h[1])
}

/// No holding of one of the classes shares a card with one of another.
pub open spec fn never_meet(classes: Seq<u8>) -> bool {
    forall|i: int, j: int, g: [Card; 2], h: [Card; 2]|
        #![trigger
            preflop::class_holdings(classes[i] as int).contains(g),
            preflop::class_holdings(classes[j] as int).contains(h)
        ]
        0 <= i < j < classes.len() && preflop::class_holdings(classes[i] as int).contains(g)
            && preflop::class_holdings(classes[j] as int).contains(h) ==> !meet(g, h)
}

proof fn lemma_holder(hands: Seq<[Card; 2]>, c: Card) -> (m: int)
    requires
        cards_held(hands).contains(c),
    ensures
        0 <= m < hands.len(),
        hands[m]@.contains(c),
    decreases hands.len(),
{
    let held = cards_held(hands);
    let rest = cards_held(hands.drop_last());
    let i = choose|i: int| 0 <= i < held.len() && held[i] == c;
    if i < rest.len() {
        assert(rest[i] == c);
        lemma_holder(hands.drop_last(), c)
    } else {
        assert(hands.last()@[i - rest.len()] == c);
        hands.len() - 1
    }
}

/// A holding that shares a card with hands that are dealt.
pub open spec fn collides(hands: Seq<[Card; 2]>, pick: [Card; 2]) -> bool {
    cards_held(hands).contains(pick[0]) || cards_held(hands).contains(pick[1])
}

/// A deal to the first `k` classes leaves a holding of the next without one of its
/// cards.
pub open spec fn collision(
    classes: Seq<u8>,
    hands: Seq<[Card; 2]>,
    pick: [Card; 2],
    k: int,
) -> bool {
    &&& 0 <= k < classes.len()
    &&& deal_of(hands, classes.take(k))
    &&& preflop::class_holdings(classes[k] as int).contains(pick)
    &&& collides(hands, pick)
}

/// Some holding of a class shares a card with a deal to the classes before it.
pub open spec fn can_collide(classes: Seq<u8>) -> bool {
    exists|hands: Seq<[Card; 2]>, pick: [Card; 2], k: int| #[trigger]
        collision(classes, hands, pick, k)
}

/// Classes that share no card never stand in the way of a deal.
pub proof fn apart_classes_never_collide(classes: Seq<u8>)
    requires
        never_meet(classes),
    ensures
        !can_collide(classes),
{
    if can_collide(classes) {
        let (hands, pick, k): (Seq<[Card; 2]>, [Card; 2], int) = choose|
            hands: Seq<[Card; 2]>,
            pick: [Card; 2],
            k: int,
        | #[trigger] collision(classes, hands, pick, k);
        let c = if cards_held(hands).contains(pick[0]) {
            pick[0]
        } else {
            pick[1]
        };
        let m = lemma_holder(hands, c);
        assert(classes.take(k)[m] == classes[m]);
        assert(preflop::class_holdings(classes[m] as int).contains(hands[m]));
        assert(meet(hands[m], pick));
    }
}

/// Adds a drawn holding to a deal, unless one of its cards is dealt already.
pub fn join_deal(hands: &mut Vec<[Card; 2]>, used: &mut Vec<Card>, pick: [Card; 2]) -> (r: bool)
    requires
        old(used)@ == cards_held(old(hands)@),
    ensures
        r == !(old(used)@.contains(pick[0]) || old(used)@.contains(pick[1])),
        final(hands)@ == if r {
            old(hands)@.push(pick)
        } else {
            old(hands)@
        },
        final(used)@ == cards_held(final(hands)@),
{
    if board::holds(used.as_slice(), pick[0]) || board::holds(used.as_slice(), pick[1]) {
        return false;
    }
    let ghost before = hands@;
    used.push(pick[0]);
    used.push(pick[1]);
    hands.push(pick);
    proof {
        assert(hands@.drop_last() =~= before);
        assert(used@ =~= cards_held(before) + pick@);
    }
    true
}

/// One try at a deal: a random holding for each class in turn, `None` as soon as
/// one shares a card with an earlier one.
fn try_deal(pools: &Vec<Vec<[Card; 2]>>, rng: &mut SmallRng, classes: Ghost<Seq<u8>>) -> (r: Option<
    (Vec<[Card; 2]>, Vec<Card>),
>)
    requires
        pools@.len() == classes@.len(),
        forall|i: int|
            0 <= i < pools@.len() ==> (#[trigger] pools@[i])@ == preflop::class_holdings(
                classes@[i] as int,
            ) && pools@[i]@.len() > 0,
        forall|i: int, k: int|
            0 <= i < pools@.len() && 0 <= k < pools@[i]@.len() ==> board::all_cards(
                (#[trigger] pools@[i]@[k])@,
            ) && pools@[i]@[k][0] != pools@[i]@[k][1],
    ensures
        r matches Some((hands, used)) ==> deal_of(hands@, classes@) && used@ == cards_held(hands@)
            && board::all_cards(used@) && forall|k: int|
            0 <= k < hands@.len() ==> board::all_cards((#[trigger] hands@[k])@),
        r is None ==> can_collide(classes@),
{
    let mut hands: Vec<[Card; 2]> = Vec::new();
    let mut used: Vec<Card> = Vec::new();
    let mut i: usize = 0;
    while i < pools.len()
        invariant
            i <= pools@.len(),
            pools@.len() == classes@.len(),
            forall|i: int|
                0 <= i < pools@.len() ==> (#[trigger] pools@[i])@ == preflop::class_holdings(
                    classes@[i] as int,
                ) && pools@[i]@.len() > 0,
            forall|i: int, k: int|
                0 <= i < pools@.len() && 0 <= k < pools@[i]@.len() ==> board::all_cards(
                    (#[trigger] pools@[i]@[k])@,
                ) && pools@[i]@[k][0] != pools@[i]@[k][1],
            hands@.len() == i,
            used@ == cards_held(hands@),
            used@.no_duplicates(),
            board::all_cards(used@),
            forall|k: int| 0 <= k < hands@.len() ==> board::all_cards((#[trigger] hands@[k])@),
            forall|k: int|
                0 <= k < i ==> preflop::class_holdings(classes@[k] as int).contains(
                    #[trigger] hands@[k],
                ),
        decreases pools@.len() - i,
    {
        let pool = &pools[i];
        let p: usize = random_place(rng, 0, pool.len());
        let pick = pool[p];
        proof {
            assert(pools@[i as int]@[p as int] == pick);
            assert(board::all_cards(pools@[i as int]@[p as int]@));
            assert(pick@[0].wf() && pick@[1].wf());
        }
        assert(preflop::class_holdings(classes@[i as int] as int).contains(pick)) by {
            assert(preflop::class_holdings(classes@[i as int] as int)[p as int] == pick);
        }
        let ghost before = used@;
        let ghost hands_before = hands@;
        if !join_deal(&mut hands, &mut used, pick) {
            proof {
                let ghost cs = classes@.take(i as int);
                assert(deal_of(hands_before, cs)) by {
                    assert forall|k: int| 0 <= k < hands_before.len() implies preflop::class_holdings(
                        cs[k] as int,
                    ).contains(#[trigger] hands_before[k]) by {
                        assert(cs[k] == classes@[k]);
                    }
                }
                assert(collision(classes@, hands_before, pick, i as int));
            }
            return None;
        }
        proof {
            assert(hands@.drop_last() =~= hands_before);
            assert(used@ =~= before + pick@);
            assert forall|a: int, b: int| 0 <= a < b < used@.len() implies used@[a] != used@[b] by {
                if b < before.len() {
                    assert(before[a] != before[b]);
                } else if a < before.len() {
                    assert(before.contains(before[a]));
                }
            }
        }
        i = i + 1;
    }
    Some((hands, used))
}

/// The winners of a random deal to players of these classes on a random board of
/// five different cards that no player holds.
pub open spec fn sampled(winners: Seq<usize>, classes: Seq<u8>) -> bool {
    exists|hands: Seq<[Card; 2]>, board: Seq<Card>| #[trigger]
        winners_of(hands, board, hands.len() as int) == winners && deal_of(hands, classes)
            && board.len() == 5 && board::all_cards(board) && board.no_duplicates() && forall|i: int|
            0 <= i < 5 ==> !cards_held(hands).contains(#[trigger] board[i])
}

proof fn lemma_held_len(hands: Seq<[Card; 2]>)
    ensures
        cards_held(hands).len() == 2 * hands.len(),
    decreases hands.len(),
{
    if hands.len() > 0 {
        lemma_held_len(hands.drop_last());
    }
}

proof fn lemma_holdings_differ(i: int, k: int)
    requires
        0 <= i < CLASSES,
        0 <= k < preflop::class_holdings(i).len(),
    ensures
        preflop::class_holdings(i)[k][0] != preflop::class_holdings(i)[k][1],
{
}

/// Plays deals with players of these classes: each deal gives every class a
/// random holding, no card twice, and five other cards for the board. Per deal
/// the players who win it. `None` where a thousand tries do not give a deal, which
/// cannot be where the classes share no card.
pub fn mc_shares(classes: &Vec<u8>, boards: u32, rng: &mut SmallRng) -> (r: Option<
    Vec<Vec<usize>>,
>)
    requires
        classes@.len() <= 23,
        forall|i: int| 0 <= i < classes@.len() ==> #[trigger] classes@[i] < CLASSES,
    ensures
        r matches Some(v) ==> v@.len() == boards && forall|i: int|
            0 <= i < v@.len() ==> sampled((#[trigger] v@[i])@, classes@),
        r is None ==> boards > 0 && can_collide(classes@),
        never_meet(classes@) ==> r is Some,
{
    let mut pools: Vec<Vec<[Card; 2]>> = Vec::new();
    let mut p: usize = 0;
    while p < classes.len()
        invariant
            p <= classes@.len(),
            forall|i: int| 0 <= i < classes@.len() ==> #[trigger] classes@[i] < CLASSES,
            pools@.len() == p,
            forall|i: int|
                0 <= i < pools@.len() ==> (#[trigger] pools@[i])@ == preflop::class_holdings(
                    classes@[i] as int,
                ) && pools@[i]@.len() > 0,
            forall|i: int, k: int|
                0 <= i < pools@.len() && 0 <= k < pools@[i]@.len() ==> board::all_cards(
                    (#[trigger] pools@[i]@[k])@,
                ) && pools@[i]@[k][0] != pools@[i]@[k][1],
        decreases classes@.len() - p,
    {
        let c = combos_of(classes[p] as usize);
        proof {
            assert forall|k: int| 0 <= k < c@.len() implies (#[trigger] c@[k])[0] != c@[k][1] by {
                lemma_holdings_differ(classes@[p as int] as int, k);
            }
        }
        pools.push(c);
        p = p + 1;
    }
    let mut out: Vec<Vec<usize>> = Vec::new();
    let mut b: u32 = 0;
    while b < boards
        invariant
            b <= boards,
            classes@.len() <= 23,
            pools@.len() == classes@.len(),
            forall|i: int|
                0 <= i < pools@.len() ==> (#[trigger] pools@[i])@ == preflop::class_holdings(
                    classes@[i] as int,
                ) && pools@[i]@.len() > 0,
            forall|i: int, k: int|
                0 <= i < pools@.len() && 0 <= k < pools@[i]@.len() ==> board::all_cards(
                    (#[trigger] pools@[i]@[k])@,
                ) && pools@[i]@[k][0] != pools@[i]@[k][1],
            out@.len() == b,
            forall|i: int| 0 <= i < out@.len() ==> sampled((#[trigger] out@[i])@, classes@),
        decreases boards - b,
    {
        let mut dealt: Option<(Vec<[Card; 2]>, Vec<Card>)> = None;
        let mut attempt: u32 = 0;
        while attempt < 1000 && dealt.is_none()
            invariant
                attempt <= 1000,
                attempt > 0 && dealt is None ==> can_collide(classes@),
                pools@.len() == classes@.len(),
                forall|i: int|
                    0 <= i < pools@.len() ==> (#[trigger] pools@[i])@ == preflop::class_holdings(
                        classes@[i] as int,
                    ) && pools@[i]@.len() > 0,
                forall|i: int, k: int|
                    0 <= i < pools@.len() && 0 <= k < pools@[i]@.len() ==> board::all_cards(
                        (#[trigger] pools@[i]@[k])@,
                    ) && pools@[i]@[k][0] != pools@[i]@[k][1],
                dealt matches Some((hands, used)) ==> deal_of(hands@, classes@) && used@
                    == cards_held(hands@) && board::all_cards(used@) && forall|k: int|
                    0 <= k < hands@.len() ==> board::all_cards((#[trigger] hands@[k])@),
            decreases 1000 - attempt,
        {
            dealt = try_deal(&pools, rng, Ghost(classes@));
            attempt = attempt + 1;
        }
        match dealt {
            Some((hands, used)) => {
                proof {
                    lemma_held_len(hands@);
                }
                let deck = eval::rest_of_deck(used.as_slice());
                let board = random_cards(rng, deck.as_slice(), 5);
                proof {
                    eval::lemma_unknown_distinct(used@, 52);
                    eval::lemma_drawn_distinct(deck@, board@);
                    assert forall|i: int| 0 <= i < board@.len() implies (#[trigger] board@[i]).wf()
                        && !used@.contains(board@[i]) by {
                        assert(deck@.contains(board@[i]));
                    }
                }
                let w = showdown_winners(&hands, &board);
                assert(sampled(w@, classes@)) by {
                    assert(winners_of(hands@, board@, hands@.len() as int) == w@);
                }
                out.push(w);
            },
            None => {
                proof {
                    if never_meet(classes@) {
                        apart_classes_never_collide(classes@);
                    }
                }
                return None;
            },
        }
        b = b + 1;
    }
    Some(out)
}

// ---------------------------------------------------------------- dealing

/// The cards of a deal: two per seat and the rest of the deck.
#[derive(Debug, Clone)]
pub struct Deal {
    pub holes: Vec<[Card; 2]>,
    pub classes: Vec<u8>,
    pub pool: Vec<Card>,
}

/// `deck` with the cards at two places exchanged.
pub open spec fn swapped(deck: Seq<Card>, i: int, j: int) -> Seq<Card> {
    deck.update(i, deck[j]).update(j, deck[i])
}

/// The deck after the first `n` swaps: the card at place `i` with that at
/// `swaps[i]`.
pub open spec fn shuffled(deck: Seq<Card>, swaps: Seq<usize>, n: int) -> Seq<Card>
    decreases n,
{
    if n <= 0 {
        deck
    } else {
        swapped(shuffled(deck, swaps, n - 1), n - 1, swaps[n - 1] as int)
    }
}

/// Shuffling only rearranges: the deck holds what it held.
pub proof fn shuffling_keeps_the_deck(deck: Seq<Card>, swaps: Seq<usize>, n: int)
    requires
        0 <= n <= swaps.len(),
        n <= deck.len(),
        forall|i: int| 0 <= i < n ==> i <= #[trigger] swaps[i] < deck.len(),
    ensures
        shuffled(deck, swaps, n).to_multiset() == deck.to_multiset(),
        shuffled(deck, swaps, n).len() == deck.len(),
    decreases n,
{
    if n > 0 {
        shuffling_keeps_the_deck(deck, swaps, n - 1);
        let d = shuffled(deck, swaps, n - 1);
        lemma_swap_multiset(d, n - 1, swaps[n - 1] as int);
    }
}

proof fn lemma_swap_multiset(d: Seq<Card>, i: int, j: int)
    requires
        0 <= i < d.len(),
        0 <= j < d.len(),
    ensures
        swapped(d, i, j).to_multiset() == d.to_multiset(),
{
    broadcast use vstd::seq_lib::group_to_multiset_ensures;

    let e = d.update(i, d[j]);
    vstd::seq_lib::to_multiset_update(d, i, d[j]);
    vstd::seq_lib::to_multiset_update(e, j, d[i]);
    if i == j {
        assert(swapped(d, i, j) =~= d);
    } else {
        assert(e[j] == d[j]);
        assert(d.contains(d[i]) && d.contains(d[j]));
        assert(swapped(d, i, j).to_multiset() =~= d.to_multiset());
    }
}

/// Shuffles the first cards of the deck with the given swaps.
pub fn shuffle(deck: &mut Vec<Card>, swaps: &Vec<usize>)
    requires
        swaps@.len() <= old(deck)@.len(),
        forall|i: int| 0 <= i < swaps@.len() ==> i <= #[trigger] swaps@[i] < old(deck)@.len(),
    ensures
        final(deck)@ == shuffled(old(deck)@, swaps@, swaps@.len() as int),
        final(deck)@.len() == old(deck)@.len(),
{
    let ghost start = deck@;
    let mut i: usize = 0;
    while i < swaps.len()
        invariant
            i <= swaps@.len() <= start.len(),
            deck@.len() == start.len(),
            deck@ == shuffled(start, swaps@, i as int),
            forall|k: int| 0 <= k < swaps@.len() ==> k <= #[trigger] swaps@[k] < start.len(),
        decreases swaps@.len() - i,
    {
        let j: usize = swaps[i];
        assert(i <= swaps@[i as int]);
        let a = deck[i];
        let b = deck[j];
        deck.set(i, b);
        deck.set(j, a);
        i = i + 1;
    }
}

/// The deal of a shuffled deck to `n` seats: seat `s` holds the cards at `2s` and
/// `2s + 1`, and the pool is what comes after.
pub open spec fn deal_from(d: Deal, deck: Seq<Card>, n: int) -> bool {
    &&& d.holes@.len() == n
    &&& d.classes@.len() == n
    &&& forall|s: int|
        0 <= s < n ==> (#[trigger] d.holes@[s])[0] == deck[2 * s] && d.holes@[s][1] == deck[2 * s
            + 1]
    &&& forall|s: int|
        0 <= s < n ==> #[trigger] d.classes@[s] == preflop::class_of(deck[2 * s], deck[2 * s + 1])
    &&& d.pool@ == deck.skip(2 * n)
}

/// Deals the top of the deck.
pub fn deal_top(deck: &Vec<Card>, n: usize) -> (r: Deal)
    requires
        2 * n <= deck@.len(),
        board::all_cards(deck@),
    ensures
        deal_from(r, deck@, n as int),
{
    let size: usize = deck.len();
    let mut holes: Vec<[Card; 2]> = Vec::new();
    let mut classes: Vec<u8> = Vec::new();
    let mut s: usize = 0;
    while s < n
        invariant
            s <= n,
            2 * n <= size == deck@.len(),
            board::all_cards(deck@),
            holes@.len() == s,
            classes@.len() == s,
            forall|k: int|
                0 <= k < s ==> (#[trigger] holes@[k])[0] == deck@[2 * k] && holes@[k][1] == deck@[2
                    * k + 1],
            forall|k: int|
                0 <= k < s ==> #[trigger] classes@[k] == preflop::class_of(
                    deck@[2 * k],
                    deck@[2 * k + 1],
                ),
        decreases n - s,
    {
        let h: [Card; 2] = [deck[2 * s], deck[2 * s + 1]];
        assert(deck@[2 * s as int].wf() && deck@[2 * s + 1].wf());
        assert(h@[0].wf() && h@[1].wf());
        assert(board::all_cards(h@));
        classes.push(preflop::class_index(h) as u8);
        holes.push(h);
        s = s + 1;
    }
    let mut pool: Vec<Card> = Vec::new();
    let mut i: usize = 2 * n;
    while i < size
        invariant
            2 * n <= i <= size == deck@.len(),
            pool@ == deck@.subrange(2 * n, i as int),
        decreases deck@.len() - i,
    {
        pool.push(deck[i]);
        assert(pool@ =~= deck@.subrange(2 * n, i + 1));
        i = i + 1;
    }
    assert(pool@ =~= deck@.skip(2 * n));
    Deal { holes, classes, pool }
}

/// Shuffles the deck as far as `n` seats need it and deals: a partial
/// Fisher–Yates shuffle, each place exchanged with a random one not before it.
pub fn deal_hand(deck: &mut Vec<Card>, n: usize, rng: &mut SmallRng) -> (r: Deal)
    requires
        2 * n <= old(deck)@.len(),
        board::all_cards(old(deck)@),
    ensures
        final(deck)@.to_multiset() == old(deck)@.to_multiset(),
        final(deck)@.len() == old(deck)@.len(),
        board::all_cards(final(deck)@),
        deal_from(r, final(deck)@, n as int),
{
    let ghost start = deck@;
    let size: usize = deck.len();
    let mut swaps: Vec<usize> = Vec::new();
    let mut i: usize = 0;
    while i < 2 * n
        invariant
            i <= 2 * n <= size == deck@.len(),
            swaps@.len() == i,
            forall|k: int| 0 <= k < i ==> k <= #[trigger] swaps@[k] < deck@.len(),
        decreases 2 * n - i,
    {
        swaps.push(random_place(rng, i, size));
        i = i + 1;
    }
    shuffle(deck, &swaps);
    proof {
        shuffling_keeps_the_deck(start, swaps@, swaps@.len() as int);
        assert forall|k: int| 0 <= k < deck@.len() implies (#[trigger] deck@[k]).wf() by {
            lemma_card_kept(deck@, start, k);
        }
    }
    deal_top(deck, n)
}

proof fn lemma_card_kept(a: Seq<Card>, b: Seq<Card>, i: int)
    requires
        a.to_multiset() == b.to_multiset(),
        0 <= i < a.len(),
        board::all_cards(b),
    ensures
        a[i].wf(),
{
    broadcast use vstd::seq_lib::group_to_multiset_ensures;

    assert(a.contains(a[i]));
    assert(a.to_multiset().count(a[i]) > 0);
    assert(b.contains(a[i]));
    let k = choose|k: int| 0 <= k < b.len() && b[k] == a[i];
    assert(b[k].wf());
}

/// On a board a hand meets every other that holds no card of it, and takes at most
/// two half points from each.
pub proof fn hands_meet_whom_the_board_allows(
    hero: [Card; 2],
    villains: Seq<[Card; 2]>,
    board: Seq<Card>,
    n: int,
)
    requires
        0 <= n <= villains.len(),
    ensures
        board_tally(hero, villains, board, n).1 == villains.take(n).filter(
            |v: [Card; 2]| !board.contains(v[0]) && !board.contains(v[1]),
        ).len(),
        board_tally(hero, villains, board, n).0 == villains.take(n).filter(
            |v: [Card; 2]| !board.contains(v[0]) && !board.contains(v[1]),
        ).fold_left(
            0int,
            |t: int, v: [Card; 2]| t + eval::showdown_points(hero, v, board, Seq::<Card>::empty()),
        ),
    decreases n,
{
    reveal(Seq::filter);
    reveal(Seq::fold_left);
    let free = |v: [Card; 2]| !board.contains(v[0]) && !board.contains(v[1]);
    let take = |t: int, v: [Card; 2]|
        t + eval::showdown_points(hero, v, board, Seq::<Card>::empty());
    if n > 0 {
        hands_meet_whom_the_board_allows(hero, villains, board, n - 1);
        assert(villains.take(n).drop_last() =~= villains.take(n - 1));
        assert(villains.take(n).last() == villains[n - 1]);
        let before = villains.take(n - 1).filter(free);
        if free(villains[n - 1]) {
            assert(before.push(villains[n - 1]).drop_last() =~= before);
        }
    } else {
        assert(villains.take(n).filter(free) =~= Seq::empty());
    }
}

/// How many ways there are to choose `k` of `n` things.
pub open spec fn ways(n: int, k: int) -> int
    decreases n,
{
    if k == 0 {
        1
    } else if n <= 0 {
        0
    } else {
        ways(n - 1, k - 1) + ways(n - 1, k)
    }
}

/// Every board that can be completed from the deck is played once: against hands
/// without a card of the deck or of what lies on the board already, the number of
/// meetings is the number of boards times the number of hands.
pub proof fn every_board_is_played_once(
    hero: [Card; 2],
    villains: Seq<[Card; 2]>,
    deck: Seq<Card>,
    from: int,
    chosen: Seq<Card>,
)
    requires
        0 <= from <= deck.len(),
        chosen.len() <= 5,
        forall|i: int|
            0 <= i < villains.len() ==> !deck.contains((#[trigger] villains[i])[0])
                && !deck.contains(villains[i][1]) && !chosen.contains(villains[i][0])
                && !chosen.contains(villains[i][1]),
    ensures
        total_tally(hero, villains, deck, from, chosen).1 == ways(
            deck.len() - from,
            5 - chosen.len(),
        ) * villains.len(),
    decreases deck.len() - from,
{
    if chosen.len() >= 5 {
        lemma_all_met(hero, villains, chosen, villains.len() as int);
        assert(ways(deck.len() - from, 0) == 1);
    } else if from < deck.len() {
        let c = deck[from];
        assert(deck.contains(c));
        let more = chosen.push(c);
        assert forall|i: int| 0 <= i < villains.len() implies !deck.contains(
            (#[trigger] villains[i])[0],
        ) && !deck.contains(villains[i][1]) && !more.contains(villains[i][0]) && !more.contains(
            villains[i][1],
        ) by {
            lemma_push_holds(chosen, c, villains[i][0]);
            lemma_push_holds(chosen, c, villains[i][1]);
        }
        every_board_is_played_once(hero, villains, deck, from + 1, more);
        every_board_is_played_once(hero, villains, deck, from + 1, chosen);
        let (a, b, m) = (
            ways(deck.len() - from - 1, 4 - chosen.len()),
            ways(deck.len() - from - 1, 5 - chosen.len()),
            villains.len() as int,
        );
        assert((a + b) * m == a * m + b * m) by (nonlinear_arith);
    }
}

proof fn lemma_push_holds(s: Seq<Card>, c: Card, x: Card)
    ensures
        s.push(c).contains(x) <==> s.contains(x) || x == c,
{
    let t = s.push(c);
    if t.contains(x) {
        let i = t.index_of(x);
        if i < s.len() {
            assert(s[i] == x);
        }
    }
    if s.contains(x) {
        let i = s.index_of(x);
        assert(t[i] == x);
    }
    assert(t[s.len() as int] == c);
}

proof fn lemma_all_met(hero: [Card; 2], villains: Seq<[Card; 2]>, board: Seq<Card>, n: int)
    requires
        0 <= n <= villains.len(),
        forall|i: int|
            0 <= i < villains.len() ==> !board.contains((#[trigger] villains[i])[0])
                && !board.contains(villains[i][1]),
    ensures
        board_tally(hero, villains, board, n).1 == n,
    decreases n,
{
    if n > 0 {
        lemma_all_met(hero, villains, board, n - 1);
        assert(!board.contains(villains[n - 1][0]));
    }
}

/// A pair of classes is listed exactly where the first is not above the second.
pub proof fn pairs_are_listed_in_order(a: int, b: int, i: int)
    requires
        0 <= a <= b <= CLASSES,
        0 <= i < pairs_from(a, b).len(),
    ensures
        pairs_from(a, b)[i].0 <= pairs_from(a, b)[i].1 < CLASSES,
        a < pairs_from(a, b)[i].0 || (a == pairs_from(a, b)[i].0 && b <= pairs_from(a, b)[i].1),
        i + 1 < pairs_from(a, b).len() ==> {
            let (p, q) = (pairs_from(a, b)[i], pairs_from(a, b)[i + 1]);
            p.0 < q.0 || (p.0 == q.0 && p.1 < q.1)
        },
    decreases CLASSES - a, CLASSES - b,
{
    if a < CLASSES {
        if b >= CLASSES {
            pairs_are_listed_in_order(a + 1, a + 1, i);
        } else {
            let rest = pairs_from(a, b + 1);
            if i > 0 {
                pairs_are_listed_in_order(a, b + 1, i - 1);
            } else if rest.len() > 0 {
                pairs_are_listed_in_order(a, b + 1, 0);
            }
        }
    }
}

/// The winners of a showdown are all hands that no other beats, in order.
pub proof fn every_unbeaten_hand_wins(hands: Seq<[Card; 2]>, board: Seq<Card>, n: int)
    requires
        0 <= n <= hands.len() <= usize::MAX,
    ensures
        winners_of(hands, board, n) == Seq::new(n as nat, |i: int| i as usize).filter(
            |i: usize|
                forall|j: int|
                    0 <= j < hands.len() ==> {
                        let (mine, theirs) = (
                            rank_on(hands[i as int], board),
                            rank_on(#[trigger] hands[j], board),
                        );
                        mine.0 > theirs.0 || (mine.0 == theirs.0 && mine.1 >= theirs.1)
                    },
        ),
    decreases n,
{
    reveal(Seq::filter);
    let best = |i: usize|
        forall|j: int|
            0 <= j < hands.len() ==> {
                let (mine, theirs) = (
                    rank_on(hands[i as int], board),
                    rank_on(#[trigger] hands[j], board),
                );
                mine.0 > theirs.0 || (mine.0 == theirs.0 && mine.1 >= theirs.1)
            };
    let all = Seq::new(n as nat, |i: int| i as usize);
    if n > 0 {
        every_unbeaten_hand_wins(hands, board, n - 1);
        assert(all.drop_last() =~= Seq::new((n - 1) as nat, |i: int| i as usize));
        assert(all.last() == (n - 1) as usize);
        let k = (n - 1) as usize;
        if unbeaten(hands, board, n - 1) {
            assert forall|j: int| 0 <= j < hands.len() implies {
                let (mine, theirs) = (
                    rank_on(hands[k as int], board),
                    rank_on(#[trigger] hands[j], board),
                );
                mine.0 > theirs.0 || (mine.0 == theirs.0 && mine.1 >= theirs.1)
            } by {
                assert(!eval::weaker(rank_on(hands[n - 1], board), rank_on(hands[j], board)));
            }
            assert(best(k));
        }
        if best(k) {
            assert forall|j: int| 0 <= j < hands.len() implies !eval::weaker(
                rank_on(hands[n - 1], board),
                rank_on(#[trigger] hands[j], board),
            ) by {}
            assert(unbeaten(hands, board, n - 1));
        }
    } else {
        assert(all =~= Seq::empty());
    }
}

/// The cards of hands are the two of each, in order.
pub proof fn hands_hold_two_cards_each(hands: Seq<[Card; 2]>, i: int)
    requires
        0 <= i < hands.len(),
    ensures
        cards_held(hands).len() == 2 * hands.len(),
        cards_held(hands)[2 * i] == hands[i][0],
        cards_held(hands)[2 * i + 1] == hands[i][1],
    decreases hands.len(),
{
    let r = hands.drop_last();
    if hands.len() == 1 {
        assert(cards_held(r) =~= Seq::empty());
    } else {
        hands_hold_two_cards_each(r, if i < r.len() {
            i
        } else {
            0
        });
        if i < r.len() {
            assert(r[i] == hands[i]);
        }
    }
    assert(hands.last()@[0] == hands.last()[0] && hands.last()@[1] == hands.last()[1]);
}

/// Two classes can be held at once in as many ways as there are pairs of holdings
/// without a card in common, counted holding by holding of the first.
pub proof fn disjoint_holdings_are_counted(a: Seq<[Card; 2]>, b: Seq<[Card; 2]>, n: int)
    requires
        0 <= n <= a.len(),
    ensures
        disjoint_count(a, b, n) == a.take(n).fold_left(
            0int,
            |t: int, h: [Card; 2]|
                t + b.filter(
                    |v: [Card; 2]|
                        v[0] != h[0] && v[0] != h[1] && v[1] != h[0] && v[1] != h[1],
                ).len(),
        ),
    decreases n,
{
    reveal(Seq::fold_left);
    let add = |t: int, h: [Card; 2]|
        t + b.filter(
            |v: [Card; 2]| v[0] != h[0] && v[0] != h[1] && v[1] != h[0] && v[1] != h[1],
        ).len();
    if n > 0 {
        disjoint_holdings_are_counted(a, b, n - 1);
        assert(a.take(n).drop_last() =~= a.take(n - 1));
        let h = a[n - 1];
        assert(a.take(n).last() == h);
        lemma_unblocked(
            b,
            h,
            |v: [Card; 2]| v[0] != h[0] && v[0] != h[1] && v[1] != h[0] && v[1] != h[1],
        );
    }
}

proof fn lemma_unblocked(b: Seq<[Card; 2]>, h: [Card; 2], free: spec_fn([Card; 2]) -> bool)
    requires
        forall|v: [Card; 2]| #[trigger]
            free(v) == (v[0] != h[0] && v[0] != h[1] && v[1] != h[0] && v[1] != h[1]),
    ensures
        unblocked(b, h) == b.filter(free),
    decreases b.len(),
{
    reveal(Seq::filter);
    if b.len() > 0 {
        lemma_unblocked(b.drop_last(), h, free);
        let v = b.last();
        assert(h@[0] == h[0] && h@[1] == h[1]);
        assert(h@.contains(v[0]) <==> v[0] == h[0] || v[0] == h[1]);
        assert(h@.contains(v[1]) <==> v[1] == h[0] || v[1] == h[1]);
        assert(free(v) == (!h@.contains(v[0]) && !h@.contains(v[1])));
    }
}

proof fn lemma_someone_is_unbeaten(hands: Seq<[Card; 2]>, board: Seq<Card>, n: int) -> (w: int)
    requires
        0 < n <= hands.len(),
    ensures
        0 <= w < n,
        forall|j: int|
            0 <= j < n ==> !eval::weaker(
                rank_on(hands[w], board),
                rank_on(#[trigger] hands[j], board),
            ),
    decreases n,
{
    if n == 1 {
        0
    } else {
        let w = lemma_someone_is_unbeaten(hands, board, n - 1);
        if eval::weaker(rank_on(hands[w], board), rank_on(hands[n - 1], board)) {
            assert forall|j: int| 0 <= j < n implies !eval::weaker(
                rank_on(hands[n - 1], board),
                rank_on(#[trigger] hands[j], board),
            ) by {
                if j < n - 1 {
                    assert(!eval::weaker(rank_on(hands[w], board), rank_on(hands[j], board)));
                }
            }
            n - 1
        } else {
            w
        }
    }
}

/// Somebody wins every showdown.
pub proof fn somebody_wins(hands: Seq<[Card; 2]>, board: Seq<Card>)
    requires
        0 < hands.len() <= usize::MAX,
    ensures
        winners_of(hands, board, hands.len() as int).len() > 0,
{
    let n = hands.len() as int;
    let w = lemma_someone_is_unbeaten(hands, board, n);
    assert(unbeaten(hands, board, w));
    lemma_winner_listed(hands, board, n, w);
}

proof fn lemma_winner_listed(hands: Seq<[Card; 2]>, board: Seq<Card>, n: int, w: int)
    requires
        0 <= w < n,
        unbeaten(hands, board, w),
    ensures
        winners_of(hands, board, n).len() > 0,
    decreases n,
{
    if w < n - 1 {
        lemma_winner_listed(hands, board, n - 1, w);
    }
}

/// A deal hands out the deck from the top, two cards to a seat, and keeps the rest:
/// the holes, seat by seat, and the pool make up the deck. Each class is that of the
/// hole of its seat.
pub proof fn deals_use_up_the_deck(d: Deal, deck: Seq<Card>, n: int)
    requires
        deal_from(d, deck, n),
        0 <= n,
        2 * n <= deck.len(),
    ensures
        Seq::new((2 * n) as nat, |i: int| d.holes@[i / 2][i % 2]) + d.pool@ == deck,
        forall|s: int|
            0 <= s < n ==> #[trigger] d.classes@[s] == preflop::class_of(
                d.holes@[s][0],
                d.holes@[s][1],
            ),
{
    let dealt = Seq::new((2 * n) as nat, |i: int| d.holes@[i / 2][i % 2]);
    assert forall|i: int| 0 <= i < deck.len() implies #[trigger] (dealt + d.pool@)[i] == deck[i] by {
        if i < 2 * n {
            let s = i / 2;
            assert(0 <= s < n);
            assert(d.holes@[s][0] == deck[2 * s] && d.holes@[s][1] == deck[2 * s + 1]);
            assert(i % 2 == 0 || i % 2 == 1);
        }
    }
    assert(dealt + d.pool@ =~= deck);
    assert forall|s: int| 0 <= s < n implies #[trigger] d.classes@[s] == preflop::class_of(
        d.holes@[s][0],
        d.holes@[s][1],
    ) by {
        assert(d.holes@[s][0] == deck[2 * s]);
    }
}

} // verus!
