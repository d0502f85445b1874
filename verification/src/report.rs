//! Reports over solved spots: which rows they give, how they are sorted and
//! written, and the set-up of range against range.

use crate::bits::F32;
use crate::board;
use crate::board::Card;
use crate::eval;
use crate::eval::Equity;
use crate::order;
use crate::range;
use crate::solution;
use crate::solution::SolvedSpot;
use crate::text;
use crate::texture;
use vstd::prelude::*;

verus! {

/// By what the rows of a report are sorted.
#[derive(Debug, Clone, Copy, PartialEq, Eq, Structural)]
pub enum Sort {
    /// Texture, then flop.
    Texture,
    Flop,
    /// How often the hero bets, highest first.
    Bet,
    /// EV, highest first.
    Ev,
}

/// Whose decisions a report keeps.
#[derive(Debug, Clone, Copy, PartialEq, Eq, Structural)]
pub enum NodeSide {
    Ip,
    Oop,
}

/// The first word of a label, in lower case.
pub open spec fn first_word(label: Seq<char>) -> Seq<char> {
    let w = text::words(label);
    if w.len() > 0 {
        text::lowered(w[0])
    } else {
        Seq::empty()
    }
}

/// The label is of a bet or raise.
pub open spec fn aggressive(label: Seq<char>) -> bool {
    let w = first_word(label);
    w == "bet"@ || w == "raise"@ || w == "jam"@ || w == "shove"@ || w == "all-in"@ || w == "allin"@
}

/// The first word of a label, in lower case.
pub fn lower_first_word(label: &str) -> (r: String)
    ensures
        r@ == first_word(label@),
{
    let cs = text::chars_of(label);
    let w = text::words_of(cs.as_slice());
    let mut low: Vec<char> = Vec::new();
    if w.len() > 0 {
        let first = text::chars_of(w[0].as_str());
        let mut i: usize = 0;
        while i < first.len()
            invariant
                i <= first@.len(),
                low@ == text::lowered(first@.take(i as int)),
            decreases first@.len() - i,
        {
            low.push(text::lower_char(first[i]));
            assert(text::lowered(first@.take(i + 1)) =~= text::lowered(
                first@.take(i as int),
            ).push(text::lower(first@[i as int])));
            i = i + 1;
        }
        assert(first@.take(i as int) =~= first@);
        assert(text::texts(w@)[0] == w@[0]@);
    }
    assert(text::texts(w@).len() == w@.len());
    assert(low@ =~= first_word(label@));
    text::string_of(low.as_slice())
}

/// Whether a label is of a bet or raise, by its first word in either case.
pub fn is_aggressive(label: &str) -> (r: bool)
    ensures
        r == aggressive(label@),
{
    let word = lower_first_word(label);
    let s = word.as_str();
    text::same_text(s, "bet") || text::same_text(s, "raise") || text::same_text(s, "jam")
        || text::same_text(s, "shove") || text::same_text(s, "all-in") || text::same_text(
        s,
        "allin",
    )
}

/// Where the digits before place `i` begin.
pub open spec fn digits_before(s: Seq<char>, i: int) -> int
    decreases i,
{
    if i > 0 && text::is_digit(s[i - 1]) {
        digits_before(s, i - 1)
    } else {
        i
    }
}

/// The number right before the first `%`.
pub open spec fn percent_in(s: Seq<char>) -> Option<int> {
    let p = text::char_from(s, '%', 0);
    if p >= s.len() {
        None
    } else {
        text::whole_number(s.subrange(digits_before(s, p), p), u32::MAX as int)
    }
}

proof fn lemma_digits_before(s: Seq<char>, i: int)
    requires
        0 <= i,
    ensures
        0 <= digits_before(s, i) <= i,
    decreases i,
{
    if i > 0 && text::is_digit(s[i - 1]) {
        lemma_digits_before(s, i - 1);
    }
}

proof fn lemma_char_from(s: Seq<char>, c: char, i: int, p: int)
    requires
        0 <= i <= p < s.len(),
        s[p] == c,
        forall|k: int| i <= k < p ==> s[k] != c,
    ensures
        text::char_from(s, c, i) == p,
    decreases p - i,
{
    if i < p {
        lemma_char_from(s, c, i + 1, p);
    }
}

proof fn lemma_char_nowhere(s: Seq<char>, c: char, i: int)
    requires
        0 <= i,
        !s.contains(c),
    ensures
        text::char_from(s, c, i) >= s.len(),
    decreases s.len() - i,
{
    if i < s.len() {
        assert(s[i] != c);
        lemma_char_nowhere(s, c, i + 1);
    }
}

/// The size of the bet that a defender faces, in percent of the pot, as the
/// action of the villain tells it.
pub fn facing_pct(villain_action: &str) -> (r: Option<u32>)
    ensures
        r is Some == percent_in(villain_action@) is Some,
        r matches Some(n) ==> percent_in(villain_action@) == Some(n as int),
{
    let cs = text::chars_of(villain_action);
    let p = match text::find_char(cs.as_slice(), '%') {
        Some(p) => p,
        None => {
            proof {
                lemma_char_nowhere(cs@, '%', 0);
            }
            return None;
        },
    };
    proof {
        lemma_char_from(cs@, '%', 0, p as int);
    }
    let mut i: usize = p;
    while i > 0 && '0' <= cs[i - 1] && cs[i - 1] <= '9'
        invariant
            i <= p,
            p < cs@.len(),
            digits_before(cs@, p as int) == digits_before(cs@, i as int),
        decreases i,
    {
        i = i - 1;
    }
    assert(digits_before(cs@, i as int) == i);
    let d = text::part(cs.as_slice(), i, p);
    match text::parse_whole(d.as_slice(), 0xffff_ffff) {
        Some(n) => Some(n as u32),
        None => None,
    }
}

/// The name of a decision: the side, and the size that a defender faces.
pub open spec fn node_name(hero_oop: bool, villain_action: Seq<char>) -> Seq<char> {
    let side = if hero_oop {
        "OOP"@
    } else {
        "IP"@
    };
    match percent_in(villain_action) {
        Some(p) => side + " v"@ + text::decimal(p),
        None => side,
    }
}

/// The short name of a spot's decision: `"IP"`, `"OOP v33"`.
pub fn node_label(spot: &SolvedSpot) -> (r: String)
    ensures
        r@ == node_name(spot.hero_oop, spot.villain_action@),
{
    let side = if spot.hero_oop {
        "OOP"
    } else {
        "IP"
    };
    match facing_pct(spot.villain_action.as_str()) {
        Some(p) => {
            let n = text::decimal_text(p as u64);
            text::join3(side, " v", n.as_str())
        },
        None => text::copy_text(side),
    }
}

/// The first three cards of a board.
pub open spec fn first_three(board: Seq<Seq<char>>) -> Option<[Card; 3]> {
    if board.len() < 3 {
        None
    } else {
        match (
            board::leading_card(board[0]),
            board::leading_card(board[1]),
            board::leading_card(board[2]),
        ) {
            (Some(a), Some(b), Some(c)) => Some([a, b, c]),
            _ => None,
        }
    }
}

/// The flop of a board.
pub fn flop_of(board: &Vec<String>) -> (r: Option<[Card; 3]>)
    ensures
        r == first_three(text::texts(board@)),
        r matches Some(f) ==> board::all_cards(f@),
{
    let ghost b = text::texts(board@);
    if board.len() < 3 {
        return None;
    }
    assert(b[0] == board@[0]@ && b[1] == board@[1]@ && b[2] == board@[2]@);
    match (
        board::parse_card(board[0].as_str()),
        board::parse_card(board[1].as_str()),
        board::parse_card(board[2].as_str()),
    ) {
        (Some(x), Some(y), Some(z)) => {
            let f: [Card; 3] = [x, y, z];
            assert(f@[0].wf() && f@[1].wf() && f@[2].wf());
            Some(f)
        },
        _ => None,
    }
}

/// One row of a report but for its averages: what is averaged.
#[derive(Debug, Clone)]
pub struct RowPlan {
    pub flop: String,
    pub texture: String,
    pub node: String,
    /// How many hands the averages are over.
    pub combos: usize,
    pub actions: Vec<String>,
    /// The hands whose strategy has a frequency for each action: they are summed.
    pub summed: Vec<usize>,
    /// The actions that are bets or raises.
    pub bets: Vec<usize>,
}

/// The texture of a board, `"?"` where its flop does not parse.
pub open spec fn texture_name(board: Seq<Seq<char>>) -> Seq<char> {
    match first_three(board) {
        Some(f) => texture::texture_of(f).name(),
        None => "?"@,
    }
}

/// The hands, of the first `n`, with a frequency for each of `actions` actions.
pub open spec fn summed_of(spot: SolvedSpot, actions: int, n: int) -> Seq<usize>
    decreases n,
{
    if n <= 0 {
        Seq::empty()
    } else if spot.strategies@[n - 1].strategy.frequencies@.len() == actions {
        summed_of(spot, actions, n - 1).push((n - 1) as usize)
    } else {
        summed_of(spot, actions, n - 1)
    }
}

/// The places, of the first `n`, of the labels that are bets or raises.
pub open spec fn bets_of(actions: Seq<Seq<char>>, n: int) -> Seq<usize>
    decreases n,
{
    if n <= 0 {
        Seq::empty()
    } else if aggressive(actions[n - 1]) {
        bets_of(actions, n - 1).push((n - 1) as usize)
    } else {
        bets_of(actions, n - 1)
    }
}

/// The row of a spot, `None` where it has no hands. The actions are those of
/// its first hand; a hand with another number of frequencies is not summed, but
/// counts.
pub fn summarize(spot: &SolvedSpot) -> (r: Option<RowPlan>)
    ensures
        r is Some == (spot.strategies@.len() > 0),
        r matches Some(row) ==> {
            let actions = spot.strategies@[0].strategy.actions@;
            &&& row.flop@ == text::joined(text::texts(spot.board@), ""@)
            &&& row.texture@ == texture_name(text::texts(spot.board@))
            &&& row.node@ == node_name(spot.hero_oop, spot.villain_action@)
            &&& row.combos == spot.strategies@.len()
            &&& text::texts(row.actions@) == text::texts(actions)
            &&& row.summed@ == summed_of(
                *spot,
                actions.len() as int,
                spot.strategies@.len() as int,
            )
            &&& row.bets@ == bets_of(text::texts(actions), actions.len() as int)
        },
{
    if spot.strategies.len() == 0 {
        return None;
    }
    let actions = &spot.strategies[0].strategy.actions;
    let ghost av = text::texts(actions@);
    let mut summed: Vec<usize> = Vec::new();
    let mut i: usize = 0;
    while i < spot.strategies.len()
        invariant
            i <= spot.strategies@.len(),
            summed@ == summed_of(*spot, actions@.len() as int, i as int),
        decreases spot.strategies@.len() - i,
    {
        if spot.strategies[i].strategy.frequencies.len() == actions.len() {
            summed.push(i);
        }
        i = i + 1;
    }
    let mut bets: Vec<usize> = Vec::new();
    let mut k: usize = 0;
    while k < actions.len()
        invariant
            k <= actions@.len(),
            av == text::texts(actions@),
            bets@ == bets_of(av, k as int),
        decreases actions@.len() - k,
    {
        assert(av[k as int] == actions@[k as int]@);
        if is_aggressive(actions[k].as_str()) {
            bets.push(k);
        }
        k = k + 1;
    }
    let texture = match flop_of(&spot.board) {
        Some(f) => texture::class(f),
        None => "?",
    };
    Some(
        RowPlan {
            flop: text::join_all(&spot.board, ""),
            texture: text::copy_text(texture),
            node: node_label(spot),
            combos: spot.strategies.len(),
            actions: text::copy_texts(actions),
            summed,
            bets,
        },
    )
}

/// The formation of a spot; spots without a configuration are all of the first.
pub open spec fn formation_name(spot: SolvedSpot) -> Seq<char> {
    match spot.config {
        Some(c) => c.formation@,
        None => "srp-btn-bb"@,
    }
}

/// The formation of a spot.
pub fn formation_of(spot: &SolvedSpot) -> (r: &str)
    ensures
        r@ == formation_name(*spot),
{
    match &spot.config {
        Some(c) => c.formation.as_str(),
        None => "srp-btn-bb",
    }
}

/// The spot is in the formation and on the side asked for.
pub open spec fn wanted(spot: SolvedSpot, formation: Option<Seq<char>>, node: Option<NodeSide>) -> bool {
    &&& formation is Some ==> formation_name(spot) == formation->0
    &&& node is Some ==> spot.hero_oop == (node->0 == NodeSide::Oop)
}

/// Whether a report keeps a spot.
pub fn keeps(spot: &SolvedSpot, formation: Option<&str>, node: Option<NodeSide>) -> (r: bool)
    ensures
        r == wanted(
            *spot,
            match formation {
                Some(f) => Some(f@),
                None => None,
            },
            node,
        ),
{
    let formation_fits = match formation {
        Some(f) => text::same_text(formation_of(spot), f),
        None => true,
    };
    let side_fits = match node {
        Some(n) => spot.hero_oop == (n == NodeSide::Oop),
        None => true,
    };
    formation_fits && side_fits
}

// ---------------------------------------------------------------- sorting

/// The key of a pair of texts: the first decides, then the second.
pub open spec fn pair_key(a: Seq<char>, b: Seq<char>) -> Seq<u32> {
    a.map_values(|c: char| (c as u32 + 1) as u32).push(0) + order::text_key(b)
}

/// What a row is sorted by.
pub struct RowKey {
    pub texture: String,
    pub flop: String,
    pub bet: F32,
    pub ev: F32,
}

/// The key that a row is sorted by.
pub open spec fn sort_key(r: RowKey, by: Sort) -> Seq<u32> {
    match by {
        Sort::Texture => pair_key(r.texture@, r.flop@),
        Sort::Flop => order::text_key(r.flop@),
        Sort::Bet => seq![(0xffff_ffff - r.bet.total_rank()) as u32],
        Sort::Ev => seq![(0xffff_ffff - r.ev.total_rank()) as u32],
    }
}

/// The keys of rows.
pub open spec fn sort_keys(rows: Seq<RowKey>, by: Sort) -> Seq<Seq<u32>> {
    rows.map_values(|r: RowKey| sort_key(r, by))
}

/// The key of a pair of texts.
pub fn key_of_pair(a: &str, b: &str) -> (r: Vec<u32>)
    ensures
        r@ == pair_key(a@, b@),
{
    let cs = text::chars_of(a);
    let mut out: Vec<u32> = Vec::new();
    let mut i: usize = 0;
    while i < cs.len()
        invariant
            i <= cs@.len(),
            out@ == cs@.take(i as int).map_values(|c: char| (c as u32 + 1) as u32),
        decreases cs@.len() - i,
    {
        let n: u32 = cs[i] as u32;
        proof {
            let c = cs@[i as int];
            order::lemma_char_bound(c);
            assert(cs@.take(i + 1).map_values(|c: char| (c as u32 + 1) as u32)
                =~= cs@.take(i as int).map_values(|c: char| (c as u32 + 1) as u32).push(
                (c as u32 + 1) as u32,
            ));
        }
        out.push(n + 1);
        i = i + 1;
    }
    assert(cs@.take(i as int) =~= cs@);
    out.push(0);
    let mut tail = order::key_of_text(b);
    out.append(&mut tail);
    out
}

/// The order of the rows of a report: the places of the rows, sorted, equal ones
/// staying as they were.
pub fn sort_rows(rows: &Vec<RowKey>, by: Sort) -> (idx: Vec<usize>)
    ensures
        order::stable_order(sort_keys(rows@, by), idx@),
{
    let mut keys: Vec<Vec<u32>> = Vec::new();
    let mut i: usize = 0;
    while i < rows.len()
        invariant
            i <= rows@.len(),
            keys@.len() == i,
            forall|k: int| 0 <= k < i ==> (#[trigger] keys@[k])@ == sort_key(rows@[k], by),
        decreases rows@.len() - i,
    {
        let r = &rows[i];
        let key = match by {
            Sort::Texture => key_of_pair(r.texture.as_str(), r.flop.as_str()),
            Sort::Flop => order::key_of_text(r.flop.as_str()),
            Sort::Bet => {
                let high: u32 = 0xffff_ffff - r.bet.total_key();
                vec![high]
            },
            Sort::Ev => {
                let high: u32 = 0xffff_ffff - r.ev.total_key();
                vec![high]
            },
        };
        assert(key@ =~= sort_key(*r, by));
        keys.push(key);
        i = i + 1;
    }
    assert(order::keys_of(keys@) =~= sort_keys(rows@, by));
    order::sorted_positions(&keys)
}

proof fn lemma_pair_keys(a: Seq<char>, b: Seq<char>, c: Seq<char>, d: Seq<char>)
    ensures
        order::lex_le(pair_key(a, b), pair_key(c, d)) == if a == c {
            order::lex_le(order::text_key(b), order::text_key(d))
        } else {
            order::lex_le(order::text_key(a), order::text_key(c))
        },
    decreases a.len(),
{
    let k = pair_key(a, b);
    let l = pair_key(c, d);
    if a.len() > 0 {
        order::lemma_char_bound(a[0]);
        assert(k[0] == a[0] as u32 + 1);
        assert(k.drop_first() =~= pair_key(a.drop_first(), b));
        assert(order::text_key(a)[0] == a[0] as u32);
        assert(order::text_key(a).drop_first() =~= order::text_key(a.drop_first()));
    } else {
        assert(k[0] == 0);
        assert(k.drop_first() =~= order::text_key(b));
    }
    if c.len() > 0 {
        order::lemma_char_bound(c[0]);
        assert(l[0] == c[0] as u32 + 1);
        assert(l.drop_first() =~= pair_key(c.drop_first(), d));
        assert(order::text_key(c)[0] == c[0] as u32);
        assert(order::text_key(c).drop_first() =~= order::text_key(c.drop_first()));
    } else {
        assert(l[0] == 0);
        assert(l.drop_first() =~= order::text_key(d));
    }
    if a.len() == 0 && c.len() == 0 {
        assert(a =~= c);
    } else if a.len() > 0 && c.len() > 0 {
        lemma_same_number(a[0], c[0]);
        if a[0] == c[0] {
            lemma_pair_keys(a.drop_first(), b, c.drop_first(), d);
            if a.drop_first() == c.drop_first() {
                assert(a =~= seq![a[0]] + a.drop_first());
                assert(c =~= seq![c[0]] + c.drop_first());
            }
        }
    }
}

proof fn lemma_same_number(c: char, d: char)
    ensures
        (c as u32 == d as u32) == (c == d),
{
}

/// Sorting by texture puts the rows of one texture together, by flop.
pub proof fn texture_decides_before_flop(a: RowKey, b: RowKey)
    ensures
        order::lex_le(sort_key(a, Sort::Texture), sort_key(b, Sort::Texture)) == if a.texture@
            == b.texture@ {
            order::lex_le(order::text_key(a.flop@), order::text_key(b.flop@))
        } else {
            order::lex_le(order::text_key(a.texture@), order::text_key(b.texture@))
        },
{
    lemma_pair_keys(a.texture@, a.flop@, b.texture@, b.flop@);
}

/// Sorting by frequency or EV puts the higher number first.
pub proof fn higher_comes_first(a: RowKey, b: RowKey)
    ensures
        order::lex_le(sort_key(a, Sort::Bet), sort_key(b, Sort::Bet)) == (a.bet.total_rank()
            >= b.bet.total_rank()),
        order::lex_le(sort_key(a, Sort::Ev), sort_key(b, Sort::Ev)) == (a.ev.total_rank()
            >= b.ev.total_rank()),
{
    reveal_with_fuel(order::lex_le, 2);
}

// ---------------------------------------------------------------- roll-up

/// The places, of the first `n` texts, of those equal to `t`.
pub open spec fn places_of(v: Seq<Seq<char>>, t: Seq<char>, n: int) -> Seq<usize>
    decreases n,
{
    if n <= 0 {
        Seq::empty()
    } else if v[n - 1] == t {
        places_of(v, t, n - 1).push((n - 1) as usize)
    } else {
        places_of(v, t, n - 1)
    }
}

/// How many of the first `n` texts stand under the first `m` keys.
pub open spec fn places_under(keys: Seq<Seq<char>>, m: int, v: Seq<Seq<char>>, n: int) -> int
    decreases m,
{
    if m <= 0 {
        0
    } else {
        places_under(keys, m - 1, v, n) + places_of(v, keys[m - 1], n).len()
    }
}

proof fn lemma_one_more_place(keys: Seq<Seq<char>>, m: int, v: Seq<Seq<char>>, n: int)
    requires
        0 <= m <= keys.len(),
        0 < n <= v.len(),
        forall|i: int, j: int| 0 <= i < j < keys.len() ==> #[trigger] keys[i] != #[trigger] keys[j],
    ensures
        places_under(keys, m, v, n) == places_under(keys, m, v, n - 1) + if keys.take(m).contains(
            v[n - 1],
        ) {
            1int
        } else {
            0int
        },
    decreases m,
{
    if m > 0 {
        lemma_one_more_place(keys, m - 1, v, n);
        let x = v[n - 1];
        let fewer = keys.take(m - 1);
        let more = keys.take(m);
        assert(more =~= fewer.push(keys[m - 1]));
        if fewer.contains(x) {
            let i = choose|i: int| 0 <= i < fewer.len() && fewer[i] == x;
            assert(more[i] == x);
            assert(keys[i] != keys[m - 1]);
        }
        if more.contains(x) && keys[m - 1] != x {
            let i = choose|i: int| 0 <= i < more.len() && more[i] == x;
            assert(fewer[i] == x);
        }
        if keys[m - 1] == x {
            assert(more[m - 1] == x);
        }
    }
}

proof fn lemma_no_places(keys: Seq<Seq<char>>, m: int, v: Seq<Seq<char>>)
    ensures
        places_under(keys, m, v, 0) == 0,
    decreases m,
{
    if m > 0 {
        lemma_no_places(keys, m - 1, v);
    }
}

/// Grouping by the distinct texts of a list puts each of its places into one
/// group.
pub proof fn every_place_is_grouped(keys: Seq<Seq<char>>, v: Seq<Seq<char>>, n: int)
    requires
        solution::distinct_of(keys, v),
        0 <= n <= v.len(),
    ensures
        places_under(keys, keys.len() as int, v, n) == n,
    decreases n,
{
    if n == 0 {
        lemma_no_places(keys, keys.len() as int, v);
    } else {
        every_place_is_grouped(keys, v, n - 1);
        assert forall|i: int, j: int| 0 <= i < j < keys.len() implies #[trigger] keys[i]
            != #[trigger] keys[j] by {
            assert(solution::text_before(keys[i], keys[j]));
        }
        lemma_one_more_place(keys, keys.len() as int, v, n);
        assert(v.contains(v[n - 1]));
        assert(keys.take(keys.len() as int) =~= keys);
    }
}

/// The rows of one texture.
#[derive(Debug, Clone)]
pub struct Group {
    pub texture: String,
    pub rows: Vec<usize>,
}

/// The textures of groups.
pub open spec fn group_names(v: Seq<Group>) -> Seq<Seq<char>> {
    v.map_values(|g: Group| g.texture@)
}

/// Groups rows by texture: the textures in ascending order, each with the places
/// of its rows.
pub fn rollup(textures: &Vec<String>) -> (r: Vec<Group>)
    ensures
        solution::distinct_of(group_names(r@), text::texts(textures@)),
        forall|i: int|
            0 <= i < r@.len() ==> (#[trigger] r@[i]).rows@ == places_of(
                text::texts(textures@),
                r@[i].texture@,
                textures@.len() as int,
            ),
{
    let ghost tv = text::texts(textures@);
    let names = solution::distinct_sorted(textures);
    let ghost nv = text::texts(names@);
    let mut out: Vec<Group> = Vec::new();
    let mut i: usize = 0;
    while i < names.len()
        invariant
            i <= names@.len(),
            tv == text::texts(textures@),
            nv == text::texts(names@),
            out@.len() == i,
            forall|k: int|
                0 <= k < i ==> (#[trigger] out@[k]).texture@ == nv[k] && out@[k].rows@
                    == places_of(tv, nv[k], textures@.len() as int),
        decreases names@.len() - i,
    {
        assert(nv[i as int] == names@[i as int]@);
        let mut rows: Vec<usize> = Vec::new();
        let mut k: usize = 0;
        while k < textures.len()
            invariant
                k <= textures@.len(),
                i < names@.len(),
                tv == text::texts(textures@),
                rows@ == places_of(tv, names@[i as int]@, k as int),
            decreases textures@.len() - k,
        {
            assert(tv[k as int] == textures@[k as int]@);
            if text::same_text(textures[k].as_str(), names[i].as_str()) {
                rows.push(k);
            }
            k = k + 1;
        }
        out.push(Group { texture: names[i].clone(), rows });
        i = i + 1;
    }
    assert(group_names(out@) =~= nv);
    out
}

// ---------------------------------------------------------------- CSV

/// The text with each quotation mark doubled.
pub open spec fn doubled(s: Seq<char>) -> Seq<char>
    decreases s.len(),
{
    if s.len() == 0 {
        Seq::empty()
    } else if s.last() == '"' {
        doubled(s.drop_last()).push('"').push('"')
    } else {
        doubled(s.drop_last()).push(s.last())
    }
}

/// The field holds a comma, a quotation mark or a line end.
pub open spec fn needs_quotes(s: Seq<char>) -> bool {
    s.contains(',') || s.contains('"') || s.contains('\n')
}

/// A field as it is written.
pub open spec fn csv_text(s: Seq<char>) -> Seq<char> {
    if needs_quotes(s) {
        seq!['"'] + doubled(s) + seq!['"']
    } else {
        s
    }
}

/// Writes a CSV field, in quotation marks only where it needs them.
pub fn csv_field(s: &str) -> (r: String)
    ensures
        r@ == csv_text(s@),
{
    let cs = text::chars_of(s);
    if !(text::has_char(s, ',') || text::has_char(s, '"')
        || text::has_char(s, '\n')) {
        return text::copy_text(s);
    }
    let mut out: Vec<char> = Vec::new();
    out.push('"');
    let mut i: usize = 0;
    assert(out@ =~= seq!['"'] + doubled(cs@.take(0)));
    while i < cs.len()
        invariant
            i <= cs@.len(),
            out@ == seq!['"'] + doubled(cs@.take(i as int)),
        decreases cs@.len() - i,
    {
        let ghost before = out@;
        let c = cs[i];
        if c == '"' {
            out.push('"');
        }
        out.push(c);
        proof {
            assert(cs@.take(i + 1).drop_last() =~= cs@.take(i as int));
            assert(out@ =~= seq!['"'] + doubled(cs@.take(i + 1)));
        }
        i = i + 1;
    }
    assert(cs@.take(i as int) =~= cs@);
    out.push('"');
    assert(out@ =~= seq!['"'] + doubled(cs@) + seq!['"']);
    text::string_of(out.as_slice())
}

/// The text with each pair of quotation marks made one again.
pub open spec fn undoubled(s: Seq<char>) -> Seq<char>
    decreases s.len(),
{
    if s.len() == 0 {
        Seq::empty()
    } else if s.len() >= 2 && s.last() == '"' {
        undoubled(s.drop_last().drop_last()).push('"')
    } else {
        undoubled(s.drop_last()).push(s.last())
    }
}

/// What a reader makes of a field.
pub open spec fn csv_read(t: Seq<char>) -> Seq<char> {
    if t.len() >= 2 && t[0] == '"' {
        undoubled(t.subrange(1, t.len() - 1))
    } else {
        t
    }
}

proof fn lemma_undoubled(s: Seq<char>)
    ensures
        undoubled(doubled(s)) == s,
    decreases s.len(),
{
    if s.len() > 0 {
        lemma_undoubled(s.drop_last());
        let d = doubled(s);
        if s.last() == '"' {
            assert(d.drop_last().drop_last() =~= doubled(s.drop_last()));
        } else {
            assert(d.drop_last() =~= doubled(s.drop_last()));
        }
        assert(s.drop_last().push(s.last()) =~= s);
    } else {
        assert(s =~= Seq::empty());
    }
}

/// A field that was written is read back as it was.
pub proof fn csv_fields_read_back(s: Seq<char>)
    ensures
        csv_read(csv_text(s)) == s,
{
    let t = csv_text(s);
    if needs_quotes(s) {
        assert(t.subrange(1, t.len() - 1) =~= doubled(s));
        lemma_undoubled(s);
    } else if t.len() >= 2 && t[0] == '"' {
        assert(s.contains('"'));
    }
}

/// One line of the report as CSV: the numbers come as they are printed.
pub fn csv_line(
    flop: &str,
    texture: &str,
    node: &str,
    combos: usize,
    bet_pct: &str,
    ev_bb: &str,
    mix: &str,
) -> (r: String)
    ensures
        r@ == text::joined(
            seq![
                csv_text(flop@),
                texture@,
                csv_text(node@),
                text::decimal(combos as int),
                bet_pct@,
                ev_bb@,
                csv_text(mix@),
            ],
            ","@,
        ) + "\n"@,
{
    let mut fields: Vec<String> = Vec::new();
    fields.push(csv_field(flop));
    fields.push(text::copy_text(texture));
    fields.push(csv_field(node));
    fields.push(text::decimal_text(combos as u64));
    fields.push(text::copy_text(bet_pct));
    fields.push(text::copy_text(ev_bb));
    fields.push(csv_field(mix));
    assert(text::texts(fields@) =~= seq![
        csv_text(flop@),
        texture@,
        csv_text(node@),
        text::decimal(combos as int),
        bet_pct@,
        ev_bb@,
        csv_text(mix@),
    ]);
    let line = text::join_all(&fields, ",");
    text::join2(line.as_str(), "\n")
}

// ---------------------------------------------------------------- range against range

/// How many runouts each pair of hands is played on.
pub const EQ_ITERS: u32 = 60;

/// How many villain hands each hero hand is measured against.
pub const OPP_CAP: usize = 120;

/// Why two ranges cannot be matched up.
#[derive(Debug, Clone)]
pub enum EquityError {
    Flop,
    Range { range: String, why: String },
    /// A range has no hand that avoids the board.
    Empty,
}

/// Two ranges on a flop.
pub struct EquitySetup {
    pub flop: [Card; 3],
    pub oop: Vec<[Card; 2]>,
    pub ip: Vec<[Card; 2]>,
}

/// The hands of a range that avoid the flop, by the numbers of their cards.
pub open spec fn live_codes(s: Set<(u8, u8)>, flop: [Card; 3]) -> Set<(u8, u8)> {
    s.filter(
        |p: (u8, u8)|
            forall|i: int|
                0 <= i < 3 ==> (#[trigger] flop[i]).rs_code() != p.0 && flop[i].rs_code() != p.1,
    )
}

/// Two cards with one number are one card.
pub proof fn lemma_code_injective(a: Card, b: Card)
    requires
        a.wf(),
        b.wf(),
        a.rs_code() == b.rs_code(),
    ensures
        a == b,
{
}

proof fn lemma_live_codes(v: Seq<[Card; 2]>, flop: [Card; 3])
    requires
        range::all_hands(v),
        board::all_cards(flop@),
    ensures
        range::codes_of_hands(v.filter(|h: [Card; 2]| !range::dead(h, flop))).to_set()
            == live_codes(range::codes_of_hands(v).to_set(), flop),
    decreases v.len(),
{
    let keep = |h: [Card; 2]| !range::dead(h, flop);
    let f = v.filter(keep);
    let left = range::codes_of_hands(f).to_set();
    let right = live_codes(range::codes_of_hands(v).to_set(), flop);
    assert forall|p: (u8, u8)| #[trigger] left.contains(p) == right.contains(p) by {
        if left.contains(p) {
            let i = choose|i: int|
                0 <= i < range::codes_of_hands(f).len() && range::codes_of_hands(f)[i] == p;
            let h = f[i];
            v.lemma_filter_contains_rev(keep, h);
            let k = choose|k: int| 0 <= k < v.len() && v[k] == h;
            assert(range::codes_of_hands(v)[k] == p);
            f_holds(v, keep, i);
            assert(!range::dead(h, flop));
            assert(board::all_cards(v[k]@));
            assert(h@[0].wf() && h@[1].wf());
            assert forall|j: int| 0 <= j < 3 implies (#[trigger] flop[j]).rs_code() != p.0
                && flop[j].rs_code() != p.1 by {
                assert(flop@[j].wf());
                if flop[j].rs_code() == p.0 {
                    lemma_code_injective(flop[j], h[0]);
                    assert(flop@[j] == h[0]);
                }
                if flop[j].rs_code() == p.1 {
                    lemma_code_injective(flop[j], h[1]);
                    assert(flop@[j] == h[1]);
                }
            }
        }
        if right.contains(p) {
            let k = choose|k: int|
                0 <= k < range::codes_of_hands(v).len() && range::codes_of_hands(v)[k] == p;
            let h = v[k];
            assert(board::all_cards(v[k]@));
            assert(h@[0].wf() && h@[1].wf());
            if range::dead(h, flop) {
                if flop@.contains(h[0]) {
                    let j = choose|j: int| 0 <= j < 3 && flop@[j] == h[0];
                    assert(flop[j].rs_code() == p.0);
                } else {
                    let j = choose|j: int| 0 <= j < 3 && flop@[j] == h[1];
                    assert(flop[j].rs_code() == p.1);
                }
            }
            assert(keep(h));
            v.lemma_filter_contains(keep, k);
            let i = choose|i: int| 0 <= i < f.len() && f[i] == h;
            assert(range::codes_of_hands(f)[i] == p);
        }
    }
    assert(left =~= right);
}

proof fn f_holds(v: Seq<[Card; 2]>, keep: spec_fn([Card; 2]) -> bool, i: int)
    requires
        0 <= i < v.filter(keep).len(),
    ensures
        keep(v.filter(keep)[i]),
{
    broadcast use Seq::lemma_filter_pred;
    assert(keep(v.filter(keep)[i]));
}

/// The set-up that the texts ask for.
pub open spec fn setup_of(oop: Seq<char>, ip: Seq<char>, board: Seq<char>) -> Result<
    (Set<(u8, u8)>, Set<(u8, u8)>),
    int,
> {
    match (texture::six_char_flop(board), range::range_parse(oop), range::range_parse(ip)) {
        (None, _, _) => Err(0),
        (Some(f), Err(_), _) => Err(1),
        (Some(f), Ok(_), Err(_)) => Err(2),
        (Some(f), Ok(o), Ok(i)) => if live_codes(o, f).is_empty() || live_codes(i, f).is_empty() {
            Err(3)
        } else {
            Ok((live_codes(o, f), live_codes(i, f)))
        },
    }
}

/// Reads the board and the two ranges, and drops the hands that hold a card of
/// the board.
pub fn equity_setup(oop: &str, ip: &str, board: &str) -> (r: Result<EquitySetup, EquityError>)
    ensures
        r is Ok == setup_of(oop@, ip@, board@) is Ok,
        r matches Ok(s) ==> {
            &&& texture::six_char_flop(board@) == Some(s.flop)
            &&& board::all_cards(s.flop@)
            &&& range::all_hands(s.oop@)
            &&& range::all_hands(s.ip@)
            &&& range::codes_of_hands(s.oop@).no_duplicates()
            &&& range::codes_of_hands(s.ip@).no_duplicates()
            &&& range::codes_of_hands(s.oop@).to_set() == (setup_of(oop@, ip@, board@)->Ok_0).0
            &&& range::codes_of_hands(s.ip@).to_set() == (setup_of(oop@, ip@, board@)->Ok_0).1
            &&& s.oop@.len() > 0
            &&& s.ip@.len() > 0
        },
        r matches Err(e) ==> match e {
            EquityError::Flop => setup_of(oop@, ip@, board@) == Err::<
                (Set<(u8, u8)>, Set<(u8, u8)>),
                int,
            >(0),
            EquityError::Range { range, why } => {
                ||| setup_of(oop@, ip@, board@)->Err_0 == 1 && range@ == oop@ && why@
                    == range::range_parse(oop@)->Err_0
                ||| setup_of(oop@, ip@, board@)->Err_0 == 2 && range@ == ip@ && why@
                    == range::range_parse(ip@)->Err_0
            },
            EquityError::Empty => setup_of(oop@, ip@, board@)->Err_0 == 3,
        },
{
    let flop = match texture::parse_flop(board) {
        Some(f) => f,
        None => {
            return Err(EquityError::Flop);
        },
    };
    let o = match range::parse_range(oop) {
        Ok(v) => v,
        Err(why) => {
            return Err(EquityError::Range { range: text::copy_text(oop), why });
        },
    };
    let i = match range::parse_range(ip) {
        Ok(v) => v,
        Err(why) => {
            return Err(EquityError::Range { range: text::copy_text(ip), why });
        },
    };
    let lo = range::live_combos(&o, flop);
    let li = range::live_combos(&i, flop);
    proof {
        lemma_live_codes(o@, flop);
        lemma_live_codes(i@, flop);
        lemma_empty_codes(lo@);
        lemma_empty_codes(li@);
        let keep = |h: [Card; 2]| !range::dead(h, flop);
        lemma_filtered_codes(o@, keep);
        lemma_filtered_codes(i@, keep);
    }
    if lo.len() == 0 || li.len() == 0 {
        return Err(EquityError::Empty);
    }
    Ok(EquitySetup { flop, oop: lo, ip: li })
}

/// Hands that come once each still do where some are left out.
proof fn lemma_filtered_codes(v: Seq<[Card; 2]>, keep: spec_fn([Card; 2]) -> bool)
    requires
        range::codes_of_hands(v).no_duplicates(),
    ensures
        range::codes_of_hands(v.filter(keep)).no_duplicates(),
    decreases v.len(),
{
    reveal(Seq::filter);
    if v.len() > 0 {
        let rest = v.drop_last();
        let codes = range::codes_of_hands(v);
        assert(range::codes_of_hands(rest) =~= codes.drop_last());
        assert forall|i: int, j: int|
            0 <= i < rest.len() && 0 <= j < rest.len() && i != j implies range::codes_of_hands(
            rest,
        )[i] != range::codes_of_hands(rest)[j] by {
            assert(codes[i] != codes[j]);
        }
        lemma_filtered_codes(rest, keep);
        if keep(v.last()) {
            let f = rest.filter(keep);
            let all = v.filter(keep);
            assert(all == f.push(v.last()));
            let c = range::codes_of_hands(all);
            assert(c =~= range::codes_of_hands(f).push(range::hand_codes(v.last())));
            assert forall|i: int| 0 <= i < f.len() implies range::hand_codes(#[trigger] f[i])
                != range::hand_codes(v.last()) by {
                rest.lemma_filter_contains_rev(keep, f[i]);
                let k = choose|k: int| 0 <= k < rest.len() && rest[k] == f[i];
                assert(codes[k] == range::hand_codes(f[i]));
                assert(codes[v.len() - 1] == range::hand_codes(v.last()));
            }
            assert forall|i: int, j: int| 0 <= i < c.len() && 0 <= j < c.len() && i != j implies c[i]
                != c[j] by {
                let fc = range::codes_of_hands(f);
                if i < f.len() && j < f.len() {
                    assert(c[i] == fc[i] && c[j] == fc[j]);
                } else if i < f.len() {
                    assert(c[i] == range::hand_codes(f[i]));
                } else {
                    assert(c[j] == range::hand_codes(f[j]));
                }
            }
        }
    }
}

proof fn lemma_empty_codes(v: Seq<[Card; 2]>)
    ensures
        range::codes_of_hands(v).to_set().is_empty() == (v.len() == 0),
{
    let c = range::codes_of_hands(v);
    if v.len() > 0 {
        assert(c[0] == range::hand_codes(v[0]));
        assert(c.to_set().contains(c[0]));
    } else {
        assert(c =~= Seq::empty());
        assert(c.to_set() =~= Set::empty());
    }
}

/// The villain hands that each hero hand meets: the first ones.
pub open spec fn opponents(villain: Seq<[Card; 2]>) -> Seq<[Card; 2]> {
    if villain.len() <= OPP_CAP {
        villain
    } else {
        villain.take(OPP_CAP as int)
    }
}

/// Plays every hero hand against the first villain hands on the flop: per hero
/// hand the outcomes against each villain hand that shares no card with it.
pub fn combo_equities(
    hero: &Vec<[Card; 2]>,
    villain: &Vec<[Card; 2]>,
    flop: [Card; 3],
) -> (r: Vec<Vec<Equity>>)
    requires
        range::all_hands(hero@),
        range::all_hands(villain@),
        board::all_cards(flop@),
    ensures
        r@.len() == hero@.len(),
        forall|i: int|
            0 <= i < r@.len() ==> outcomes_of(#[trigger] r@[i]@, hero@[i], opponents(villain@), flop),
{
    let n: usize = if villain.len() <= OPP_CAP {
        villain.len()
    } else {
        OPP_CAP
    };
    let sample = vstd::slice::slice_subrange(villain.as_slice(), 0, n);
    assert(sample@ =~= opponents(villain@));
    let mut out: Vec<Vec<Equity>> = Vec::new();
    let mut i: usize = 0;
    while i < hero.len()
        invariant
            i <= hero@.len(),
            range::all_hands(hero@),
            range::all_hands(villain@),
            board::all_cards(flop@),
            sample@ == opponents(villain@),
            out@.len() == i,
            forall|k: int|
                0 <= k < i ==> outcomes_of(#[trigger] out@[k]@, hero@[k], opponents(villain@), flop),
        decreases hero@.len() - i,
    {
        assert(board::all_cards(hero@[i as int]@));
        assert forall|k: int| 0 <= k < sample@.len() implies board::all_cards(
            (#[trigger] sample@[k])@,
        ) by {
            assert(sample@[k] == villain@[k]);
        }
        let e = eval::equity_vs_range(hero[i], flop.as_slice(), sample, EQ_ITERS);
        out.push(e);
        i = i + 1;
    }
    out
}

/// The outcomes of a hand against hands on a flop.
pub open spec fn outcomes_of(
    e: Seq<Equity>,
    hero: [Card; 2],
    villain: Seq<[Card; 2]>,
    flop: [Card; 3],
) -> bool {
    let live = eval::live_hands(villain, hero, flop@);
    &&& e.len() == live.len()
    &&& forall|i: int|
        0 <= i < e.len() ==> (#[trigger] e[i]).trials == EQ_ITERS && e[i].half_points <= 2
            * e[i].trials && eval::played_out(
            hero,
            live[i],
            flop@,
            EQ_ITERS as int,
            e[i].half_points as int,
        )
}

/// How many of the first `n` tenths fall into bin `b`, everything from 9 on
/// being in the last.
pub open spec fn bin_count(tenths: Seq<usize>, n: int, b: int) -> int
    decreases n,
{
    if n <= 0 {
        0
    } else {
        bin_count(tenths, n - 1, b) + if b == (if tenths[n - 1] < 9 {
            tenths[n - 1] as int
        } else {
            9
        }) {
            1int
        } else {
            0int
        }
    }
}

/// What the first `m` bins hold.
pub open spec fn bins_total(tenths: Seq<usize>, n: int, m: int) -> int
    decreases m,
{
    if m <= 0 {
        0
    } else {
        bins_total(tenths, n, m - 1) + bin_count(tenths, n, m - 1)
    }
}

/// The ten bins hold every equity once.
pub proof fn every_equity_is_binned(tenths: Seq<usize>, n: int)
    requires
        0 <= n <= tenths.len(),
    ensures
        bins_total(tenths, n, 10) == n,
    decreases n,
{
    reveal_with_fuel(bins_total, 11);
    if n > 0 {
        every_equity_is_binned(tenths, n - 1);
    }
}

/// Ten bins of equities, each given in whole tenths.
pub fn histogram(tenths: &Vec<usize>) -> (r: Vec<usize>)
    ensures
        r@.len() == 10,
        forall|b: int|
            0 <= b < 10 ==> #[trigger] r@[b] == bin_count(tenths@, tenths@.len() as int, b),
{
    let mut bins: Vec<usize> = vec![0, 0, 0, 0, 0, 0, 0, 0, 0, 0];
    let mut i: usize = 0;
    while i < tenths.len()
        invariant
            i <= tenths@.len(),
            bins@.len() == 10,
            forall|b: int|
                0 <= b < 10 ==> #[trigger] bins@[b] == bin_count(tenths@, i as int, b) && bins@[b]
                    <= i,
        decreases tenths@.len() - i,
    {
        let b: usize = if tenths[i] < 9 {
            tenths[i]
        } else {
            9
        };
        let n: usize = bins[b];
        bins.set(b, n + 1);
        i = i + 1;
    }
    bins
}

/// The length of a bar of the histogram: 40 for the highest bin.
pub fn bar_length(count: usize, peak: usize) -> (r: u128)
    requires
        count <= peak,
    ensures
        r == count * 40 / if peak == 0 {
            1int
        } else {
            peak as int
        },
        r <= 40,
{
    let p: u128 = if peak == 0 {
        1
    } else {
        peak as u128
    };
    let n: u128 = count as u128 * 40;
    proof {
        if peak > 0 {
            vstd::arithmetic::div_mod::lemma_div_is_ordered(n as int, 40 * p as int, p as int);
            vstd::arithmetic::div_mod::lemma_div_multiples_vanish(40, p as int);
        }
    }
    n / p
}

/// Places are places of the list.
pub proof fn lemma_places_bound(v: Seq<Seq<char>>, t: Seq<char>, n: int)
    requires
        0 <= n <= v.len() <= usize::MAX,
    ensures
        forall|i: int| 0 <= i < places_of(v, t, n).len() ==> #[trigger] places_of(v, t, n)[i] < v.len(),
    decreases n,
{
    if n > 0 {
        lemma_places_bound(v, t, n - 1);
        let p = places_of(v, t, n - 1);
        let q = places_of(v, t, n);
        assert forall|i: int| 0 <= i < q.len() implies #[trigger] q[i] < v.len() by {
            if i < p.len() {
                assert(q[i] == p[i]);
            }
        }
    }
}

/// The size of a bet is the number right before the first percent sign.
pub proof fn bet_sizes_are_read(before: Seq<char>, n: int, after: Seq<char>)
    requires
        !before.contains('%'),
        before.len() > 0 ==> !text::is_digit(before.last()),
        0 <= n <= u32::MAX,
    ensures
        percent_in(before + text::decimal(n) + seq!['%'] + after) == Some(n),
{
    let d = text::decimal(n);
    text::lemma_decimal_digits(n);
    text::decimals_read_back(n, u32::MAX as int);
    let s = before + d + seq!['%'] + after;
    let at = (before.len() + d.len()) as int;
    text::the_first_char_is_found(s, '%', 0);
    let p = text::char_from(s, '%', 0);
    assert(s[at] == '%');
    assert(p == at) by {
        if p < at {
            if p < before.len() {
                assert(before[p] == s[p]);
                assert(before.contains('%'));
            } else {
                assert(s[p] == d[p - before.len()]);
            }
        }
    }
    lemma_digits_run(s, before.len() as int, at);
    assert(s.subrange(before.len() as int, at) =~= d);
}

proof fn lemma_digits_run(s: Seq<char>, from: int, i: int)
    requires
        0 <= from <= i <= s.len(),
        forall|k: int| from <= k < i ==> text::is_digit(#[trigger] s[k]),
        from > 0 ==> !text::is_digit(s[from - 1]),
    ensures
        digits_before(s, i) == from,
    decreases i,
{
    if i > from {
        lemma_digits_run(s, from, i - 1);
    }
}

/// The word that a label is judged by is its first, whatever the case of its
/// letters and what follows it.
pub proof fn labels_are_judged_by_their_first_word(w: Seq<char>, rest: Seq<Seq<char>>)
    requires
        text::solid(w),
        forall|i: int| 0 <= i < rest.len() ==> text::solid(#[trigger] rest[i]),
    ensures
        first_word(text::joined(seq![w] + rest, seq![' '])) == text::lowered(w),
{
    let ws = seq![w] + rest;
    assert forall|i: int| 0 <= i < ws.len() implies text::solid(#[trigger] ws[i]) by {
        if i > 0 {
            assert(ws[i] == rest[i - 1]);
        }
    }
    text::spaced_words_read_back(ws, ' ');
}

/// The hands of a row are all that have a frequency for each action, in order.
pub proof fn every_full_hand_is_summed(spot: SolvedSpot, actions: int, n: int)
    requires
        0 <= n <= spot.strategies@.len() <= usize::MAX,
    ensures
        summed_of(spot, actions, n) == Seq::new(n as nat, |i: int| i as usize).filter(
            |i: usize| spot.strategies@[i as int].strategy.frequencies@.len() == actions,
        ),
    decreases n,
{
    reveal(Seq::filter);
    let all = Seq::new(n as nat, |i: int| i as usize);
    if n > 0 {
        every_full_hand_is_summed(spot, actions, n - 1);
        assert(all.drop_last() =~= Seq::new((n - 1) as nat, |i: int| i as usize));
        assert(all.last() == (n - 1) as usize);
    } else {
        assert(all =~= Seq::empty());
    }
}

/// The bets of a row are all actions that are bets or raises, in order.
pub proof fn every_bet_is_summed(actions: Seq<Seq<char>>, n: int)
    requires
        0 <= n <= actions.len() <= usize::MAX,
    ensures
        bets_of(actions, n) == Seq::new(n as nat, |i: int| i as usize).filter(
            |i: usize| aggressive(actions[i as int]),
        ),
    decreases n,
{
    reveal(Seq::filter);
    let all = Seq::new(n as nat, |i: int| i as usize);
    if n > 0 {
        every_bet_is_summed(actions, n - 1);
        assert(all.drop_last() =~= Seq::new((n - 1) as nat, |i: int| i as usize));
        assert(all.last() == (n - 1) as usize);
    } else {
        assert(all =~= Seq::empty());
    }
}

/// The places of a text are all places where it stands, in order.
pub proof fn every_place_of_a_text_is_listed(v: Seq<Seq<char>>, t: Seq<char>, n: int)
    requires
        0 <= n <= v.len() <= usize::MAX,
    ensures
        places_of(v, t, n) == Seq::new(n as nat, |i: int| i as usize).filter(
            |i: usize| v[i as int] == t,
        ),
    decreases n,
{
    reveal(Seq::filter);
    let all = Seq::new(n as nat, |i: int| i as usize);
    if n > 0 {
        every_place_of_a_text_is_listed(v, t, n - 1);
        assert(all.drop_last() =~= Seq::new((n - 1) as nat, |i: int| i as usize));
        assert(all.last() == (n - 1) as usize);
    } else {
        assert(all =~= Seq::empty());
    }
}

/// A bin holds the equities of its tenth; the last also holds what is higher.
pub proof fn bins_hold_their_tenth(tenths: Seq<usize>, n: int, b: int)
    requires
        0 <= n <= tenths.len(),
        0 <= b < 10,
    ensures
        bin_count(tenths, n, b) == tenths.take(n).filter(
            |t: usize| t == b || (b == 9 && t > 9),
        ).len(),
    decreases n,
{
    reveal(Seq::filter);
    if n > 0 {
        bins_hold_their_tenth(tenths, n - 1, b);
        assert(tenths.take(n).drop_last() =~= tenths.take(n - 1));
        assert(tenths.take(n).last() == tenths[n - 1]);
    } else {
        assert(tenths.take(n) =~= Seq::empty());
    }
}

/// A report keeps the spots of the side asked for and of the formation asked for,
/// and all of them where nothing is asked for.
pub proof fn reports_keep_what_is_asked_for(spot: SolvedSpot, formation: Option<Seq<char>>)
    ensures
        wanted(spot, None, None),
        wanted(spot, None, Some(NodeSide::Oop)) == spot.hero_oop,
        wanted(spot, None, Some(NodeSide::Ip)) == !spot.hero_oop,
        formation matches Some(f) ==> wanted(spot, formation, None) == (f == formation_name(spot)),
        spot.config matches Some(c) ==> formation_name(spot) == c.formation@,
{
}

/// The hands of a range that are played are those without a card of the flop.
pub proof fn played_hands_avoid_the_flop(s: Set<(u8, u8)>, flop: [Card; 3], h: [Card; 2])
    requires
        board::all_cards(flop@),
        board::all_cards(h@),
    ensures
        live_codes(s, flop).contains(range::hand_codes(h)) <==> s.contains(range::hand_codes(h))
            && !flop@.contains(h[0]) && !flop@.contains(h[1]),
{
    let p = range::hand_codes(h);
    assert(h@[0].wf() && h@[1].wf());
    assert(h[0].rs_code() < 52 && h[1].rs_code() < 52);
    assert forall|i: int| 0 <= i < 3 implies ((#[trigger] flop[i]).rs_code() != p.0 <==> flop[i]
        != h[0]) && (flop[i].rs_code() != p.1 <==> flop[i] != h[1]) by {
        assert(flop@[i].wf());
        if flop[i].rs_code() == p.0 {
            lemma_code_injective(flop[i], h[0]);
        }
        if flop[i].rs_code() == p.1 {
            lemma_code_injective(flop[i], h[1]);
        }
    }
    if flop@.contains(h[0]) {
        let i = flop@.index_of(h[0]);
        assert(flop[i] == h[0]);
    }
    if flop@.contains(h[1]) {
        let i = flop@.index_of(h[1]);
        assert(flop[i] == h[1]);
    }
    assert(flop@[0] == flop[0] && flop@[1] == flop[1] && flop@[2] == flop[2]);
}

/// A field that holds a comma, a quotation mark or a line end is written between
/// quotation marks; any other is written as it is.
pub proof fn awkward_fields_are_quoted(s: Seq<char>)
    ensures
        s.contains(',') || s.contains('"') || s.contains('\n') ==> csv_text(s).len() >= 2 && csv_text(
            s,
        )[0] == '"' && csv_text(s).last() == '"',
        !(s.contains(',') || s.contains('"') || s.contains('\n')) ==> csv_text(s) == s,
{
}

/// A hand meets at most as many opponents as the cap, the first of the range.
pub proof fn opponents_are_the_first_hands(villain: Seq<[Card; 2]>)
    ensures
        opponents(villain).len() == if villain.len() < OPP_CAP {
            villain.len() as int
        } else {
            OPP_CAP as int
        },
        forall|i: int|
            0 <= i < opponents(villain).len() ==> #[trigger] opponents(villain)[i] == villain[i],
{
}

/// Rows are sorted by the first of two texts and, where that is the same, by the
/// second.
pub proof fn the_first_text_decides_before_the_second(
    a: Seq<char>,
    b: Seq<char>,
    c: Seq<char>,
    d: Seq<char>,
)
    ensures
        a == c ==> (order::lex_le(pair_key(a, b), pair_key(c, d)) <==> order::lex_le(
            order::text_key(b),
            order::text_key(d),
        )),
        a != c ==> (order::lex_le(pair_key(a, b), pair_key(c, d)) <==> order::lex_le(
            order::text_key(a),
            order::text_key(c),
        )),
    decreases a.len(),
{
    let (x, y) = (pair_key(a, b), pair_key(c, d));
    let (u, v) = (order::text_key(a), order::text_key(c));
    if a.len() > 0 {
        order::lemma_char_bound(a[0]);
        assert(x[0] == a[0] as u32 + 1);
        assert(u[0] == a[0] as u32);
    } else {
        assert(x[0] == 0);
        assert(x.drop_first() =~= order::text_key(b));
    }
    if c.len() > 0 {
        order::lemma_char_bound(c[0]);
        assert(y[0] == c[0] as u32 + 1);
        assert(v[0] == c[0] as u32);
    } else {
        assert(y[0] == 0);
        assert(y.drop_first() =~= order::text_key(d));
    }
    if a.len() > 0 && c.len() > 0 {
        the_first_text_decides_before_the_second(a.drop_first(), b, c.drop_first(), d);
        assert(x.drop_first() =~= pair_key(a.drop_first(), b));
        assert(y.drop_first() =~= pair_key(c.drop_first(), d));
        assert(u.drop_first() =~= order::text_key(a.drop_first()));
        assert(v.drop_first() =~= order::text_key(c.drop_first()));
        if a[0] as u32 == c[0] as u32 {
            order::lemma_char_number(a[0], c[0]);
            assert(a[0] == c[0]);
            if a.drop_first() == c.drop_first() {
                assert(a =~= seq![a[0]] + a.drop_first());
                assert(c =~= seq![c[0]] + c.drop_first());
            }
        }
    } else if a.len() == 0 && c.len() == 0 {
        assert(a =~= c);
    }
}

/// A decision is named by the side of the player to act, and by the size of a bet that
/// they face.
pub proof fn decisions_are_named_by_side_and_bet(faced: Seq<char>, p: int, free: Seq<char>)
    requires
        percent_in(faced) == Some(p),
        percent_in(free) is None,
    ensures
        node_name(true, faced) == "OOP v"@ + text::decimal(p),
        node_name(false, faced) == "IP v"@ + text::decimal(p),
        node_name(true, free) == "OOP"@,
        node_name(false, free) == "IP"@,
{
    reveal_strlit("OOP");
    reveal_strlit("IP");
    reveal_strlit(" v");
    reveal_strlit("OOP v");
    reveal_strlit("IP v");
    assert("OOP"@ + " v"@ =~= "OOP v"@);
    assert("IP"@ + " v"@ =~= "IP v"@);
}

} // verus!
