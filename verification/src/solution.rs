//! Solved spots and the configurations they were solved under.

use crate::bits::F32;
use crate::fnv;
use crate::order;
use crate::text;
use vstd::prelude::*;

verus! {

/// The bet sizes on the flop where nothing else is asked for.
pub const DEFAULT_FLOP_SIZES: &'static str = "33%, 75%";

/// One decision's equilibrium strategy. The three lists run parallel.
#[derive(Debug, Clone)]
pub struct NodeStrategy {
    pub actions: Vec<String>,
    /// Frequency of each action.
    pub frequencies: Vec<F32>,
    /// EV of each action.
    pub action_ev: Vec<F32>,
}

/// `i` is the last of the highest entries, 0 where there are none.
pub open spec fn is_best(evs: Seq<F32>, i: int) -> bool {
    if evs.len() == 0 {
        i == 0
    } else {
        &&& 0 <= i < evs.len()
        &&& forall|k: int| 0 <= k < evs.len() ==> (#[trigger] evs[k]).total_rank() <= evs[i].total_rank()
        &&& forall|k: int| i < k < evs.len() ==> (#[trigger] evs[k]).total_rank() < evs[i].total_rank()
    }
}

/// The place of the highest entry; of equal ones the last.
pub fn best_of(evs: &Vec<F32>) -> (r: usize)
    ensures
        is_best(evs@, r as int),
{
    let mut best: usize = 0;
    let mut i: usize = 1;
    while i < evs.len()
        invariant
            1 <= i,
            evs@.len() > 0 ==> i <= evs@.len(),
            evs@.len() > 0 ==> best < i,
            evs@.len() == 0 ==> best == 0,
            evs@.len() > 0 ==> forall|k: int|
                0 <= k < i ==> (#[trigger] evs@[k]).total_rank() <= evs@[best as int].total_rank(),
            evs@.len() > 0 ==> forall|k: int|
                best < k < i ==> (#[trigger] evs@[k]).total_rank() < evs@[best as int].total_rank(),
        decreases evs@.len() - i,
    {
        if evs[i].total_key() >= evs[best].total_key() {
            best = i;
        }
        i = i + 1;
    }
    best
}

impl NodeStrategy {
    /// The place of the action with the highest EV.
    pub fn best(&self) -> (r: usize)
        ensures
            is_best(self.action_ev@, r as int),
    {
        best_of(&self.action_ev)
    }
}

/// The best entry is unique.
pub proof fn best_is_unique(evs: Seq<F32>, i: int, j: int)
    requires
        is_best(evs, i),
        is_best(evs, j),
    ensures
        i == j,
{
    if evs.len() > 0 {
        assert(evs[i].total_rank() <= evs[j].total_rank());
        assert(evs[j].total_rank() <= evs[i].total_rank());
    }
}

/// The equilibrium strategy of one holding.
#[derive(Debug, Clone)]
pub struct HandStrategy {
    /// The two hole cards, e.g. `"AsKh"`.
    pub hand: String,
    pub strategy: NodeStrategy,
}

/// A whole postflop game but for its flop.
#[derive(Debug, Clone)]
pub struct SpotConfig {
    /// Formation id, e.g. `"srp-btn-bb"`.
    pub formation: String,
    pub oop_range: String,
    pub ip_range: String,
    /// Bet sizes per street, e.g. `"33%, 75%"`.
    pub flop_sizes: String,
    pub turn_sizes: String,
    pub river_sizes: String,
    pub stack_bb: F32,
    pub pot_bb: F32,
    pub rake_rate: F32,
    pub rake_cap_bb: F32,
}

/// Where a solve came from.
#[derive(Debug, Clone)]
pub struct GenInfo {
    pub version: String,
    pub exploitability_bb: F32,
}

/// One solved decision and the strategy of every hand at it.
#[derive(Debug, Clone)]
pub struct SolvedSpot {
    pub label: String,
    /// Board so far: `["Td", "9d", "6h"]`.
    pub board: Vec<String>,
    pub pot_bb: F32,
    /// Whether the hero acts out of position.
    pub hero_oop: bool,
    pub villain_action: String,
    pub config: Option<SpotConfig>,
    pub generator: Option<GenInfo>,
    pub strategies: Vec<HandStrategy>,
}

/// A formation: seats, and the pot and stacks it starts with.
#[derive(Debug, Clone, Copy)]
pub struct Formation {
    pub id: &'static str,
    pub label: &'static str,
    pub oop_seat: &'static str,
    pub ip_seat: &'static str,
    pub pot_bb: F32,
    pub stack_bb: F32,
}

/// The formations, by how often they come up.
pub open spec fn formation_at(i: int) -> Formation {
    if i == 0 {
        Formation {
            id: "srp-btn-bb",
            label: "SRP BTN vs BB",
            oop_seat: "BB",
            ip_seat: "BTN",
            pot_bb: F32 { bits: 0x40c0_0000 },
            stack_bb: F32 { bits: 0x42c2_0000 },
        }
    } else if i == 1 {
        Formation {
            id: "srp-co-bb",
            label: "SRP CO vs BB",
            oop_seat: "BB",
            ip_seat: "CO",
            pot_bb: F32 { bits: 0x40c0_0000 },
            stack_bb: F32 { bits: 0x42c2_0000 },
        }
    } else if i == 2 {
        Formation {
            id: "srp-sb-bb",
            label: "SRP SB vs BB",
            oop_seat: "SB",
            ip_seat: "BB",
            pot_bb: F32 { bits: 0x40b0_0000 },
            stack_bb: F32 { bits: 0x42c2_0000 },
        }
    } else if i == 3 {
        Formation {
            id: "3bp-bb-btn",
            label: "3-bet pot BB vs BTN",
            oop_seat: "BB",
            ip_seat: "BTN",
            pot_bb: F32 { bits: 0x4190_0000 },
            stack_bb: F32 { bits: 0x42b2_0000 },
        }
    } else {
        Formation {
            id: "3bp-btn-co",
            label: "3-bet pot BTN vs CO",
            oop_seat: "CO",
            ip_seat: "BTN",
            pot_bb: F32 { bits: 0x41a0_0000 },
            stack_bb: F32 { bits: 0x42b2_0000 },
        }
    }
}

/// All formations: pots of 6, 6, 5.5, 18 and 20 big blinds, stacks of 97 in the
/// single-raised and 89 in the 3-bet ones.
pub fn formations() -> (r: Vec<Formation>)
    ensures
        r@.len() == 5,
        forall|i: int| 0 <= i < 5 ==> #[trigger] r@[i] == formation_at(i),
{
    vec![
        Formation {
            id: "srp-btn-bb",
            label: "SRP BTN vs BB",
            oop_seat: "BB",
            ip_seat: "BTN",
            pot_bb: F32 { bits: 0x40c0_0000 },
            stack_bb: F32 { bits: 0x42c2_0000 },
        },
        Formation {
            id: "srp-co-bb",
            label: "SRP CO vs BB",
            oop_seat: "BB",
            ip_seat: "CO",
            pot_bb: F32 { bits: 0x40c0_0000 },
            stack_bb: F32 { bits: 0x42c2_0000 },
        },
        Formation {
            id: "srp-sb-bb",
            label: "SRP SB vs BB",
            oop_seat: "SB",
            ip_seat: "BB",
            pot_bb: F32 { bits: 0x40b0_0000 },
            stack_bb: F32 { bits: 0x42c2_0000 },
        },
        Formation {
            id: "3bp-bb-btn",
            label: "3-bet pot BB vs BTN",
            oop_seat: "BB",
            ip_seat: "BTN",
            pot_bb: F32 { bits: 0x4190_0000 },
            stack_bb: F32 { bits: 0x42b2_0000 },
        },
        Formation {
            id: "3bp-btn-co",
            label: "3-bet pot BTN vs CO",
            oop_seat: "CO",
            ip_seat: "BTN",
            pot_bb: F32 { bits: 0x41a0_0000 },
            stack_bb: F32 { bits: 0x42b2_0000 },
        },
    ]
}

/// Which formation has this id.
pub open spec fn formation_index(id: Seq<char>) -> Option<int> {
    if id == "srp-btn-bb"@ {
        Some(0)
    } else if id == "srp-co-bb"@ {
        Some(1)
    } else if id == "srp-sb-bb"@ {
        Some(2)
    } else if id == "3bp-bb-btn"@ {
        Some(3)
    } else if id == "3bp-btn-co"@ {
        Some(4)
    } else {
        None
    }
}

/// Looks up a formation by id.
pub fn formation(id: &str) -> (r: Option<Formation>)
    ensures
        r is Some == formation_index(id@) is Some,
        r matches Some(f) ==> f == formation_at(formation_index(id@)->0) && f.id@ == id@,
{
    let all = formations();
    let mut i: usize = 0;
    while i < all.len()
        invariant
            i <= all@.len(),
            all@.len() == 5,
            forall|k: int| 0 <= k < 5 ==> #[trigger] all@[k] == formation_at(k),
            forall|k: int| 0 <= k < i ==> (#[trigger] all@[k]).id@ != id@,
        decreases 5 - i,
    {
        if text::same_text(all[i].id, id) {
            proof {
                assert(forall|k: int| 0 <= k < i ==> formation_at(k) == #[trigger] all@[k]);
                assert(i > 0 ==> all@[0].id@ != id@);
                assert(i > 1 ==> all@[1].id@ != id@);
                assert(i > 2 ==> all@[2].id@ != id@);
                assert(i > 3 ==> all@[3].id@ != id@);
                assert(all@[i as int].id@ == id@);
            }
            return Some(all[i]);
        }
        i = i + 1;
    }
    proof {
        assert(all@[0].id@ != id@ && all@[1].id@ != id@ && all@[2].id@ != id@ && all@[3].id@ != id@
            && all@[4].id@ != id@);
    }
    None
}

impl SpotConfig {
    /// The default configuration of a formation, with the texts of its two range
    /// files; `None` for an id that is no formation.
    pub fn for_formation(id: &str, oop_text: &str, ip_text: &str) -> (r: Option<SpotConfig>)
        ensures
            r is Some == formation_index(id@) is Some,
            r matches Some(c) ==> {
                let f = formation_at(formation_index(id@)->0);
                &&& c.formation@ == id@
                &&& c.oop_range@ == text::trimmed(oop_text@)
                &&& c.ip_range@ == text::trimmed(ip_text@)
                &&& c.flop_sizes@ == "33%, 75%"@
                &&& c.turn_sizes@ == "33%"@
                &&& c.river_sizes@ == "33%"@
                &&& c.stack_bb == f.stack_bb
                &&& c.pot_bb == f.pot_bb
                &&& c.rake_rate.bits == 0
                &&& c.rake_cap_bb.bits == 0
            },
    {
        match formation(id) {
            Some(f) => Some(
                SpotConfig {
                    formation: text::copy_text(id),
                    oop_range: text::trim_text(oop_text),
                    ip_range: text::trim_text(ip_text),
                    flop_sizes: text::copy_text("33%, 75%"),
                    turn_sizes: text::copy_text("33%"),
                    river_sizes: text::copy_text("33%"),
                    stack_bb: f.stack_bb,
                    pot_bb: f.pot_bb,
                    rake_rate: F32 { bits: 0 },
                    rake_cap_bb: F32 { bits: 0 },
                },
            ),
            None => None,
        }
    }
}

/// A source of solved spots.
pub trait SolutionProvider {
    fn spots(&self) -> &[SolvedSpot];
}

/// Spots that were loaded from files.
pub struct FileSolutionProvider {
    pub loaded: Vec<SolvedSpot>,
}

impl SolutionProvider for FileSolutionProvider {
    fn spots(&self) -> (r: &[SolvedSpot])
        ensures
            r@ == self.loaded@,
    {
        self.loaded.as_slice()
    }
}

/// Spots that match one request.
pub struct LiveSolutionProvider {
    pub loaded: Vec<SolvedSpot>,
}

impl SolutionProvider for LiveSolutionProvider {
    fn spots(&self) -> (r: &[SolvedSpot])
        ensures
            r@ == self.loaded@,
    {
        self.loaded.as_slice()
    }
}

/// What to solve.
#[derive(Debug, Clone)]
pub struct SolveRequest {
    pub flop: String,
    pub config: SpotConfig,
}

// ---------------------------------------------------------------- flop keys

/// The bytes in pieces of two, the last of one where their number is odd.
pub open spec fn byte_pairs(b: Seq<u8>) -> Seq<Seq<u8>>
    decreases b.len(),
{
    if b.len() == 0 {
        Seq::empty()
    } else {
        let n = if b.len() % 2 == 0 {
            b.len() - 2
        } else {
            b.len() - 1
        };
        byte_pairs(b.take(n)).push(b.skip(n))
    }
}

/// The lower-cased pieces of a flop, in the order they are written.
pub open spec fn flop_pieces(flop: Seq<char>) -> Seq<Seq<char>> {
    byte_pairs(vstd::utf8::encode_utf8(flop)).map_values(
        |p: Seq<u8>| text::lower_case(text::lossy_text(p)),
    )
}

/// Texts in ascending order.
pub open spec fn sorted_texts(v: Seq<Seq<char>>) -> Seq<Seq<char>> {
    order::in_order(v, order::order_of(v.map_values(|s: Seq<char>| order::text_key(s))))
}

/// Sorts texts.
pub fn sort_texts(v: &Vec<String>) -> (r: Vec<String>)
    ensures
        text::texts(r@) == sorted_texts(text::texts(v@)),
        r@.len() == v@.len(),
{
    let mut keys: Vec<Vec<u32>> = Vec::new();
    let mut i: usize = 0;
    while i < v.len()
        invariant
            i <= v@.len(),
            keys@.len() == i,
            forall|k: int| 0 <= k < i ==> (#[trigger] keys@[k])@ == order::text_key(v@[k]@),
        decreases v@.len() - i,
    {
        keys.push(order::key_of_text(v[i].as_str()));
        i = i + 1;
    }
    let idx = order::sorted_positions(&keys);
    proof {
        assert(order::keys_of(keys@) =~= text::texts(v@).map_values(
            |s: Seq<char>| order::text_key(s),
        ));
        order::lemma_order_of(order::keys_of(keys@), idx@);
    }
    let r = order::permuted(v.as_slice(), idx.as_slice());
    assert(text::texts(r@) =~= order::in_order(text::texts(v@), idx@)) by {
        assert forall|i: int| 0 <= i < r@.len() implies (#[trigger] r@[i])@ == v@[idx@[i] as int]@ by {
            assert(cloned(v@[idx@[i] as int], r@[i]));
        }
    }
    r
}

/// `a` stands before `b` in the order of texts.
pub open spec fn text_before(a: Seq<char>, b: Seq<char>) -> bool {
    order::lex_le(order::text_key(a), order::text_key(b)) && a != b
}

/// Sorting distinct texts gives them in strictly ascending order.
pub proof fn lemma_sorted_distinct(ids: Seq<Seq<char>>)
    requires
        ids.no_duplicates(),
        ids.len() <= usize::MAX,
    ensures
        ({
            let s = sorted_texts(ids);
            &&& s.len() == ids.len()
            &&& forall|i: int, j: int|
                0 <= i < j < s.len() ==> text_before(#[trigger] s[i], #[trigger] s[j])
            &&& forall|id: Seq<char>| #[trigger] s.contains(id) == ids.contains(id)
        }),
{
    let keys = ids.map_values(|s: Seq<char>| order::text_key(s));
    let idx = order::order_of(keys);
    order::lemma_order_of_is_stable(keys);
    order::lemma_stable_order_onto(keys, idx);
    let s = sorted_texts(ids);
    assert forall|i: int, j: int| 0 <= i < j < s.len() implies text_before(
        #[trigger] s[i],
        #[trigger] s[j],
    ) by {
        assert(order::comes_before(keys, idx[i] as int, idx[j] as int));
        assert(idx[i] != idx[j]);
        assert(ids[idx[i] as int] != ids[idx[j] as int]);
    }
    assert forall|id: Seq<char>| #[trigger] s.contains(id) == ids.contains(id) by {
        if s.contains(id) {
            let i = choose|i: int| 0 <= i < s.len() && s[i] == id;
            assert(ids[idx[i] as int] == id);
        }
        if ids.contains(id) {
            let k = choose|k: int| 0 <= k < ids.len() && ids[k] == id;
            assert(idx.contains(k as usize));
            let i = choose|i: int| 0 <= i < idx.len() && idx[i] == k as usize;
            assert(s[i] == id);
        }
    }
}

/// What a pushed list contains.
pub proof fn lemma_push_contains(s: Seq<Seq<char>>, x: Seq<char>, id: Seq<char>)
    ensures
        s.push(x).contains(id) == (s.contains(id) || x == id),
{
    let p = s.push(x);
    if s.contains(id) {
        let k = choose|k: int| 0 <= k < s.len() && s[k] == id;
        assert(p[k] == id);
    }
    if x == id {
        assert(p[s.len() as int] == id);
    }
    if p.contains(id) {
        let k = choose|k: int| 0 <= k < p.len() && p[k] == id;
        assert(k < s.len() ==> s[k] == id);
    }
}

/// Whether a text is in a list.
pub fn has_text(list: &Vec<String>, s: &str) -> (r: bool)
    ensures
        r == text::texts(list@).contains(s@),
{
    let ghost tv = text::texts(list@);
    let mut i: usize = 0;
    while i < list.len()
        invariant
            i <= list@.len(),
            tv == text::texts(list@),
            forall|k: int| 0 <= k < i ==> #[trigger] tv[k] != s@,
        decreases list@.len() - i,
    {
        assert(tv[i as int] == list@[i as int]@);
        if text::same_text(list[i].as_str(), s) {
            return true;
        }
        i = i + 1;
    }
    false
}

/// The texts of a list, each once, in ascending order.
pub open spec fn distinct_of(r: Seq<Seq<char>>, v: Seq<Seq<char>>) -> bool {
    &&& forall|i: int, j: int| 0 <= i < j < r.len() ==> text_before(#[trigger] r[i], #[trigger] r[j])
    &&& forall|t: Seq<char>| #[trigger] r.contains(t) == v.contains(t)
}

/// Sorts texts and drops repeated ones.
pub fn distinct_sorted(v: &Vec<String>) -> (r: Vec<String>)
    ensures
        distinct_of(text::texts(r@), text::texts(v@)),
{
    let ghost tv = text::texts(v@);
    let mut out: Vec<String> = Vec::new();
    let mut i: usize = 0;
    assert(text::texts(out@) =~= Seq::<Seq<char>>::empty());
    while i < v.len()
        invariant
            i <= v@.len(),
            tv == text::texts(v@),
            text::texts(out@).no_duplicates(),
            forall|t: Seq<char>| #[trigger]
                text::texts(out@).contains(t) == tv.take(i as int).contains(t),
        decreases v@.len() - i,
    {
        let ghost before = text::texts(out@);
        let ghost x = v@[i as int]@;
        assert(tv.take(i + 1) =~= tv.take(i as int).push(x));
        if !has_text(&out, v[i].as_str()) {
            out.push(v[i].clone());
            assert(text::texts(out@) =~= before.push(x));
        }
        proof {
            assert forall|t: Seq<char>| #[trigger]
                text::texts(out@).contains(t) == tv.take(i + 1).contains(t) by {
                lemma_push_contains(tv.take(i as int), x, t);
                lemma_push_contains(before, x, t);
                assert(before.contains(t) == tv.take(i as int).contains(t));
            }
        }
        i = i + 1;
    }
    proof {
        assert(tv.take(i as int) =~= tv);
        assert(text::texts(out@).len() == out.len());
        lemma_sorted_distinct(text::texts(out@));
    }
    sort_texts(&out)
}

/// The cards of a flop in lower case and sorted: the same for every order in
/// which they are written.
pub fn flop_key(flop: &str) -> (r: Vec<String>)
    ensures
        text::texts(r@) == sorted_texts(flop_pieces(flop@)),
{
    let bytes = flop.as_bytes();
    let mut out: Vec<String> = Vec::new();
    let mut i: usize = 0;
    let ghost all = bytes@;
    assert(byte_pairs(all.take(0)) =~= Seq::empty());
    while i < bytes.len()
        invariant
            i <= bytes@.len(),
            all == bytes@,
            i % 2 == 0 || i == bytes@.len(),
            text::texts(out@) == byte_pairs(all.take(i as int)).map_values(
                |p: Seq<u8>| text::lower_case(text::lossy_text(p)),
            ),
        decreases bytes@.len() - i,
    {
        let n: usize = if bytes.len() - i >= 2 {
            i + 2
        } else {
            i + 1
        };
        let piece = vstd::slice::slice_subrange(bytes, i, n);
        let s = text::from_bytes_lossy(piece);
        let l = text::to_lower_case(s.as_str());
        let ghost before = out@;
        out.push(l);
        proof {
            let b = all.take(n as int);
            assert(b.take(i as int) =~= all.take(i as int));
            assert(b.skip(i as int) =~= piece@);
            assert(byte_pairs(b) == byte_pairs(b.take(i as int)).push(b.skip(i as int)));
            assert(text::texts(out@) =~= text::texts(before).push(l@));
            assert(text::texts(out@) =~= byte_pairs(b).map_values(
                |p: Seq<u8>| text::lower_case(text::lossy_text(p)),
            ));
        }
        i = n;
    }
    proof {
        assert(all.take(i as int) =~= all);
        assert(text::texts(out@) =~= flop_pieces(flop@));
    }
    sort_texts(&out)
}

/// The places of the spots that were solved for this flop under the
/// configuration with this hash. Spots without a configuration have no hash.
pub open spec fn matching(
    boards: Seq<Vec<String>>,
    hashes: Seq<Option<String>>,
    flop: Seq<char>,
    hash: Seq<char>,
    i: int,
) -> bool {
    &&& sorted_texts(flop_pieces(text::joined(text::texts(boards[i]@), Seq::empty())))
        == sorted_texts(flop_pieces(flop))
    &&& hashes[i] is Some
    &&& (hashes[i]->0)@ == hash
}

/// Picks the spots that a request asks for, by their boards and configuration
/// hashes.
pub fn matching_spots(
    boards: &Vec<Vec<String>>,
    hashes: &Vec<Option<String>>,
    flop: &str,
    hash: &str,
) -> (r: Vec<usize>)
    requires
        boards@.len() == hashes@.len(),
    ensures
        forall|k: int|
            0 <= k < r@.len() ==> (#[trigger] r@[k]) < boards@.len() && matching(
                boards@,
                hashes@,
                flop@,
                hash@,
                r@[k] as int,
            ),
        forall|k: int, l: int| 0 <= k < l < r@.len() ==> r@[k] < r@[l],
        forall|i: usize|
            i < boards@.len() && matching(boards@, hashes@, flop@, hash@, i as int)
                ==> #[trigger] r@.contains(i),
{
    let key = flop_key(flop);
    let mut out: Vec<usize> = Vec::new();
    let mut i: usize = 0;
    while i < boards.len()
        invariant
            i <= boards@.len(),
            boards@.len() == hashes@.len(),
            text::texts(key@) == sorted_texts(flop_pieces(flop@)),
            forall|k: int|
                0 <= k < out@.len() ==> (#[trigger] out@[k]) < i && matching(
                    boards@,
                    hashes@,
                    flop@,
                    hash@,
                    out@[k] as int,
                ),
            forall|k: int, l: int| 0 <= k < l < out@.len() ==> out@[k] < out@[l],
            forall|j: usize|
                j < i && matching(boards@, hashes@, flop@, hash@, j as int)
                    ==> #[trigger] out@.contains(j),
        decreases boards@.len() - i,
    {
        let joined = text::join_all(&boards[i], "");
        proof {
            reveal_strlit("");
            assert(""@ =~= Seq::<char>::empty());
        }
        let k = flop_key(joined.as_str());
        let same_flop = text::same_texts(&k, &key);
        let same_hash = match &hashes[i] {
            Some(h) => text::same_text(h.as_str(), hash),
            None => false,
        };
        let ghost before = out@;
        if same_flop && same_hash {
            out.push(i);
            assert(out@[before.len() as int] == i);
        }
        proof {
            assert forall|j: usize|
                j < i + 1 && matching(boards@, hashes@, flop@, hash@, j as int) implies #[trigger] out@.contains(
                j,
            ) by {
                if j < i {
                    assert(before.contains(j));
                    let p = choose|p: int| 0 <= p < before.len() && before[p] == j;
                    assert(out@[p] == j);
                } else {
                    assert(out@[before.len() as int] == j);
                }
            }
        }
        i = i + 1;
    }
    out
}

// ---------------------------------------------------------------- command line

/// The arguments that hand a request to the solver: the command, then each
/// option and its value.
pub open spec fn solver_args(
    req: SolveRequest,
    stack: Seq<char>,
    pot: Seq<char>,
    rake_rate: Seq<char>,
    rake_cap: Seq<char>,
    out_dir: Seq<char>,
) -> Seq<Seq<char>> {
    seq![
        "solve"@,
        "--flop"@,
        req.flop@,
        "--formation"@,
        req.config.formation@,
        "--oop"@,
        req.config.oop_range@,
        "--ip"@,
        req.config.ip_range@,
        "--sizes"@,
        req.config.flop_sizes@,
        "--turn-sizes"@,
        req.config.turn_sizes@,
        "--river-sizes"@,
        req.config.river_sizes@,
        "--stack"@,
        stack,
        "--pot"@,
        pot,
        "--rake-rate"@,
        rake_rate,
        "--rake-cap"@,
        rake_cap,
        "--out"@,
        out_dir,
    ]
}

fn push_text(out: &mut Vec<String>, s: &str)
    ensures
        text::texts(final(out)@) == text::texts(old(out)@).push(s@),
{
    out.push(text::copy_text(s));
    assert(text::texts(out@) =~= text::texts(old(out)@).push(s@));
}

/// The arguments that hand a request to the solver. The four numbers come as
/// they are to be written.
pub fn solve_gen_args(
    req: &SolveRequest,
    stack: &str,
    pot: &str,
    rake_rate: &str,
    rake_cap: &str,
    out_dir: &str,
) -> (r: Vec<String>)
    ensures
        text::texts(r@) == solver_args(*req, stack@, pot@, rake_rate@, rake_cap@, out_dir@),
{
    let mut a: Vec<String> = Vec::new();
    push_text(&mut a, "solve");
    push_text(&mut a, "--flop");
    push_text(&mut a, req.flop.as_str());
    push_text(&mut a, "--formation");
    push_text(&mut a, req.config.formation.as_str());
    push_text(&mut a, "--oop");
    push_text(&mut a, req.config.oop_range.as_str());
    push_text(&mut a, "--ip");
    push_text(&mut a, req.config.ip_range.as_str());
    push_text(&mut a, "--sizes");
    push_text(&mut a, req.config.flop_sizes.as_str());
    push_text(&mut a, "--turn-sizes");
    push_text(&mut a, req.config.turn_sizes.as_str());
    push_text(&mut a, "--river-sizes");
    push_text(&mut a, req.config.river_sizes.as_str());
    push_text(&mut a, "--stack");
    push_text(&mut a, stack);
    push_text(&mut a, "--pot");
    push_text(&mut a, pot);
    push_text(&mut a, "--rake-rate");
    push_text(&mut a, rake_rate);
    push_text(&mut a, "--rake-cap");
    push_text(&mut a, rake_cap);
    push_text(&mut a, "--out");
    push_text(&mut a, out_dir);
    assert(text::texts(a@) =~= solver_args(
        *req,
        stack@,
        pot@,
        rake_rate@,
        rake_cap@,
        out_dir@,
    ));
    a
}

/// The file name of a solved spot, without its extension: the flop in lower case
/// and the hash of the configuration.
pub fn spot_stem(flop: &str, hash: &str) -> (r: String)
    ensures
        r@ == text::lower_case(flop@) + "-"@ + hash@,
{
    let l = text::to_lower_case(flop);
    text::join3(l.as_str(), "-", hash)
}

/// The key of a flop does not depend on the order in which its cards are
/// written.
pub proof fn flop_key_ignores_order(a: Seq<char>, b: Seq<char>)
    requires
        flop_pieces(a).to_multiset() == flop_pieces(b).to_multiset(),
        flop_pieces(a).len() <= usize::MAX,
        flop_pieces(b).len() <= usize::MAX,
    ensures
        sorted_texts(flop_pieces(a)) == sorted_texts(flop_pieces(b)),
{
    order::sorting_ignores_order(flop_pieces(a), flop_pieces(b));
}

// ---------------------------------------------------------------- cache keys

/// A text as a JSON string.
pub uninterp spec fn json_quoted(s: Seq<char>) -> Seq<char>;

/// Written as it is inside a JSON string.
pub open spec fn json_plain(c: char) -> bool {
    (c as u32) >= 32 && c != '"' && c != '\\'
}

/// `serde_json::to_string` of a text: a JSON string with the same characters in
/// double quotes, where none of them has to be escaped.
#[verifier::external_body]
fn quoted(s: &str) -> (r: String)
    ensures
        r@ == json_quoted(s@),
        (forall|i: int| 0 <= i < s@.len() ==> json_plain(#[trigger] s@[i])) ==> r@ == seq!['"']
            + s@ + seq!['"'],
{
    serde_json::to_string(s).unwrap_or_default()
}

/// The numbers of a configuration, as JSON writes them.
#[derive(Debug)]
pub struct ConfigNumbers {
    pub stack_bb: String,
    pub pot_bb: String,
    pub rake_rate: String,
    pub rake_cap_bb: String,
}

/// A configuration as a JSON object, its fields in the order of declaration.
pub open spec fn config_json(c: SpotConfig, n: ConfigNumbers) -> Seq<char> {
    "{\"formation\":"@ + json_quoted(c.formation@) + ",\"oop_range\":"@ + json_quoted(
        c.oop_range@,
    ) + ",\"ip_range\":"@ + json_quoted(c.ip_range@) + ",\"flop_sizes\":"@ + json_quoted(
        c.flop_sizes@,
    ) + ",\"turn_sizes\":"@ + json_quoted(c.turn_sizes@) + ",\"river_sizes\":"@ + json_quoted(
        c.river_sizes@,
    ) + ",\"stack_bb\":"@ + n.stack_bb@ + ",\"pot_bb\":"@ + n.pot_bb@ + ",\"rake_rate\":"@
        + n.rake_rate@ + ",\"rake_cap_bb\":"@ + n.rake_cap_bb@ + "}"@
}

impl SpotConfig {
    /// The configuration as a JSON object.
    pub fn json(&self, n: &ConfigNumbers) -> (r: String)
        ensures
            r@ == config_json(*self, *n),
    {
        let formation = quoted(self.formation.as_str());
        let oop = quoted(self.oop_range.as_str());
        let ip = quoted(self.ip_range.as_str());
        let flop = quoted(self.flop_sizes.as_str());
        let turn = quoted(self.turn_sizes.as_str());
        let river = quoted(self.river_sizes.as_str());
        let a = text::join3("{\"formation\":", formation.as_str(), ",\"oop_range\":");
        let b = text::join3(a.as_str(), oop.as_str(), ",\"ip_range\":");
        let c = text::join3(b.as_str(), ip.as_str(), ",\"flop_sizes\":");
        let d = text::join3(c.as_str(), flop.as_str(), ",\"turn_sizes\":");
        let e = text::join3(d.as_str(), turn.as_str(), ",\"river_sizes\":");
        let f = text::join3(e.as_str(), river.as_str(), ",\"stack_bb\":");
        let g = text::join3(f.as_str(), n.stack_bb.as_str(), ",\"pot_bb\":");
        let h = text::join3(g.as_str(), n.pot_bb.as_str(), ",\"rake_rate\":");
        let i = text::join3(h.as_str(), n.rake_rate.as_str(), ",\"rake_cap_bb\":");
        text::join3(i.as_str(), n.rake_cap_bb.as_str(), "}")
    }

    /// The key under which a solve is stored: eight hexadecimal digits of a hash of
    /// the configuration's JSON.
    pub fn hash8(&self, n: &ConfigNumbers) -> (r: String)
        ensures
            r@ == fnv::hash8_of(vstd::utf8::encode_utf8(config_json(*self, *n))),
    {
        let json = self.json(n);
        fnv::hash8_text(json.as_str())
    }
}

/// The pieces of a row of bytes are two bytes each, but for a single one at the
/// end, and one after the other they are the row.
pub proof fn pieces_make_the_whole(b: Seq<u8>)
    ensures
        byte_pairs(b).flatten() == b,
        byte_pairs(b).len() == (b.len() + 1) / 2,
        forall|i: int|
            0 <= i < byte_pairs(b).len() ==> (#[trigger] byte_pairs(b)[i]) == b.subrange(
                2 * i,
                if 2 * i + 2 <= b.len() {
                    2 * i + 2
                } else {
                    b.len() as int
                },
            ),
{
    lemma_pieces(b);
    byte_pairs(b).lemma_flatten_and_flatten_alt_are_equivalent();
}

proof fn lemma_pieces(b: Seq<u8>)
    ensures
        byte_pairs(b).flatten_alt() == b,
        byte_pairs(b).len() == (b.len() + 1) / 2,
        forall|i: int|
            0 <= i < byte_pairs(b).len() ==> (#[trigger] byte_pairs(b)[i]) == b.subrange(
                2 * i,
                if 2 * i + 2 <= b.len() {
                    2 * i + 2
                } else {
                    b.len() as int
                },
            ),
    decreases b.len(),
{
    let p = byte_pairs(b);
    if b.len() > 0 {
        let n = if b.len() % 2 == 0 {
            b.len() - 2
        } else {
            b.len() - 1
        };
        let q = byte_pairs(b.take(n));
        lemma_pieces(b.take(n));
        assert(p.drop_last() =~= q);
        assert(p.last() == b.skip(n));
        assert(b.take(n) + b.skip(n) =~= b);
        assert forall|i: int| 0 <= i < p.len() implies (#[trigger] p[i]) == b.subrange(
            2 * i,
            if 2 * i + 2 <= b.len() {
                2 * i + 2
            } else {
                b.len() as int
            },
        ) by {
            if i < q.len() {
                assert(p[i] == q[i]);
                assert(b.take(n).subrange(2 * i, 2 * i + 2) =~= b.subrange(2 * i, 2 * i + 2));
            } else {
                assert(2 * i == n);
                assert(b.skip(n) =~= b.subrange(n, b.len() as int));
            }
        }
    } else {
        assert(p.flatten_alt() =~= b);
    }
}

/// No action has a higher EV than the best one.
pub proof fn the_best_action_has_the_highest_ev(evs: Seq<F32>, i: int, k: int)
    requires
        is_best(evs, i),
        0 <= k < evs.len(),
    ensures
        0 <= i < evs.len(),
        !evs[i].below(evs[k]),
        k > i ==> evs[k] != evs[i],
{
    crate::bits::the_total_order_agrees(evs[i], evs[k]);
    assert(evs[k].total_rank() <= evs[i].total_rank());
}

/// A formation is found by its id.
pub proof fn formations_are_found_by_id(i: int)
    requires
        0 <= i < 5,
    ensures
        formation_index(formation_at(i).id@) == Some(i),
{
    reveal_strlit("srp-btn-bb");
    reveal_strlit("srp-co-bb");
    reveal_strlit("srp-sb-bb");
    reveal_strlit("3bp-bb-btn");
    reveal_strlit("3bp-btn-co");
    assert("srp-btn-bb"@[4] == 'b' && "srp-co-bb"@[4] == 'c' && "srp-sb-bb"@[4] == 's');
    assert("3bp-bb-btn"@[5] == 'b' && "3bp-btn-co"@[5] == 't');
    assert("srp-btn-bb"@[0] == 's' && "srp-co-bb"@[0] == 's' && "srp-sb-bb"@[0] == 's'
        && "3bp-bb-btn"@[0] == '3' && "3bp-btn-co"@[0] == '3');
}

/// A spot answers a request where it was solved under that configuration for the same
/// cards, in whatever order they were written.
pub proof fn spots_match_by_cards_and_configuration(
    boards: Seq<Vec<String>>,
    hashes: Seq<Option<String>>,
    flop: Seq<char>,
    hash: Seq<char>,
    i: int,
)
    requires
        0 <= i < boards.len(),
        boards.len() == hashes.len(),
        flop_pieces(flop).len() <= usize::MAX,
        flop_pieces(text::joined(text::texts(boards[i]@), Seq::empty())).len() <= usize::MAX,
    ensures
        matching(boards, hashes, flop, hash, i) <==> flop_pieces(flop).to_multiset() == flop_pieces(
            text::joined(text::texts(boards[i]@), Seq::empty()),
        ).to_multiset() && hashes[i] is Some && (hashes[i]->0)@ == hash,
{
    let a = flop_pieces(flop);
    let b = flop_pieces(text::joined(text::texts(boards[i]@), Seq::empty()));
    order::sorting_keeps_the_texts(a);
    order::sorting_keeps_the_texts(b);
    if a.to_multiset() == b.to_multiset() {
        order::sorting_ignores_order(a, b);
    }
}

} // verus!
