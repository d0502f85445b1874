//! What there is to solve: single spots, manifests of them, all flops up to
//! suits, and the nodes that a solved spot is stored for.

use crate::bits::F32;
use crate::iso;
use crate::iso::SuitPerm;
use crate::solution;
use crate::solution::SpotConfig;
use crate::text;
use crate::textmap::TextMap;
use vstd::prelude::*;

verus! {

/// One spot to solve.
#[derive(Debug)]
pub struct Spot {
    pub label: String,
    pub flop: String,
    pub config: SpotConfig,
}

/// The label of a formation, its id where it is none.
pub open spec fn formation_label(id: Seq<char>) -> Seq<char> {
    match solution::formation_index(id) {
        Some(i) => solution::formation_at(i).label@,
        None => id,
    }
}

/// The label of a spot, such as `"SRP BTN vs BB, Td9d6h"`.
pub fn spot_label(formation_id: &str, flop: &str) -> (r: String)
    ensures
        r@ == formation_label(formation_id@) + ", "@ + flop@,
{
    match solution::formation(formation_id) {
        Some(f) => text::join3(f.label, ", ", flop),
        None => text::join3(formation_id, ", ", flop),
    }
}

/// The names of the seats of a formation: out of position, then in position.
pub fn seats(formation_id: &str) -> (r: (&'static str, &'static str))
    ensures
        r == match solution::formation_index(formation_id@) {
            Some(i) => (solution::formation_at(i).oop_seat, solution::formation_at(i).ip_seat),
            None => ("OOP", "IP"),
        },
{
    match solution::formation(formation_id) {
        Some(f) => (f.oop_seat, f.ip_seat),
        None => ("OOP", "IP"),
    }
}

/// What is asked for in place of a formation's defaults.
#[derive(Debug, Clone)]
pub struct Overrides {
    pub oop_range: Option<String>,
    pub ip_range: Option<String>,
    pub flop_sizes: Option<String>,
    pub turn_sizes: Option<String>,
    pub river_sizes: Option<String>,
    pub stack_bb: Option<F32>,
    pub pot_bb: Option<F32>,
    pub rake_rate: Option<F32>,
    pub rake_cap_bb: Option<F32>,
}

/// The text asked for, or the default.
pub open spec fn text_or(o: Option<String>, d: Seq<char>) -> Seq<char> {
    match o {
        Some(s) => s@,
        None => d,
    }
}

/// The number asked for, or the default.
pub open spec fn number_or(o: Option<F32>, d: F32) -> F32 {
    match o {
        Some(x) => x,
        None => d,
    }
}

/// `c` is `d` with what is asked for in place of it.
pub open spec fn overridden(c: SpotConfig, d: SpotConfig, o: Overrides) -> bool {
    &&& c.formation@ == d.formation@
    &&& c.oop_range@ == text_or(o.oop_range, d.oop_range@)
    &&& c.ip_range@ == text_or(o.ip_range, d.ip_range@)
    &&& c.flop_sizes@ == text_or(o.flop_sizes, d.flop_sizes@)
    &&& c.turn_sizes@ == text_or(o.turn_sizes, d.turn_sizes@)
    &&& c.river_sizes@ == text_or(o.river_sizes, d.river_sizes@)
    &&& c.stack_bb == number_or(o.stack_bb, d.stack_bb)
    &&& c.pot_bb == number_or(o.pot_bb, d.pot_bb)
    &&& c.rake_rate == number_or(o.rake_rate, d.rake_rate)
    &&& c.rake_cap_bb == number_or(o.rake_cap_bb, d.rake_cap_bb)
}

fn pick_text(o: &Option<String>, d: &String) -> (r: String)
    ensures
        r@ == text_or(*o, d@),
{
    match o {
        Some(s) => s.clone(),
        None => d.clone(),
    }
}

fn pick_number(o: Option<F32>, d: F32) -> (r: F32)
    ensures
        r == number_or(o, d),
{
    match o {
        Some(x) => x,
        None => d,
    }
}

/// The configuration with what is asked for in place of its defaults.
pub fn with_overrides(d: &SpotConfig, o: &Overrides) -> (r: SpotConfig)
    ensures
        overridden(r, *d, *o),
{
    SpotConfig {
        formation: d.formation.clone(),
        oop_range: pick_text(&o.oop_range, &d.oop_range),
        ip_range: pick_text(&o.ip_range, &d.ip_range),
        flop_sizes: pick_text(&o.flop_sizes, &d.flop_sizes),
        turn_sizes: pick_text(&o.turn_sizes, &d.turn_sizes),
        river_sizes: pick_text(&o.river_sizes, &d.river_sizes),
        stack_bb: pick_number(o.stack_bb, d.stack_bb),
        pot_bb: pick_number(o.pot_bb, d.pot_bb),
        rake_rate: pick_number(o.rake_rate, d.rake_rate),
        rake_cap_bb: pick_number(o.rake_cap_bb, d.rake_cap_bb),
    }
}

/// The spot of a flop under a configuration.
pub open spec fn spot_for(s: Spot, d: SpotConfig, o: Overrides, flop: Seq<char>) -> bool {
    &&& s.label@ == formation_label(d.formation@) + ", "@ + flop
    &&& s.flop@ == flop
    &&& overridden(s.config, d, o)
}

/// The spot that the arguments ask for, over the defaults of its formation.
pub fn spot_from_args(d: &SpotConfig, o: &Overrides, flop: &str) -> (r: Spot)
    ensures
        spot_for(r, *d, *o, flop@),
{
    let config = with_overrides(d, o);
    Spot {
        label: spot_label(config.formation.as_str(), flop),
        flop: text::copy_text(flop),
        config,
    }
}

/// Named sets of flops, and runs over them.
#[derive(Debug)]
pub struct Manifest {
    pub flopsets: TextMap<Vec<String>>,
    pub runs: Vec<Run>,
}

/// A formation, a set of flops, and what is asked for in place of the defaults.
#[derive(Debug)]
pub struct Run {
    pub formation: String,
    /// A set of the manifest, or `"all-iso-flops"`.
    pub flops: String,
    pub overrides: Overrides,
}

/// Why a manifest has no spots.
#[derive(Debug, Clone)]
pub enum ManifestError {
    /// There is no configuration for the formation of this run.
    Config { run: usize },
    UnknownFlops { set: String },
}

/// The flops of a run; `None` for an unknown set.
pub open spec fn run_flops(m: Manifest, run: Run) -> Option<Seq<Seq<char>>> {
    if run.flops@ == "all-iso-flops"@ {
        Some(iso_texts())
    } else if m.flopsets@.dom().contains(run.flops@) {
        Some(text::texts(m.flopsets@[run.flops@]@))
    } else {
        None
    }
}

/// A run can be used: there is a configuration and a set of flops.
pub open spec fn usable(m: Manifest, configs: Seq<Option<SpotConfig>>, i: int) -> bool {
    configs[i] is Some && run_flops(m, m.runs@[i]) is Some
}

/// How many spots the first `n` runs have.
pub open spec fn spot_count(m: Manifest, n: int) -> int
    decreases n,
{
    if n <= 0 {
        0
    } else {
        spot_count(m, n - 1) + run_flops(m, m.runs@[n - 1])->0.len()
    }
}

/// The spots are those of the runs: run by run, flop by flop.
pub open spec fn spots_of(
    s: Seq<Spot>,
    m: Manifest,
    configs: Seq<Option<SpotConfig>>,
    n: int,
) -> bool {
    &&& s.len() == spot_count(m, n)
    &&& forall|i: int, k: int|
        0 <= i < n && 0 <= k < (#[trigger] run_flops(m, m.runs@[i]))->0.len() ==> spot_for(
            s[spot_count(m, i) + k],
            configs[i]->0,
            m.runs@[i].overrides,
            #[trigger] (run_flops(m, m.runs@[i])->0)[k],
        )
}

// ---------------------------------------------------------------- flops

/// A flop that is its own canonical form, in ascending order.
pub open spec fn is_canonical(f: (int, int, int)) -> bool {
    &&& iso::is_flop(f)
    &&& f.0 < f.1 < f.2
    &&& exists|p: SuitPerm| iso::minimizes(f, p) && iso::relabeled(f, p) == f
}

/// The next triple of ascending cards, in order.
pub open spec fn next_triple(f: (int, int, int)) -> (int, int, int) {
    if f.2 < 51 {
        (f.0, f.1, f.2 + 1)
    } else if f.1 < 50 {
        (f.0, f.1 + 1, f.1 + 2)
    } else {
        (f.0 + 1, f.0 + 2, f.0 + 3)
    }
}

/// How far a triple is from the last one.
pub open spec fn triples_left(f: (int, int, int)) -> int {
    (52 - f.0) * 52 * 52 + (52 - f.1) * 52 + (52 - f.2)
}

/// The canonical flops from `f` on, in order.
pub open spec fn canonical_from(f: (int, int, int)) -> Seq<(int, int, int)>
    decreases triples_left(f),
    when 0 <= f.0 < f.1 < f.2 <= 52 && f.0 <= 50 && f.1 <= 51
{
    if f.0 >= 50 {
        Seq::empty()
    } else if is_canonical(f) {
        seq![f] + canonical_from(next_triple(f))
    } else {
        canonical_from(next_triple(f))
    }
}

/// All flops up to suits, as text, in ascending order of cards.
pub open spec fn iso_texts() -> Seq<Seq<char>> {
    canonical_from((0, 1, 2)).map_values(|f: (int, int, int)| iso::flop_text(f))
}

proof fn lemma_canonical_by(f: (int, int, int), p: SuitPerm)
    requires
        iso::is_flop(f),
        f.0 < f.1 < f.2,
        iso::minimizes(f, p),
    ensures
        is_canonical(f) == (iso::relabeled(f, p) == f),
{
    if is_canonical(f) {
        let q = choose|q: SuitPerm| iso::minimizes(f, q) && iso::relabeled(f, q) == f;
        iso::lemma_canonical_text(f, p, q);
    }
}

/// All flops up to suits: each as its canonical form, in ascending order of
/// cards.
pub fn iso_flops() -> (r: Vec<String>)
    ensures
        text::texts(r@) == iso_texts(),
        r@.len() == 1755,
{
    let mut out: Vec<String> = Vec::new();
    let ghost mut done: Seq<(int, int, int)> = Seq::empty();
    let ghost to_text = |f: (int, int, int)| iso::flop_text(f);
    let mut x: u8 = 0;
    let mut y: u8 = 1;
    let mut z: u8 = 2;
    assert(text::texts(out@) =~= done.map_values(to_text));
    assert(done + canonical_from((0, 1, 2)) =~= canonical_from((0, 1, 2)));
    while x < 50
        invariant
            x < y < z,
            z <= 52,
            x <= 50,
            x < 50 ==> z <= 51,
            y <= 51,
            to_text == (|f: (int, int, int)| iso::flop_text(f)),
            text::texts(out@) == done.map_values(to_text),
            canonical_from((0, 1, 2)) == done + canonical_from((x as int, y as int, z as int)),
        decreases triples_left((x as int, y as int, z as int)),
    {
        let f: [u8; 3] = [x, y, z];
        let ghost ids = (x as int, y as int, z as int);
        let p = iso::best_perm(&f);
        let t = iso::relabel(&f, &p);
        proof {
            lemma_canonical_by(ids, p);
        }
        if t.0 == x && t.1 == y && t.2 == z {
            let a = iso::card_str(x);
            let b = iso::card_str(y);
            let c = iso::card_str(z);
            let ghost before = out@;
            let s = text::join3(a.as_str(), b.as_str(), c.as_str());
            out.push(s);
            proof {
                assert(s@ =~= iso::flop_text(ids));
                assert(text::texts(out@) =~= text::texts(before).push(s@));
                assert(done.push(ids).map_values(to_text) =~= done.map_values(to_text).push(
                    iso::flop_text(ids),
                ));
                assert(done + canonical_from(ids) =~= done.push(ids) + canonical_from(
                    next_triple(ids),
                ));
                done = done.push(ids);
            }
        }
        if z < 51 {
            z = z + 1;
        } else if y < 50 {
            y = y + 1;
            z = y + 1;
        } else {
            x = x + 1;
            y = x + 1;
            z = x + 2;
        }
        assert((x as int, y as int, z as int) == next_triple(ids));
    }
    proof {
        assert(done + canonical_from((x as int, y as int, z as int)) =~= done);
        there_are_1755_flops();
        assert(text::texts(out@).len() == out@.len());
    }
    out
}

/// The flops from `f` on that are listed are canonical, and the list misses none.
pub proof fn lists_every_canonical_flop(f: (int, int, int), g: (int, int, int))
    requires
        0 <= f.0 < f.1 < f.2 <= 51,
        f.0 <= 50,
        is_canonical(g),
        iso::triple_key(f) <= iso::triple_key(g),
    ensures
        canonical_from(f).contains(g),
    decreases triples_left(f),
{
    let rest = canonical_from(next_triple(f));
    let whole = canonical_from(f);
    assert(f.0 < 50) by {
        if f.0 == 50 {
            assert(f.1 == 51);
        }
    }
    if f == g {
        assert(whole[0] == g);
    } else {
        let n = next_triple(f);
        assert(iso::triple_key(n) <= iso::triple_key(g)) by {
            lemma_next_is_next(f, g);
        }
        if n.0 == 50 {
            assert(g.0 >= 50);
        }
        lists_every_canonical_flop(n, g);
        let i = choose|i: int| 0 <= i < rest.len() && rest[i] == g;
        if is_canonical(f) {
            assert(whole[i + 1] == g);
        }
    }
}

proof fn lemma_next_is_next(f: (int, int, int), g: (int, int, int))
    requires
        0 <= f.0 < f.1 < f.2 <= 51,
        0 <= g.0 < g.1 < g.2 <= 51,
        iso::triple_key(f) < iso::triple_key(g),
    ensures
        iso::triple_key(next_triple(f)) <= iso::triple_key(g),
        f.0 < 49 || (f.0 == 49 && f != (49int, 50int, 51int)),
{
}

/// Every flop is listed under its canonical form.
pub proof fn every_flop_is_listed(flop: Seq<char>)
    requires
        iso::flop_ids(flop) is Some,
    ensures
        iso_texts().contains(iso::canonical_text(flop)->0),
{
    let f = iso::flop_ids(flop)->0;
    iso::lemma_flop_ids(flop);
    let id = iso::lemma_a_perm();
    let p0 = iso::lemma_some_minimizer(f, id);
    let p = choose|p: SuitPerm| iso::minimizes(f, p);
    let g = iso::relabeled(f, p);
    let r = iso::lemma_canonical_is_minimal(f, p);
    assert(is_canonical(g));
    lists_every_canonical_flop((0, 1, 2), g);
    let list = canonical_from((0, 1, 2));
    let i = choose|i: int| 0 <= i < list.len() && list[i] == g;
    assert(iso_texts()[i] == iso::flop_text(g));
}

proof fn lemma_listed_are_canonical(f: (int, int, int), i: int)
    requires
        0 <= f.0 < f.1 < f.2 <= 52,
        f.0 <= 50,
        f.1 <= 51,
        0 <= i < canonical_from(f).len(),
    ensures
        is_canonical(canonical_from(f)[i]),
        f.0 < 50 && f.2 <= 51 ==> iso::triple_key(f) <= iso::triple_key(canonical_from(f)[i]),
    decreases triples_left(f),
{
    let n = next_triple(f);
    if f.0 < 50 {
        if f.2 > 51 {
            assert(f.1 < 50 || f.0 + 1 <= 50);
        }
        if is_canonical(f) {
            if i > 0 {
                assert(canonical_from(f)[i] == canonical_from(n)[i - 1]);
                lemma_listed_are_canonical(n, i - 1);
            }
        } else {
            lemma_listed_are_canonical(n, i);
        }
    }
}

/// Only canonical flops are listed, in strictly ascending order: none twice.
pub proof fn listed_flops_ascend(f: (int, int, int), i: int, j: int)
    requires
        0 <= f.0 < f.1 < f.2 <= 51,
        f.0 <= 50,
        0 <= i < j < canonical_from(f).len(),
    ensures
        is_canonical(canonical_from(f)[i]),
        is_canonical(canonical_from(f)[j]),
        iso::triple_key(canonical_from(f)[i]) < iso::triple_key(canonical_from(f)[j]),
    decreases triples_left(f),
{
    let n = next_triple(f);
    let whole = canonical_from(f);
    let rest = canonical_from(n);
    lemma_listed_are_canonical(f, i);
    lemma_listed_are_canonical(f, j);
    if f.0 < 50 {
        if is_canonical(f) {
            assert(whole[j] == rest[j - 1]);
            if n.0 < 50 {
                lemma_listed_are_canonical(n, j - 1);
                if i > 0 {
                    assert(whole[i] == rest[i - 1]);
                    listed_flops_ascend(n, i - 1, j - 1);
                }
            }
        } else if n.0 < 50 {
            listed_flops_ascend(n, i, j);
        }
    }
}

// ---------------------------------------------------------------- how many flops

/// The suits of a canonical flop in ascending order, by which of its ranks agree:
/// each suit is the first that is free, and a pair leaves its two suits alike.
pub open spec fn plain_suits(f: (int, int, int)) -> bool {
    let (r0, r1, r2) = (f.0 / 4, f.1 / 4, f.2 / 4);
    let (s0, s1, s2) = (f.0 % 4, f.1 % 4, f.2 % 4);
    &&& s0 == 0
    &&& if r0 == r1 {
        s1 == 1 && if r1 == r2 {
            s2 == 2
        } else {
            s2 == 0 || s2 == 2
        }
    } else {
        s1 <= 1 && if r1 == r2 {
            s2 == s1 + 1
        } else {
            s2 <= s1 + 1
        }
    }
}

/// The relabeling that exchanges two suits.
pub open spec fn swapped(a: int, b: int) -> SuitPerm {
    let to = |s: int|
        (if s == a {
            b
        } else if s == b {
            a
        } else {
            s
        }) as u8;
    SuitPerm([to(0), to(1), to(2), to(3)])
}

proof fn lemma_swapped(a: int, b: int, id: int)
    requires
        0 <= a < 4,
        0 <= b < 4,
        0 <= id < 52,
    ensures
        swapped(a, b).wf(),
        swapped(a, b).map_id(id) == id / 4 * 4 + if id % 4 == a {
            b
        } else if id % 4 == b {
            a
        } else {
            id % 4
        },
{
    let p = swapped(a, b);
    assert(forall|s: int|
        0 <= s < 4 ==> #[trigger] p.0[s] == if s == a {
            b
        } else if s == b {
            a
        } else {
            s
        });
}

/// A relabeling that makes a flop smaller shows that it is not canonical.
proof fn lemma_not_canonical(f: (int, int, int), a: int, b: int)
    requires
        iso::is_flop(f),
        f.0 < f.1 < f.2,
        0 <= a < 4,
        0 <= b < 4,
        ({
            let t = |id: int|
                id / 4 * 4 + if id % 4 == a {
                    b
                } else if id % 4 == b {
                    a
                } else {
                    id % 4
                };
            iso::triple_key(iso::sorted3(t(f.0), t(f.1), t(f.2))) < iso::triple_key(f)
        }),
    ensures
        !is_canonical(f),
{
    let q = swapped(a, b);
    lemma_swapped(a, b, f.0);
    lemma_swapped(a, b, f.1);
    lemma_swapped(a, b, f.2);
    assert(iso::triple_key(iso::relabeled(f, q)) < iso::triple_key(f)) by {
        reveal(iso::relabeled);
    }
    if is_canonical(f) {
        let p = choose|p: SuitPerm| iso::minimizes(f, p) && iso::relabeled(f, p) == f;
        assert(q.wf());
        assert(false);
    }
}

proof fn lemma_other_suits_shrink(f: (int, int, int))
    requires
        iso::is_flop(f),
        f.0 < f.1 < f.2,
        !plain_suits(f),
    ensures
        !is_canonical(f),
{
    let (r0, r1, r2) = (f.0 / 4, f.1 / 4, f.2 / 4);
    let (s0, s1, s2) = (f.0 % 4, f.1 % 4, f.2 % 4);
    if s0 != 0 {
        lemma_not_canonical(f, s0, 0);
    } else if r0 == r1 && s1 != 1 {
        lemma_not_canonical(f, s1, 1);
    } else if r0 == r1 && r1 != r2 && s2 == 1 {
        lemma_not_canonical(f, 0, 1);
    } else if r0 == r1 {
        lemma_not_canonical(f, s2, 2);
    } else if s1 > 1 {
        lemma_not_canonical(f, s1, 1);
    } else {
        lemma_not_canonical(f, s2, s1 + 1);
    }
}

proof fn lemma_plain_suits_are_least(f: (int, int, int), q: SuitPerm)
    requires
        iso::is_flop(f),
        f.0 < f.1 < f.2,
        plain_suits(f),
        q.wf(),
    ensures
        iso::triple_key(f) <= iso::triple_key(iso::relabeled(f, q)),
{
    reveal(iso::relabeled);
    let (r0, r1, r2) = (f.0 / 4, f.1 / 4, f.2 / 4);
    let (s1, s2) = (f.1 % 4, f.2 % 4);
    assert(q.0[0] < 4 && q.0[1] < 4 && q.0[2] < 4 && q.0[3] < 4);
    assert(q.0[0] != q.0[1] && q.0[0] != q.0[2] && q.0[1] != q.0[2]);
    let (a, b, c) = (q.image(0), q.image(1), q.image(2));
    assert(q.map_id(f.0) == 4 * r0 + a);
    if s1 == 0 {
        assert(q.map_id(f.1) == 4 * r1 + a);
    } else {
        assert(q.map_id(f.1) == 4 * r1 + b);
    }
    if s2 == 0 {
        assert(q.map_id(f.2) == 4 * r2 + a);
    } else if s2 == 1 {
        assert(q.map_id(f.2) == 4 * r2 + b);
    } else {
        assert(q.map_id(f.2) == 4 * r2 + c);
    }
}

/// The canonical flops, by their suits.
proof fn lemma_canonical_suits(f: (int, int, int))
    requires
        iso::is_flop(f),
        f.0 < f.1 < f.2,
    ensures
        is_canonical(f) == plain_suits(f),
{
    if plain_suits(f) {
        let id = iso::unchanged();
        iso::lemma_unchanged(f);
        assert forall|q: SuitPerm| #[trigger] q.wf() implies iso::triple_key(
            iso::relabeled(f, id),
        ) <= iso::triple_key(iso::relabeled(f, q)) by {
            lemma_plain_suits_are_least(f, q);
        }
        assert(iso::minimizes(f, id));
    } else {
        lemma_other_suits_shrink(f);
    }
}

/// How many third cards from `z` on make a canonical flop.
spec fn thirds(x: int, y: int, z: int) -> int
    decreases 52 - z,
{
    if z >= 52 {
        0
    } else {
        thirds(x, y, z + 1) + if plain_suits((x, y, z)) {
            1int
        } else {
            0
        }
    }
}

/// How many pairs of a second card from `y` on and a third do.
spec fn seconds(x: int, y: int) -> int
    decreases 52 - y,
{
    if y >= 52 {
        0
    } else {
        thirds(x, y, y + 1) + seconds(x, y + 1)
    }
}

/// How many canonical flops have a first card from `x` on.
spec fn firsts(x: int) -> int
    decreases 52 - x,
{
    if x >= 52 {
        0
    } else {
        seconds(x, x + 1) + firsts(x + 1)
    }
}

proof fn lemma_list_len(f: (int, int, int))
    requires
        0 <= f.0 < f.1 < f.2 <= 51,
        f.1 <= 50,
        f.0 <= 49,
    ensures
        canonical_from(f).len() == thirds(f.0, f.1, f.2) + seconds(f.0, f.1 + 1) + firsts(f.0 + 1),
    decreases triples_left(f),
{
    let n = next_triple(f);
    lemma_canonical_suits(f);
    assert(thirds(f.0, f.1, 52) == 0);
    if f.2 < 51 {
        lemma_list_len(n);
    } else {
        assert(thirds(f.0, f.1, 51) == if plain_suits(f) {
            1int
        } else {
            0
        });
        if f.1 < 50 {
            lemma_list_len(n);
        } else {
            assert(seconds(f.0, 52) == 0);
            assert(thirds(f.0, 51, 52) == 0);
            assert(seconds(f.0, 51) == 0);
            if n.0 < 50 {
                lemma_list_len(n);
            } else {
                assert(firsts(52) == 0);
                assert(seconds(51, 52) == 0);
                assert(firsts(51) == 0);
                assert(seconds(50, 52) == 0);
                assert(thirds(50, 51, 52) == 0);
                assert(seconds(50, 51) == 0);
                assert(firsts(50) == 0);
                assert(canonical_from(n).len() == 0);
            }
        }
    }
}

/// How many third cards of a rank above the second make a canonical flop.
spec fn per_rank(x: int, y: int) -> int {
    if x % 4 != 0 {
        0
    } else if x / 4 == y / 4 {
        if y % 4 == 1 {
            2
        } else {
            0
        }
    } else if y % 4 == 0 {
        2
    } else if y % 4 == 1 {
        3
    } else {
        0
    }
}

proof fn lemma_thirds_above(x: int, y: int, r: int)
    requires
        0 <= x < y < 52,
        y / 4 < r <= 13,
    ensures
        thirds(x, y, 4 * r) == per_rank(x, y) * (13 - r),
    decreases 13 - r,
{
    if r < 13 {
        lemma_thirds_above(x, y, r + 1);
        let z = 4 * r;
        assert(thirds(x, y, z + 3) == thirds(x, y, 4 * (r + 1)) + if plain_suits((x, y, z + 3)) {
            1int
        } else {
            0
        });
        assert(thirds(x, y, z) == thirds(x, y, z + 4) + per_rank(x, y)) by {
            assert(thirds(x, y, z + 2) == thirds(x, y, z + 3) + if plain_suits((x, y, z + 2)) {
                1int
            } else {
                0
            });
            assert(thirds(x, y, z + 1) == thirds(x, y, z + 2) + if plain_suits((x, y, z + 1)) {
                1int
            } else {
                0
            });
        }
        let k = per_rank(x, y);
        assert(k * (13 - (r + 1)) + k == k * (13 - r)) by (nonlinear_arith);
    } else {
        assert(per_rank(x, y) * (13 - r) == 0) by (nonlinear_arith)
            requires
                r == 13,
        ;
    }
}

/// How many third cards make a canonical flop.
spec fn all_thirds(x: int, y: int) -> int {
    if per_rank(x, y) == 0 {
        0
    } else {
        1 + per_rank(x, y) * (12 - y / 4)
    }
}

proof fn lemma_thirds(x: int, y: int)
    requires
        0 <= x < y < 52,
    ensures
        thirds(x, y, y + 1) == all_thirds(x, y),
{
    let r = y / 4;
    let top = 4 * (r + 1);
    lemma_thirds_above(x, y, r + 1);
    let tail = thirds(x, y, top);
    let hit = |z: int| if plain_suits((x, y, z)) {
        1int
    } else {
        0
    };
    if y % 4 == 0 {
        assert(thirds(x, y, y + 3) == thirds(x, y, y + 4) + hit(y + 3));
        assert(thirds(x, y, y + 2) == thirds(x, y, y + 3) + hit(y + 2));
        assert(thirds(x, y, y + 1) == thirds(x, y, y + 2) + hit(y + 1));
    } else if y % 4 == 1 {
        assert(thirds(x, y, y + 2) == thirds(x, y, y + 3) + hit(y + 2));
        assert(thirds(x, y, y + 1) == thirds(x, y, y + 2) + hit(y + 1));
    } else if y % 4 == 2 {
        assert(thirds(x, y, y + 1) == thirds(x, y, y + 2) + hit(y + 1));
    }
    assert(per_rank(x, y) == 0 ==> per_rank(x, y) * (12 - r) == 0) by (nonlinear_arith);
}

/// How many pairs of a second and a third card of ranks from `r` on make a
/// canonical flop with a lower first card.
spec fn pairs_above(r: int) -> int
    decreases 13 - r,
{
    if r >= 13 {
        0
    } else {
        2 + 5 * (12 - r) + pairs_above(r + 1)
    }
}

proof fn lemma_seconds_above(x: int, r: int)
    requires
        0 <= x < 52,
        x % 4 == 0,
        x / 4 < r <= 13,
    ensures
        seconds(x, 4 * r) == pairs_above(r),
    decreases 13 - r,
{
    if r < 13 {
        lemma_seconds_above(x, r + 1);
        let y = 4 * r;
        lemma_thirds(x, y);
        lemma_thirds(x, y + 1);
        lemma_thirds(x, y + 2);
        lemma_thirds(x, y + 3);
        assert(seconds(x, y + 3) == seconds(x, 4 * (r + 1)));
        assert(seconds(x, y + 2) == seconds(x, y + 3));
        assert(seconds(x, y + 1) == seconds(x, y + 2) + 1 + 3 * (12 - r));
        assert(seconds(x, y) == seconds(x, y + 1) + 1 + 2 * (12 - r));
    }
}

proof fn lemma_seconds_none(x: int, y: int)
    requires
        0 <= x < y <= 52,
        x % 4 != 0,
    ensures
        seconds(x, y) == 0,
    decreases 52 - y,
{
    if y < 52 {
        lemma_thirds(x, y);
        lemma_seconds_none(x, y + 1);
    }
}

proof fn lemma_firsts(r: int)
    requires
        0 <= r < 13,
    ensures
        firsts(4 * r) == 1 + 2 * (12 - r) + pairs_above(r + 1) + firsts(4 * (r + 1)),
{
    let x = 4 * r;
    lemma_seconds_above(x, r + 1);
    lemma_thirds(x, x + 1);
    lemma_thirds(x, x + 2);
    lemma_thirds(x, x + 3);
    assert(seconds(x, x + 3) == seconds(x, 4 * (r + 1)));
    assert(seconds(x, x + 2) == seconds(x, x + 3));
    assert(seconds(x, x + 1) == seconds(x, x + 2) + 1 + 2 * (12 - r));
    lemma_seconds_none(x + 1, x + 2);
    lemma_seconds_none(x + 2, x + 3);
    lemma_seconds_none(x + 3, x + 4);
    assert(firsts(x + 3) == firsts(4 * (r + 1)));
    assert(firsts(x + 2) == firsts(x + 3));
    assert(firsts(x + 1) == firsts(x + 2));
}

/// Up to suits there are 1755 flops.
pub proof fn there_are_1755_flops()
    ensures
        canonical_from((0, 1, 2)).len() == 1755,
        iso_texts().len() == 1755,
{
    lemma_list_len((0, 1, 2));
    assert(firsts(0) == thirds(0, 1, 2) + seconds(0, 2) + firsts(1)) by {
        assert(seconds(0, 1) == thirds(0, 1, 2) + seconds(0, 2));
    }
    reveal_with_fuel(pairs_above, 14);
    assert(firsts(52) == 0);
    lemma_firsts(12);
    lemma_firsts(11);
    lemma_firsts(10);
    lemma_firsts(9);
    lemma_firsts(8);
    lemma_firsts(7);
    lemma_firsts(6);
    lemma_firsts(5);
    lemma_firsts(4);
    lemma_firsts(3);
    lemma_firsts(2);
    lemma_firsts(1);
    lemma_firsts(0);
}

/// Every listed flop is its own canonical form, under the relabeling that changes
/// nothing.
pub proof fn listed_flops_are_canonical(i: int, p: SuitPerm)
    requires
        0 <= i < iso_texts().len(),
        iso::first_minimizer(iso::flop_ids(iso_texts()[i])->0, p),
    ensures
        iso::flop_ids(iso_texts()[i]) is Some,
        iso::flop_text(iso::relabeled(iso::flop_ids(iso_texts()[i])->0, p)) == iso_texts()[i],
        iso::canonical_text(iso_texts()[i]) == Some(iso_texts()[i]),
        p.0@ == iso::unchanged().0@,
{
    let g = canonical_from((0, 1, 2))[i];
    lemma_listed_are_canonical((0, 1, 2), i);
    iso::written_flops_read_back(g);
    let q = choose|q: SuitPerm| iso::minimizes(g, q) && iso::relabeled(g, q) == g;
    iso::lemma_own_form(g, q, p);
    iso::lemma_canonical_text(g, q, choose|q: SuitPerm| iso::minimizes(g, q));
}

/// No flop is listed twice.
pub proof fn listed_flops_are_distinct(i: int, j: int)
    requires
        0 <= i < j < iso_texts().len(),
    ensures
        iso_texts()[i] != iso_texts()[j],
{
    let list = canonical_from((0, 1, 2));
    listed_flops_ascend((0, 1, 2), i, j);
    if iso_texts()[i] == iso_texts()[j] {
        iso::lemma_flop_text_injective(list[i], list[j]);
    }
}

// ---------------------------------------------------------------- manifests

fn push_spots(
    out: &mut Vec<Spot>,
    d: &SpotConfig,
    o: &Overrides,
    flops: &Vec<String>,
)
    ensures
        final(out)@.len() == old(out)@.len() + flops@.len(),
        forall|k: int| 0 <= k < old(out)@.len() ==> #[trigger] final(out)@[k] == old(out)@[k],
        forall|k: int|
            0 <= k < flops@.len() ==> spot_for(
                final(out)@[old(out)@.len() + k],
                *d,
                *o,
                #[trigger] text::texts(flops@)[k],
            ),
{
    let ghost start = out@;
    let ghost fv = text::texts(flops@);
    let mut i: usize = 0;
    while i < flops.len()
        invariant
            i <= flops@.len(),
            fv == text::texts(flops@),
            out@.len() == start.len() + i,
            forall|k: int| 0 <= k < start.len() ==> #[trigger] out@[k] == start[k],
            forall|k: int|
                0 <= k < i ==> spot_for(out@[start.len() + k], *d, *o, #[trigger] fv[k]),
        decreases flops@.len() - i,
    {
        let ghost before = out@;
        assert(fv[i as int] == flops@[i as int]@);
        out.push(spot_from_args(d, o, flops[i].as_str()));
        proof {
            assert forall|k: int| 0 <= k < i + 1 implies spot_for(
                out@[start.len() + k],
                *d,
                *o,
                #[trigger] fv[k],
            ) by {
                if k < i {
                    assert(out@[start.len() + k] == before[start.len() + k]);
                }
            }
        }
        i = i + 1;
    }
}

proof fn lemma_count_grows(m: Manifest, i: int, n: int)
    requires
        0 <= i < n,
    ensures
        0 <= spot_count(m, i),
        spot_count(m, i) + run_flops(m, m.runs@[i])->0.len() <= spot_count(m, n),
    decreases n,
{
    lemma_count_positive(m, i);
    if i < n - 1 {
        lemma_count_grows(m, i, n - 1);
    }
}

proof fn lemma_count_positive(m: Manifest, i: int)
    ensures
        0 <= spot_count(m, i),
    decreases i,
{
    if i > 0 {
        lemma_count_positive(m, i - 1);
    }
}

/// The spots of a manifest, given the default configuration of each run's
/// formation where there is one: run by run, flop by flop. The first run that
/// cannot be used decides the error.
pub fn manifest_spots(m: &Manifest, configs: &Vec<Option<SpotConfig>>) -> (r: Result<
    Vec<Spot>,
    ManifestError,
>)
    requires
        m.flopsets.wf(),
        configs@.len() == m.runs@.len(),
    ensures
        r is Ok == forall|i: int| 0 <= i < m.runs@.len() ==> #[trigger] usable(*m, configs@, i),
        r matches Ok(s) ==> spots_of(s@, *m, configs@, m.runs@.len() as int),
        r matches Err(e) ==> exists|i: int|
            0 <= i < m.runs@.len() && !(#[trigger] usable(*m, configs@, i)) && (forall|k: int|
                0 <= k < i ==> #[trigger] usable(*m, configs@, k)) && match e {
                ManifestError::Config { run } => configs@[i] is None && run == i,
                ManifestError::UnknownFlops { set } => configs@[i] is Some && set@
                    == m.runs@[i].flops@,
            },
{
    let mut out: Vec<Spot> = Vec::new();
    let mut i: usize = 0;
    while i < m.runs.len()
        invariant
            i <= m.runs@.len(),
            m.flopsets.wf(),
            configs@.len() == m.runs@.len(),
            forall|k: int| 0 <= k < i ==> #[trigger] usable(*m, configs@, k),
            spots_of(out@, *m, configs@, i as int),
        decreases m.runs@.len() - i,
    {
        let run = &m.runs[i];
        let d = match &configs[i] {
            Some(d) => d,
            None => {
                assert(!usable(*m, configs@, i as int));
                return Err(ManifestError::Config { run: i });
            },
        };
        let mut listed: Vec<String> = Vec::new();
        if text::same_text(run.flops.as_str(), "all-iso-flops") {
            listed = iso_flops();
        } else {
            match m.flopsets.get(run.flops.as_str()) {
                Some(v) => {
                    listed = text::copy_texts(v);
                },
                None => {
                    let e = ManifestError::UnknownFlops { set: run.flops.clone() };
                    assert(!usable(*m, configs@, i as int));
                    return Err(e);
                },
            }
        }
        let ghost fv = text::texts(listed@);
        assert(run_flops(*m, m.runs@[i as int]) == Some(fv));
        assert(fv.len() == listed@.len());
        let ghost before = out@;
        push_spots(&mut out, d, &run.overrides, &listed);
        proof {
            assert forall|j: int, k: int|
                0 <= j < i + 1 && 0 <= k < (#[trigger] run_flops(
                    *m,
                    m.runs@[j],
                ))->0.len() implies spot_for(
                out@[spot_count(*m, j) + k],
                configs@[j]->0,
                m.runs@[j].overrides,
                #[trigger] (run_flops(*m, m.runs@[j])->0)[k],
            ) by {
                if j < i {
                    lemma_count_grows(*m, j, i as int);
                    assert(out@[spot_count(*m, j) + k] == before[spot_count(*m, j) + k]);
                } else {
                    assert(fv[k] == text::texts(listed@)[k]);
                }
            }
        }
        assert(usable(*m, configs@, i as int));
        i = i + 1;
    }
    Ok(out)
}

// ---------------------------------------------------------------- stored nodes

/// The name and labels of the node where the player in position may bet.
pub struct NodeTexts {
    pub stem: String,
    pub label: String,
    pub villain_action: String,
}

/// The texts of the node where the player out of position has checked.
pub fn cbet_texts(stem: &str, spot_label: &str, oop_seat: &str, ip_seat: &str) -> (r: NodeTexts)
    ensures
        r.stem@ == stem@ + "-ip"@,
        r.label@ == spot_label@ + " — you're "@ + ip_seat@ + ", "@ + oop_seat@
            + " checks: c-bet?"@,
        r.villain_action@ == "Villain ("@ + oop_seat@ + ") checks to you"@,
{
    let a = text::join3(spot_label, " — you're ", ip_seat);
    let b = text::join3(a.as_str(), ", ", oop_seat);
    NodeTexts {
        stem: text::join2(stem, "-ip"),
        label: text::join2(b.as_str(), " checks: c-bet?"),
        villain_action: text::join3("Villain (", oop_seat, ") checks to you"),
    }
}

/// The texts of a node that faces a bet of this percentage of the pot; `bet_bb`
/// is the bet in big blinds, as printed.
pub fn defend_texts(
    stem: &str,
    spot_label: &str,
    oop_seat: &str,
    ip_seat: &str,
    pct: u32,
    bet_bb: &str,
) -> (r: NodeTexts)
    ensures
        r.stem@ == stem@ + "-oop-"@ + text::decimal(pct as int),
        r.label@ == spot_label@ + " — you're "@ + oop_seat@ + ", facing "@ + ip_seat@ + " "@
            + text::decimal(pct as int) + "% c-bet: defend?"@,
        r.villain_action@ == "You check, villain bets "@ + bet_bb@ + "bb ("@ + text::decimal(
            pct as int,
        ) + "% pot)"@,
{
    let n = text::decimal_text(pct as u64);
    let a = text::join3(spot_label, " — you're ", oop_seat);
    let b = text::join3(a.as_str(), ", facing ", ip_seat);
    let c = text::join3(b.as_str(), " ", n.as_str());
    let d = text::join3("You check, villain bets ", bet_bb, "bb (");
    NodeTexts {
        stem: text::join3(stem, "-oop-", n.as_str()),
        label: text::join2(c.as_str(), "% c-bet: defend?"),
        villain_action: text::join3(d.as_str(), n.as_str(), "% pot)"),
    }
}

/// The rows of a table that is stored action by action: row `a` holds the numbers
/// of action `a`, one per hand.
pub fn split_rows(flat: &Vec<F32>, actions: usize, hands: usize) -> (r: Vec<Vec<F32>>)
    requires
        flat@.len() == actions * hands,
    ensures
        r@.len() == actions,
        forall|a: int|
            0 <= a < actions ==> (#[trigger] r@[a])@ == flat@.subrange(a * hands, a * hands + hands),
{
    let mut out: Vec<Vec<F32>> = Vec::new();
    let mut a: usize = 0;
    let mut at: usize = 0;
    let total: usize = flat.len();
    while a < actions
        invariant
            a <= actions,
            total == flat@.len(),
            at == a * hands,
            flat@.len() == actions * hands,
            out@.len() == a,
            forall|k: int|
                0 <= k < a ==> (#[trigger] out@[k])@ == flat@.subrange(k * hands, k * hands + hands),
        decreases actions - a,
    {
        proof {
            assert(a * hands + hands <= actions * hands) by (nonlinear_arith)
                requires
                    a < actions,
            ;
            assert((a + 1) * hands == a * hands + hands) by (nonlinear_arith);
        }
        let mut row: Vec<F32> = Vec::new();
        let mut h: usize = 0;
        while h < hands
            invariant
                h <= hands,
                at == a * hands,
                total == flat@.len(),
                at + hands <= total,
                row@ == flat@.subrange(at as int, at + h),
            decreases hands - h,
        {
            row.push(flat[at + h]);
            assert(row@ =~= flat@.subrange(at as int, at + h + 1));
            h = h + 1;
        }
        out.push(row);
        at = at + hands;
        a = a + 1;
    }
    out
}

/// Every flop of a run's set has its spot: with the flop, the formation's defaults,
/// and what the run asks for in place of them.
pub proof fn every_flop_of_a_run_is_solved(
    s: Seq<Spot>,
    m: Manifest,
    configs: Seq<Option<SpotConfig>>,
    n: int,
    i: int,
    k: int,
)
    requires
        spots_of(s, m, configs, n),
        0 <= i < n,
        m.runs@[i].flops@ != "all-iso-flops"@,
        m.flopsets@.dom().contains(m.runs@[i].flops@),
        0 <= k < m.flopsets@[m.runs@[i].flops@]@.len(),
        forall|j: int| 0 <= j < n ==> #[trigger] run_flops(m, m.runs@[j]) is Some,
    ensures
        exists|p: int|
            0 <= p < s.len() && (#[trigger] s[p]).flop@ == m.flopsets@[m.runs@[i].flops@]@[k]@
                && overridden(s[p].config, configs[i]->0, m.runs@[i].overrides),
{
    let f = run_flops(m, m.runs@[i])->0;
    assert(f[k] == m.flopsets@[m.runs@[i].flops@]@[k]@);
    let p = spot_count(m, i) + k;
    assert(spot_for(s[p], configs[i]->0, m.runs@[i].overrides, f[k]));
    lemma_counts_grow(m, i + 1, n);
    lemma_counts_grow(m, 0, i);
    assert(spot_count(m, i + 1) == spot_count(m, i) + f.len());
    assert(s[p].flop@ == f[k]);
}

proof fn lemma_counts_grow(m: Manifest, a: int, b: int)
    requires
        0 <= a <= b,
    ensures
        0 <= spot_count(m, a) <= spot_count(m, b),
    decreases b,
{
    if a < b {
        lemma_counts_grow(m, a, b - 1);
    } else if a > 0 {
        lemma_counts_grow(m, a - 1, a - 1);
    }
}

} // verus!
