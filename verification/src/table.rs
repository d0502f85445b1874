//! The strategy grid: 13 by 13 cells of starting hands, what is in each, and how
//! a browser of solved trees answers to its keys.

use crate::bits::F32;
use crate::board;
use crate::board::Card;
use crate::eval;
use crate::eval::Bucket;
use crate::iso;
use crate::order;
use crate::preflop;
use crate::report;
use crate::solution::SolvedSpot;
use crate::text;
use crate::tree::TreeNode;
use vstd::prelude::*;

verus! {

/// The width of a cell in characters.
pub const CELL_W: usize = 5;

/// How many cells the grid has.
pub const CELLS: usize = 169;

// ---------------------------------------------------------------- cells

/// The place of a rank letter, the ace first.
pub open spec fn rank_place(rank: u8) -> Option<int> {
    if rank == 65 {
        Some(0)
    } else if rank == 75 {
        Some(1)
    } else if rank == 81 {
        Some(2)
    } else if rank == 74 {
        Some(3)
    } else if rank == 84 {
        Some(4)
    } else if 50 <= rank <= 57 {
        Some(62 - rank)
    } else {
        None
    }
}

/// The row or column of a rank, given as the byte of its letter.
pub fn rank_idx(rank: u8) -> (r: Option<usize>)
    ensures
        r is Some == rank_place(rank) is Some,
        r matches Some(i) ==> rank_place(rank) == Some(i as int) && i < 13,
{
    if rank == 65 {
        Some(0)
    } else if rank == 75 {
        Some(1)
    } else if rank == 81 {
        Some(2)
    } else if rank == 74 {
        Some(3)
    } else if rank == 84 {
        Some(4)
    } else if 50 <= rank && rank <= 57 {
        Some((62 - rank) as usize)
    } else {
        None
    }
}

/// The label of a holding and its row and column: pairs on the diagonal, suited
/// hands above it, offsuit ones below.
pub fn canonical(hole: [Card; 2]) -> (r: (String, usize, usize))
    requires
        board::all_cards(hole@),
    ensures
        r.1 * 13 + r.2 == preflop::class_of(hole[0], hole[1]),
        r.1 < 13,
        r.2 < 13,
        r.0@ == preflop::class_text(preflop::class_of(hole[0], hole[1])),
{
    let i: usize = preflop::class_index(hole);
    (preflop::class_name(i), i / 13, i % 13)
}

/// The two cards of a hand such as `"AsKh"`.
pub open spec fn hole_of(hand: Seq<char>) -> Option<[Card; 2]> {
    match board::cards_of(text::unspaced(hand)) {
        Some(v) => if v.len() == 2 {
            Some([v[0], v[1]])
        } else {
            None
        },
        None => None,
    }
}

/// Reads two hole cards.
pub fn parse_hole(hand: &str) -> (r: Option<[Card; 2]>)
    ensures
        r == hole_of(hand@),
        r matches Some(h) ==> board::all_cards(h@),
{
    match board::parse_cards(hand) {
        Some(v) => {
            if v.len() != 2 {
                return None;
            }
            let h: [Card; 2] = [v[0], v[1]];
            proof {
                assert(v@[0].wf() && v@[1].wf());
                assert(h@ =~= seq![v@[0], v@[1]]);
                let s = hole_of(hand@)->0;
                assert(s@ =~= h@);
            }
            Some(h)
        },
        None => {
            proof {
                lemma_no_cards(text::unspaced(hand@));
            }
            None
        },
    }
}

proof fn lemma_no_cards(t: Seq<char>)
    ensures
        t.len() == 0 ==> board::cards_of(t) == Some(Seq::<Card>::empty()),
{
}

/// The cell that a hand falls into.
pub open spec fn cell_of(hand: Seq<char>) -> Option<int> {
    match hole_of(hand) {
        Some(h) => Some(preflop::class_of(h[0], h[1])),
        None => None,
    }
}

/// The cell that a hand falls into, with its cards.
pub fn cell_for(hand: &str) -> (r: Option<(usize, [Card; 2])>)
    ensures
        r is Some == cell_of(hand@) is Some,
        r matches Some((k, h)) ==> cell_of(hand@) == Some(k as int) && hole_of(hand@) == Some(h)
            && k < CELLS && board::all_cards(h@),
{
    match parse_hole(hand) {
        Some(h) => Some((preflop::class_index(h), h)),
        None => None,
    }
}

/// The strategy of one hand, from whatever source.
#[derive(Debug, Clone)]
pub struct Combo {
    pub hand: String,
    pub actions: Vec<String>,
    pub freqs: Vec<F32>,
    pub evs: Vec<F32>,
    /// How much of the hand reaches the node.
    pub weight: F32,
    pub equity: F32,
}

/// One hand inside a cell.
#[derive(Debug, Clone)]
pub struct ComboRow {
    pub hand: String,
    pub weight: F32,
    pub equity: F32,
    /// EV of the best action, not a number where there are none.
    pub ev: F32,
    pub freqs: Vec<F32>,
    pub bucket: Option<Bucket>,
}

/// One cell of the grid. What it shows is averaged over its rows.
#[derive(Debug, Clone)]
pub struct Cell {
    pub label: String,
    /// Labels of the first hand in the cell.
    pub actions: Vec<String>,
    pub rows: Vec<ComboRow>,
}

/// The larger of two numbers; what is not a number gives way.
pub open spec fn better(a: F32, b: F32) -> F32 {
    if a.nan() || a.below(b) {
        b
    } else {
        a
    }
}

/// The largest of the first `n` numbers, not a number where there are none.
pub open spec fn best_of(evs: Seq<F32>, n: int) -> F32
    decreases n,
{
    if n <= 0 {
        F32 { bits: 0x7fc0_0000 }
    } else {
        better(best_of(evs, n - 1), evs[n - 1])
    }
}

/// The largest of the first `n` numbers is one of them and no other is above it.
/// There is none only where none of them is a number.
pub proof fn the_best_is_the_highest(evs: Seq<F32>, n: int)
    requires
        0 <= n <= evs.len(),
    ensures
        best_of(evs, n).nan() <==> forall|j: int| 0 <= j < n ==> (#[trigger] evs[j]).nan(),
        !best_of(evs, n).nan() ==> exists|i: int| 0 <= i < n && #[trigger] evs[i] == best_of(evs, n),
        forall|j: int| 0 <= j < n ==> !best_of(evs, n).below(#[trigger] evs[j]),
    decreases n,
{
    if n > 0 {
        the_best_is_the_highest(evs, n - 1);
        let before = best_of(evs, n - 1);
        assert(evs[n - 1] == evs[n - 1]);
        if !before.nan() {
            let i = choose|i: int| 0 <= i < n - 1 && #[trigger] evs[i] == before;
            assert(evs[i] == before);
        }
        assert forall|j: int| 0 <= j < n implies !best_of(evs, n).below(#[trigger] evs[j]) by {
            if j < n - 1 {
                assert(!before.below(evs[j]));
            }
        }
    }
}

/// The largest of the numbers, not a number where there are none.
pub fn best_ev(evs: &Vec<F32>) -> (r: F32)
    ensures
        r == best_of(evs@, evs@.len() as int),
        r.nan() <==> forall|j: int| 0 <= j < evs@.len() ==> (#[trigger] evs@[j]).nan(),
        !r.nan() ==> evs@.contains(r),
        forall|j: int| 0 <= j < evs@.len() ==> !r.below(#[trigger] evs@[j]),
{
    let mut best = F32 { bits: 0x7fc0_0000 };
    let mut i: usize = 0;
    while i < evs.len()
        invariant
            i <= evs@.len(),
            best == best_of(evs@, i as int),
        decreases evs@.len() - i,
    {
        if best.is_nan() || best.lt(evs[i]) {
            best = evs[i];
        }
        i = i + 1;
    }
    proof {
        the_best_is_the_highest(evs@, evs@.len() as int);
    }
    best
}

/// The first hand, from `i` on, that falls into the cell.
pub open spec fn first_in(c: Seq<Combo>, cell: int, i: int) -> Option<int>
    decreases c.len() - i,
{
    if i >= c.len() {
        None
    } else if cell_of(c[i].hand@) == Some(cell) {
        Some(i)
    } else {
        first_in(c, cell, i + 1)
    }
}

/// The hands, of the first `n`, that fall into the cell and have a frequency for
/// each of its actions.
pub open spec fn places_in(c: Seq<Combo>, cell: int, actions: int, n: int) -> Seq<int>
    decreases n,
{
    if n <= 0 {
        Seq::empty()
    } else if cell_of(c[n - 1].hand@) == Some(cell) && c[n - 1].freqs@.len() == actions {
        places_in(c, cell, actions, n - 1).push(n - 1)
    } else {
        places_in(c, cell, actions, n - 1)
    }
}

/// The bucket of a hand on a flop.
pub open spec fn bucket_on(hand: Seq<char>, flop: Option<[Card; 3]>) -> Option<Bucket> {
    match (hole_of(hand), flop) {
        (Some(h), Some(f)) => Some(
            eval::bucket_of(eval::best_five(eval::codes_of(eval::five(h, f))).0, h, f),
        ),
        _ => None,
    }
}

/// The row of a hand.
pub open spec fn row_of(r: ComboRow, c: Combo, flop: Option<[Card; 3]>) -> bool {
    &&& r.hand@ == c.hand@
    &&& r.weight == c.weight
    &&& r.equity == c.equity
    &&& r.ev == best_of(c.evs@, c.evs@.len() as int)
    &&& r.freqs@ == c.freqs@
    &&& r.bucket == bucket_on(c.hand@, flop)
}

/// What is in a cell of the grid.
pub open spec fn cell_holds(
    g: Option<Cell>,
    c: Seq<Combo>,
    cell: int,
    flop: Option<[Card; 3]>,
) -> bool {
    match first_in(c, cell, 0) {
        None => g is None,
        Some(first) => {
            let acts = c[first].actions@;
            let at = places_in(c, cell, acts.len() as int, c.len() as int);
            &&& g is Some
            &&& (g->0).label@ == preflop::class_text(cell)
            &&& text::texts((g->0).actions@) == text::texts(acts)
            &&& (g->0).rows@.len() == at.len()
            &&& forall|i: int| 0 <= i < at.len() ==> row_of(#[trigger] (g->0).rows@[i], c[at[i]], flop)
        },
    }
}

/// The grid of hands: its cells in rows of 13.
pub open spec fn grid_of(g: Seq<Option<Cell>>, c: Seq<Combo>, flop: Option<[Card; 3]>) -> bool {
    &&& g.len() == CELLS
    &&& forall|k: int| 0 <= k < CELLS ==> cell_holds(#[trigger] g[k], c, k, flop)
}

fn copy_freqs(v: &Vec<F32>) -> (r: Vec<F32>)
    ensures
        r@ == v@,
{
    crate::tree::copy_row(v)
}

fn is_cell(c: &Option<(usize, [Card; 2])>, cell: usize) -> (r: bool)
    ensures
        r == (c is Some && (c->0).0 == cell),
{
    match c {
        Some((k, _)) => *k == cell,
        None => false,
    }
}

fn fill_cell(
    c: &Vec<Combo>,
    cells: &Vec<Option<(usize, [Card; 2])>>,
    cell: usize,
    flop: Option<[Card; 3]>,
) -> (r: Option<Cell>)
    requires
        cell < CELLS,
        cells@.len() == c@.len(),
        flop matches Some(f) ==> board::all_cards(f@),
        forall|i: int|
            0 <= i < c@.len() ==> match #[trigger] cells@[i] {
                Some((k, h)) => cell_of(c@[i].hand@) == Some(k as int) && hole_of(c@[i].hand@)
                    == Some(h) && board::all_cards(h@),
                None => cell_of(c@[i].hand@) is None,
            },
    ensures
        cell_holds(r, c@, cell as int, flop),
{
    let mut first: usize = 0;
    while first < c.len() && !is_cell(&cells[first], cell)
        invariant
            first <= c@.len(),
            cells@.len() == c@.len(),
            forall|i: int|
                0 <= i < c@.len() ==> match #[trigger] cells@[i] {
                    Some((k, h)) => cell_of(c@[i].hand@) == Some(k as int) && hole_of(c@[i].hand@)
                        == Some(h) && board::all_cards(h@),
                    None => cell_of(c@[i].hand@) is None,
                },
            first_in(c@, cell as int, 0) == first_in(c@, cell as int, first as int),
        decreases c@.len() - first,
    {
        assert(match cells@[first as int] {
            Some((k, h)) => cell_of(c@[first as int].hand@) == Some(k as int),
            None => cell_of(c@[first as int].hand@) is None,
        });
        first = first + 1;
    }
    if first == c.len() {
        return None;
    }
    assert(cell_of(c@[first as int].hand@) == Some(cell as int)) by {
        assert(match cells@[first as int] {
            Some((k, h)) => cell_of(c@[first as int].hand@) == Some(k as int),
            None => true,
        });
    }
    let n: usize = c[first].actions.len();
    let mut rows: Vec<ComboRow> = Vec::new();
    let mut i: usize = 0;
    while i < c.len()
        invariant
            i <= c@.len(),
            cells@.len() == c@.len(),
            flop matches Some(f) ==> board::all_cards(f@),
            forall|i: int|
                0 <= i < c@.len() ==> match #[trigger] cells@[i] {
                    Some((k, h)) => cell_of(c@[i].hand@) == Some(k as int) && hole_of(c@[i].hand@)
                        == Some(h) && board::all_cards(h@),
                    None => cell_of(c@[i].hand@) is None,
                },
            rows@.len() == places_in(c@, cell as int, n as int, i as int).len(),
            forall|k: int|
                0 <= k < rows@.len() ==> row_of(
                    #[trigger] rows@[k],
                    c@[places_in(c@, cell as int, n as int, i as int)[k]],
                    flop,
                ),
        decreases c@.len() - i,
    {
        assert(match cells@[i as int] {
            Some((k, h)) => cell_of(c@[i as int].hand@) == Some(k as int) && hole_of(
                c@[i as int].hand@,
            ) == Some(h) && board::all_cards(h@),
            None => cell_of(c@[i as int].hand@) is None,
        });
        if let Some((k, h)) = cells[i] {
            if k == cell && c[i].freqs.len() == n {
                let bucket = match flop {
                    Some(f) => Some(eval::classify_hand(h, f)),
                    None => None,
                };
                let ghost before = rows@;
                rows.push(
                    ComboRow {
                        hand: c[i].hand.clone(),
                        weight: c[i].weight,
                        equity: c[i].equity,
                        ev: best_ev(&c[i].evs),
                        freqs: copy_freqs(&c[i].freqs),
                        bucket,
                    },
                );
                proof {
                    let old_at = places_in(c@, cell as int, n as int, i as int);
                    let at = places_in(c@, cell as int, n as int, i + 1);
                    assert(at == old_at.push(i as int));
                    assert forall|k: int| 0 <= k < rows@.len() implies row_of(
                        #[trigger] rows@[k],
                        c@[at[k]],
                        flop,
                    ) by {
                        if k < before.len() {
                            assert(rows@[k] == before[k]);
                            assert(at[k] == old_at[k]);
                        }
                    }
                }
            }
        }
        i = i + 1;
    }
    Some(
        Cell {
            label: preflop::class_name(cell),
            actions: text::copy_texts(&c[first].actions),
            rows,
        },
    )
}

/// Sorts hands into the cells of the grid.
pub fn fill_grid(c: &Vec<Combo>, flop: Option<[Card; 3]>) -> (g: Vec<Option<Cell>>)
    requires
        flop matches Some(f) ==> board::all_cards(f@),
    ensures
        grid_of(g@, c@, flop),
{
    let mut cells: Vec<Option<(usize, [Card; 2])>> = Vec::new();
    let mut i: usize = 0;
    while i < c.len()
        invariant
            i <= c@.len(),
            cells@.len() == i,
            forall|j: int|
                0 <= j < i ==> match #[trigger] cells@[j] {
                    Some((k, h)) => cell_of(c@[j].hand@) == Some(k as int) && hole_of(c@[j].hand@)
                        == Some(h) && board::all_cards(h@),
                    None => cell_of(c@[j].hand@) is None,
                },
        decreases c@.len() - i,
    {
        cells.push(cell_for(c[i].hand.as_str()));
        i = i + 1;
    }
    let mut g: Vec<Option<Cell>> = Vec::new();
    let mut k: usize = 0;
    while k < CELLS
        invariant
            k <= CELLS,
            g@.len() == k,
            cells@.len() == c@.len(),
            flop matches Some(f) ==> board::all_cards(f@),
            forall|j: int|
                0 <= j < c@.len() ==> match #[trigger] cells@[j] {
                    Some((k, h)) => cell_of(c@[j].hand@) == Some(k as int) && hole_of(c@[j].hand@)
                        == Some(h) && board::all_cards(h@),
                    None => cell_of(c@[j].hand@) is None,
                },
            forall|j: int| 0 <= j < k ==> cell_holds(#[trigger] g@[j], c@, j, flop),
        decreases CELLS - k,
    {
        g.push(fill_cell(c, &cells, k, flop));
        k = k + 1;
    }
    g
}

/// The hands of a solved spot: full weight, and no equity.
pub open spec fn spot_combo(c: Combo, s: SolvedSpot, i: int) -> bool {
    let h = s.strategies@[i];
    &&& c.hand@ == h.hand@
    &&& text::texts(c.actions@) == text::texts(h.strategy.actions@)
    &&& c.freqs@ == h.strategy.frequencies@
    &&& c.evs@ == h.strategy.action_ev@
    &&& c.weight.bits == 0x3f80_0000
    &&& c.equity.bits == 0x7fc0_0000
}

/// The hands of a solved spot.
pub fn combos_of_spot(s: &SolvedSpot) -> (r: Vec<Combo>)
    ensures
        r@.len() == s.strategies@.len(),
        forall|i: int| 0 <= i < r@.len() ==> spot_combo(#[trigger] r@[i], *s, i),
{
    let mut out: Vec<Combo> = Vec::new();
    let mut i: usize = 0;
    while i < s.strategies.len()
        invariant
            i <= s.strategies@.len(),
            out@.len() == i,
            forall|k: int| 0 <= k < i ==> spot_combo(#[trigger] out@[k], *s, k),
        decreases s.strategies@.len() - i,
    {
        let h = &s.strategies[i];
        out.push(
            Combo {
                hand: h.hand.clone(),
                actions: text::copy_texts(&h.strategy.actions),
                freqs: copy_freqs(&h.strategy.frequencies),
                evs: copy_freqs(&h.strategy.action_ev),
                weight: F32 { bits: 0x3f80_0000 },
                equity: F32 { bits: 0x7fc0_0000 },
            },
        );
        i = i + 1;
    }
    out
}

/// The grid of a solved spot.
pub fn build_grid(s: &SolvedSpot) -> (g: Vec<Option<Cell>>)
    ensures
        exists|c: Seq<Combo>|
            #![trigger grid_of(g@, c, report::first_three(text::texts(s.board@)))]
            c.len() == s.strategies@.len() && (forall|i: int|
                0 <= i < c.len() ==> spot_combo(#[trigger] c[i], *s, i)) && grid_of(
                g@,
                c,
                report::first_three(text::texts(s.board@)),
            ),
{
    let c = combos_of_spot(s);
    fill_grid(&c, report::flop_of(&s.board))
}

/// The column of a table of rows.
pub open spec fn column(rows: Seq<Vec<F32>>, j: int) -> Seq<F32> {
    rows.map_values(|r: Vec<F32>| r@[j])
}

/// Every row reaches as far as the hands.
pub open spec fn rows_reach(rows: Seq<Vec<F32>>, n: int) -> bool {
    forall|i: int| 0 <= i < rows.len() ==> (#[trigger] rows[i])@.len() >= n
}

pub(crate) fn take_column(rows: &Vec<Vec<F32>>, j: usize, n: usize) -> (r: Vec<F32>)
    requires
        j < n,
        rows_reach(rows@, n as int),
    ensures
        r@ == column(rows@, j as int),
{
    let mut out: Vec<F32> = Vec::new();
    let mut i: usize = 0;
    while i < rows.len()
        invariant
            i <= rows@.len(),
            j < n,
            rows_reach(rows@, n as int),
            out@.len() == i,
            forall|k: int| 0 <= k < i ==> #[trigger] out@[k] == rows@[k]@[j as int],
        decreases rows@.len() - i,
    {
        assert(rows@[i as int]@.len() >= n);
        out.push(rows[i][j]);
        i = i + 1;
    }
    assert(out@ =~= column(rows@, j as int));
    out
}

/// The hands of a tree node: weights and equities where it has them.
pub open spec fn node_combo(c: Combo, n: TreeNode, j: int) -> bool {
    &&& c.hand@ == n.hands@[j]@
    &&& text::texts(c.actions@) == text::texts(n.actions@)
    &&& c.freqs@ == column(n.freqs@, j)
    &&& c.evs@ == column(n.evs@, j)
    &&& c.weight == if j < n.weights@.len() {
        n.weights@[j]
    } else {
        F32 { bits: 0x3f80_0000 }
    }
    &&& c.equity == if j < n.equity@.len() {
        n.equity@[j]
    } else {
        F32 { bits: 0x7fc0_0000 }
    }
}

/// The hands of a tree node.
pub fn combos_of_node(n: &TreeNode) -> (r: Vec<Combo>)
    requires
        rows_reach(n.freqs@, n.hands@.len() as int),
        rows_reach(n.evs@, n.hands@.len() as int),
    ensures
        r@.len() == n.hands@.len(),
        forall|j: int| 0 <= j < r@.len() ==> node_combo(#[trigger] r@[j], *n, j),
{
    let mut out: Vec<Combo> = Vec::new();
    let mut j: usize = 0;
    let total: usize = n.hands.len();
    while j < total
        invariant
            j <= total,
            total == n.hands@.len(),
            rows_reach(n.freqs@, total as int),
            rows_reach(n.evs@, total as int),
            out@.len() == j,
            forall|k: int| 0 <= k < j ==> node_combo(#[trigger] out@[k], *n, k),
        decreases total - j,
    {
        out.push(
            Combo {
                hand: n.hands[j].clone(),
                actions: text::copy_texts(&n.actions),
                freqs: take_column(&n.freqs, j, total),
                evs: take_column(&n.evs, j, total),
                weight: if j < n.weights.len() {
                    n.weights[j]
                } else {
                    F32 { bits: 0x3f80_0000 }
                },
                equity: if j < n.equity.len() {
                    n.equity[j]
                } else {
                    F32 { bits: 0x7fc0_0000 }
                },
            },
        );
        j = j + 1;
    }
    out
}

/// The grid of a tree node.
pub fn build_grid_node(n: &TreeNode) -> (g: Vec<Option<Cell>>)
    requires
        rows_reach(n.freqs@, n.hands@.len() as int),
        rows_reach(n.evs@, n.hands@.len() as int),
    ensures
        exists|c: Seq<Combo>|
            #![trigger grid_of(g@, c, report::first_three(text::texts(n.board@)))]
            c.len() == n.hands@.len() && (forall|j: int|
                0 <= j < c.len() ==> node_combo(#[trigger] c[j], *n, j)) && grid_of(
                g@,
                c,
                report::first_three(text::texts(n.board@)),
            ),
{
    let c = combos_of_node(n);
    fill_grid(&c, report::flop_of(&n.board))
}

// ---------------------------------------------------------------- locks

/// Frequencies held fixed, by cell.
#[derive(Debug, Clone)]
pub struct CellLocks {
    pub cells: Vec<Option<Vec<F32>>>,
}

/// The frequencies of a cell.
pub open spec fn opt_row(v: Option<Vec<F32>>) -> Option<Seq<F32>> {
    match v {
        Some(r) => Some(r@),
        None => None,
    }
}

/// How many of the first `n` cells are locked.
pub open spec fn locked_in(v: Seq<Option<Seq<F32>>>, n: int) -> nat
    decreases n,
{
    if n <= 0 {
        0
    } else {
        locked_in(v, n - 1) + if v[n - 1] is Some {
            1nat
        } else {
            0nat
        }
    }
}

impl View for CellLocks {
    type V = Seq<Option<Seq<F32>>>;

    open spec fn view(&self) -> Seq<Option<Seq<F32>>> {
        self.cells@.map_values(|v: Option<Vec<F32>>| opt_row(v))
    }
}

/// No cell is locked.
pub open spec fn no_locks() -> Seq<Option<Seq<F32>>> {
    Seq::new(CELLS as nat, |i: int| None)
}

impl CellLocks {
    pub open spec fn wf(&self) -> bool {
        self.cells@.len() == CELLS
    }

    /// No locks.
    pub fn new() -> (r: Self)
        ensures
            r.wf(),
            r@ == no_locks(),
    {
        let mut cells: Vec<Option<Vec<F32>>> = Vec::new();
        let mut i: usize = 0;
        while i < CELLS
            invariant
                i <= CELLS,
                cells@.len() == i,
                forall|k: int| 0 <= k < i ==> #[trigger] cells@[k] is None,
            decreases CELLS - i,
        {
            cells.push(None);
            i = i + 1;
        }
        let r = CellLocks { cells };
        assert(r@ =~= no_locks());
        r
    }

    /// Locks a cell, in place of its lock.
    pub fn set(&mut self, cell: usize, freqs: Vec<F32>)
        requires
            old(self).wf(),
            cell < CELLS,
        ensures
            final(self).wf(),
            final(self)@ == old(self)@.update(cell as int, Some(freqs@)),
    {
        let ghost before = self@;
        let ghost f = freqs@;
        self.cells.set(cell, Some(freqs));
        assert(self@ =~= before.update(cell as int, Some(f)));
    }

    /// Frees a cell.
    pub fn clear(&mut self, cell: usize)
        requires
            old(self).wf(),
            cell < CELLS,
        ensures
            final(self).wf(),
            final(self)@ == old(self)@.update(cell as int, None),
    {
        let ghost before = self@;
        self.cells.set(cell, None);
        assert(self@ =~= before.update(cell as int, None));
    }

    /// How many cells are locked.
    pub fn len(&self) -> (r: usize)
        requires
            self.wf(),
        ensures
            r == locked_in(self@, CELLS as int),
    {
        let mut n: usize = 0;
        let mut i: usize = 0;
        while i < CELLS
            invariant
                i <= CELLS,
                self.wf(),
                n <= i,
                n == locked_in(self@, i as int),
            decreases CELLS - i,
        {
            assert(self@[i as int] == opt_row(self.cells@[i as int]));
            if self.cells[i].is_some() {
                n = n + 1;
            }
            i = i + 1;
        }
        n
    }
}

/// The frequency that a lock gives an action of a hand, 0 where it is free.
pub open spec fn locked_freq(
    locks: Seq<Option<Seq<F32>>>,
    hand: Seq<char>,
    action: int,
) -> F32 {
    match cell_of(hand) {
        Some(k) => match locks[k] {
            Some(f) => if action < f.len() {
                f[action]
            } else {
                F32 { bits: 0 }
            },
            None => F32 { bits: 0 },
        },
        None => F32 { bits: 0 },
    }
}

/// Spreads the locks of cells over the hands of a node, action by action: every
/// hand of a locked cell gets its frequencies, every other hand stays free with
/// all at 0.
pub fn expand_lock(node: &TreeNode, locks: &CellLocks) -> (r: Vec<Vec<F32>>)
    requires
        locks.wf(),
    ensures
        r@.len() == node.actions@.len(),
        forall|a: int|
            0 <= a < r@.len() ==> (#[trigger] r@[a])@.len() == node.hands@.len() && forall|j: int|
                0 <= j < node.hands@.len() ==> #[trigger] r@[a]@[j] == locked_freq(
                    locks@,
                    node.hands@[j]@,
                    a,
                ),
{
    let mut cells: Vec<Option<usize>> = Vec::new();
    let mut j: usize = 0;
    while j < node.hands.len()
        invariant
            j <= node.hands@.len(),
            cells@.len() == j,
            forall|k: int|
                0 <= k < j ==> match #[trigger] cells@[k] {
                    Some(c) => cell_of(node.hands@[k]@) == Some(c as int) && c < CELLS,
                    None => cell_of(node.hands@[k]@) is None,
                },
        decreases node.hands@.len() - j,
    {
        match cell_for(node.hands[j].as_str()) {
            Some((k, _)) => {
                cells.push(Some(k));
            },
            None => {
                cells.push(None);
            },
        }
        j = j + 1;
    }
    let mut out: Vec<Vec<F32>> = Vec::new();
    let mut a: usize = 0;
    while a < node.actions.len()
        invariant
            a <= node.actions@.len(),
            locks.wf(),
            cells@.len() == node.hands@.len(),
            forall|k: int|
                0 <= k < cells@.len() ==> match #[trigger] cells@[k] {
                    Some(c) => cell_of(node.hands@[k]@) == Some(c as int) && c < CELLS,
                    None => cell_of(node.hands@[k]@) is None,
                },
            out@.len() == a,
            forall|b: int|
                0 <= b < a ==> (#[trigger] out@[b])@.len() == node.hands@.len() && forall|j: int|
                    0 <= j < node.hands@.len() ==> #[trigger] out@[b]@[j] == locked_freq(
                        locks@,
                        node.hands@[j]@,
                        b,
                    ),
        decreases node.actions@.len() - a,
    {
        let mut row: Vec<F32> = Vec::new();
        let mut h: usize = 0;
        while h < cells.len()
            invariant
                h <= cells@.len(),
                locks.wf(),
                cells@.len() == node.hands@.len(),
                forall|k: int|
                    0 <= k < cells@.len() ==> match #[trigger] cells@[k] {
                        Some(c) => cell_of(node.hands@[k]@) == Some(c as int) && c < CELLS,
                        None => cell_of(node.hands@[k]@) is None,
                    },
                row@.len() == h,
                forall|k: int|
                    0 <= k < h ==> #[trigger] row@[k] == locked_freq(
                        locks@,
                        node.hands@[k]@,
                        a as int,
                    ),
            decreases cells@.len() - h,
        {
            let mut x = F32 { bits: 0 };
            assert(match cells@[h as int] {
                Some(c) => cell_of(node.hands@[h as int]@) == Some(c as int) && c < CELLS,
                None => cell_of(node.hands@[h as int]@) is None,
            });
            if let Some(c) = cells[h] {
                assert(locks@[c as int] == opt_row(locks.cells@[c as int]));
                if let Some(f) = &locks.cells[c] {
                    if a < f.len() {
                        x = f[a];
                    }
                }
            }
            row.push(x);
            h = h + 1;
        }
        out.push(row);
        a = a + 1;
    }
    out
}

/// A saved set of locks: the line it belongs to and its cells.
#[derive(Debug, Clone)]
pub struct LockFile {
    pub v: u32,
    pub board: Vec<String>,
    pub line: Vec<String>,
    /// The hash of the configuration that it was saved from.
    pub config_hash: String,
    pub locks: Vec<LockEntry>,
}

/// One locked cell.
#[derive(Debug, Clone)]
pub struct LockEntry {
    pub row: usize,
    pub col: usize,
    pub freqs: Vec<F32>,
}

/// The entry is of a cell of the grid and has a frequency for each action.
pub open spec fn applies(e: LockEntry, actions: int) -> bool {
    e.row < 13 && e.col < 13 && e.freqs@.len() == actions
}

/// The locks after the first `n` entries: those that apply, a later one over an
/// earlier one.
pub open spec fn locks_from(v: Seq<LockEntry>, actions: int, n: int) -> Seq<Option<Seq<F32>>>
    decreases n,
{
    if n <= 0 {
        no_locks()
    } else {
        let before = locks_from(v, actions, n - 1);
        if applies(v[n - 1], actions) {
            before.update(v[n - 1].row * 13 + v[n - 1].col, Some(v[n - 1].freqs@))
        } else {
            before
        }
    }
}

/// The locks of a saved set that apply at a node with this many actions.
pub fn load_locks(v: &Vec<LockEntry>, actions: usize) -> (r: CellLocks)
    ensures
        r.wf(),
        r@ == locks_from(v@, actions as int, v@.len() as int),
{
    let mut locks = CellLocks::new();
    let mut i: usize = 0;
    while i < v.len()
        invariant
            i <= v@.len(),
            locks.wf(),
            locks@ == locks_from(v@, actions as int, i as int),
        decreases v@.len() - i,
    {
        let e = &v[i];
        if e.row < 13 && e.col < 13 && e.freqs.len() == actions {
            locks.set(e.row * 13 + e.col, copy_freqs(&e.freqs));
        }
        i = i + 1;
    }
    locks
}

/// The entries of the first `n` locked cells, row by row.
pub open spec fn entries_of(locks: Seq<Option<Seq<F32>>>, n: int) -> Seq<(int, int, Seq<F32>)>
    decreases n,
{
    if n <= 0 {
        Seq::empty()
    } else {
        match locks[n - 1] {
            Some(f) => entries_of(locks, n - 1).push(((n - 1) / 13, (n - 1) % 13, f)),
            None => entries_of(locks, n - 1),
        }
    }
}

/// Entries, as numbers.
pub open spec fn entry_views(v: Seq<LockEntry>) -> Seq<(int, int, Seq<F32>)> {
    v.map_values(|e: LockEntry| (e.row as int, e.col as int, e.freqs@))
}

/// The entries to save for a set of locks.
pub fn save_locks(locks: &CellLocks) -> (r: Vec<LockEntry>)
    requires
        locks.wf(),
    ensures
        entry_views(r@) == entries_of(locks@, CELLS as int),
{
    let mut out: Vec<LockEntry> = Vec::new();
    let mut i: usize = 0;
    assert(entry_views(out@) =~= Seq::empty());
    while i < CELLS
        invariant
            i <= CELLS,
            locks.wf(),
            entry_views(out@) == entries_of(locks@, i as int),
        decreases CELLS - i,
    {
        assert(locks@[i as int] == opt_row(locks.cells@[i as int]));
        if let Some(f) = &locks.cells[i] {
            let ghost before = out@;
            let e = LockEntry { row: i / 13, col: i % 13, freqs: copy_freqs(f) };
            out.push(e);
            assert(entry_views(out@) =~= entry_views(before).push(
                (e.row as int, e.col as int, e.freqs@),
            ));
        }
        i = i + 1;
    }
    out
}

proof fn lemma_saved_locks(
    locks: Seq<Option<Seq<F32>>>,
    v: Seq<LockEntry>,
    actions: int,
    n: int,
    m: int,
)
    requires
        locks.len() == CELLS,
        0 <= n <= CELLS,
        0 <= m <= v.len(),
        entry_views(v).take(m) == entries_of(locks, n),
        forall|k: int| 0 <= k < CELLS && #[trigger] locks[k] is Some ==> locks[k]->0.len() == actions,
    ensures
        locks_from(v, actions, m).len() == CELLS,
        forall|k: int|
            0 <= k < CELLS ==> #[trigger] locks_from(v, actions, m)[k] == if k < n {
                locks[k]
            } else {
                None::<Seq<F32>>
            },
    decreases n,
{
    if n == 0 {
        assert(m == 0) by {
            assert(entry_views(v).take(m).len() == m);
        }
    } else {
        match locks[n - 1] {
            Some(f) => {
                let before = entries_of(locks, n - 1);
                let all = entries_of(locks, n);
                assert(all.len() == m) by {
                    assert(entry_views(v).take(m).len() == m);
                }
                assert(m >= 1);
                assert(entry_views(v).take(m - 1) =~= before) by {
                    assert(entry_views(v).take(m).drop_last() =~= entry_views(v).take(m - 1));
                    assert(all.drop_last() =~= before);
                }
                lemma_saved_locks(locks, v, actions, n - 1, m - 1);
                let e = v[m - 1];
                assert(entry_views(v).take(m)[m - 1] == (e.row as int, e.col as int, e.freqs@));
                assert(all[m - 1] == ((n - 1) / 13, (n - 1) % 13, f));
                assert(applies(e, actions));
                assert(e.row * 13 + e.col == n - 1);
                assert(locks_from(v, actions, m) == locks_from(v, actions, m - 1).update(
                    n - 1,
                    Some(f),
                ));
                assert forall|k: int| 0 <= k < CELLS implies #[trigger] locks_from(
                    v,
                    actions,
                    m,
                )[k] == if k < n {
                    locks[k]
                } else {
                    None::<Seq<F32>>
                } by {
                    assert(k != n - 1 ==> locks_from(v, actions, m)[k] == locks_from(
                        v,
                        actions,
                        m - 1,
                    )[k]);
                }
            },
            None => {
                lemma_saved_locks(locks, v, actions, n - 1, m);
                assert forall|k: int| 0 <= k < CELLS implies #[trigger] locks_from(
                    v,
                    actions,
                    m,
                )[k] == if k < n {
                    locks[k]
                } else {
                    None::<Seq<F32>>
                } by {
                    assert(locks_from(v, actions, m)[k] == if k < n - 1 {
                        locks[k]
                    } else {
                        None::<Seq<F32>>
                    });
                }
            },
        }
    }
}

/// Locks that were saved are loaded as they were, at a node with as many actions
/// as they have frequencies.
pub proof fn saved_locks_load_back(
    locks: Seq<Option<Seq<F32>>>,
    v: Seq<LockEntry>,
    actions: int,
)
    requires
        locks.len() == CELLS,
        entry_views(v) == entries_of(locks, CELLS as int),
        forall|k: int| 0 <= k < CELLS && #[trigger] locks[k] is Some ==> locks[k]->0.len() == actions,
    ensures
        locks_from(v, actions, v.len() as int) == locks,
{
    let m = v.len() as int;
    assert(entry_views(v).take(m) =~= entry_views(v));
    lemma_saved_locks(locks, v, actions, CELLS as int, m);
    assert(locks_from(v, actions, m) =~= locks);
}

// ---------------------------------------------------------------- bars

/// The sum of widths.
pub open spec fn total_width(v: Seq<usize>, n: int) -> nat
    decreases n,
{
    if n <= 0 {
        0
    } else {
        total_width(v, n - 1) + v[n - 1] as nat
    }
}

/// Numbers by falling order.
pub open spec fn falling(v: Seq<F32>) -> Seq<Seq<u32>> {
    v.map_values(|x: F32| seq![(0xffff_ffff - x.total_rank()) as u32])
}

/// The widths after `k` of the spare characters have been handed out, one each in
/// the order of remainders and again from the first.
pub open spec fn handed_out(floors: Seq<usize>, idx: Seq<usize>, k: int) -> Seq<usize>
    decreases k,
{
    if k <= 0 {
        floors
    } else {
        let before = handed_out(floors, idx, k - 1);
        let i = idx[(k - 1) % (idx.len() as int)] as int;
        before.update(i, (before[i] + 1) as usize)
    }
}

proof fn lemma_total_update(v: Seq<usize>, i: int, x: usize, n: int)
    requires
        0 <= i < v.len(),
        0 <= n <= v.len(),
    ensures
        total_width(v.update(i, x), n) == total_width(v, n) + if i < n {
            x - v[i]
        } else {
            0
        },
    decreases n,
{
    if n > 0 {
        lemma_total_update(v, i, x, n - 1);
    }
}

proof fn lemma_width_bound(v: Seq<usize>, i: int, n: int)
    requires
        0 <= i < n <= v.len(),
    ensures
        v[i] <= total_width(v, n),
    decreases n,
{
    if i < n - 1 {
        lemma_width_bound(v, i, n - 1);
    }
}

/// Splits `w` characters among actions: each gets the whole part of its share,
/// and what is spare goes to the largest remainders. The bar is filled exactly
/// where the whole parts do not exceed it.
pub fn segment_widths(floors: &Vec<usize>, remainders: &Vec<F32>, w: usize) -> (r: Vec<usize>)
    requires
        floors@.len() == remainders@.len(),
        total_width(floors@, floors@.len() as int) <= usize::MAX,
    ensures
        r@.len() == floors@.len(),
        ({
            let used = total_width(floors@, floors@.len() as int) as int;
            let spare = if floors@.len() > 0 && used < w {
                w - used
            } else {
                0
            };
            &&& r@ == handed_out(floors@, order::order_of(falling(remainders@)), spare)
            &&& total_width(r@, r@.len() as int) == used + spare
        }),
{
    let n: usize = floors.len();
    let mut keys: Vec<Vec<u32>> = Vec::new();
    let mut widths: Vec<usize> = Vec::new();
    let mut used: usize = 0;
    let mut i: usize = 0;
    while i < n
        invariant
            i <= n,
            n == floors@.len(),
            n == remainders@.len(),
            keys@.len() == i,
            widths@.len() == i,
            total_width(floors@, n as int) <= usize::MAX,
            used == total_width(floors@, i as int),
            forall|k: int| 0 <= k < i ==> #[trigger] widths@[k] == floors@[k],
            forall|k: int| 0 <= k < i ==> (#[trigger] keys@[k])@ == falling(remainders@)[k],
        decreases n - i,
    {
        let high: u32 = 0xffff_ffff - remainders[i].total_key();
        let key = vec![high];
        assert(key@ =~= falling(remainders@)[i as int]);
        keys.push(key);
        widths.push(floors[i]);
        proof {
            lemma_total_grows(floors@, i + 1, n as int);
        }
        used = used + floors[i];
        i = i + 1;
    }
    assert(widths@ =~= floors@);
    if n == 0 {
        return widths;
    }
    let idx = order::sorted_positions(&keys);
    proof {
        assert(order::keys_of(keys@) =~= falling(remainders@));
        order::lemma_order_of(falling(remainders@), idx@);
    }
    let ghost start = used as int;
    let mut k: usize = 0;
    while used < w
        invariant
            n > 0,
            n == floors@.len(),
            idx@.len() == n,
            order::stable_order(falling(remainders@), idx@),
            remainders@.len() == n,
            widths@.len() == n,
            start == total_width(floors@, n as int),
            used == start + k,
            start <= usize::MAX,
            k > 0 ==> used <= w,
            widths@ == handed_out(floors@, idx@, k as int),
            total_width(widths@, n as int) == used,
        decreases w - used,
    {
        let at: usize = idx[k % n];
        proof {
            assert((k as int) % (n as int) == k % n);
            lemma_width_bound(widths@, at as int, n as int);
            lemma_total_update(widths@, at as int, (widths@[at as int] + 1) as usize, n as int);
        }
        let x: usize = widths[at];
        widths.set(at, x + 1);
        used = used + 1;
        k = k + 1;
    }
    widths
}

proof fn lemma_total_grows(v: Seq<usize>, i: int, n: int)
    requires
        0 <= i <= n <= v.len(),
    ensures
        total_width(v, i) <= total_width(v, n),
    decreases n,
{
    if i < n {
        lemma_total_grows(v, i, n - 1);
    }
}

/// Which action fills place `p` of a bar that starts with the last action, after
/// the actions from `i` down; `None` where the bar is shorter.
pub open spec fn filled_by(widths: Seq<usize>, i: int, p: int) -> Option<usize>
    decreases i,
{
    if i <= 0 {
        None
    } else if p < widths[i - 1] {
        Some((i - 1) as usize)
    } else {
        filled_by(widths, i - 1, p - widths[i - 1])
    }
}

/// Which action fills each place of a bar of `w` characters: the last action
/// leftmost.
pub fn bar_cells(widths: &Vec<usize>, w: usize) -> (r: Vec<Option<usize>>)
    ensures
        r@.len() == w,
        forall|p: int|
            0 <= p < w ==> #[trigger] r@[p] == filled_by(widths@, widths@.len() as int, p),
{
    let mut out: Vec<Option<usize>> = Vec::new();
    let mut p: usize = 0;
    while p < w
        invariant
            p <= w,
            out@.len() == p,
            forall|q: int|
                0 <= q < p ==> #[trigger] out@[q] == filled_by(widths@, widths@.len() as int, q),
        decreases w - p,
    {
        let mut i: usize = widths.len();
        let mut left: usize = p;
        while i > 0 && left >= widths[i - 1]
            invariant
                i <= widths@.len(),
                filled_by(widths@, widths@.len() as int, p as int) == filled_by(
                    widths@,
                    i as int,
                    left as int,
                ),
            decreases i,
        {
            left = left - widths[i - 1];
            i = i - 1;
        }
        if i > 0 {
            out.push(Some(i - 1));
        } else {
            out.push(None);
        }
        p = p + 1;
    }
    out
}

/// The character at place `p` of a label centered in `w` characters.
pub open spec fn centered(label: Seq<char>, w: int, p: int) -> char {
    let start = if label.len() < w {
        (w - label.len()) / 2
    } else {
        0
    };
    if start <= p < start + label.len() {
        label[p - start]
    } else {
        ' '
    }
}

/// A label centered in `w` characters.
pub fn cell_text(label: &str, w: usize) -> (r: Vec<char>)
    ensures
        r@.len() == w,
        forall|p: int| 0 <= p < w ==> #[trigger] r@[p] == centered(label@, w as int, p),
{
    let cs = text::chars_of(label);
    let start: usize = if cs.len() < w {
        (w - cs.len()) / 2
    } else {
        0
    };
    let mut out: Vec<char> = Vec::new();
    let mut p: usize = 0;
    while p < w
        invariant
            p <= w,
            cs@ == label@,
            start == if cs@.len() < w {
                (w - cs@.len()) / 2
            } else {
                0
            },
            out@.len() == p,
            forall|q: int| 0 <= q < p ==> #[trigger] out@[q] == centered(label@, w as int, q),
        decreases w - p,
    {
        if p >= start && p - start < cs.len() {
            out.push(cs[p - start]);
        } else {
            out.push(' ');
        }
        p = p + 1;
    }
    out
}

/// What kind of action a label is, for its color.
#[derive(Debug, Clone, Copy, PartialEq, Eq, Structural)]
pub enum Tone {
    Fold,
    Passive,
    Aggressive,
}

/// The tone of a label, by its first word.
pub open spec fn tone_of(label: Seq<char>) -> Tone {
    let w = report::first_word(label);
    if w == "fold"@ {
        Tone::Fold
    } else if w == "check"@ || w == "call"@ {
        Tone::Passive
    } else {
        Tone::Aggressive
    }
}

/// The tone of an action label.
pub fn action_tone(label: &str) -> (r: Tone)
    ensures
        r == tone_of(label@),
{
    let w = report::lower_first_word(label);
    if text::same_text(w.as_str(), "fold") {
        Tone::Fold
    } else if text::same_text(w.as_str(), "check") || text::same_text(w.as_str(), "call") {
        Tone::Passive
    } else {
        Tone::Aggressive
    }
}

// ---------------------------------------------------------------- filters

/// How many of the first `n` rows are in the bucket.
pub open spec fn hits_of(rows: Seq<ComboRow>, b: Bucket, n: int) -> nat
    decreases n,
{
    if n <= 0 {
        0
    } else {
        hits_of(rows, b, n - 1) + if rows[n - 1].bucket == Some(b) {
            1nat
        } else {
            0nat
        }
    }
}

/// How many hands of a cell are in a bucket.
pub fn bucket_hits(cell: &Cell, b: Bucket) -> (r: usize)
    ensures
        r == hits_of(cell.rows@, b, cell.rows@.len() as int),
        r <= cell.rows@.len(),
{
    let mut n: usize = 0;
    let mut i: usize = 0;
    while i < cell.rows.len()
        invariant
            i <= cell.rows@.len(),
            n <= i,
            n == hits_of(cell.rows@, b, i as int),
        decreases cell.rows@.len() - i,
    {
        if let Some(x) = cell.rows[i].bucket {
            if x == b {
                n = n + 1;
            }
        }
        i = i + 1;
    }
    n
}

/// Whether a filter dims a cell: fewer than half of its hands are in the bucket.
pub fn dimmed(cell: &Cell, filter: Option<Bucket>) -> (r: bool)
    ensures
        r == match filter {
            Some(b) => cell.rows@.len() == 0 || 2 * hits_of(
                cell.rows@,
                b,
                cell.rows@.len() as int,
            ) < cell.rows@.len(),
            None => false,
        },
{
    match filter {
        Some(b) => {
            let hits: usize = bucket_hits(cell, b);
            let n: usize = cell.rows.len();
            n == 0 || hits < n - hits
        },
        None => false,
    }
}

/// The filter after this one: from strong to weak, then off.
pub open spec fn bucket_after(cur: Option<Bucket>) -> Option<Bucket> {
    match cur {
        None => Some(Bucket::Value),
        Some(Bucket::Value) => Some(Bucket::Overpair),
        Some(Bucket::Overpair) => Some(Bucket::TopPair),
        Some(Bucket::TopPair) => Some(Bucket::Pair),
        Some(Bucket::Pair) => Some(Bucket::Draw),
        Some(Bucket::Draw) => Some(Bucket::Air),
        Some(Bucket::Air) => None,
    }
}

/// The next filter of the cycle.
pub fn next_bucket(cur: Option<Bucket>) -> (r: Option<Bucket>)
    ensures
        r == bucket_after(cur),
{
    match cur {
        None => Some(Bucket::Value),
        Some(Bucket::Value) => Some(Bucket::Overpair),
        Some(Bucket::Overpair) => Some(Bucket::TopPair),
        Some(Bucket::TopPair) => Some(Bucket::Pair),
        Some(Bucket::Pair) => Some(Bucket::Draw),
        Some(Bucket::Draw) => Some(Bucket::Air),
        Some(Bucket::Air) => None,
    }
}

/// The card at a place of the picker: ranks across with the ace first, suits
/// down.
pub open spec fn picked(pick: (int, int)) -> Seq<char> {
    seq![preflop::grid_char(pick.1), iso::suit_char(pick.0)]
}

/// The card at a place of the picker, such as `"Ah"`.
pub fn picker_card(pick: (usize, usize)) -> (r: String)
    requires
        pick.0 < 4,
        pick.1 < 13,
    ensures
        r@ == picked((pick.0 as int, pick.1 as int)),
{
    let rank: char = iso::char_of_rank(12 - pick.1 as u8);
    let suit: char = iso::char_of_suit(pick.0 as u8);
    let cs: Vec<char> = vec![rank, suit];
    assert(cs@ =~= picked((pick.0 as int, pick.1 as int)));
    text::string_of(cs.as_slice())
}

/// Which action fills place `p` of a bar that starts with action `i`; `None`
/// where the bar is shorter.
pub open spec fn filled_from(widths: Seq<usize>, i: int, p: int) -> Option<usize>
    decreases widths.len() - i,
{
    if i >= widths.len() {
        None
    } else if p < widths[i] {
        Some(i as usize)
    } else {
        filled_from(widths, i + 1, p - widths[i])
    }
}

/// Which action fills each place of a bar of `w` characters: the first action
/// leftmost.
pub fn bar_cells_forward(widths: &Vec<usize>, w: usize) -> (r: Vec<Option<usize>>)
    ensures
        r@.len() == w,
        forall|p: int| 0 <= p < w ==> #[trigger] r@[p] == filled_from(widths@, 0, p),
{
    let mut out: Vec<Option<usize>> = Vec::new();
    let mut p: usize = 0;
    while p < w
        invariant
            p <= w,
            out@.len() == p,
            forall|q: int| 0 <= q < p ==> #[trigger] out@[q] == filled_from(widths@, 0, q),
        decreases w - p,
    {
        let mut i: usize = 0;
        let mut left: usize = p;
        while i < widths.len() && left >= widths[i]
            invariant
                i <= widths@.len(),
                filled_from(widths@, 0, p as int) == filled_from(widths@, i as int, left as int),
            decreases widths@.len() - i,
        {
            left = left - widths[i];
            i = i + 1;
        }
        if i < widths.len() {
            out.push(Some(i));
        } else {
            out.push(None);
        }
        p = p + 1;
    }
    out
}

/// The rows and columns of the grid go by the letters of the ranks, the ace first.
pub proof fn the_grid_goes_down_the_ranks(i: int)
    requires
        0 <= i < 13,
    ensures
        rank_place(("AKQJT98765432"@[i] as u32) as u8) == Some(i),
        preflop::grid_char(i) == "AKQJT98765432"@[i],
{
    reveal_strlit("AKQJT98765432");
}

/// The first hand of a cell is the first that falls into it.
pub proof fn the_first_hand_of_a_cell_is_found(c: Seq<Combo>, cell: int, i: int)
    requires
        0 <= i <= c.len(),
    ensures
        first_in(c, cell, i) matches Some(k) ==> i <= k < c.len() && cell_of(c[k].hand@) == Some(
            cell,
        ) && forall|j: int| i <= j < k ==> cell_of((#[trigger] c[j]).hand@) != Some(cell),
        first_in(c, cell, i) is None ==> forall|j: int|
            i <= j < c.len() ==> cell_of((#[trigger] c[j]).hand@) != Some(cell),
    decreases c.len() - i,
{
    if i < c.len() && cell_of(c[i].hand@) != Some(cell) {
        the_first_hand_of_a_cell_is_found(c, cell, i + 1);
    }
}

/// The rows of a cell are all hands that fall into it and have a frequency for each
/// action, in order.
pub proof fn every_hand_has_a_row_in_its_cell(c: Seq<Combo>, cell: int, actions: int, n: int)
    requires
        0 <= n <= c.len(),
    ensures
        places_in(c, cell, actions, n) == Seq::new(n as nat, |i: int| i).filter(
            |i: int| cell_of(c[i].hand@) == Some(cell) && c[i].freqs@.len() == actions,
        ),
    decreases n,
{
    reveal(Seq::filter);
    let all = Seq::new(n as nat, |i: int| i);
    if n > 0 {
        every_hand_has_a_row_in_its_cell(c, cell, actions, n - 1);
        assert(all.drop_last() =~= Seq::new((n - 1) as nat, |i: int| i));
        assert(all.last() == n - 1);
    } else {
        assert(all =~= Seq::empty());
    }
}

/// A hand falls into the cell of its two cards, in whichever order they are written.
pub proof fn hands_fall_into_the_cell_of_their_cards(a: Card, b: Card, t: Seq<char>)
    requires
        a.wf(),
        b.wf(),
        t == board::written(seq![a, b]) || t == board::written(seq![b, a]),
    ensures
        cell_of(t) == Some(preflop::class_of(a, b)),
{
    board::card_lists_read_back(seq![a, b]);
    board::card_lists_read_back(seq![b, a]);
    board::written_cards_have_two_characters(seq![a, b]);
    board::written_cards_have_two_characters(seq![b, a]);
    preflop::classes_are_named_by_ranks_and_suits(a, b);
}

/// The number of locked cells is counted.
pub proof fn locked_cells_are_counted(v: Seq<Option<Seq<F32>>>, n: int)
    requires
        0 <= n <= v.len(),
    ensures
        locked_in(v, n) == v.take(n).filter(|x: Option<Seq<F32>>| x is Some).len(),
    decreases n,
{
    reveal(Seq::filter);
    if n > 0 {
        locked_cells_are_counted(v, n - 1);
        assert(v.take(n).drop_last() =~= v.take(n - 1));
        assert(v.take(n).last() == v[n - 1]);
    } else {
        assert(v.take(n) =~= Seq::empty());
    }
}

/// A cell is locked by the last entry of it that applies; without one it is free.
pub proof fn the_last_lock_of_a_cell_holds(v: Seq<LockEntry>, actions: int, n: int, row: int, col: int)
    requires
        0 <= n <= v.len(),
        0 <= row < 13,
        0 <= col < 13,
    ensures
        locks_from(v, actions, n).len() == CELLS,
        forall|i: int|
            0 <= i < n && (#[trigger] v[i]).row == row && v[i].col == col && v[i].freqs@.len()
                == actions && (forall|j: int|
                i < j < n ==> !((#[trigger] v[j]).row == row && v[j].col == col
                    && v[j].freqs@.len() == actions)) ==> locks_from(v, actions, n)[row * 13 + col]
                == Some(v[i].freqs@),
        (forall|j: int|
            0 <= j < n ==> !((#[trigger] v[j]).row == row && v[j].col == col && v[j].freqs@.len()
                == actions)) ==> locks_from(v, actions, n)[row * 13 + col] is None,
    decreases n,
{
    if n > 0 {
        the_last_lock_of_a_cell_holds(v, actions, n - 1, row, col);
        let e = v[n - 1];
        if applies(e, actions) {
            if e.row * 13 + e.col == row * 13 + col {
                assert(e.row == row && e.col == col);
            }
        }
        assert forall|i: int|
            0 <= i < n && (#[trigger] v[i]).row == row && v[i].col == col && v[i].freqs@.len()
                == actions && (forall|j: int|
                i < j < n ==> !((#[trigger] v[j]).row == row && v[j].col == col
                    && v[j].freqs@.len() == actions)) implies locks_from(
            v,
            actions,
            n,
        )[row * 13 + col] == Some(v[i].freqs@) by {
            if i < n - 1 {
                assert(!(v[n - 1].row == row && v[n - 1].col == col && v[n - 1].freqs@.len()
                    == actions));
                assert(locks_from(v, actions, n - 1)[row * 13 + col] == Some(v[i].freqs@));
            }
        }
        if forall|j: int|
            0 <= j < n ==> !((#[trigger] v[j]).row == row && v[j].col == col && v[j].freqs@.len()
                == actions) {
            assert(!(v[n - 1].row == row && v[n - 1].col == col && v[n - 1].freqs@.len()
                == actions));
        }
    }
}

/// Spare characters go round in the order given: whoever is at place `j` of it has
/// one more than the whole rounds where the last round reached it.
pub proof fn spare_characters_go_round(floors: Seq<usize>, idx: Seq<usize>, k: int, j: int)
    requires
        0 <= k,
        0 <= j < idx.len(),
        idx.len() == floors.len(),
        idx.no_duplicates(),
        forall|i: int| 0 <= i < idx.len() ==> #[trigger] idx[i] < floors.len(),
        forall|i: int| 0 <= i < floors.len() ==> #[trigger] floors[i] + k <= usize::MAX,
    ensures
        handed_out(floors, idx, k).len() == floors.len(),
        handed_out(floors, idx, k)[idx[j] as int] == floors[idx[j] as int] + k / (idx.len() as int)
            + if j < k % (idx.len() as int) {
            1int
        } else {
            0
        },
    decreases k,
{
    let n = idx.len() as int;
    if k == 0 {
        vstd::arithmetic::div_mod::lemma_fundamental_div_mod_converse(0, n, 0, 0);
    } else {
        assert forall|i: int| 0 <= i < floors.len() implies #[trigger] floors[i] + (k - 1)
            <= usize::MAX by {
            assert(floors[i] + k <= usize::MAX);
        }
        spare_characters_go_round(floors, idx, k - 1, j);
        let q = (k - 1) / n;
        let r = (k - 1) % n;
        vstd::arithmetic::div_mod::lemma_fundamental_div_mod(k - 1, n);
        vstd::arithmetic::div_mod::lemma_mod_bound(k - 1, n);
        if r + 1 < n {
            vstd::arithmetic::div_mod::lemma_fundamental_div_mod_converse(k, n, q, r + 1);
        } else {
            assert(n * (q + 1) == n * q + n) by (nonlinear_arith);
            vstd::arithmetic::div_mod::lemma_fundamental_div_mod_converse(k, n, q + 1, 0);
        }
        vstd::arithmetic::div_mod::lemma_div_pos_is_pos(k - 1, n);
        let before = handed_out(floors, idx, k - 1);
        if r == j {
            assert(q <= k - 1) by (nonlinear_arith)
                requires
                    k - 1 == n * q + r,
                    n >= 1,
                    r >= 0,
                    q >= 0,
            ;
            assert(floors[idx[j] as int] + k <= usize::MAX);
            assert(before[idx[j] as int] + 1 <= usize::MAX);
        } else {
            assert(idx[r] != idx[j]);
        }
    }
}

/// The widths of a bar add up.
pub proof fn widths_add_up(v: Seq<usize>, n: int)
    requires
        0 <= n <= v.len(),
    ensures
        total_width(v, n) == v.take(n).map_values(|x: usize| x as int).fold_left(
            0int,
            |a: int, b: int| a + b,
        ),
    decreases n,
{
    reveal(Seq::fold_left);
    let ints = v.take(n).map_values(|x: usize| x as int);
    if n > 0 {
        widths_add_up(v, n - 1);
        assert(ints.drop_last() =~= v.take(n - 1).map_values(|x: usize| x as int));
        assert(ints.last() == v[n - 1]);
    } else {
        assert(ints =~= Seq::empty());
    }
}

proof fn lemma_widths_grow(v: Seq<usize>, m: int, n: int)
    requires
        0 <= m <= n <= v.len(),
    ensures
        total_width(v, m) <= total_width(v, n),
    decreases n - m,
{
    if m < n {
        lemma_widths_grow(v, m, n - 1);
    }
}

/// A bar from the first action on: a place is an action's where it lies after the
/// widths of the actions before it and within its own.
pub proof fn bars_go_from_the_first_action(widths: Seq<usize>, i: int, p: int, k: int)
    requires
        0 <= i <= k < widths.len() <= usize::MAX,
        0 <= p,
    ensures
        filled_from(widths, i, p) == Some(k as usize) <==> total_width(widths, k) - total_width(
            widths,
            i,
        ) <= p < total_width(widths, k + 1) - total_width(widths, i),
    decreases widths.len() - i,
{
    lemma_widths_grow(widths, i, k);
    if i < k {
        lemma_widths_grow(widths, i + 1, k);
        if p >= widths[i] {
            bars_go_from_the_first_action(widths, i + 1, p - widths[i], k);
        }
    } else if p >= widths[i] {
        lemma_not_before(widths, i + 1, p - widths[i], k);
    }
}

proof fn lemma_not_before(widths: Seq<usize>, i: int, p: int, k: int)
    requires
        0 <= k < i <= widths.len() <= usize::MAX,
    ensures
        filled_from(widths, i, p) != Some(k as usize),
    decreases widths.len() - i,
{
    if i < widths.len() && p >= widths[i] {
        lemma_not_before(widths, i + 1, p - widths[i], k);
    }
}

/// A bar from the last action on: a place is an action's where it lies after the
/// widths of the actions behind it and within its own.
pub proof fn bars_go_from_the_last_action(widths: Seq<usize>, i: int, p: int, k: int)
    requires
        0 <= k < i <= widths.len() <= usize::MAX,
        0 <= p,
    ensures
        filled_by(widths, i, p) == Some(k as usize) <==> total_width(widths, i) - total_width(
            widths,
            k + 1,
        ) <= p < total_width(widths, i) - total_width(widths, k),
    decreases i,
{
    lemma_widths_grow(widths, k + 1, i);
    if k < i - 1 {
        lemma_widths_grow(widths, k + 1, i - 1);
        if p >= widths[i - 1] {
            bars_go_from_the_last_action(widths, i - 1, p - widths[i - 1], k);
        }
    } else if p >= widths[i - 1] {
        lemma_not_behind(widths, i - 1, p - widths[i - 1], k);
    }
}

proof fn lemma_not_behind(widths: Seq<usize>, i: int, p: int, k: int)
    requires
        0 <= i <= k < widths.len() <= usize::MAX,
    ensures
        filled_by(widths, i, p) != Some(k as usize),
    decreases i,
{
    if i > 0 && p >= widths[i - 1] {
        lemma_not_behind(widths, i - 1, p - widths[i - 1], k);
    }
}

/// A label that fits stands in the middle of its cell: as it is, with as much space
/// before it as behind it, or one less.
pub proof fn labels_stand_in_the_middle(label: Seq<char>, w: int) -> (left: int)
    requires
        label.len() <= w,
    ensures
        0 <= left <= w - label.len() - left <= left + 1,
        forall|i: int| 0 <= i < label.len() ==> centered(label, w, left + i) == #[trigger] label[i],
        forall|p: int|
            0 <= p < w && !(left <= p < left + label.len()) ==> #[trigger] centered(label, w, p)
                == ' ',
{
    if label.len() < w {
        (w - label.len()) / 2
    } else {
        0
    }
}

/// The hands of a cell in a bucket are counted.
pub proof fn bucket_hits_are_counted(rows: Seq<ComboRow>, b: Bucket, n: int)
    requires
        0 <= n <= rows.len(),
    ensures
        hits_of(rows, b, n) == rows.take(n).filter(|r: ComboRow| r.bucket == Some(b)).len(),
    decreases n,
{
    reveal(Seq::filter);
    if n > 0 {
        bucket_hits_are_counted(rows, b, n - 1);
        assert(rows.take(n).drop_last() =~= rows.take(n - 1));
        assert(rows.take(n).last() == rows[n - 1]);
    } else {
        assert(rows.take(n) =~= Seq::empty());
    }
}

/// The filter goes through every bucket once and is off again after them: no two
/// filters are followed by the same one, and seven steps lead back.
pub proof fn filters_go_round(a: Option<Bucket>, b: Option<Bucket>)
    ensures
        bucket_after(a) == bucket_after(b) ==> a == b,
        bucket_after(a) != a,
        bucket_after(
            bucket_after(
                bucket_after(bucket_after(bucket_after(bucket_after(bucket_after(a))))),
            ),
        ) == a,
{
}

/// The card that is picked reads as the one of its row's suit and its column's rank.
pub proof fn picked_cards_are_of_their_row_and_column(row: int, col: int)
    requires
        0 <= row < 4,
        0 <= col < 13,
    ensures
        board::leading_card(picked((row, col))) == Some(
            Card { rank: (14 - col) as u8, suit: row as u8 },
        ),
{
    let c = Card { rank: (14 - col) as u8, suit: row as u8 };
    board::cards_read_back(c, Seq::empty());
    let id = c.index();
    assert(id / 4 == 12 - col && id % 4 == row);
    assert(iso::card_text(id) + Seq::empty() =~= picked((row, col)));
}

/// Every hand that can be read and has a frequency for each action of its cell has
/// its row there: with its own weight, equity and frequencies, and the highest of
/// its EVs. Every row of a cell is that of a hand that falls into it.
pub proof fn every_hand_is_in_the_grid(
    g: Seq<Option<Cell>>,
    c: Seq<Combo>,
    flop: Option<[Card; 3]>,
    i: int,
    k: int,
    f: int,
)
    requires
        grid_of(g, c, flop),
        0 <= f <= i < c.len(),
        0 <= k < CELLS,
        cell_of(c[i].hand@) == Some(k),
        cell_of(c[f].hand@) == Some(k),
        forall|j: int| 0 <= j < f ==> cell_of((#[trigger] c[j]).hand@) != Some(k),
    ensures
        g[k] is Some,
        (g[k]->0).label@ == preflop::class_text(k),
        text::texts((g[k]->0).actions@) == text::texts(c[f].actions@),
        c[i].freqs@.len() == c[f].actions@.len() ==> exists|r: int|
            0 <= r < (g[k]->0).rows@.len() && {
                let row = #[trigger] (g[k]->0).rows@[r];
                &&& row.hand@ == c[i].hand@
                &&& row.weight == c[i].weight
                &&& row.equity == c[i].equity
                &&& row.freqs@ == c[i].freqs@
                &&& row.bucket == bucket_on(c[i].hand@, flop)
                &&& forall|e: int|
                    0 <= e < c[i].evs@.len() ==> !row.ev.below(#[trigger] c[i].evs@[e])
            },
        forall|r: int|
            0 <= r < (g[k]->0).rows@.len() ==> cell_of((#[trigger] (g[k]->0).rows@[r]).hand@)
                == Some(k),
        (g[k]->0).rows@.len() == Seq::new(c.len(), |j: int| j).filter(
            |j: int| cell_of(c[j].hand@) == Some(k) && c[j].freqs@.len() == c[f].actions@.len(),
        ).len(),
{
    let n = c.len() as int;
    the_first_hand_of_a_cell_is_found(c, k, 0);
    assert(cell_holds(g[k], c, k, flop));
    let first = first_in(c, k, 0);
    assert(first is Some) by {
        if first is None {
            assert(cell_of(c[f].hand@) != Some(k));
        }
    }
    assert(first->0 == f) by {
        let w = first->0;
        if w < f {
            assert(cell_of(c[w].hand@) != Some(k));
        } else if f < w {
            assert(cell_of(c[f].hand@) != Some(k));
        }
    }
    let acts = c[f].actions@.len() as int;
    let at = places_in(c, k, acts, n);
    every_hand_has_a_row_in_its_cell(c, k, acts, n);
    let all = Seq::new(c.len(), |j: int| j);
    let fits = |j: int| cell_of(c[j].hand@) == Some(k) && c[j].freqs@.len() == acts;
    assert(all =~= Seq::new(n as nat, |j: int| j));
    assert(at == all.filter(fits));
    let rows = (g[k]->0).rows@;
    if c[i].freqs@.len() == acts {
        assert(all[i] == i);
        all.lemma_filter_contains(fits, i);
        let r = at.index_of(i);
        assert(at[r] == i);
        assert(row_of(rows[r], c[at[r]], flop));
        the_best_is_the_highest(c[i].evs@, c[i].evs@.len() as int);
        assert(rows[r].hand@ == c[i].hand@);
    }
    assert forall|r: int| 0 <= r < rows.len() implies cell_of((#[trigger] rows[r]).hand@) == Some(
        k,
    ) by {
        assert(row_of(rows[r], c[at[r]], flop));
        all.lemma_filter_pred(fits, r);
        assert(fits(at[r]));
    }
}

/// The spare characters go to the larger remainders first.
pub proof fn larger_remainders_come_first(v: Seq<F32>, idx: Seq<usize>, i: int, j: int)
    requires
        order::stable_order(falling(v), idx),
        0 <= i < j < idx.len(),
    ensures
        !v[idx[i] as int].below(v[idx[j] as int]),
{
    reveal_with_fuel(order::lex_le, 2);
    let keys = falling(v);
    assert(order::comes_before(keys, idx[i] as int, idx[j] as int));
    crate::bits::the_total_order_agrees(v[idx[i] as int], v[idx[j] as int]);
    crate::bits::the_total_order_agrees(v[idx[j] as int], v[idx[i] as int]);
}

/// A lock gives a hand the frequencies of its cell, action by action; hands of one
/// cell get the same, and a hand of a free cell gets none.
pub proof fn locks_hold_for_all_hands_of_a_cell(
    locks: Seq<Option<Seq<F32>>>,
    a: Seq<char>,
    b: Seq<char>,
    action: int,
)
    requires
        cell_of(a) is Some,
        cell_of(a) == cell_of(b),
    ensures
        locked_freq(locks, a, action) == locked_freq(locks, b, action),
        locks[cell_of(a)->0] is None ==> locked_freq(locks, a, action) == (F32 { bits: 0 }),
        locks[cell_of(a)->0] matches Some(f) ==> 0 <= action < f.len() ==> locked_freq(
            locks,
            a,
            action,
        ) == f[action],
{
}

/// A hand of a node has its own frequency and its own EV of every action, and its own
/// weight and equity where the node gives them.
pub proof fn hands_take_their_column(c: Combo, n: TreeNode, j: int, a: int)
    requires
        node_combo(c, n, j),
        0 <= j < n.hands@.len(),
        0 <= a,
    ensures
        c.hand@ == n.hands@[j]@,
        c.freqs@.len() == n.freqs@.len(),
        a < n.freqs@.len() ==> c.freqs@[a] == n.freqs@[a]@[j],
        c.evs@.len() == n.evs@.len(),
        a < n.evs@.len() ==> c.evs@[a] == n.evs@[a]@[j],
        j < n.weights@.len() ==> c.weight == n.weights@[j],
        j < n.equity@.len() ==> c.equity == n.equity@[j],
        j >= n.equity@.len() ==> c.equity.nan(),
{
}

/// The hands of a solved spot come with their own strategies and with full weight.
pub proof fn spots_show_their_strategies(c: Combo, s: SolvedSpot, i: int)
    requires
        spot_combo(c, s, i),
        0 <= i < s.strategies@.len(),
    ensures
        c.hand@ == s.strategies@[i].hand@,
        c.freqs@ == s.strategies@[i].strategy.frequencies@,
        c.evs@ == s.strategies@[i].strategy.action_ev@,
        text::texts(c.actions@) == text::texts(s.strategies@[i].strategy.actions@),
        c.equity.nan(),
{
}

/// An action is a fold, passive or aggressive by its first word.
pub proof fn tones_go_by_the_first_word(w: Seq<char>, rest: Seq<Seq<char>>)
    requires
        text::solid(w),
        forall|i: int| 0 <= i < rest.len() ==> text::solid(#[trigger] rest[i]),
    ensures
        ({
            let t = tone_of(text::joined(seq![w] + rest, seq![' ']));
            &&& text::lowered(w) == "fold"@ ==> t == Tone::Fold
            &&& text::lowered(w) == "check"@ || text::lowered(w) == "call"@ ==> t == Tone::Passive
            &&& text::lowered(w) != "fold"@ && text::lowered(w) != "check"@ && text::lowered(w)
                != "call"@ ==> t == Tone::Aggressive
        }),
{
    report::labels_are_judged_by_their_first_word(w, rest);
    reveal_strlit("fold");
    reveal_strlit("check");
    reveal_strlit("call");
    assert("fold"@[0] == 'f' && "check"@[0] == 'c' && "call"@[0] == 'c');
}

} // verus!
