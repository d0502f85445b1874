//! Postflop spots that start from a solved preflop line.

use crate::bits::F32;
use crate::game;
use crate::generate;
use crate::preflop;
use crate::preflop::{ClosingLine, FlopPot, PreflopCharts};
use crate::solution::SpotConfig;
use crate::text;
use vstd::prelude::*;

verus! {

/// Why a preflop line is no start of a two-player flop.
#[derive(Debug, Clone, Copy, PartialEq, Eq, Structural)]
pub enum LineError {
    /// Not exactly two seats are left.
    NotTwoPlayers,
    /// More action follows, or it ends in a fold or an all-in.
    NotClosed,
    /// A node on the way is missing.
    Pruned,
    /// A seat that is left never plays the line.
    Unreachable,
    /// The ruleset does not name its stack.
    NoStack,
}

/// What a flop-closing line fixes: the seats, the rows of frequencies that each
/// of them played on the way, and the pot.
#[derive(Debug)]
pub struct LineSpot {
    pub oop_seat: String,
    pub ip_seat: String,
    pub oop_reach: Vec<Vec<F32>>,
    pub ip_reach: Vec<Vec<F32>>,
    pub pot: FlopPot,
}

/// The first objection to a line.
pub open spec fn line_objection(c: PreflopCharts, line: Seq<char>) -> Option<LineError> {
    match c.flop_pair(line) {
        None => Some(LineError::NotTwoPlayers),
        Some((oop, ip)) => if c.closing_pot(line) is None {
            Some(LineError::NotClosed)
        } else if c.reach_rows(line, oop) is None || c.reach_rows(line, ip) is None {
            Some(LineError::Pruned)
        } else {
            None
        },
    }
}

/// The two-player flop that a line leads to.
pub fn derive_line_spot(charts: &PreflopCharts, line: &str) -> (r: Result<LineSpot, LineError>)
    requires
        charts.wf(),
    ensures
        match line_objection(*charts, line@) {
            Some(e) => r matches Err(f) && f == e,
            None => r matches Ok(s) && {
                let (oop, ip) = charts.flop_pair(line@)->0;
                &&& s.oop_seat@ == oop
                &&& s.ip_seat@ == ip
                &&& preflop::rows_are(s.oop_reach@, charts.reach_rows(line@, oop)->0)
                &&& preflop::rows_are(s.ip_reach@, charts.reach_rows(line@, ip)->0)
                &&& Some(s.pot) == charts.closing_pot(line@)
            },
        },
{
    let (oop_seat, ip_seat) = match charts.flop_seats(line) {
        Some(p) => p,
        None => {
            return Err(LineError::NotTwoPlayers);
        },
    };
    let pot = match charts.flop_pot_bb(line) {
        Some(p) => p,
        None => {
            return Err(LineError::NotClosed);
        },
    };
    let oop_reach = match charts.seat_reach(line, oop_seat.as_str()) {
        Some(v) => v,
        None => {
            return Err(LineError::Pruned);
        },
    };
    let ip_reach = match charts.seat_reach(line, ip_seat.as_str()) {
        Some(v) => v,
        None => {
            return Err(LineError::Pruned);
        },
    };
    Ok(LineSpot { oop_seat, ip_seat, oop_reach, ip_reach, pot })
}

/// The ruleset and the line of a text `<ruleset>:<line>`, cut at the first `:`;
/// `None` without one.
pub fn split_spec(spec: &str) -> (r: Option<(String, String)>)
    ensures
        r is Some == spec@.contains(':'),
        r matches Some((a, b)) ==> spec@ == a@ + ":"@ + b@ && !a@.contains(':'),
{
    let cs = text::chars_of(spec);
    let n: usize = cs.len();
    match text::find_char(cs.as_slice(), ':') {
        Some(i) => {
            let a = text::part(cs.as_slice(), 0, i);
            let b = text::part(cs.as_slice(), i + 1, n);
            proof {
                reveal_strlit(":");
                assert(spec@ =~= a@ + ":"@ + b@);
                assert(!a@.contains(':')) by {
                    if a@.contains(':') {
                        let k = choose|k: int| 0 <= k < a@.len() && a@[k] == ':';
                        assert(spec@[k] == ':');
                    }
                }
                assert(spec@[i as int] == ':');
            }
            Some((text::string_of(a.as_slice()), text::string_of(b.as_slice())))
        },
        None => None,
    }
}

/// The configuration of a spot that starts from a preflop line. It keeps the
/// default bet sizes, and is named by the line. A seat with an empty range never
/// plays the line, and a ruleset must name its stack.
pub fn grounded_config(
    spec: &str,
    oop_range: &str,
    ip_range: &str,
    stack: Option<F32>,
    pot: F32,
    rake: (F32, F32),
) -> (r: Result<SpotConfig, LineError>)
    ensures
        if oop_range@.len() == 0 || ip_range@.len() == 0 {
            r matches Err(e) && e == LineError::Unreachable
        } else if stack is None {
            r matches Err(e) && e == LineError::NoStack
        } else {
            r matches Ok(c) && {
                &&& c.formation@ == spec@
                &&& c.oop_range@ == oop_range@
                &&& c.ip_range@ == ip_range@
                &&& c.flop_sizes@ == "33%, 75%"@
                &&& c.turn_sizes@ == "33%"@
                &&& c.river_sizes@ == "33%"@
                &&& Some(c.stack_bb) == stack
                &&& c.pot_bb == pot
                &&& c.rake_rate == rake.0
                &&& c.rake_cap_bb == rake.1
            }
        },
{
    if oop_range.is_empty() || ip_range.is_empty() {
        return Err(LineError::Unreachable);
    }
    match stack {
        Some(stack_bb) => Ok(
            SpotConfig {
                formation: text::copy_text(spec),
                oop_range: text::copy_text(oop_range),
                ip_range: text::copy_text(ip_range),
                flop_sizes: text::copy_text("33%, 75%"),
                turn_sizes: text::copy_text("33%"),
                river_sizes: text::copy_text("33%"),
                stack_bb,
                pot_bb: pot,
                rake_rate: rake.0,
                rake_cap_bb: rake.1,
            },
        ),
        None => Err(LineError::NoStack),
    }
}

/// What is said of a line that is no start of a two-player flop.
pub open spec fn objection_text(e: LineError, line: Seq<char>) -> Seq<char> {
    match e {
        LineError::NotTwoPlayers => text::debug_text(line)
            + " isn't a two-player flop line (list lines with: export-range --ruleset <id>)"@,
        LineError::NotClosed => text::debug_text(line)
            + " doesn't close to a flop (more action follows, or it's a fold/all-in)"@,
        LineError::Pruned => text::debug_text(line) + " has a pruned/missing ancestor node"@,
        LineError::Unreachable => text::debug_text(line)
            + " is unreachable for a live seat under the equilibrium"@,
        LineError::NoStack => "ruleset config lacks stack_bb"@,
    }
}

impl LineError {
    /// What is said of the line.
    pub fn text(self, line: &str) -> (r: String)
        ensures
            r@ == objection_text(self, line@),
    {
        let shown = text::to_debug(line);
        match self {
            LineError::NotTwoPlayers => text::join2(
                shown.as_str(),
                " isn't a two-player flop line (list lines with: export-range --ruleset <id>)",
            ),
            LineError::NotClosed => text::join2(
                shown.as_str(),
                " doesn't close to a flop (more action follows, or it's a fold/all-in)",
            ),
            LineError::Pruned => text::join2(
                shown.as_str(),
                " has a pruned/missing ancestor node",
            ),
            LineError::Unreachable => text::join2(
                shown.as_str(),
                " is unreachable for a live seat under the equilibrium",
            ),
            LineError::NoStack => text::copy_text("ruleset config lacks stack_bb"),
        }
    }
}

// ---------------------------------------------------------------- which lines

/// No token of an action holds the `-` that separates tokens.
pub open spec fn plain_tokens(c: PreflopCharts) -> bool {
    forall|path: Seq<char>, k: int|
        c.stored(path) && 0 <= k < c.at(path).actions@.len() ==> !preflop::token_of_label(
            (#[trigger] c.at(path).actions@[k])@,
        ).contains('-')
}

/// The first `n` tokens are actions of the stored nodes on the way.
pub open spec fn follows(c: PreflopCharts, toks: Seq<Seq<char>>, n: int) -> bool {
    forall|i: int|
        0 <= i < n ==> c.stored(#[trigger] preflop::prefix(toks, i)) && !c.at(
            preflop::prefix(toks, i),
        ).no_token(toks[i])
}

/// The line is made of the actions of the stored nodes on the way.
pub open spec fn reached(c: PreflopCharts, line: Seq<char>) -> bool {
    let toks = game::path_tokens(line);
    preflop::prefix(toks, toks.len() as int) == line && follows(c, toks, toks.len() as int)
}

pub(crate) proof fn lemma_root_is_reached(c: PreflopCharts)
    ensures
        game::path_tokens(Seq::empty()).len() == 0,
        reached(c, Seq::empty()),
{
    let e = Seq::<char>::empty();
    let none = seq![e];
    let keep = |t: Seq<char>| t.len() > 0;
    assert(text::split(e, '-') == none);
    reveal_with_fuel(Seq::filter, 2);
    assert(none.drop_last() =~= Seq::empty());
    assert(none.filter(keep) =~= Seq::empty());
    assert(game::path_tokens(e) == none.filter(keep));
    let toks = game::path_tokens(e);
    assert(toks.take(0) =~= Seq::empty());
}

/// A line that is reached, and an action after it.
pub(crate) proof fn lemma_child_is_reached(c: PreflopCharts, path: Seq<char>, k: int)
    requires
        plain_tokens(c),
        reached(c, path),
        c.stored(path),
        0 <= k < c.at(path).actions@.len(),
    ensures
        ({
            let tok = preflop::token_of_label(c.at(path).actions@[k]@);
            &&& game::path_tokens(preflop::longer(path, tok)) == game::path_tokens(path).push(tok)
            &&& reached(c, preflop::longer(path, tok))
        }),
{
    let tok = preflop::token_of_label(c.at(path).actions@[k]@);
    let toks = game::path_tokens(path);
    let n = toks.len() as int;
    let more = toks.push(tok);
    preflop::lemma_token_not_empty(c.at(path).actions@[k]@);
    generate::paths_read_back(path, tok);
    assert forall|i: int| 0 <= i <= n implies #[trigger] preflop::prefix(more, i)
        == preflop::prefix(toks, i) by {
        assert(more.take(i) =~= toks.take(i));
    }
    preflop::lemma_prefix_step(more, n);
    assert(preflop::prefix(more, n) == path);
    if n == 0 {
        assert(toks.take(0) =~= Seq::empty());
        assert(path =~= Seq::empty());
        assert(path + tok =~= tok);
    } else {
        lemma_some_tokens(path);
    }
    assert(preflop::prefix(more, n + 1) == preflop::longer(path, tok));
    assert forall|i: int| 0 <= i < n + 1 implies c.stored(#[trigger] preflop::prefix(more, i))
        && !c.at(preflop::prefix(more, i)).no_token(more[i]) by {
        if i < n {
            assert(preflop::prefix(more, i) == preflop::prefix(toks, i));
            assert(more[i] == toks[i]);
        }
    }
}

proof fn lemma_some_tokens(path: Seq<char>)
    requires
        game::path_tokens(path).len() > 0,
    ensures
        path.len() > 0,
{
    if path.len() == 0 {
        assert(path =~= Seq::empty());
        let e = Seq::<char>::empty();
        let none = seq![e];
        let keep = |t: Seq<char>| t.len() > 0;
        assert(text::split(e, '-') == none);
        reveal_with_fuel(Seq::filter, 2);
        assert(none.drop_last() =~= Seq::empty());
        assert(none.filter(keep) =~= Seq::empty());
    }
}

/// What is said of every line that is listed.
pub open spec fn well_listed(c: PreflopCharts, l: ClosingLine) -> bool {
    reached(c, l.line) && c.closing_pot(l.line) == Some(l.pot)
}

proof fn lemma_listed_below(c: PreflopCharts, path: Seq<char>)
    requires
        c.wf(),
        plain_tokens(c),
        reached(c, path),
        c.stored(path),
    ensures
        forall|i: int|
            0 <= i < preflop::closings_below(c, path).len() ==> well_listed(
                c,
                #[trigger] preflop::closings_below(c, path)[i],
            ),
    decreases preflop::longest(text::texts(c.nodes.keys@)) + 1 - path.len(), 1int, 0nat,
{
    preflop::lemma_longest(text::texts(c.nodes.keys@), path);
    let n = c.at(path).actions@.len();
    lemma_listed_of(c, path, n);
    let below = preflop::closings_below(c, path);
    assert(below == preflop::closings_of(c, path, n));
    assert forall|i: int| 0 <= i < below.len() implies well_listed(c, #[trigger] below[i]) by {
        assert(well_listed(c, preflop::closings_of(c, path, n)[i]));
    }
}

proof fn lemma_listed_of(c: PreflopCharts, path: Seq<char>, k: nat)
    requires
        c.wf(),
        plain_tokens(c),
        reached(c, path),
        c.stored(path),
        k <= c.at(path).actions@.len(),
    ensures
        forall|i: int|
            0 <= i < preflop::closings_of(c, path, k).len() ==> well_listed(
                c,
                #[trigger] preflop::closings_of(c, path, k)[i],
            ),
    decreases preflop::longest(text::texts(c.nodes.keys@)) + 1 - path.len(), 0int, k,
{
    preflop::lemma_longest(text::texts(c.nodes.keys@), path);
    if k > 0 {
        let before = preflop::closings_of(c, path, (k - 1) as nat);
        let tok = preflop::token_of_label(c.at(path).actions@[k - 1]@);
        let child = preflop::longer(path, tok);
        lemma_listed_of(c, path, (k - 1) as nat);
        lemma_child_is_reached(c, path, k - 1);
        preflop::lemma_token_not_empty(c.at(path).actions@[k - 1]@);
        preflop::lemma_longer(path, tok);
        if tok != "ai"@ && c.stored(child) {
            preflop::lemma_longest(text::texts(c.nodes.keys@), child);
            lemma_listed_below(c, child);
        }
        let all = preflop::closings_of(c, path, k);
        assert forall|i: int| 0 <= i < all.len() implies well_listed(c, #[trigger] all[i]) by {
            if i < before.len() {
                assert(all[i] == before[i]);
            } else if c.stored(child) {
                assert(all[i] == preflop::closings_below(c, child)[i - before.len()]);
            }
        }
    }
}

proof fn lemma_rows_of_reached(c: PreflopCharts, toks: Seq<Seq<char>>, seat: Seq<char>, n: int)
    requires
        follows(c, toks, n),
    ensures
        c.rows_along(toks, seat, n) is Some,
    decreases n,
{
    if n > 0 {
        lemma_rows_of_reached(c, toks, seat, n - 1);
        assert(c.stored(preflop::prefix(toks, n - 1)));
    }
}

/// Every line that is listed is the start of a two-player flop: there is nothing
/// to object to, and its pot is the one that is listed.
pub proof fn listed_lines_can_be_solved(c: PreflopCharts, l: ClosingLine)
    requires
        c.wf(),
        plain_tokens(c),
        preflop::two_player_closings(c).contains(l),
    ensures
        line_objection(c, l.line) is None,
        c.closing_pot(l.line) == Some(l.pot),
{
    let root = Seq::<char>::empty();
    let all = preflop::closings_below(c, root);
    let keep = |l: ClosingLine| c.flop_pair(l.line) is Some;
    preflop::lemma_longest_nonneg(text::texts(c.nodes.keys@));
    all.lemma_filter_contains_rev(keep, l);
    lemma_root_is_reached(c);
    let i = choose|i: int| 0 <= i < all.len() && all[i] == l;
    lemma_listed_below(c, root);
    assert(well_listed(c, all[i]));
    assert(keep(l)) by {
        let kept = all.filter(keep);
        let j = choose|j: int| 0 <= j < kept.len() && kept[j] == l;
        all.lemma_filter_pred(keep, j);
    }
    let toks = game::path_tokens(l.line);
    let (oop, ip) = c.flop_pair(l.line)->0;
    lemma_rows_of_reached(c, toks, oop, toks.len() as int);
    lemma_rows_of_reached(c, toks, ip, toks.len() as int);
}

proof fn lemma_listed_stays(c: PreflopCharts, path: Seq<char>, k: nat, n: nat, l: ClosingLine)
    requires
        c.stored(path),
        path.len() <= preflop::longest(text::texts(c.nodes.keys@)),
        k <= n,
        preflop::closings_of(c, path, k).contains(l),
    ensures
        preflop::closings_of(c, path, n).contains(l),
    decreases n,
{
    if k < n {
        lemma_listed_stays(c, path, k, (n - 1) as nat, l);
        let before = preflop::closings_of(c, path, (n - 1) as nat);
        let all = preflop::closings_of(c, path, n);
        let i = choose|i: int| 0 <= i < before.len() && before[i] == l;
        assert(all[i] == l);
    }
}

proof fn lemma_found_below(c: PreflopCharts, line: Seq<char>, i: int, l: ClosingLine)
    requires
        c.wf(),
        reached(c, line),
        !c.stored(line),
        !game::path_tokens(line).contains("ai"@),
        c.closing_pot(line) == Some(l.pot),
        l.line == line,
        0 <= i < game::path_tokens(line).len(),
    ensures
        preflop::closings_below(c, preflop::prefix(game::path_tokens(line), i)).contains(l),
    decreases game::path_tokens(line).len() - i,
{
    let toks = game::path_tokens(line);
    let path = preflop::prefix(toks, i);
    assert(c.stored(path));
    preflop::lemma_longest(text::texts(c.nodes.keys@), path);
    let k = choose|k: int|
        0 <= k < c.at(path).actions@.len() && preflop::token_of_label(
            (#[trigger] c.at(path).actions@[k])@,
        ) == toks[i];
    let tok = toks[i];
    let child = preflop::prefix(toks, i + 1);
    assert(toks.contains(tok));
    preflop::lemma_prefix_step(toks, i);
    assert(child == preflop::longer(path, tok)) by {
        if i == 0 {
            assert(path + tok =~= tok);
        } else {
            lemma_prefix_not_empty(line, i);
        }
    }
    let before = preflop::closings_of(c, path, k as nat);
    let all = preflop::closings_of(c, path, (k + 1) as nat);
    if i + 1 == toks.len() {
        assert(child == line);
        assert(all == before.push(ClosingLine { line: child, pot: l.pot }));
        assert(all.last() == l);
    } else {
        assert(c.stored(child));
        lemma_found_below(c, line, i + 1, l);
        preflop::lemma_longest(text::texts(c.nodes.keys@), child);
        let below = preflop::closings_below(c, child);
        assert(all == before + below);
        let j = choose|j: int| 0 <= j < below.len() && below[j] == l;
        assert(all[before.len() + j] == l);
    }
    lemma_listed_stays(c, path, (k + 1) as nat, c.at(path).actions@.len(), l);
    assert(preflop::closings_below(c, path) == preflop::closings_of(
        c,
        path,
        c.at(path).actions@.len(),
    ));
}

/// A token of a line is never empty.
proof fn lemma_prefix_not_empty(line: Seq<char>, i: int)
    requires
        0 < i <= game::path_tokens(line).len(),
    ensures
        preflop::prefix(game::path_tokens(line), i).len() > 0,
    decreases i,
{
    let toks = game::path_tokens(line);
    let keep = |t: Seq<char>| t.len() > 0;
    text::split(line, '-').lemma_filter_pred(keep, i - 1);
    preflop::lemma_prefix_step(toks, i - 1);
}

/// A line is listed where it is made of the actions on the way, goes through no
/// all-in, and is the start of a two-player flop.
pub proof fn lines_that_can_be_solved_are_listed(c: PreflopCharts, line: Seq<char>)
    requires
        c.wf(),
        reached(c, line),
        !game::path_tokens(line).contains("ai"@),
        line_objection(c, line) is None,
    ensures
        preflop::two_player_closings(c).contains(
            (ClosingLine { line, pot: c.closing_pot(line)->0 }),
        ),
{
    let l = ClosingLine { line, pot: c.closing_pot(line)->0 };
    let toks = game::path_tokens(line);
    let root = Seq::<char>::empty();
    let all = preflop::closings_below(c, root);
    let keep = |l: ClosingLine| c.flop_pair(l.line) is Some;
    assert(toks.take(0) =~= Seq::empty());
    assert(preflop::prefix(toks, 0) == root);
    if toks.len() == 0 {
        // The root closes nothing.
        reveal_strlit("x");
        reveal_strlit("c");
        assert(line == root);
        assert(preflop::without_folds(line) == line);
    } else {
        lemma_found_below(c, line, 0, l);
        assert(keep(l));
        let i = choose|i: int| 0 <= i < all.len() && all[i] == l;
        all.lemma_filter_contains(keep, i);
    }
}

} // verus!
