//! What leaves the program: stored tables for the browser, and preflop lines as
//! inputs of a solve.

use crate::bits::F32;
use crate::board;
use crate::board::Card;
use crate::iso;
use crate::order;
use crate::postflop_table::TableNode;
use crate::preflop;
use crate::solution;
use crate::solve;
use crate::table;
use crate::text;
use crate::tree::TreeNode;
use vstd::prelude::*;

verus! {

// ---------------------------------------------------------------- names

/// A letter of a flop's stem: rank letters become capitals.
pub open spec fn title_char(c: char) -> char {
    if c == 't' || c == 'j' || c == 'q' || c == 'k' || c == 'a' {
        text::upper(c)
    } else {
        c
    }
}

/// A flop's stem with its ranks in capitals: `"td9d6h"` becomes `"Td9d6h"`.
pub fn titlecase_flop(stem: &str) -> (r: String)
    ensures
        r@ == stem@.map_values(|c: char| title_char(c)),
{
    let cs = text::chars_of(stem);
    let mut out: Vec<char> = Vec::new();
    let mut i: usize = 0;
    while i < cs.len()
        invariant
            i <= cs@.len(),
            cs@ == stem@,
            out@.len() == i,
            forall|k: int| 0 <= k < i ==> #[trigger] out@[k] == title_char(stem@[k]),
        decreases cs@.len() - i,
    {
        let c: char = cs[i];
        if c == 't' || c == 'j' || c == 'q' || c == 'k' || c == 'a' {
            out.push(text::upper_char(c));
        } else {
            out.push(c);
        }
        i = i + 1;
    }
    assert(out@ =~= stem@.map_values(|c: char| title_char(c)));
    text::string_of(out.as_slice())
}

/// What stands between a beginning and an end of a name.
pub open spec fn between(name: Seq<char>, head: Seq<char>, tail: Seq<char>) -> Option<Seq<char>> {
    if text::begins(name, head) && text::ends(name.skip(head.len() as int), tail) {
        Some(name.subrange(head.len() as int, name.len() - tail.len()))
    } else {
        None
    }
}

/// What stands between the two in the first `n` names, in their order.
pub open spec fn all_between(
    names: Seq<Seq<char>>,
    head: Seq<char>,
    tail: Seq<char>,
    n: int,
) -> Seq<Seq<char>>
    decreases n,
{
    if n <= 0 {
        Seq::empty()
    } else {
        match between(names[n - 1], head, tail) {
            Some(s) => all_between(names, head, tail, n - 1).push(s),
            None => all_between(names, head, tail, n - 1),
        }
    }
}

fn parts_between(names: &Vec<String>, head: &str, tail: &str) -> (r: Vec<String>)
    ensures
        text::texts(r@) == all_between(
            text::texts(names@),
            head@,
            tail@,
            names@.len() as int,
        ),
{
    let h = text::chars_of(head);
    let t = text::chars_of(tail);
    let mut out: Vec<String> = Vec::new();
    let mut i: usize = 0;
    assert(text::texts(out@) =~= Seq::empty());
    while i < names.len()
        invariant
            i <= names@.len(),
            h@ == head@,
            t@ == tail@,
            text::texts(out@) == all_between(text::texts(names@), head@, tail@, i as int),
        decreases names@.len() - i,
    {
        assert(text::texts(names@)[i as int] == names@[i as int]@);
        let cs = text::chars_of(names[i].as_str());
        if text::has_prefix(cs.as_slice(), head) {
            let rest = text::part(cs.as_slice(), h.len(), cs.len());
            assert(rest@ =~= cs@.skip(head@.len() as int));
            if text::has_suffix(rest.as_slice(), tail) {
                let ghost before = out@;
                let inner = text::part(rest.as_slice(), 0, rest.len() - t.len());
                let s = text::string_of(inner.as_slice());
                assert(s@ =~= cs@.subrange(head@.len() as int, cs@.len() - tail@.len()));
                out.push(s);
                assert(text::texts(out@) =~= text::texts(before).push(s@));
            }
        }
        i = i + 1;
    }
    out
}

/// The hash of a directory's tables: that of its header file, the first in order
/// where there are several.
pub fn header_hash(names: &Vec<String>) -> (r: Option<String>)
    ensures
        ({
            let all = solution::sorted_texts(
                all_between(
                    text::texts(names@),
                    "header-"@,
                    ".json"@,
                    names@.len() as int,
                ),
            );
            match r {
                Some(h) => all.len() > 0 && h@ == all[0],
                None => all.len() == 0,
            }
        }),
{
    let found = parts_between(names, "header-", ".json");
    let sorted = solution::sort_texts(&found);
    assert(text::texts(sorted@).len() == sorted@.len());
    if sorted.len() > 0 {
        assert(text::texts(sorted@)[0] == sorted@[0]@);
        Some(text::copy_text(sorted[0].as_str()))
    } else {
        None
    }
}

/// The stems of the tables of a configuration among file names, in order.
pub fn flop_stems(names: &Vec<String>, hash: &str) -> (r: Vec<String>)
    ensures
        text::texts(r@) == solution::sorted_texts(
            all_between(
                text::texts(names@),
                ""@,
                "-"@ + hash@ + ".jsonl"@,
                names@.len() as int,
            ),
        ),
{
    let tail = text::join3("-", hash, ".jsonl");
    let found = parts_between(names, "", tail.as_str());
    solution::sort_texts(&found)
}

// ---------------------------------------------------------------- nodes

/// One hand of a node for the browser.
#[derive(Debug, Clone)]
pub struct WebCombo {
    pub hand: String,
    /// One frequency for each action.
    pub freqs: Vec<F32>,
    /// One EV for each action.
    pub evs: Vec<F32>,
}

/// A flop decision for the browser.
#[derive(Debug, Clone)]
pub struct WebNode {
    pub line: Vec<String>,
    pub hero_oop: bool,
    pub label: String,
    pub villain_action: String,
    pub pot_bb: F32,
    pub board: Vec<String>,
    pub actions: Vec<String>,
    pub strategies: Vec<WebCombo>,
}

/// Who acts after a line.
pub open spec fn acts_after(line: Seq<Seq<char>>, seat: Seq<char>) -> Seq<char> {
    if line.len() == 0 {
        seat + " to act (first decision)"@
    } else {
        "after "@ + text::joined(line, ", "@) + " — "@ + seat + " to act"@
    }
}

/// The seat that acts at a node.
pub open spec fn acting_seat(formation: Seq<char>, oop: bool) -> Seq<char> {
    match solution::formation_index(formation) {
        Some(i) => if oop {
            solution::formation_at(i).oop_seat@
        } else {
            solution::formation_at(i).ip_seat@
        },
        None => if oop {
            "OOP"@
        } else {
            "IP"@
        },
    }
}

/// Reshapes a stored node for the browser: rows by action become rows by hand.
pub fn web_node(formation_id: &str, stem: &str, tn: &TableNode) -> (r: WebNode)
    requires
        table::rows_reach(tn.node.freqs@, tn.node.hands@.len() as int),
        table::rows_reach(tn.node.evs@, tn.node.hands@.len() as int),
    ensures
        ({
            let n = tn.node;
            let oop = n.player@ == "oop"@;
            &&& text::texts(r.line@) == text::texts(n.line@)
            &&& r.hero_oop == oop
            &&& r.label@ == solve::formation_label(formation_id@) + ", "@ + stem@.map_values(
                |c: char| title_char(c),
            )
            &&& r.villain_action@ == acts_after(
                text::texts(n.line@),
                acting_seat(formation_id@, oop),
            )
            &&& r.pot_bb == n.pot_bb
            &&& text::texts(r.board@) == text::texts(n.board@)
            &&& text::texts(r.actions@) == text::texts(n.actions@)
            &&& r.strategies@.len() == n.hands@.len()
            &&& forall|j: int|
                0 <= j < n.hands@.len() ==> (#[trigger] r.strategies@[j]).hand@ == n.hands@[j]@
                    && r.strategies@[j].freqs@ == table::column(n.freqs@, j)
                    && r.strategies@[j].evs@ == table::column(n.evs@, j)
        }),
{
    let n = &tn.node;
    let hero_oop = text::same_text(n.player.as_str(), "oop");
    let (oop_seat, ip_seat) = solve::seats(formation_id);
    let seat = if hero_oop {
        oop_seat
    } else {
        ip_seat
    };
    let villain_action = if n.line.len() == 0 {
        text::join2(seat, " to act (first decision)")
    } else {
        let line = text::join_all(&n.line, ", ");
        let head = text::join3("after ", line.as_str(), " — ");
        text::join3(head.as_str(), seat, " to act")
    };
    let flop = titlecase_flop(stem);
    let mut strategies: Vec<WebCombo> = Vec::new();
    let mut j: usize = 0;
    while j < n.hands.len()
        invariant
            j <= n.hands@.len(),
            *n == tn.node,
            table::rows_reach(n.freqs@, n.hands@.len() as int),
            table::rows_reach(n.evs@, n.hands@.len() as int),
            strategies@.len() == j,
            forall|k: int|
                0 <= k < j ==> (#[trigger] strategies@[k]).hand@ == n.hands@[k]@
                    && strategies@[k].freqs@ == table::column(n.freqs@, k)
                    && strategies@[k].evs@ == table::column(n.evs@, k),
        decreases n.hands@.len() - j,
    {
        strategies.push(
            WebCombo {
                hand: text::copy_text(n.hands[j].as_str()),
                freqs: table::take_column(&n.freqs, j, n.hands.len()),
                evs: table::take_column(&n.evs, j, n.hands.len()),
            },
        );
        j = j + 1;
    }
    WebNode {
        line: text::copy_texts(&n.line),
        hero_oop,
        label: solve::spot_label(formation_id, flop.as_str()),
        villain_action,
        pot_bb: n.pot_bb,
        board: text::copy_texts(&n.board),
        actions: text::copy_texts(&n.actions),
        strategies,
    }
}

/// A decision on the flop.
pub open spec fn flop_decision(n: TreeNode) -> bool {
    n.board@.len() == 3 && (n.player@ == "oop"@ || n.player@ == "ip"@)
}

/// The places, of the first `n` nodes, of decisions on the flop.
pub open spec fn decisions_of(v: Seq<TableNode>, n: int) -> Seq<usize>
    decreases n,
{
    if n <= 0 {
        Seq::empty()
    } else if flop_decision(v[n - 1].node) {
        decisions_of(v, n - 1).push((n - 1) as usize)
    } else {
        decisions_of(v, n - 1)
    }
}

/// The sorting key of a line: short lines first, then by label.
pub open spec fn line_key(line: Seq<Seq<char>>) -> Seq<u32> {
    seq![(line.len() as int / 0x1_0000_0000) as u32, (line.len() as int % 0x1_0000_0000) as u32]
        + order::list_key(line)
}

/// The sorting keys of nodes.
pub open spec fn line_keys(v: Seq<TableNode>, places: Seq<usize>) -> Seq<Seq<u32>> {
    places.map_values(|i: usize| line_key(text::texts(v[i as int].node.line@)))
}

/// The places of a table's decisions on the flop, the root first, then by depth
/// and by label.
pub fn web_rows(nodes: &Vec<TableNode>) -> (r: Vec<usize>)
    ensures
        ({
            let d = decisions_of(nodes@, nodes@.len() as int);
            r@ == order::in_order(d, order::order_of(line_keys(nodes@, d)))
        }),
        forall|i: int|
            0 <= i < r@.len() ==> #[trigger] r@[i] < nodes@.len() && flop_decision(
                nodes@[r@[i] as int].node,
            ),
{
    let mut places: Vec<usize> = Vec::new();
    let mut keys: Vec<Vec<u32>> = Vec::new();
    let mut i: usize = 0;
    while i < nodes.len()
        invariant
            i <= nodes@.len(),
            places@ == decisions_of(nodes@, i as int),
            keys@.len() == places@.len(),
            forall|k: int|
                0 <= k < places@.len() ==> #[trigger] places@[k] < nodes@.len() && flop_decision(
                    nodes@[places@[k] as int].node,
                ),
            forall|k: int|
                0 <= k < keys@.len() ==> (#[trigger] keys@[k])@ == line_key(
                    text::texts(nodes@[places@[k] as int].node.line@),
                ),
        decreases nodes@.len() - i,
    {
        let n = &nodes[i].node;
        if n.board.len() == 3 && (text::same_text(n.player.as_str(), "oop") || text::same_text(
            n.player.as_str(),
            "ip",
        )) {
            let len: u64 = n.line.len() as u64;
            let hi: u32 = (len / 0x1_0000_0000) as u32;
            let lo: u32 = (len % 0x1_0000_0000) as u32;
            let mut key = vec![hi, lo];
            let mut rest = order::key_of_list(&n.line);
            key.append(&mut rest);
            assert(text::texts(n.line@).len() == n.line@.len());
            assert(key@ =~= line_key(text::texts(n.line@)));
            places.push(i);
            keys.push(key);
        }
        i = i + 1;
    }
    let idx = order::sorted_positions(&keys);
    let ghost lk = line_keys(nodes@, places@);
    proof {
        assert(order::keys_of(keys@) =~= lk);
        order::lemma_order_of(lk, idx@);
    }
    let mut out: Vec<usize> = Vec::new();
    let mut k: usize = 0;
    while k < idx.len()
        invariant
            k <= idx@.len(),
            idx@.len() == places@.len(),
            forall|j: int| 0 <= j < idx@.len() ==> #[trigger] idx@[j] < places@.len(),
            forall|j: int|
                0 <= j < places@.len() ==> #[trigger] places@[j] < nodes@.len() && flop_decision(
                    nodes@[places@[j] as int].node,
                ),
            out@.len() == k,
            forall|j: int| 0 <= j < k ==> #[trigger] out@[j] == places@[idx@[j] as int],
        decreases idx@.len() - k,
    {
        out.push(places[idx[k]]);
        k = k + 1;
    }
    assert(out@ =~= order::in_order(places@, idx@));
    out
}

// ---------------------------------------------------------------- lines

/// The side of the hero at the flop.
#[derive(Debug, Clone, Copy, PartialEq, Eq, Structural)]
pub enum HeroSide {
    Oop,
    Ip,
    /// The hero's seat does not see the flop.
    NotLive,
}

/// The side of a seat, named in either case.
pub fn hero_side(hero: &str, oop_seat: &str, ip_seat: &str) -> (r: HeroSide)
    ensures
        r == if text::lowered(hero@) == text::lowered(oop_seat@) {
            HeroSide::Oop
        } else if text::lowered(hero@) == text::lowered(ip_seat@) {
            HeroSide::Ip
        } else {
            HeroSide::NotLive
        },
{
    if text::same_lowered(hero, oop_seat) {
        HeroSide::Oop
    } else if text::same_lowered(hero, ip_seat) {
        HeroSide::Ip
    } else {
        HeroSide::NotLive
    }
}

/// What is wrong with the hero's hand.
#[derive(Debug, Clone, Copy, PartialEq, Eq, Structural)]
pub enum HandError {
    /// It is not two different cards.
    NotTwoCards,
    /// It holds a card of the flop.
    OnTheFlop,
}

/// The cards that a text names, where it names any.
pub open spec fn named_cards(s: Seq<char>) -> Option<Seq<Card>> {
    if text::unspaced(s).len() > 0 {
        board::cards_of(text::unspaced(s))
    } else {
        None
    }
}

/// The class of the hero's hand, which must be two different cards that are not
/// on the flop.
pub fn hero_class(hand: &str, flop: Option<&str>) -> (r: Result<usize, HandError>)
    ensures
        ({
            let cards = named_cards(hand@);
            let on_flop = match flop {
                Some(f) => named_cards(f@),
                None => None,
            };
            if cards is None || (cards->0).len() != 2 || (cards->0)[0] == (cards->0)[1] {
                r matches Err(e) && e == HandError::NotTwoCards
            } else if on_flop is Some && ((on_flop->0).contains((cards->0)[0]) || (
            on_flop->0).contains((cards->0)[1])) {
                r matches Err(e) && e == HandError::OnTheFlop
            } else {
                r matches Ok(c) && c == preflop::class_of((cards->0)[0], (cards->0)[1]) && c < 169
            }
        }),
{
    match board::parse_cards(hand) {
        Some(v) => {
            if v.len() != 2 || v[0] == v[1] {
                return Err(HandError::NotTwoCards);
            }
            if let Some(f) = flop {
                if let Some(b) = board::parse_cards(f) {
                    if board::holds(b.as_slice(), v[0]) || board::holds(b.as_slice(), v[1]) {
                        return Err(HandError::OnTheFlop);
                    }
                }
            }
            let h: [Card; 2] = [v[0], v[1]];
            assert(v@[0].wf() && v@[1].wf());
            assert(h@ =~= v@);
            Ok(preflop::class_index(h))
        },
        None => Err(HandError::NotTwoCards),
    }
}

/// The arguments of a solve, with its numbers given as texts.
pub fn solve_arguments(
    oop: &str,
    ip: &str,
    pot: &str,
    stack: &str,
    rake_rate: &str,
    rake_cap: &str,
) -> (r: String)
    ensures
        r@ == "--oop \""@ + oop@ + "\" --ip \""@ + ip@ + "\" --pot "@ + pot@ + " --stack "@
            + stack@ + " --rake-rate "@ + rake_rate@ + " --rake-cap "@ + rake_cap@,
{
    let a = text::join3("--oop \"", oop, "\" --ip \"");
    let b = text::join3(a.as_str(), ip, "\" --pot ");
    let c = text::join3(b.as_str(), pot, " --stack ");
    let d = text::join3(c.as_str(), stack, " --rake-rate ");
    let e = text::join3(d.as_str(), rake_rate, " --rake-cap ");
    text::join2(e.as_str(), rake_cap)
}

/// What was put between a beginning and an end is read back.
pub proof fn names_read_back(head: Seq<char>, x: Seq<char>, tail: Seq<char>)
    ensures
        between(head + x + tail, head, tail) == Some(x),
{
    let name = head + x + tail;
    assert(name.take(head.len() as int) =~= head);
    let rest = name.skip(head.len() as int);
    assert(rest.skip(rest.len() - tail.len()) =~= tail);
    assert(name.subrange(head.len() as int, name.len() - tail.len()) =~= x);
}

/// Every name with that beginning and end is listed, in order.
pub proof fn every_fitting_name_is_listed(
    names: Seq<Seq<char>>,
    head: Seq<char>,
    tail: Seq<char>,
    n: int,
)
    requires
        0 <= n <= names.len(),
    ensures
        all_between(names, head, tail, n) == names.take(n).filter(
            |s: Seq<char>| between(s, head, tail) is Some,
        ).map_values(|s: Seq<char>| between(s, head, tail)->0),
    decreases n,
{
    reveal(Seq::filter);
    let fits = |s: Seq<char>| between(s, head, tail) is Some;
    let part = |s: Seq<char>| between(s, head, tail)->0;
    if n > 0 {
        every_fitting_name_is_listed(names, head, tail, n - 1);
        assert(names.take(n).drop_last() =~= names.take(n - 1));
        assert(names.take(n).last() == names[n - 1]);
        let before = names.take(n - 1).filter(fits);
        if fits(names[n - 1]) {
            assert(before.push(names[n - 1]).map_values(part) =~= before.map_values(part).push(
                part(names[n - 1]),
            ));
        }
    } else {
        assert(names.take(n).filter(fits).map_values(part) =~= Seq::empty());
    }
}

/// A card in lower case gets back the capital of its rank, and keeps its suit.
pub proof fn stems_get_their_capitals_back(id: int)
    requires
        0 <= id < 52,
    ensures
        text::lowered(iso::card_text(id)).map_values(|c: char| title_char(c)) == iso::card_text(id),
{
    let t = iso::card_text(id);
    let r = id / 4;
    assert(title_char(text::lower(iso::rank_char(r))) == iso::rank_char(r));
    assert(title_char(text::lower(iso::suit_char(id % 4))) == iso::suit_char(id % 4));
    assert(text::lowered(t).map_values(|c: char| title_char(c)) =~= t);
}

/// Every decision on the flop is exported, in order, and nothing else.
pub proof fn every_flop_decision_is_exported(v: Seq<TableNode>, n: int)
    requires
        0 <= n <= v.len() <= usize::MAX,
    ensures
        decisions_of(v, n) == Seq::new(n as nat, |i: int| i as usize).filter(
            |i: usize|
                v[i as int].node.board@.len() == 3 && (v[i as int].node.player@ == "oop"@
                    || v[i as int].node.player@ == "ip"@),
        ),
    decreases n,
{
    reveal(Seq::filter);
    let all = Seq::new(n as nat, |i: int| i as usize);
    if n > 0 {
        every_flop_decision_is_exported(v, n - 1);
        assert(all.drop_last() =~= Seq::new((n - 1) as nat, |i: int| i as usize));
        assert(all.last() == (n - 1) as usize);
    } else {
        assert(all =~= Seq::empty());
    }
}

/// Shorter lines come before longer ones.
pub proof fn shorter_lines_come_first(a: Seq<Seq<char>>, b: Seq<Seq<char>>)
    requires
        a.len() < b.len() <= 0xffff_ffff_ffff,
    ensures
        order::lex_le(line_key(a), line_key(b)),
        !order::lex_le(line_key(b), line_key(a)),
{
    let (x, y) = (line_key(a), line_key(b));
    let (p, q) = (a.len() as int / 0x1_0000_0000, b.len() as int / 0x1_0000_0000);
    assert(x[0] == p && y[0] == q);
    assert(x[1] == a.len() as int % 0x1_0000_0000 && y[1] == b.len() as int % 0x1_0000_0000);
    if p < q {
        order::the_first_difference_decides(x, y, 0);
        order::the_first_difference_decides(y, x, 0);
    } else {
        assert(x[1] < y[1]);
        order::the_first_difference_decides(x, y, 1);
        order::the_first_difference_decides(y, x, 1);
    }
}

/// The seat that acts at a node of a formation is that of the player to act.
pub proof fn nodes_name_the_seat_to_act(i: int)
    requires
        0 <= i < 5,
    ensures
        acting_seat(solution::formation_at(i).id@, true) == solution::formation_at(i).oop_seat@,
        acting_seat(solution::formation_at(i).id@, false) == solution::formation_at(i).ip_seat@,
{
    solution::formations_are_found_by_id(i);
}

} // verus!
