//! Nodes of a solved game tree, and a walk over a table of stored nodes.

use crate::bits::F32;
use crate::iso;
use crate::iso::SuitPerm;
use crate::postflop_table::PostflopTable;
use crate::text;
use vstd::prelude::*;

verus! {

/// Version of the protocol in which a solve is asked for.
pub const PROTOCOL_V: u32 = 2;

/// One node of the solved tree.
///
/// `freqs` and `evs` are `[action][hand]`, parallel to `actions` and `hands`.
/// All strategy fields are empty at chance and terminal nodes, and `dealable` is
/// empty except at chance nodes.
#[derive(Debug, Clone)]
pub struct TreeNode {
    /// `"oop"`, `"ip"`, `"chance"`, or `"terminal"`.
    pub player: String,
    /// Board so far, e.g. `["Td","9d","6h","2c"]`.
    pub board: Vec<String>,
    pub pot_bb: F32,
    /// Action labels from the root: `["Check","Bet 2.0bb","deal 2c"]`.
    pub line: Vec<String>,
    /// The acting player's action labels.
    pub actions: Vec<String>,
    /// Cards that can be dealt.
    pub dealable: Vec<String>,
    pub hands: Vec<String>,
    pub freqs: Vec<Vec<F32>>,
    pub evs: Vec<Vec<F32>>,
    /// Reach weight per hand, parallel to `hands`.
    pub weights: Vec<F32>,
    /// Equity per hand, parallel to `hands`.
    pub equity: Vec<F32>,
}

/// One dealable card: the next player's mix and EV after it falls.
#[derive(Debug, Clone)]
pub struct RunoutSummary {
    pub card: String,
    pub actions: Vec<String>,
    pub freqs: Vec<F32>,
    pub ev_bb: F32,
}

/// The same rows.
pub open spec fn same_rows(a: Seq<Vec<F32>>, b: Seq<Vec<F32>>) -> bool {
    &&& a.len() == b.len()
    &&& forall|i: int| 0 <= i < a.len() ==> (#[trigger] a[i])@ == b[i]@
}

/// The two nodes hold the same.
pub open spec fn same_node(a: TreeNode, b: TreeNode) -> bool {
    &&& a.player@ == b.player@
    &&& text::texts(a.board@) == text::texts(b.board@)
    &&& a.pot_bb == b.pot_bb
    &&& text::texts(a.line@) == text::texts(b.line@)
    &&& text::texts(a.actions@) == text::texts(b.actions@)
    &&& text::texts(a.dealable@) == text::texts(b.dealable@)
    &&& text::texts(a.hands@) == text::texts(b.hands@)
    &&& same_rows(a.freqs@, b.freqs@)
    &&& same_rows(a.evs@, b.evs@)
    &&& a.weights@ == b.weights@
    &&& a.equity@ == b.equity@
}

/// A copy of a row.
pub fn copy_row(row: &Vec<F32>) -> (r: Vec<F32>)
    ensures
        r@ == row@,
{
    let r = row.clone();
    assert(r@ =~= row@);
    r
}

/// A copy of rows.
pub fn copy_rows(rows: &Vec<Vec<F32>>) -> (r: Vec<Vec<F32>>)
    ensures
        same_rows(rows@, r@),
{
    let mut out: Vec<Vec<F32>> = Vec::new();
    let mut i: usize = 0;
    while i < rows.len()
        invariant
            i <= rows@.len(),
            out@.len() == i,
            forall|k: int| 0 <= k < i ==> (#[trigger] rows@[k])@ == out@[k]@,
        decreases rows@.len() - i,
    {
        out.push(copy_row(&rows[i]));
        i = i + 1;
    }
    out
}

impl Default for TreeNode {
    /// A node of nothing: all texts and lists empty, the pot zero.
    fn default() -> (r: Self)
        ensures
            r.player@.len() == 0,
            r.pot_bb.bits == 0,
            r.board@.len() == 0,
            r.line@.len() == 0,
            r.actions@.len() == 0,
            r.dealable@.len() == 0,
            r.hands@.len() == 0,
            r.freqs@.len() == 0,
            r.evs@.len() == 0,
            r.weights@.len() == 0,
            r.equity@.len() == 0,
    {
        TreeNode {
            player: String::new(),
            board: Vec::new(),
            pot_bb: F32 { bits: 0 },
            line: Vec::new(),
            actions: Vec::new(),
            dealable: Vec::new(),
            hands: Vec::new(),
            freqs: Vec::new(),
            evs: Vec::new(),
            weights: Vec::new(),
            equity: Vec::new(),
        }
    }
}

impl TreeNode {
    /// A copy of the node.
    pub fn copy(&self) -> (r: TreeNode)
        ensures
            same_node(*self, r),
    {
        TreeNode {
            player: self.player.clone(),
            board: text::copy_texts(&self.board),
            pot_bb: self.pot_bb,
            line: text::copy_texts(&self.line),
            actions: text::copy_texts(&self.actions),
            dealable: text::copy_texts(&self.dealable),
            hands: text::copy_texts(&self.hands),
            freqs: copy_rows(&self.freqs),
            evs: copy_rows(&self.evs),
            weights: copy_row(&self.weights),
            equity: copy_row(&self.equity),
        }
    }
}

// ---------------------------------------------------------------- walking a table

/// What a live session is to do.
#[derive(Debug)]
pub enum LiveOp {
    Root,
    Node,
    Play(usize),
    Deal(String),
    Back,
}

/// What a step of the walk comes to.
#[derive(Debug)]
pub enum Step {
    /// The node is in the table.
    Node(TreeNode),
    /// The walk is live: the session answers.
    Live(LiveOp),
    /// The node is not in the table: start a session, replay this line, and let
    /// it answer from there.
    GoLive(Vec<String>),
    /// The current node is not in the table.
    Missing,
    /// There is no such action at the current node.
    NoAction(usize),
}

/// A walk over a table of stored nodes, up to the first node that is not stored;
/// from there on a live session answers.
pub struct TableWalk {
    pub table: PostflopTable,
    /// The line to the current node, in the suits of the table.
    pub line: Vec<String>,
    /// The relabeling from the user's suits to those of the table.
    pub to_stored: SuitPerm,
    /// Whether a session was started.
    pub live: bool,
}

/// The relabeling changes nothing.
pub open spec fn keeps_suits(p: SuitPerm) -> bool {
    forall|s: int| 0 <= s < 4 ==> #[trigger] p.image(s) == s
}

/// `r` is the stored node `n` as the user sees it.
pub open spec fn shown(n: TreeNode, p: SuitPerm, r: TreeNode) -> bool {
    if keeps_suits(p) {
        same_node(n, r)
    } else {
        iso::moved_back(n, p, r)
    }
}

/// The line as the user sees it.
pub open spec fn user_line(line: Seq<Seq<char>>, p: SuitPerm) -> Seq<Seq<char>> {
    if keeps_suits(p) {
        line
    } else {
        line.map_values(|s: Seq<char>| iso::back_label(p, s))
    }
}

/// The label of dealing `card`, in the suits of the table; what is no card stays
/// as it is.
pub open spec fn deal_label(card: Seq<char>, p: SuitPerm) -> Seq<char> {
    match iso::id_of(card) {
        Some(id) => if keeps_suits(p) {
            "deal "@ + card
        } else {
            "deal "@ + iso::card_text(p.map_id(id))
        },
        None => "deal "@ + card,
    }
}

proof fn lemma_moved_of_copy(n: TreeNode, m: TreeNode, p: SuitPerm, r: TreeNode)
    requires
        same_node(n, m),
        iso::moved_back(m, p, r),
    ensures
        iso::moved_back(n, p, r),
{
    let idx = iso::hand_order(iso::back_hands(p, text::texts(n.hands@)));
    assert forall|a: int| 0 <= a < n.freqs@.len() implies (#[trigger] r.freqs@[a])@
        == iso::reordered(n.freqs@[a]@, idx) by {
        assert(n.freqs@[a]@ == m.freqs@[a]@);
    }
    assert forall|a: int| 0 <= a < n.evs@.len() implies (#[trigger] r.evs@[a])@ == iso::reordered(
        n.evs@[a]@,
        idx,
    ) by {
        assert(n.evs@[a]@ == m.evs@[a]@);
    }
}

impl TableWalk {
    /// The table and the relabeling are sound.
    pub open spec fn wf(&self) -> bool {
        self.table.wf() && self.to_stored.wf()
    }

    /// Nothing but the line and the session may differ.
    pub open spec fn same_table(&self, o: &TableWalk) -> bool {
        self.table == o.table && self.to_stored == o.to_stored
    }

    /// `r` answers with the node at `line`, or says that it is not stored.
    pub open spec fn answers(&self, line: Seq<Seq<char>>, r: Step) -> bool {
        match r {
            Step::Node(n) => self.table.stored(line) && shown(
                self.table.at(line).node,
                self.to_stored,
                n,
            ),
            Step::Missing => !self.table.stored(line),
            _ => false,
        }
    }

    /// `r` answers with the node at `line`, or has a session started there.
    pub open spec fn answers_or_starts(&self, line: Seq<Seq<char>>, r: Step) -> bool {
        match r {
            Step::Node(n) => self.table.stored(line) && shown(
                self.table.at(line).node,
                self.to_stored,
                n,
            ),
            Step::GoLive(l) => !self.table.stored(line) && text::texts(l@) == user_line(
                line,
                self.to_stored,
            ),
            _ => false,
        }
    }

    /// Taking an action leads to `after` and gives `r`: the label of the action is
    /// added to the line, unless a session answers or there is no such action.
    pub open spec fn played(&self, action: usize, after: &TableWalk, r: Step) -> bool {
        let line = text::texts(self.line@);
        let labels = self.table.at(line).node.actions@;
        &&& after.same_table(self)
        &&& after.live == self.live
        &&& if self.live {
            r matches Step::Live(LiveOp::Play(a)) && a == action && after.line == self.line
        } else if !self.table.stored(line) {
            r is Missing && after.line == self.line
        } else if action >= labels.len() {
            r == Step::NoAction(action) && after.line == self.line
        } else {
            let next = line.push(labels[action as int]@);
            &&& text::texts(after.line@) == next
            &&& after.answers_or_starts(next, r)
        }
    }

    /// Dealing a card leads to `after` and gives `r`.
    pub open spec fn dealt(&self, card: Seq<char>, after: &TableWalk, r: Step) -> bool {
        let next = text::texts(self.line@).push(deal_label(card, self.to_stored));
        &&& after.same_table(self)
        &&& after.live == self.live
        &&& if self.live {
            r matches Step::Live(LiveOp::Deal(c)) && c@ == card && after.line == self.line
        } else {
            &&& text::texts(after.line@) == next
            &&& after.answers_or_starts(next, r)
        }
    }

    /// A step up leads to `after` and gives `r`; at the root nothing moves.
    pub open spec fn stepped_back(&self, after: &TableWalk, r: Step) -> bool {
        let line = text::texts(self.line@);
        let up = if line.len() > 0 {
            line.drop_last()
        } else {
            line
        };
        &&& after.same_table(self)
        &&& after.live == self.live
        &&& if self.live {
            r is Live && r->Live_0 is Back && after.line == self.line
        } else {
            &&& text::texts(after.line@) == up
            &&& after.answers(up, r)
        }
    }

    /// A walk at the root of the table, and the root node; `None` where the
    /// table has no root.
    pub fn new(table: PostflopTable, to_stored: SuitPerm) -> (r: Option<(TableWalk, TreeNode)>)
        requires
            table.wf(),
            to_stored.wf(),
        ensures
            r is Some == table.stored(Seq::empty()),
            r matches Some((w, n)) ==> w.wf() && w.table == table && w.to_stored == to_stored
                && w.line@.len() == 0 && !w.live && shown(
                table.at(Seq::empty()).node,
                to_stored,
                n,
            ),
    {
        let w = TableWalk { table, line: Vec::new(), to_stored, live: false };
        assert(text::texts(w.line@) =~= Seq::empty());
        match w.lookup() {
            Step::Node(n) => Some((w, n)),
            _ => None,
        }
    }

    /// The stored node at the current line.
    fn lookup(&self) -> (r: Step)
        requires
            self.wf(),
        ensures
            self.answers(text::texts(self.line@), r),
    {
        match self.table.node(&self.line) {
            Some(t) => {
                let c = t.node.copy();
                if self.to_stored.is_identity() {
                    Step::Node(c)
                } else {
                    let m = iso::translate_node(c, &self.to_stored);
                    proof {
                        lemma_moved_of_copy(t.node, c, self.to_stored, m);
                    }
                    Step::Node(m)
                }
            },
            None => Step::Missing,
        }
    }

    /// The current line as the user sees it.
    fn line_for_user(&self) -> (r: Vec<String>)
        requires
            self.wf(),
        ensures
            text::texts(r@) == user_line(text::texts(self.line@), self.to_stored),
    {
        if self.to_stored.is_identity() {
            text::copy_texts(&self.line)
        } else {
            iso::line_back(&self.line, &self.to_stored)
        }
    }

    /// Answers from the table, or has a session started.
    fn lookup_or_start(&self) -> (r: Step)
        requires
            self.wf(),
        ensures
            self.answers_or_starts(text::texts(self.line@), r),
    {
        match self.lookup() {
            Step::Node(n) => Step::Node(n),
            _ => Step::GoLive(self.line_for_user()),
        }
    }

    /// Back to the root.
    pub fn root(&mut self) -> (r: Step)
        requires
            old(self).wf(),
        ensures
            final(self).wf(),
            final(self).same_table(old(self)),
            final(self).live == old(self).live,
            final(self).line@.len() == 0,
            old(self).live ==> r is Live && r->Live_0 is Root,
            !old(self).live ==> final(self).answers(Seq::empty(), r),
    {
        self.line.clear();
        if self.live {
            return Step::Live(LiveOp::Root);
        }
        assert(text::texts(self.line@) =~= Seq::empty());
        self.lookup()
    }

    /// The current node.
    pub fn node(&self) -> (r: Step)
        requires
            self.wf(),
        ensures
            self.live ==> r is Live && r->Live_0 is Node,
            !self.live ==> self.answers(text::texts(self.line@), r),
    {
        if self.live {
            return Step::Live(LiveOp::Node);
        }
        self.lookup()
    }

    /// Takes an action of the current node.
    pub fn play(&mut self, action: usize) -> (r: Step)
        requires
            old(self).wf(),
        ensures
            final(self).wf(),
            old(self).played(action, final(self), r),
    {
        if self.live {
            return Step::Live(LiveOp::Play(action));
        }
        let label = match self.table.node(&self.line) {
            Some(t) => {
                if action >= t.node.actions.len() {
                    return Step::NoAction(action);
                }
                t.node.actions[action].clone()
            },
            None => {
                return Step::Missing;
            },
        };
        let ghost before = self.line@;
        self.line.push(label);
        assert(text::texts(self.line@) =~= text::texts(before).push(label@));
        self.lookup_or_start()
    }

    /// Deals a card.
    pub fn deal(&mut self, card: &str) -> (r: Step)
        requires
            old(self).wf(),
        ensures
            final(self).wf(),
            old(self).dealt(card@, final(self), r),
    {
        if self.live {
            return Step::Live(LiveOp::Deal(text::copy_text(card)));
        }
        let label = if self.to_stored.is_identity() {
            text::join2("deal ", card)
        } else {
            match self.to_stored.card(card) {
                Some(c) => text::join2("deal ", c.as_str()),
                None => text::join2("deal ", card),
            }
        };
        let ghost before = self.line@;
        self.line.push(label);
        assert(text::texts(self.line@) =~= text::texts(before).push(label@));
        self.lookup_or_start()
    }

    /// One step up; at the root nothing moves.
    pub fn back(&mut self) -> (r: Step)
        requires
            old(self).wf(),
        ensures
            final(self).wf(),
            old(self).stepped_back(final(self), r),
    {
        if self.live {
            return Step::Live(LiveOp::Back);
        }
        let ghost before = self.line@;
        let _dropped = self.line.pop();
        proof {
            if before.len() > 0 {
                assert(text::texts(self.line@) =~= text::texts(before).drop_last());
            } else {
                assert(text::texts(self.line@) =~= text::texts(before));
            }
        }
        self.lookup()
    }

    /// The line to replay before a session can stand in for the table: the whole
    /// current line. `None` where one was started already.
    pub fn go_live(&self) -> (r: Option<Vec<String>>)
        requires
            self.wf(),
        ensures
            self.live ==> r is None,
            !self.live ==> r is Some && text::texts((r->0)@) == user_line(
                text::texts(self.line@),
                self.to_stored,
            ),
    {
        if self.live {
            None
        } else {
            Some(self.line_for_user())
        }
    }

    /// A session was started: from now on it answers.
    pub fn started(&mut self)
        requires
            old(self).wf(),
        ensures
            final(self).wf(),
            final(self).same_table(old(self)),
            final(self).line == old(self).line,
            final(self).live,
    {
        self.live = true;
    }
}

/// A step down the table, by an action or a card, is undone by a step up: the walk
/// is where it was, and is answered with the node that it was at.
pub proof fn back_undoes_a_step(a: TableWalk, b: TableWalk, c: TableWalk, r: Step, back: Step)
    requires
        !a.live,
        a.table.stored(text::texts(a.line@)),
        (exists|action: usize|
            action < a.table.at(text::texts(a.line@)).node.actions@.len() && #[trigger] a.played(
                action,
                &b,
                r,
            )) || (exists|card: Seq<char>| #[trigger] a.dealt(card, &b, r)),
        b.stepped_back(&c, back),
    ensures
        c.same_table(&a),
        !c.live,
        text::texts(c.line@) == text::texts(a.line@),
        back matches Step::Node(n) && shown(
            a.table.at(text::texts(a.line@)).node,
            a.to_stored,
            n,
        ),
{
    let line = text::texts(a.line@);
    let deeper = text::texts(b.line@);
    assert(deeper.len() == line.len() + 1);
    assert(deeper.drop_last() =~= line);
}

proof fn lemma_image_back(p: SuitPerm, id: int)
    requires
        p.wf(),
        0 <= id < 52,
    ensures
        0 <= p.map_id(id) < 52,
        p.unmap_id(p.map_id(id)) == id,
{
    iso::card_there_and_back(p, id);
    assert(p.0[0] < 4 && p.0[1] < 4 && p.0[2] < 4 && p.0[3] < 4);
    assert(p.0[0] != p.0[1] && p.0[0] != p.0[2] && p.0[0] != p.0[3]);
    assert(p.0[1] != p.0[2] && p.0[1] != p.0[3] && p.0[2] != p.0[3]);
    let s = id % 4;
    assert(p.map_id(id) / 4 == id / 4);
    assert(p.map_id(id) % 4 == p.image(s));
    assert(p.preimage(p.image(s)) == s);
}

/// The line that the user is shown ends in the card that they dealt, whatever the
/// suits of the table.
pub proof fn the_dealt_card_is_shown(line: Seq<Seq<char>>, card: Seq<char>, p: SuitPerm)
    requires
        p.wf(),
        iso::shown_card(card),
    ensures
        user_line(line.push(deal_label(card, p)), p) == user_line(line, p).push("deal "@ + card),
{
    let label = deal_label(card, p);
    if !keeps_suits(p) {
        let id = iso::id_of(card)->0;
        let there = p.map_id(id);
        reveal_strlit("deal ");
        lemma_image_back(p, id);
        iso::card_round_trip(there);
        assert(label.take(5) =~= "deal "@);
        assert(label.skip(5) =~= iso::card_text(there));
        assert(iso::back_label(p, label) == "deal "@ + card);
    }
    assert(user_line(line.push(label), p) =~= user_line(line, p).push("deal "@ + card));
}

/// What one label of a replayed line asks of a session.
#[derive(Debug)]
pub enum Replay {
    Deal(String),
    Play(usize),
}

/// `i` is the first place of `s`.
pub open spec fn first_place(v: Seq<Seq<char>>, s: Seq<char>, i: int) -> bool {
    0 <= i < v.len() && v[i] == s && forall|k: int| 0 <= k < i ==> v[k] != s
}

/// The first place of a text in a list.
pub fn position_of(v: &Vec<String>, s: &str) -> (r: Option<usize>)
    ensures
        r is None ==> !text::texts(v@).contains(s@),
        r matches Some(i) ==> first_place(text::texts(v@), s@, i as int),
{
    let mut i: usize = 0;
    while i < v.len()
        invariant
            i <= v@.len(),
            forall|k: int| 0 <= k < i ==> (#[trigger] v@[k])@ != s@,
        decreases v@.len() - i,
    {
        if text::same_text(v[i].as_str(), s) {
            proof {
                assert(text::texts(v@)[i as int] == s@);
                assert forall|k: int| 0 <= k < i implies text::texts(v@)[k] != s@ by {
                    assert(v@[k]@ != s@);
                }
            }
            return Some(i);
        }
        i = i + 1;
    }
    proof {
        if text::texts(v@).contains(s@) {
            let k = choose|k: int| 0 <= k < text::texts(v@).len() && text::texts(v@)[k] == s@;
            assert(v@[k]@ == s@);
        }
    }
    None
}

/// What to do with a label at a node with these actions: deal the card of a
/// `deal` label, else take the action with that label. `None` where there is no
/// such action.
pub fn replay_step(label: &str, actions: &Vec<String>) -> (r: Option<Replay>)
    ensures
        text::begins(label@, "deal "@) ==> (r matches Some(Replay::Deal(c)) && c@ == label@.skip(
            5,
        )),
        !text::begins(label@, "deal "@) ==> match r {
            Some(Replay::Play(i)) => first_place(text::texts(actions@), label@, i as int),
            Some(Replay::Deal(_)) => false,
            None => !text::texts(actions@).contains(label@),
        },
{
    let cs = text::chars_of(label);
    if text::has_prefix(cs.as_slice(), "deal ") {
        proof {
            reveal_strlit("deal ");
        }
        let c = text::part(cs.as_slice(), 5, cs.len());
        assert(c@ =~= label@.skip(5));
        return Some(Replay::Deal(text::string_of(c.as_slice())));
    }
    match position_of(actions, label) {
        Some(i) => Some(Replay::Play(i)),
        None => None,
    }
}

} // verus!
