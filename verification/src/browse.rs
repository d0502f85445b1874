//! The browsers: what a key does to what is shown, and the texts around it.

use crate::bits::F32;
use crate::board::Card;
use crate::eval::Bucket;
use crate::report;
use crate::solution;
use crate::table;
use crate::table::CellLocks;
use crate::text;
use crate::tree;
use crate::tree::TreeNode;
use vstd::prelude::*;

verus! {

// ---------------------------------------------------------------- keys

/// A key that was pressed.
#[derive(Debug, Clone, Copy, PartialEq, Eq, Structural)]
pub enum Key {
    Char(char),
    Up,
    Down,
    Left,
    Right,
    Enter,
    Esc,
    Tab,
    BackTab,
    Other,
}

/// One step of a cursor.
#[derive(Debug, Clone, Copy, PartialEq, Eq, Structural)]
pub enum Dir {
    Up,
    Down,
    Left,
    Right,
}

/// The step that a key asks for: an arrow, or one of `h`, `j`, `k` and `l`.
pub open spec fn dir_of(key: Key) -> Option<Dir> {
    match key {
        Key::Up => Some(Dir::Up),
        Key::Down => Some(Dir::Down),
        Key::Left => Some(Dir::Left),
        Key::Right => Some(Dir::Right),
        Key::Char(c) => if c == 'k' {
            Some(Dir::Up)
        } else if c == 'j' {
            Some(Dir::Down)
        } else if c == 'h' {
            Some(Dir::Left)
        } else if c == 'l' {
            Some(Dir::Right)
        } else {
            None
        },
        _ => None,
    }
}

fn dir_for(key: Key) -> (r: Option<Dir>)
    ensures
        r == dir_of(key),
{
    match key {
        Key::Up => Some(Dir::Up),
        Key::Down => Some(Dir::Down),
        Key::Left => Some(Dir::Left),
        Key::Right => Some(Dir::Right),
        Key::Char(c) => {
            if c == 'k' {
                Some(Dir::Up)
            } else if c == 'j' {
                Some(Dir::Down)
            } else if c == 'h' {
                Some(Dir::Left)
            } else if c == 'l' {
                Some(Dir::Right)
            } else {
                None
            }
        },
        _ => None,
    }
}

/// Where a step leads, within `last` on either side.
pub open spec fn step_to(at: (int, int), last: (int, int), d: Dir) -> (int, int) {
    match d {
        Dir::Up => (if at.0 > 0 {
            at.0 - 1
        } else {
            0
        }, at.1),
        Dir::Down => (if at.0 < last.0 {
            at.0 + 1
        } else {
            last.0
        }, at.1),
        Dir::Left => (at.0, if at.1 > 0 {
            at.1 - 1
        } else {
            0
        }),
        Dir::Right => (at.0, if at.1 < last.1 {
            at.1 + 1
        } else {
            last.1
        }),
    }
}

/// A place, as numbers.
pub open spec fn place(p: (usize, usize)) -> (int, int) {
    (p.0 as int, p.1 as int)
}

fn stepped(at: (usize, usize), last: (usize, usize), d: Dir) -> (r: (usize, usize))
    ensures
        place(r) == step_to(place(at), place(last), d),
        at.0 <= last.0 && at.1 <= last.1 ==> r.0 <= last.0 && r.1 <= last.1,
{
    match d {
        Dir::Up => (if at.0 > 0 {
            at.0 - 1
        } else {
            0
        }, at.1),
        Dir::Down => (if at.0 < last.0 {
            at.0 + 1
        } else {
            last.0
        }, at.1),
        Dir::Left => (at.0, if at.1 > 0 {
            at.1 - 1
        } else {
            0
        }),
        Dir::Right => (at.0, if at.1 < last.1 {
            at.1 + 1
        } else {
            last.1
        }),
    }
}

// ---------------------------------------------------------------- solved spots

/// What the browser of solved spots shows.
#[derive(Debug, Clone, Copy)]
pub struct SpotView {
    pub node: usize,
    pub cursor: (usize, usize),
}

impl SpotView {
    /// The first spot, with the cursor on aces.
    pub fn new() -> (r: Self)
        ensures
            r.node == 0,
            r.cursor == (0usize, 0usize),
    {
        SpotView { node: 0, cursor: (0, 0) }
    }

    /// One of `n` spots is shown and the cursor is in the grid.
    pub open spec fn wf(&self, n: int) -> bool {
        self.node < n && self.cursor.0 < 13 && self.cursor.1 < 13
    }

    /// Takes a key; returns whether the browser stays open. `]` and Tab go on to
    /// the next spot, `[` and BackTab to the one before, both round the list.
    pub fn press(&mut self, key: Key, n: usize) -> (r: bool)
        requires
            old(self).wf(n as int),
        ensures
            final(self).wf(n as int),
            r == !(key == Key::Char('q') || key == Key::Esc),
            match dir_of(key) {
                Some(d) => place(final(self).cursor) == step_to(place(old(self).cursor), (12, 12), d),
                None => final(self).cursor == old(self).cursor,
            },
            final(self).node == if key == Key::Char(']') || key == Key::Tab {
                (old(self).node + 1) % (n as int)
            } else if key == Key::Char('[') || key == Key::BackTab {
                (old(self).node + n - 1) % (n as int)
            } else {
                old(self).node as int
            },
    {
        let ghost before = self.node;
        if let Some(d) = dir_for(key) {
            self.cursor = stepped(self.cursor, (12, 12), d);
            return true;
        }
        match key {
            Key::Char('q') | Key::Esc => false,
            Key::Char(']') | Key::Tab => {
                self.node = if self.node + 1 == n {
                    0
                } else {
                    self.node + 1
                };
                proof {
                    lemma_around(before as int, n as int);
                }
                true
            },
            Key::Char('[') | Key::BackTab => {
                self.node = if self.node == 0 {
                    n - 1
                } else {
                    self.node - 1
                };
                proof {
                    lemma_around(before as int, n as int);
                }
                true
            },
            _ => true,
        }
    }
}

proof fn lemma_around(i: int, n: int)
    requires
        0 <= i < n,
    ensures
        (i + 1) % n == if i + 1 == n {
            0
        } else {
            i + 1
        },
        (i + n - 1) % n == if i == 0 {
            n - 1
        } else {
            i - 1
        },
{
    if i + 1 == n {
        vstd::arithmetic::div_mod::lemma_mod_self_0(n);
    } else {
        vstd::arithmetic::div_mod::lemma_small_mod((i + 1) as nat, n as nat);
    }
    if i == 0 {
        vstd::arithmetic::div_mod::lemma_small_mod((n - 1) as nat, n as nat);
    } else {
        vstd::arithmetic::div_mod::lemma_mod_add_multiples_vanish(i - 1, n);
        vstd::arithmetic::div_mod::lemma_small_mod((i - 1) as nat, n as nat);
    }
}

/// Going on to the next spot and back shows the spot that was left, and so does
/// going back and on.
pub proof fn next_and_previous_cancel(node: int, n: int)
    requires
        0 <= node < n,
    ensures
        ((node + 1) % n + n - 1) % n == node,
        ((node + n - 1) % n + 1) % n == node,
{
    lemma_around(node, n);
    lemma_around((node + 1) % n, n);
    lemma_around((node + n - 1) % n, n);
}

// ---------------------------------------------------------------- trees

/// What a cell of the grid shows.
#[derive(Debug, Clone, Copy, PartialEq, Eq, Structural)]
pub enum Lens {
    Strategy,
    Range,
    Ev,
    Equity,
    Delta,
}

/// Locks for every cell of a node, derived from its mixes.
#[derive(Debug, Clone, Copy, PartialEq, Eq, Structural)]
pub enum Preset {
    Overfold,
    NeverRaise,
}

/// What a key asks of the session.
#[derive(Debug, Clone, Copy, PartialEq, Eq, Structural)]
pub enum TreeEffect {
    Stay,
    Quit,
    Back,
    Root,
    /// Deal the card under the picker.
    Deal,
    Play(usize),
    Preset(Preset),
    Save,
    Resolve,
    /// Ask for the strategy after each card.
    Runouts,
}

/// What the browser of trees shows, apart from the node itself.
#[derive(Debug)]
pub struct TreeView {
    pub cursor: (usize, usize),
    /// The place of the card picker, suit first.
    pub pick: (usize, usize),
    pub lens: Lens,
    pub filter: Option<Bucket>,
    /// The picker shows the strategy after each card.
    pub runouts: bool,
    /// Numbers set the lock of the cell under the cursor.
    pub lock_mode: bool,
    pub locks: CellLocks,
    /// There are values from before the last solve to compare with.
    pub compared: bool,
}

/// A view, as plain values.
pub ghost struct ViewState {
    pub cursor: (int, int),
    pub pick: (int, int),
    pub lens: Lens,
    pub filter: Option<Bucket>,
    pub runouts: bool,
    pub lock_mode: bool,
    pub locks: Seq<Option<Seq<F32>>>,
    pub compared: bool,
}

impl View for TreeView {
    type V = ViewState;

    open spec fn view(&self) -> ViewState {
        ViewState {
            cursor: place(self.cursor),
            pick: place(self.pick),
            lens: self.lens,
            filter: self.filter,
            runouts: self.runouts,
            lock_mode: self.lock_mode,
            locks: self.locks@,
            compared: self.compared,
        }
    }
}

/// The number keys, from 0 for `1`.
pub open spec fn number_of(key: Key) -> Option<int> {
    match key {
        Key::Char(c) => if '1' <= c && c <= '9' {
            Some(c as int - 49)
        } else {
            None
        },
        _ => None,
    }
}

fn number_for(key: Key) -> (r: Option<usize>)
    ensures
        r is Some == number_of(key) is Some,
        r matches Some(i) ==> number_of(key) == Some(i as int),
{
    match key {
        Key::Char(c) => {
            if '1' <= c && c <= '9' {
                Some((c as u32 - 49) as usize)
            } else {
                None
            }
        },
        _ => None,
    }
}

/// The lens that a key asks for.
pub open spec fn lens_of(key: Key) -> Option<Lens> {
    match key {
        Key::Char(c) => if c == 'd' {
            Some(Lens::Delta)
        } else if c == 's' {
            Some(Lens::Strategy)
        } else if c == 'w' {
            Some(Lens::Range)
        } else if c == 'e' {
            Some(Lens::Ev)
        } else if c == 'y' {
            Some(Lens::Equity)
        } else {
            None
        },
        _ => None,
    }
}

fn lens_for(key: Key) -> (r: Option<Lens>)
    ensures
        r == lens_of(key),
{
    match key {
        Key::Char(c) => {
            if c == 'd' {
                Some(Lens::Delta)
            } else if c == 's' {
                Some(Lens::Strategy)
            } else if c == 'w' {
                Some(Lens::Range)
            } else if c == 'e' {
                Some(Lens::Ev)
            } else if c == 'y' {
                Some(Lens::Equity)
            } else {
                None
            }
        },
        _ => None,
    }
}

/// All of the weight on one of `n` actions.
pub open spec fn pure(i: int, n: int) -> Seq<F32> {
    Seq::new(
        n as nat,
        |k: int|
            if k == i {
                F32 { bits: 0x3f80_0000 }
            } else {
                F32 { bits: 0 }
            },
    )
}

fn pure_freqs(i: usize, n: usize) -> (r: Vec<F32>)
    ensures
        r@ == pure(i as int, n as int),
{
    let mut v: Vec<F32> = Vec::new();
    let mut k: usize = 0;
    while k < n
        invariant
            k <= n,
            v@.len() == k,
            forall|j: int| 0 <= j < k ==> #[trigger] v@[j] == pure(i as int, n as int)[j],
        decreases n - k,
    {
        v.push(
            F32 {
                bits: if k == i {
                    0x3f80_0000
                } else {
                    0
                },
            },
        );
        k = k + 1;
    }
    assert(v@ =~= pure(i as int, n as int));
    v
}

/// Some cell is locked.
pub open spec fn any_locked(locks: Seq<Option<Seq<F32>>>) -> bool {
    table::locked_in(locks, table::CELLS as int) > 0
}

/// What a key asks of the session, at a node where cards are dealt (`chance`) or
/// with this many actions, with the card under the picker live or not.
pub open spec fn effect_of(
    v: ViewState,
    key: Key,
    chance: bool,
    actions: int,
    live: bool,
) -> TreeEffect {
    if key == Key::Char('q') {
        TreeEffect::Quit
    } else if key == Key::Esc {
        if v.lock_mode {
            TreeEffect::Stay
        } else {
            TreeEffect::Quit
        }
    } else if key == Key::Char('u') {
        TreeEffect::Back
    } else if key == Key::Char('r') {
        TreeEffect::Root
    } else if key == Key::Enter && chance && live {
        TreeEffect::Deal
    } else if number_of(key) is Some && !chance && !v.lock_mode && number_of(key)->0 < actions {
        TreeEffect::Play(number_of(key)->0 as usize)
    } else if key == Key::Char('o') && v.lock_mode {
        TreeEffect::Preset(Preset::Overfold)
    } else if key == Key::Char('n') && v.lock_mode {
        TreeEffect::Preset(Preset::NeverRaise)
    } else if key == Key::Char('S') && v.lock_mode && any_locked(v.locks) {
        TreeEffect::Save
    } else if key == Key::Char('R') && !chance && any_locked(v.locks) {
        TreeEffect::Resolve
    } else if key == Key::Char('o') && chance && !v.runouts {
        TreeEffect::Runouts
    } else {
        TreeEffect::Stay
    }
}

/// The view after a key.
pub open spec fn view_after(v: ViewState, key: Key, chance: bool, actions: int) -> ViewState {
    if dir_of(key) is Some {
        if chance {
            ViewState { pick: step_to(v.pick, (3, 12), dir_of(key)->0), ..v }
        } else {
            ViewState { cursor: step_to(v.cursor, (12, 12), dir_of(key)->0), ..v }
        }
    } else if key == Key::Esc {
        ViewState { lock_mode: false, ..v }
    } else if number_of(key) is Some && !chance && v.lock_mode && number_of(key)->0 < actions {
        ViewState {
            locks: v.locks.update(
                v.cursor.0 * 13 + v.cursor.1,
                Some(pure(number_of(key)->0, actions)),
            ),
            ..v
        }
    } else if key == Key::Char('L') && !chance && actions > 0 {
        if v.lock_mode {
            ViewState { lock_mode: false, ..v }
        } else {
            ViewState { lock_mode: true, locks: table::no_locks(), ..v }
        }
    } else if key == Key::Char('c') && v.lock_mode {
        ViewState { locks: v.locks.update(v.cursor.0 * 13 + v.cursor.1, None), ..v }
    } else if lens_of(key) is Some {
        ViewState { lens: lens_of(key)->0, ..v }
    } else if key == Key::Char('f') {
        ViewState { filter: table::bucket_after(v.filter), ..v }
    } else if key == Key::Char('o') && !v.lock_mode && chance {
        ViewState { runouts: !v.runouts, ..v }
    } else {
        v
    }
}

/// The view after a move to another node: what belonged to the node is gone.
pub open spec fn view_moved(v: ViewState) -> ViewState {
    ViewState {
        runouts: false,
        locks: table::no_locks(),
        lock_mode: false,
        compared: false,
        lens: if v.lens == Lens::Delta {
            Lens::Strategy
        } else {
            v.lens
        },
        ..v
    }
}

/// The view after the node was solved again under its locks.
pub open spec fn view_resolved(v: ViewState) -> ViewState {
    ViewState { compared: true, lens: Lens::Delta, lock_mode: false, runouts: false, ..v }
}

impl TreeView {
    /// The cursor is in the grid and the picker on a card.
    pub open spec fn wf(&self) -> bool {
        &&& self.cursor.0 < 13 && self.cursor.1 < 13
        &&& self.pick.0 < 4 && self.pick.1 < 13
        &&& self.locks.wf()
    }

    /// The view at the start; with locks that were loaded and solved under, it
    /// compares with the values from before them.
    pub fn start(loaded: Option<CellLocks>) -> (r: Self)
        requires
            loaded matches Some(l) ==> l.wf(),
        ensures
            r.wf(),
            r@ == (ViewState {
                cursor: (0, 0),
                pick: (0, 0),
                lens: if loaded is Some {
                    Lens::Delta
                } else {
                    Lens::Strategy
                },
                filter: None,
                runouts: false,
                lock_mode: false,
                locks: match loaded {
                    Some(l) => l@,
                    None => table::no_locks(),
                },
                compared: loaded is Some,
            }),
    {
        match loaded {
            Some(locks) => TreeView {
                cursor: (0, 0),
                pick: (0, 0),
                lens: Lens::Delta,
                filter: None,
                runouts: false,
                lock_mode: false,
                locks,
                compared: true,
            },
            None => TreeView {
                cursor: (0, 0),
                pick: (0, 0),
                lens: Lens::Strategy,
                filter: None,
                runouts: false,
                lock_mode: false,
                locks: CellLocks::new(),
                compared: false,
            },
        }
    }

    /// Takes a key at a node; returns what it asks of the session.
    pub fn press(&mut self, key: Key, node: &TreeNode) -> (r: TreeEffect)
        requires
            old(self).wf(),
        ensures
            final(self).wf(),
            final(self)@ == view_after(
                old(self)@,
                key,
                node.player@ == "chance"@,
                node.actions@.len() as int,
            ),
            r == effect_of(
                old(self)@,
                key,
                node.player@ == "chance"@,
                node.actions@.len() as int,
                text::texts(node.dealable@).contains(table::picked(old(self)@.pick)),
            ),
    {
        let chance = text::same_text(node.player.as_str(), "chance");
        let n: usize = node.actions.len();
        if let Some(d) = dir_for(key) {
            if chance {
                self.pick = stepped(self.pick, (3, 12), d);
            } else {
                self.cursor = stepped(self.cursor, (12, 12), d);
            }
            return TreeEffect::Stay;
        }
        if let Some(i) = number_for(key) {
            if !chance && i < n {
                if self.lock_mode {
                    self.locks.set(self.cursor.0 * 13 + self.cursor.1, pure_freqs(i, n));
                } else {
                    return TreeEffect::Play(i);
                }
            }
            return TreeEffect::Stay;
        }
        if let Some(l) = lens_for(key) {
            self.lens = l;
            return TreeEffect::Stay;
        }
        match key {
            Key::Char('q') => TreeEffect::Quit,
            Key::Esc => {
                if self.lock_mode {
                    self.lock_mode = false;
                    TreeEffect::Stay
                } else {
                    TreeEffect::Quit
                }
            },
            Key::Char('u') => TreeEffect::Back,
            Key::Char('r') => TreeEffect::Root,
            Key::Enter => {
                if chance {
                    let card = table::picker_card(self.pick);
                    if tree::position_of(&node.dealable, card.as_str()).is_some() {
                        return TreeEffect::Deal;
                    }
                }
                TreeEffect::Stay
            },
            Key::Char('L') => {
                if !chance && n > 0 {
                    if self.lock_mode {
                        self.lock_mode = false;
                    } else {
                        self.lock_mode = true;
                        self.locks = CellLocks::new();
                    }
                }
                TreeEffect::Stay
            },
            Key::Char('o') => {
                if self.lock_mode {
                    TreeEffect::Preset(Preset::Overfold)
                } else if chance {
                    if self.runouts {
                        self.runouts = false;
                        TreeEffect::Stay
                    } else {
                        self.runouts = true;
                        TreeEffect::Runouts
                    }
                } else {
                    TreeEffect::Stay
                }
            },
            Key::Char('n') => {
                if self.lock_mode {
                    TreeEffect::Preset(Preset::NeverRaise)
                } else {
                    TreeEffect::Stay
                }
            },
            Key::Char('S') => {
                if self.lock_mode && self.locks.len() > 0 {
                    TreeEffect::Save
                } else {
                    TreeEffect::Stay
                }
            },
            Key::Char('c') => {
                if self.lock_mode {
                    self.locks.clear(self.cursor.0 * 13 + self.cursor.1);
                }
                TreeEffect::Stay
            },
            Key::Char('R') => {
                if !chance && self.locks.len() > 0 {
                    TreeEffect::Resolve
                } else {
                    TreeEffect::Stay
                }
            },
            Key::Char('f') => {
                self.filter = table::next_bucket(self.filter);
                TreeEffect::Stay
            },
            _ => TreeEffect::Stay,
        }
    }

    /// Another node is shown.
    pub fn moved(&mut self)
        requires
            old(self).wf(),
        ensures
            final(self).wf(),
            final(self)@ == view_moved(old(self)@),
    {
        self.runouts = false;
        self.locks = CellLocks::new();
        self.lock_mode = false;
        self.compared = false;
        if self.lens == Lens::Delta {
            self.lens = Lens::Strategy;
        }
    }

    /// The node was solved again under its locks.
    pub fn resolved(&mut self)
        requires
            old(self).wf(),
        ensures
            final(self).wf(),
            final(self)@ == view_resolved(old(self)@),
    {
        self.compared = true;
        self.lens = Lens::Delta;
        self.lock_mode = false;
        self.runouts = false;
    }
}

// ---------------------------------------------------------------- presets

/// How a preset changes the mix of a cell.
#[derive(Debug, Clone, Copy, PartialEq, Eq, Structural)]
pub enum PresetPlan {
    /// The cell is left free.
    Skip,
    /// Half as much again is folded, by this action, and the rest shrinks.
    ScaleFold(usize),
    /// What is bet or raised goes to the other actions in their proportions, or
    /// where there is nothing of them to this action.
    DropRaises(Option<usize>),
}

/// Not above zero.
pub open spec fn not_positive(x: F32) -> bool {
    F32 { bits: 0 }.reaches(x)
}

/// The first place, from `i` on, of a label that is no bet or raise.
pub open spec fn passive_from(actions: Seq<Seq<char>>, i: int) -> Option<int>
    decreases actions.len() - i,
{
    if i >= actions.len() {
        None
    } else if !report::aggressive(actions[i]) {
        Some(i)
    } else {
        passive_from(actions, i + 1)
    }
}

/// The first action that is no bet or raise.
pub fn first_passive(actions: &Vec<String>) -> (r: Option<usize>)
    ensures
        r is Some == passive_from(text::texts(actions@), 0) is Some,
        r matches Some(i) ==> passive_from(text::texts(actions@), 0) == Some(i as int) && i
            < actions@.len(),
{
    let mut i: usize = 0;
    while i < actions.len()
        invariant
            i <= actions@.len(),
            passive_from(text::texts(actions@), 0) == passive_from(
                text::texts(actions@),
                i as int,
            ),
        decreases actions@.len() - i,
    {
        assert(text::texts(actions@)[i as int] == actions@[i as int]@);
        if !report::is_aggressive(actions[i].as_str()) {
            return Some(i);
        }
        i = i + 1;
    }
    None
}

/// What a preset does to a cell with these mean frequencies, of which `raised` is
/// the part that is bet or raised.
pub open spec fn plan_of(
    actions: Seq<Seq<char>>,
    freqs: Seq<F32>,
    raised: F32,
    pure_raise: bool,
    preset: Preset,
) -> PresetPlan {
    match preset {
        Preset::Overfold => if actions.contains("Fold"@) {
            let i = choose|i: int| tree::first_place(actions, "Fold"@, i);
            if not_positive(freqs[i]) {
                PresetPlan::Skip
            } else {
                PresetPlan::ScaleFold(i as usize)
            }
        } else {
            PresetPlan::Skip
        },
        Preset::NeverRaise => if not_positive(raised) {
            PresetPlan::Skip
        } else if !pure_raise {
            PresetPlan::DropRaises(None)
        } else {
            match passive_from(actions, 0) {
                Some(i) => PresetPlan::DropRaises(Some(i as usize)),
                None => PresetPlan::Skip,
            }
        },
    }
}

proof fn lemma_first_place(v: Seq<Seq<char>>, s: Seq<char>, i: int)
    requires
        tree::first_place(v, s, i),
    ensures
        (choose|k: int| tree::first_place(v, s, k)) == i,
        v.contains(s),
{
    let k = choose|k: int| tree::first_place(v, s, k);
    assert(tree::first_place(v, s, k));
    if k < i {
        assert(v[k] != s);
    }
    if i < k {
        assert(v[i] != s);
    }
}

/// What a preset does to a cell with these mean frequencies. `raised` is the part
/// that is bet or raised; `pure_raise` says that nothing else is left of it.
pub fn preset_plan(
    actions: &Vec<String>,
    freqs: &Vec<F32>,
    raised: F32,
    pure_raise: bool,
    preset: Preset,
) -> (r: PresetPlan)
    requires
        actions@.len() == freqs@.len(),
    ensures
        r == plan_of(text::texts(actions@), freqs@, raised, pure_raise, preset),
        r matches PresetPlan::ScaleFold(i) ==> i < actions@.len(),
        r matches PresetPlan::DropRaises(Some(i)) ==> i < actions@.len(),
{
    let zero = F32 { bits: 0 };
    match preset {
        Preset::Overfold => match tree::position_of(actions, "Fold") {
            Some(i) => {
                proof {
                    lemma_first_place(text::texts(actions@), "Fold"@, i as int);
                }
                if zero.ge(freqs[i]) {
                    PresetPlan::Skip
                } else {
                    PresetPlan::ScaleFold(i)
                }
            },
            None => PresetPlan::Skip,
        },
        Preset::NeverRaise => {
            if zero.ge(raised) {
                PresetPlan::Skip
            } else if !pure_raise {
                PresetPlan::DropRaises(None)
            } else {
                match first_passive(actions) {
                    Some(i) => PresetPlan::DropRaises(Some(i)),
                    None => PresetPlan::Skip,
                }
            }
        },
    }
}

// ---------------------------------------------------------------- blockers

/// The hands that go on against the largest bet, with how much of each.
#[derive(Debug, Clone)]
pub struct Blockers {
    /// The label of the bet.
    pub action: String,
    pub mass: Vec<([Card; 2], F32)>,
}

/// Two hands hold a card in common.
pub open spec fn share(a: [Card; 2], b: [Card; 2]) -> bool {
    a[0] == b[0] || a[0] == b[1] || a[1] == b[0] || a[1] == b[1]
}

/// The places, of the first `n`, of hands that hold one of the cards.
pub open spec fn blocked_of(mass: Seq<([Card; 2], F32)>, hero: [Card; 2], n: int) -> Seq<usize>
    decreases n,
{
    if n <= 0 {
        Seq::empty()
    } else if share(mass[n - 1].0, hero) {
        blocked_of(mass, hero, n - 1).push((n - 1) as usize)
    } else {
        blocked_of(mass, hero, n - 1)
    }
}

impl Blockers {
    /// The places of the hands that cannot be held against `hero`: their part of
    /// the mass is what `hero` blocks.
    pub fn blocked(&self, hero: [Card; 2]) -> (r: Vec<usize>)
        ensures
            r@ == blocked_of(self.mass@, hero, self.mass@.len() as int),
    {
        let mut out: Vec<usize> = Vec::new();
        let mut i: usize = 0;
        while i < self.mass.len()
            invariant
                i <= self.mass@.len(),
                out@ == blocked_of(self.mass@, hero, i as int),
            decreases self.mass@.len() - i,
        {
            let h: [Card; 2] = self.mass[i].0;
            if h[0] == hero[0] || h[0] == hero[1] || h[1] == hero[0] || h[1] == hero[1] {
                out.push(i);
            }
            i = i + 1;
        }
        out
    }
}

/// Somebody is to act.
pub open spec fn decides(player: Seq<char>) -> bool {
    player == "oop"@ || player == "ip"@
}

/// Whether somebody is to act at a node.
pub fn is_decision(node: &TreeNode) -> (r: bool)
    ensures
        r == decides(node.player@),
{
    text::same_text(node.player.as_str(), "oop") || text::same_text(node.player.as_str(), "ip")
}

/// The last of the first `n` labels that is a bet or raise.
pub open spec fn last_bet(actions: Seq<Seq<char>>, n: int) -> Option<int>
    decreases n,
{
    if n <= 0 {
        None
    } else if report::aggressive(actions[n - 1]) {
        Some(n - 1)
    } else {
        last_bet(actions, n - 1)
    }
}

/// The bet whose answer is looked at: the last bet or raise of a decision.
pub fn bet_to_peek(node: &TreeNode) -> (r: Option<usize>)
    ensures
        r is Some == (decides(node.player@) && last_bet(
            text::texts(node.actions@),
            node.actions@.len() as int,
        ) is Some),
        r matches Some(i) ==> i < node.actions@.len() && last_bet(
            text::texts(node.actions@),
            node.actions@.len() as int,
        ) == Some(i as int),
{
    if !is_decision(node) {
        return None;
    }
    let mut n: usize = node.actions.len();
    while n > 0
        invariant
            n <= node.actions@.len(),
            decides(node.player@),
            last_bet(text::texts(node.actions@), node.actions@.len() as int) == last_bet(
                text::texts(node.actions@),
                n as int,
            ),
        decreases n,
    {
        assert(text::texts(node.actions@)[n - 1] == node.actions@[n - 1]@);
        if report::is_aggressive(node.actions[n - 1].as_str()) {
            return Some(n - 1);
        }
        n = n - 1;
    }
    None
}

/// A hand of the answering side: what reaches the node and how often it folds.
#[derive(Debug, Clone, Copy)]
pub struct Answer {
    pub hole: [Card; 2],
    pub reach: F32,
    pub fold: Option<F32>,
}

/// The answer of hand `j`.
pub open spec fn answer_at(node: TreeNode, j: int) -> Answer {
    Answer {
        hole: table::hole_of(node.hands@[j]@)->0,
        reach: if j < node.weights@.len() {
            node.weights@[j]
        } else {
            F32 { bits: 0x3f80_0000 }
        },
        fold: if text::texts(node.actions@).contains("Fold"@) {
            let f = choose|f: int| tree::first_place(text::texts(node.actions@), "Fold"@, f);
            Some(node.freqs@[f]@[j])
        } else {
            None
        },
    }
}

/// The answers of the first `n` hands that can be read.
pub open spec fn answers_of(node: TreeNode, n: int) -> Seq<Answer>
    decreases n,
{
    if n <= 0 {
        Seq::empty()
    } else if table::hole_of(node.hands@[n - 1]@) is Some {
        answers_of(node, n - 1).push(answer_at(node, n - 1))
    } else {
        answers_of(node, n - 1)
    }
}

/// Where hands fold, how often each one does is known.
pub open spec fn folds_known(node: TreeNode) -> bool {
    text::texts(node.actions@).contains("Fold"@) ==> {
        let f = choose|f: int| tree::first_place(text::texts(node.actions@), "Fold"@, f);
        f < node.freqs@.len() && node.freqs@[f]@.len() >= node.hands@.len()
    }
}

/// The answers of a node where the other side decides, hand by hand.
pub fn villain_continues(node: &TreeNode) -> (r: Option<Vec<Answer>>)
    requires
        folds_known(*node),
    ensures
        r is Some == decides(node.player@),
        r matches Some(v) ==> v@ == answers_of(*node, node.hands@.len() as int),
{
    if !is_decision(node) {
        return None;
    }
    let fold = tree::position_of(&node.actions, "Fold");
    proof {
        if let Some(f) = fold {
            lemma_first_place(text::texts(node.actions@), "Fold"@, f as int);
        }
    }
    let mut out: Vec<Answer> = Vec::new();
    let mut j: usize = 0;
    while j < node.hands.len()
        invariant
            j <= node.hands@.len(),
            folds_known(*node),
            match fold {
                Some(f) => text::texts(node.actions@).contains("Fold"@) && f
                    < node.actions@.len() && f == (choose|f: int|
                    tree::first_place(text::texts(node.actions@), "Fold"@, f)),
                None => !text::texts(node.actions@).contains("Fold"@),
            },
            out@ == answers_of(*node, j as int),
        decreases node.hands@.len() - j,
    {
        if let Some(hole) = table::parse_hole(node.hands[j].as_str()) {
            let reach = if j < node.weights.len() {
                node.weights[j]
            } else {
                F32 { bits: 0x3f80_0000 }
            };
            let folds = match fold {
                Some(f) => {
                    Some(node.freqs[f][j])
                },
                None => None,
            };
            out.push(Answer { hole, reach, fold: folds });
        }
        j = j + 1;
    }
    Some(out)
}

// ---------------------------------------------------------------- numbers shown

/// The action that a lock names: the largest, the last of equals.
pub fn dominant(freqs: &Vec<F32>) -> (r: Option<usize>)
    ensures
        r is Some == (freqs@.len() > 0),
        r matches Some(i) ==> solution::is_best(freqs@, i as int),
{
    if freqs.len() == 0 {
        None
    } else {
        Some(solution::best_of(freqs))
    }
}

/// The smallest and the largest number of the first `n`, `None` before the first.
pub open spec fn span_of(v: Seq<F32>, n: int) -> Option<(F32, F32)>
    decreases n,
{
    if n <= 0 {
        None
    } else {
        let x = v[n - 1];
        match span_of(v, n - 1) {
            None => if x.finite() {
                Some((x, x))
            } else {
                None
            },
            Some((lo, hi)) => if x.finite() {
                Some((if x.below(lo) {
                    x
                } else {
                    lo
                }, if hi.below(x) {
                    x
                } else {
                    hi
                }))
            } else {
                Some((lo, hi))
            },
        }
    }
}

/// The scale of the EV lens: the smallest and the largest number among the cells,
/// 0 and 1 where there is none.
pub fn ev_range(evs: &Vec<F32>) -> (r: (F32, F32))
    ensures
        r == match span_of(evs@, evs@.len() as int) {
            Some(s) => s,
            None => (F32 { bits: 0 }, F32 { bits: 0x3f80_0000 }),
        },
{
    let mut span: Option<(F32, F32)> = None;
    let mut i: usize = 0;
    while i < evs.len()
        invariant
            i <= evs@.len(),
            span == span_of(evs@, i as int),
        decreases evs@.len() - i,
    {
        let x = evs[i];
        if x.is_finite() {
            span = match span {
                None => Some((x, x)),
                Some((lo, hi)) => Some(
                    (if x.lt(lo) {
                        x
                    } else {
                        lo
                    }, if hi.lt(x) {
                        x
                    } else {
                        hi
                    }),
                ),
            };
        }
        i = i + 1;
    }
    match span {
        Some(s) => s,
        None => (F32 { bits: 0 }, F32 { bits: 0x3f80_0000 }),
    }
}

/// The first runout, from `i` on, of the card.
pub open spec fn runout_from(v: Seq<tree::RunoutSummary>, card: Seq<char>, i: int) -> Option<int>
    decreases v.len() - i,
{
    if i >= v.len() {
        None
    } else if v[i].card@ == card {
        Some(i)
    } else {
        runout_from(v, card, i + 1)
    }
}

/// The runout of a card.
pub fn runout_of(v: &Vec<tree::RunoutSummary>, card: &str) -> (r: Option<usize>)
    ensures
        r is Some == runout_from(v@, card@, 0) is Some,
        r matches Some(i) ==> i < v@.len() && runout_from(v@, card@, 0) == Some(i as int),
{
    let mut i: usize = 0;
    while i < v.len()
        invariant
            i <= v@.len(),
            runout_from(v@, card@, 0) == runout_from(v@, card@, i as int),
        decreases v@.len() - i,
    {
        if text::same_text(v[i].card.as_str(), card) {
            return Some(i);
        }
        i = i + 1;
    }
    None
}

// ---------------------------------------------------------------- texts

/// Kept in a file name: ASCII letters, digits and the point.
pub open spec fn slug_char(c: char) -> bool {
    ('a' <= c && c <= 'z') || ('A' <= c && c <= 'Z') || ('0' <= c && c <= '9') || c == '.'
}

/// A label as a part of a file name.
pub open spec fn slug(s: Seq<char>) -> Seq<char> {
    text::lowered(s.filter(|c: char| slug_char(c)))
}

fn slug_of(s: &str) -> (r: String)
    ensures
        r@ == slug(s@),
{
    let cs = text::chars_of(s);
    let mut out: Vec<char> = Vec::new();
    let mut i: usize = 0;
    let ghost keep = |c: char| slug_char(c);
    proof {
        reveal(Seq::filter);
        assert(s@.take(0).filter(keep) =~= Seq::<char>::empty());
        assert(out@ =~= slug(s@.take(0)));
    }
    while i < cs.len()
        invariant
            i <= cs@.len(),
            cs@ == s@,
            keep == (|c: char| slug_char(c)),
            out@ == slug(s@.take(i as int)),
        decreases cs@.len() - i,
    {
        let c: char = cs[i];
        let ghost before = s@.take(i as int);
        proof {
            reveal(Seq::filter);
            let now = s@.take(i + 1);
            assert(now.drop_last() =~= before);
            assert(now.last() == c);
            assert(now.filter(keep) == if slug_char(c) {
                before.filter(keep).push(c)
            } else {
                before.filter(keep)
            });
            assert(text::lowered(before.filter(keep).push(c)) =~= text::lowered(
                before.filter(keep),
            ).push(text::lower(c)));
        }
        if ('a' <= c && c <= 'z') || ('A' <= c && c <= 'Z') || ('0' <= c && c <= '9') || c == '.' {
            out.push(text::lower_char(c));
        }
        i = i + 1;
    }
    assert(s@.take(i as int) =~= s@);
    text::string_of(out.as_slice())
}

/// Labels as parts of a file name.
pub open spec fn slugs(v: Seq<Seq<char>>) -> Seq<Seq<char>> {
    v.map_values(|s: Seq<char>| slug(s))
}

/// Where locks are saved by default: the board and the line of the node.
pub fn auto_lock_path(node: &TreeNode) -> (r: String)
    ensures
        r@ == {
            let board = text::lower_case(text::joined(text::texts(node.board@), ""@));
            if node.line@.len() == 0 {
                board + ".locks.json"@
            } else {
                board + "-"@ + text::joined(slugs(text::texts(node.line@)), "-"@)
                    + ".locks.json"@
            }
        },
{
    let mut parts: Vec<String> = Vec::new();
    let mut i: usize = 0;
    while i < node.line.len()
        invariant
            i <= node.line@.len(),
            parts@.len() == i,
            forall|k: int| 0 <= k < i ==> (#[trigger] parts@[k])@ == slug(node.line@[k]@),
        decreases node.line@.len() - i,
    {
        parts.push(slug_of(node.line[i].as_str()));
        i = i + 1;
    }
    assert(text::texts(parts@) =~= slugs(text::texts(node.line@)));
    let joined = text::join_all(&node.board, "");
    let board = text::to_lower_case(joined.as_str());
    if parts.len() == 0 {
        text::join2(board.as_str(), ".locks.json")
    } else {
        let line = text::join_all(&parts, "-");
        let stem = text::join3(board.as_str(), "-", line.as_str());
        text::join2(stem.as_str(), ".locks.json")
    }
}

/// The line that leads to a node, as its title.
pub fn breadcrumb(line: &Vec<String>) -> (r: String)
    ensures
        r@ == if line@.len() == 0 {
            "(root)"@
        } else {
            text::joined(text::texts(line@), " · "@)
        },
{
    if line.len() == 0 {
        text::copy_text("(root)")
    } else {
        text::join_all(line, " · ")
    }
}

/// Who acts at a node.
pub fn to_act(player: &str) -> (r: &'static str)
    ensures
        r@ == if player@ == "oop"@ {
            "OOP (BB) to act"@
        } else if player@ == "ip"@ {
            "IP (BTN) to act"@
        } else if player@ == "chance"@ {
            "dealing"@
        } else {
            "terminal"@
        },
{
    if text::same_text(player, "oop") {
        "OOP (BB) to act"
    } else if text::same_text(player, "ip") {
        "IP (BTN) to act"
    } else if text::same_text(player, "chance") {
        "dealing"
    } else {
        "terminal"
    }
}

/// The title of a lens, with its scale.
pub open spec fn lens_name(lens: Lens, span: Seq<char>) -> Seq<char> {
    match lens {
        Lens::Strategy => " strategy "@,
        Lens::Range => " range · bright = reaches "@,
        Lens::Ev => " ev · "@ + span + "bb "@,
        Lens::Equity => " equity · red 0% … green 100% "@,
        Lens::Delta => " ev Δ vs. baseline · red down … green up "@,
    }
}

/// The title over the grid: the lens, with the scale `span` where it has one, and
/// the filter.
pub fn lens_title(lens: Lens, filter: Option<Bucket>, span: &str) -> (r: String)
    ensures
        r@ == match filter {
            Some(b) => lens_name(lens, span@) + "· filter "@ + b.name() + " "@,
            None => lens_name(lens, span@),
        },
{
    let base = match lens {
        Lens::Strategy => text::copy_text(" strategy "),
        Lens::Range => text::copy_text(" range · bright = reaches "),
        Lens::Ev => text::join3(" ev · ", span, "bb "),
        Lens::Equity => text::copy_text(" equity · red 0% … green 100% "),
        Lens::Delta => text::copy_text(" ev Δ vs. baseline · red down … green up "),
    };
    match filter {
        Some(b) => {
            let s = text::join3(base.as_str(), "· filter ", b.text());
            text::join2(s.as_str(), " ")
        },
        None => base,
    }
}

/// The title over what a node shows.
pub fn body_title(node: &TreeNode, view: &TreeView, span: &str) -> (r: String)
    requires
        view.wf(),
    ensures
        r@ == if node.player@ == "chance"@ {
            if view.runouts {
                " runouts "@
            } else {
                " runout "@
            }
        } else if node.player@ == "terminal"@ {
            " end of line "@
        } else if view.lock_mode {
            " LOCK EDIT · "@ + text::decimal(
                table::locked_in(view.locks@, table::CELLS as int) as int,
            ) + " cell(s) · 1-9 set, c clear, R resolve "@
        } else {
            match view.filter {
                Some(b) => lens_name(view.lens, span@) + "· filter "@ + b.name() + " "@,
                None => lens_name(view.lens, span@),
            }
        },
{
    if text::same_text(node.player.as_str(), "chance") {
        if view.runouts {
            text::copy_text(" runouts ")
        } else {
            text::copy_text(" runout ")
        }
    } else if text::same_text(node.player.as_str(), "terminal") {
        text::copy_text(" end of line ")
    } else if view.lock_mode {
        let n = text::decimal_text(view.locks.len() as u64);
        text::join3(" LOCK EDIT · ", n.as_str(), " cell(s) · 1-9 set, c clear, R resolve ")
    } else {
        lens_title(view.lens, view.filter, span)
    }
}

/// The line of help under a node.
pub fn help_line(node: &TreeNode, lock_mode: bool) -> (r: &'static str)
    ensures
        r@ == if node.player@ == "chance"@ {
            "  ←↑↓→ / hjkl pick   ·   Enter deal   ·   o runouts   ·   u up   r root   ·   q quit"@
        } else if lock_mode {
            "  hjkl move · 1-9 lock cell · o overfold · n no-raise · c clear · S save · R resolve · L/Esc cancel"@
        } else {
            "  ←↑↓→ move · 1-9 act · s/w/e/y/d lens · f filter · L lock · u up · r root · q quit"@
        },
{
    if text::same_text(node.player.as_str(), "chance") {
        "  ←↑↓→ / hjkl pick   ·   Enter deal   ·   o runouts   ·   u up   r root   ·   q quit"
    } else if lock_mode {
        "  hjkl move · 1-9 lock cell · o overfold · n no-raise · c clear · S save · R resolve · L/Esc cancel"
    } else {
        "  ←↑↓→ move · 1-9 act · s/w/e/y/d lens · f filter · L lock · u up · r root · q quit"
    }
}

/// A step moves the cursor one row or column in its direction, or leaves it at the
/// edge; a step the other way undoes it.
pub proof fn steps_stay_on_the_grid(at: (int, int), last: (int, int))
    requires
        0 <= at.0 <= last.0,
        0 <= at.1 <= last.1,
    ensures
        at.0 > 0 ==> step_to(at, last, Dir::Up) == (at.0 - 1, at.1),
        at.0 < last.0 ==> step_to(at, last, Dir::Down) == (at.0 + 1, at.1),
        at.1 > 0 ==> step_to(at, last, Dir::Left) == (at.0, at.1 - 1),
        at.1 < last.1 ==> step_to(at, last, Dir::Right) == (at.0, at.1 + 1),
        at.0 == 0 ==> step_to(at, last, Dir::Up) == at,
        at.0 == last.0 ==> step_to(at, last, Dir::Down) == at,
        at.1 == 0 ==> step_to(at, last, Dir::Left) == at,
        at.1 == last.1 ==> step_to(at, last, Dir::Right) == at,
        at.0 > 0 ==> step_to(step_to(at, last, Dir::Up), last, Dir::Down) == at,
        at.1 > 0 ==> step_to(step_to(at, last, Dir::Left), last, Dir::Right) == at,
{
}

/// A key that asks something of the session leaves the view as it is, but for the
/// list of runouts, which is opened.
pub proof fn requests_leave_the_view(v: ViewState, key: Key, chance: bool, actions: int, live: bool)
    requires
        !(effect_of(v, key, chance, actions, live) is Stay),
    ensures
        effect_of(v, key, chance, actions, live) is Runouts ==> view_after(v, key, chance, actions)
            == (ViewState { runouts: true, ..v }),
        !(effect_of(v, key, chance, actions, live) is Runouts) ==> view_after(
            v,
            key,
            chance,
            actions,
        ) == v,
{
}

/// A number key takes that action where cells are not being locked, and locks the
/// cell under the cursor to it where they are; no other cell changes.
pub proof fn numbers_act_or_lock(v: ViewState, k: int, c: char, actions: int, live: bool, cell: int)
    requires
        1 <= k <= 9,
        c as int == 48 + k,
        k <= actions <= usize::MAX,
        v.locks.len() == table::CELLS,
        0 <= v.cursor.0 < 13,
        0 <= v.cursor.1 < 13,
        0 <= cell < table::CELLS,
    ensures
        !v.lock_mode ==> effect_of(v, Key::Char(c), false, actions, live) == TreeEffect::Play(
            (k - 1) as usize,
        ),
        v.lock_mode ==> effect_of(v, Key::Char(c), false, actions, live) is Stay,
        v.lock_mode ==> {
            let now = view_after(v, Key::Char(c), false, actions).locks[cell];
            if cell == v.cursor.0 * 13 + v.cursor.1 {
                now matches Some(f) && f.len() == actions && forall|i: int|
                    0 <= i < actions ==> #[trigger] f[i] == (F32 {
                        bits: if i == k - 1 {
                            0x3f80_0000
                        } else {
                            0
                        },
                    })
            } else {
                now == v.locks[cell]
            }
        },
{
}

/// Another node starts without what belonged to the last one, and with the same
/// cursor, picker and filter.
pub proof fn moving_forgets_the_node(v: ViewState)
    ensures
        !view_moved(v).lock_mode,
        !view_moved(v).runouts,
        !view_moved(v).compared,
        view_moved(v).lens != Lens::Delta,
        !any_locked(view_moved(v).locks),
        view_moved(v).cursor == v.cursor,
        view_moved(v).pick == v.pick,
        view_moved(v).filter == v.filter,
        v.lens != Lens::Delta ==> view_moved(v).lens == v.lens,
{
    lemma_nothing_locked(table::CELLS as int);
}

proof fn lemma_nothing_locked(n: int)
    requires
        0 <= n <= table::CELLS,
    ensures
        table::locked_in(table::no_locks(), n) == 0,
    decreases n,
{
    if n > 0 {
        lemma_nothing_locked(n - 1);
    }
}

/// The first action that is no bet or raise is found.
pub proof fn the_first_passive_action_is_found(actions: Seq<Seq<char>>, i: int)
    requires
        0 <= i <= actions.len(),
    ensures
        passive_from(actions, i) matches Some(k) ==> i <= k < actions.len() && !report::aggressive(
            actions[k],
        ) && forall|j: int| i <= j < k ==> report::aggressive(#[trigger] actions[j]),
        passive_from(actions, i) is None ==> forall|j: int|
            i <= j < actions.len() ==> report::aggressive(#[trigger] actions[j]),
    decreases actions.len() - i,
{
    if i < actions.len() && report::aggressive(actions[i]) {
        the_first_passive_action_is_found(actions, i + 1);
    }
}

/// The last bet or raise of a list is found.
pub proof fn the_last_bet_is_found(actions: Seq<Seq<char>>, n: int)
    requires
        0 <= n <= actions.len(),
    ensures
        last_bet(actions, n) matches Some(k) ==> 0 <= k < n && report::aggressive(actions[k])
            && forall|j: int| k < j < n ==> !report::aggressive(#[trigger] actions[j]),
        last_bet(actions, n) is None ==> forall|j: int|
            0 <= j < n ==> !report::aggressive(#[trigger] actions[j]),
    decreases n,
{
    if n > 0 && !report::aggressive(actions[n - 1]) {
        the_last_bet_is_found(actions, n - 1);
    }
}

/// The first runout of a card is found.
pub proof fn the_runout_of_a_card_is_found(v: Seq<tree::RunoutSummary>, card: Seq<char>, i: int)
    requires
        0 <= i <= v.len(),
    ensures
        runout_from(v, card, i) matches Some(k) ==> i <= k < v.len() && v[k].card@ == card
            && forall|j: int| i <= j < k ==> (#[trigger] v[j]).card@ != card,
        runout_from(v, card, i) is None ==> forall|j: int|
            i <= j < v.len() ==> (#[trigger] v[j]).card@ != card,
    decreases v.len() - i,
{
    if i < v.len() && v[i].card@ != card {
        the_runout_of_a_card_is_found(v, card, i + 1);
    }
}

/// What a hand blocks is every hand that holds one of its cards.
pub proof fn hands_block_what_holds_their_cards(
    mass: Seq<([Card; 2], F32)>,
    hero: [Card; 2],
    n: int,
)
    requires
        0 <= n <= mass.len() <= usize::MAX,
    ensures
        blocked_of(mass, hero, n) == Seq::new(n as nat, |i: int| i as usize).filter(
            |i: usize|
                hero@.contains(mass[i as int].0[0]) || hero@.contains(mass[i as int].0[1]),
        ),
    decreases n,
{
    reveal(Seq::filter);
    let all = Seq::new(n as nat, |i: int| i as usize);
    if n > 0 {
        hands_block_what_holds_their_cards(mass, hero, n - 1);
        assert(all.drop_last() =~= Seq::new((n - 1) as nat, |i: int| i as usize));
        assert(all.last() == (n - 1) as usize);
        let h = mass[n - 1].0;
        assert(hero@[0] == hero[0] && hero@[1] == hero[1]);
        assert(share(h, hero) == (hero@.contains(h[0]) || hero@.contains(h[1])));
    } else {
        assert(all =~= Seq::empty());
    }
}

/// Every hand of the answering side that can be read answers, in order.
pub proof fn every_readable_hand_answers(node: TreeNode, n: int)
    requires
        0 <= n <= node.hands@.len(),
    ensures
        answers_of(node, n) == Seq::new(n as nat, |i: int| i).filter(
            |i: int| table::hole_of(node.hands@[i]@) is Some,
        ).map_values(|i: int| answer_at(node, i)),
    decreases n,
{
    reveal(Seq::filter);
    let ok = |i: int| table::hole_of(node.hands@[i]@) is Some;
    let one = |i: int| answer_at(node, i);
    let all = Seq::new(n as nat, |i: int| i);
    if n > 0 {
        every_readable_hand_answers(node, n - 1);
        let fewer = Seq::new((n - 1) as nat, |i: int| i);
        assert(all.drop_last() =~= fewer);
        assert(all.last() == n - 1);
        let before = fewer.filter(ok);
        if ok(n - 1) {
            assert(before.push(n - 1).map_values(one) =~= before.map_values(one).push(one(n - 1)));
        }
    } else {
        assert(all.filter(ok).map_values(one) =~= Seq::empty());
    }
}

/// A hand answers with its own reach and its own frequency of folding.
pub proof fn answers_are_of_their_hand(node: TreeNode, j: int, f: int)
    requires
        0 <= j < node.hands@.len(),
        tree::first_place(text::texts(node.actions@), "Fold"@, f),
    ensures
        answer_at(node, j).fold == Some(node.freqs@[f]@[j]),
        j < node.weights@.len() ==> answer_at(node, j).reach == node.weights@[j],
        table::hole_of(node.hands@[j]@) == Some(answer_at(node, j).hole) || table::hole_of(
            node.hands@[j]@,
        ) is None,
{
    let a = text::texts(node.actions@);
    let g = choose|g: int| tree::first_place(a, "Fold"@, g);
    assert(a[f] == "Fold"@);
    assert(a.contains("Fold"@));
    assert(tree::first_place(a, "Fold"@, g));
    assert(g == f) by {
        if g < f {
            assert(a[g] != "Fold"@);
        } else if f < g {
            assert(a[f] != "Fold"@);
        }
    }
}

/// The scale of the cells runs from one of their numbers to another, and no number
/// that is finite lies outside it.
pub proof fn the_scale_spans_the_cells(v: Seq<F32>, n: int)
    requires
        0 <= n <= v.len(),
    ensures
        span_of(v, n) is None <==> forall|i: int| 0 <= i < n ==> !(#[trigger] v[i]).finite(),
        span_of(v, n) matches Some((lo, hi)) ==> {
            &&& lo.finite() && hi.finite()
            &&& v.take(n).contains(lo) && v.take(n).contains(hi)
            &&& forall|i: int|
                0 <= i < n && (#[trigger] v[i]).finite() ==> !v[i].below(lo) && !hi.below(v[i])
        },
    decreases n,
{
    if n > 0 {
        the_scale_spans_the_cells(v, n - 1);
        assert(v.take(n)[n - 1] == v[n - 1]);
        match span_of(v, n - 1) {
            Some((lo, hi)) => {
                let i = v.take(n - 1).index_of(lo);
                let j = v.take(n - 1).index_of(hi);
                assert(v.take(n)[i] == lo && v.take(n)[j] == hi);
            },
            None => {},
        }
    }
}

/// Each key asks for its own move: `q` ends the browse, `u` goes up, `r` goes to the
/// root, Enter deals the card under the picker where it can be dealt, and Escape
/// leaves the lock editor or, outside it, the browse.
pub proof fn keys_ask_for_their_move(v: ViewState, chance: bool, actions: int, live: bool)
    ensures
        effect_of(v, Key::Char('q'), chance, actions, live) is Quit,
        effect_of(v, Key::Char('u'), chance, actions, live) is Back,
        effect_of(v, Key::Char('r'), chance, actions, live) is Root,
        effect_of(v, Key::Enter, true, actions, true) is Deal,
        effect_of(v, Key::Enter, true, actions, false) is Stay,
        effect_of(v, Key::Enter, false, actions, live) is Stay,
        effect_of(v, Key::Esc, chance, actions, live) is Quit == !v.lock_mode,
        !view_after(v, Key::Esc, chance, actions).lock_mode,
{
}

/// The lock editor opens with no locks and closes with those it has; clearing frees
/// the cell under the cursor and no other; resolving and saving take a lock.
pub proof fn the_lock_editor_starts_afresh(v: ViewState, actions: int, live: bool, cell: int)
    requires
        actions > 0,
        v.locks.len() == table::CELLS,
        0 <= v.cursor.0 < 13,
        0 <= v.cursor.1 < 13,
        0 <= cell < table::CELLS,
    ensures
        !v.lock_mode ==> view_after(v, Key::Char('L'), false, actions) == (ViewState {
            lock_mode: true,
            locks: table::no_locks(),
            ..v
        }),
        v.lock_mode ==> view_after(v, Key::Char('L'), false, actions) == (ViewState {
            lock_mode: false,
            ..v
        }),
        v.lock_mode ==> view_after(v, Key::Char('c'), false, actions).locks[cell] == if cell
            == v.cursor.0 * 13 + v.cursor.1 {
            None
        } else {
            v.locks[cell]
        },
        effect_of(v, Key::Char('R'), false, actions, live) is Resolve == any_locked(v.locks),
        v.lock_mode ==> (effect_of(v, Key::Char('S'), false, actions, live) is Save == any_locked(
            v.locks,
        )),
{
}

/// The letters `h`, `j`, `k` and `l` step left, down, up and right, as the arrows do.
pub proof fn letters_step_as_arrows_do()
    ensures
        dir_of(Key::Char('h')) == Some(Dir::Left) && dir_of(Key::Left) == Some(Dir::Left),
        dir_of(Key::Char('j')) == Some(Dir::Down) && dir_of(Key::Down) == Some(Dir::Down),
        dir_of(Key::Char('k')) == Some(Dir::Up) && dir_of(Key::Up) == Some(Dir::Up),
        dir_of(Key::Char('l')) == Some(Dir::Right) && dir_of(Key::Right) == Some(Dir::Right),
{
}

/// Each lens has its key, and its key changes nothing but the lens.
pub proof fn lenses_have_their_keys(v: ViewState, chance: bool, actions: int)
    ensures
        view_after(v, Key::Char('s'), chance, actions) == (ViewState { lens: Lens::Strategy, ..v }),
        view_after(v, Key::Char('w'), chance, actions) == (ViewState { lens: Lens::Range, ..v }),
        view_after(v, Key::Char('e'), chance, actions) == (ViewState { lens: Lens::Ev, ..v }),
        view_after(v, Key::Char('y'), chance, actions) == (ViewState { lens: Lens::Equity, ..v }),
        view_after(v, Key::Char('d'), chance, actions) == (ViewState { lens: Lens::Delta, ..v }),
        view_after(v, Key::Char('f'), chance, actions) == (ViewState {
            filter: table::bucket_after(v.filter),
            ..v
        }),
{
}

/// A node that was solved again is shown by how its values changed, with its locks.
pub proof fn solving_again_shows_the_change(v: ViewState)
    ensures
        view_resolved(v).compared,
        view_resolved(v).lens == Lens::Delta,
        !view_resolved(v).lock_mode,
        view_resolved(v).locks == v.locks,
        view_resolved(v).cursor == v.cursor,
        view_resolved(v).filter == v.filter,
{
}

/// Overfolding scales the folds of a cell that folds, and leaves alone one that does
/// not. Never raising drops the raises of a cell that raises; where nothing else is
/// left, the first action that is no bet or raise takes it all.
pub proof fn presets_change_what_they_say(
    actions: Seq<Seq<char>>,
    freqs: Seq<F32>,
    raised: F32,
    pure_raise: bool,
    i: int,
)
    requires
        tree::first_place(actions, "Fold"@, i),
    ensures
        (F32 { bits: 0 }).reaches(freqs[i]) ==> plan_of(
            actions,
            freqs,
            raised,
            pure_raise,
            Preset::Overfold,
        ) is Skip,
        !(F32 { bits: 0 }).reaches(freqs[i]) ==> plan_of(
            actions,
            freqs,
            raised,
            pure_raise,
            Preset::Overfold,
        ) == PresetPlan::ScaleFold(i as usize),
        (F32 { bits: 0 }).reaches(raised) ==> plan_of(
            actions,
            freqs,
            raised,
            pure_raise,
            Preset::NeverRaise,
        ) is Skip,
        !(F32 { bits: 0 }).reaches(raised) && !pure_raise ==> plan_of(
            actions,
            freqs,
            raised,
            pure_raise,
            Preset::NeverRaise,
        ) == PresetPlan::DropRaises(None),
{
    let g = choose|g: int| tree::first_place(actions, "Fold"@, g);
    assert(actions[i] == "Fold"@);
    assert(actions.contains("Fold"@));
    assert(tree::first_place(actions, "Fold"@, g));
    assert(g == i) by {
        if g < i {
            assert(actions[g] != "Fold"@);
        } else if i < g {
            assert(actions[i] != "Fold"@);
        }
    }
}

/// A label is turned into a part of a file name character by character: letters in
/// lower case, digits and the point stay, and nothing else does.
pub proof fn file_names_keep_letters_and_digits(a: Seq<char>, c: char)
    ensures
        slug(a.push(c)) == if ('a' <= c && c <= 'z') || ('A' <= c && c <= 'Z') || ('0' <= c && c
            <= '9') || c == '.' {
            slug(a).push(text::lower(c))
        } else {
            slug(a)
        },
        slug(Seq::empty()) == Seq::<char>::empty(),
{
    reveal(Seq::filter);
    let keep = |c: char| slug_char(c);
    assert(a.push(c).drop_last() =~= a);
    if slug_char(c) {
        assert(text::lowered(a.filter(keep).push(c)) =~= text::lowered(a.filter(keep)).push(
            text::lower(c),
        ));
    }
    assert(text::lowered(Seq::<char>::empty()) =~= Seq::empty());
}

} // verus!
