//! The preflop betting game: a ruleset and a pure state machine.
//!
//! All chip amounts are whole hundredths of a big blind, so pot arithmetic is
//! exact. Seats are in acting order: seat 0 opens the action, the small blind is
//! seat `n-2` and the big blind seat `n-1`.

use crate::bits::F32;
use crate::fnv;
use crate::text;
use vstd::prelude::*;

verus! {

/// Hard seat ceiling.
pub const MAX_SEATS: usize = 6;

/// Hundredths per big blind.
pub const CB: u32 = 100;

// ---------------------------------------------------------------- amounts

/// An amount in big blinds, trailing zeros trimmed: 250 is `2.5`, 300 is `3`,
/// 1225 is `12.25`.
pub open spec fn bb_text(cb: int) -> Seq<char> {
    let whole = text::decimal(cb / 100);
    if cb % 100 == 0 {
        whole
    } else if cb % 10 == 0 {
        whole + seq!['.', text::digit(cb % 100 / 10)]
    } else {
        whole + seq!['.', text::digit(cb % 100 / 10), text::digit(cb % 10)]
    }
}

/// Writes an amount by [`bb_text`].
pub fn fmt_bb(cb: u32) -> (r: String)
    ensures
        r@ == bb_text(cb as int),
{
    let mut out = text::decimal_text((cb / 100) as u64);
    if cb % 100 != 0 {
        out.push('.');
        let d: u8 = 48 + (cb % 100 / 10) as u8;
        out.push(d as char);
        if cb % 10 != 0 {
            let e: u8 = 48 + (cb % 10) as u8;
            out.push(e as char);
        }
    }
    assert(out@ =~= bb_text(cb as int));
    out
}

/// An amount is written without a dash.
pub proof fn lemma_amount_chars(cb: int)
    requires
        cb >= 0,
    ensures
        !bb_text(cb).contains('-'),
{
    let t = bb_text(cb);
    text::lemma_decimal_digits(cb / 100);
    if t.contains('-') {
        let i = choose|i: int| 0 <= i < t.len() && t[i] == '-';
        if i < text::decimal(cb / 100).len() {
            assert(t[i] == text::decimal(cb / 100)[i]);
        }
    }
}

proof fn lemma_point_splits(a: Seq<char>, b: Seq<char>, x: Seq<char>, y: Seq<char>)
    requires
        forall|i: int| 0 <= i < a.len() ==> (#[trigger] a[i]) != '.',
        forall|i: int| 0 <= i < b.len() ==> (#[trigger] b[i]) != '.',
        x.len() > 0 ==> x[0] == '.',
        y.len() > 0 ==> y[0] == '.',
        a + x == b + y,
    ensures
        a == b,
        x == y,
{
    if a.len() < b.len() {
        assert((b + y)[a.len() as int] == b[a.len() as int]);
        if x.len() > 0 {
            assert((a + x)[a.len() as int] == x[0]);
        } else {
            assert((a + x).len() == a.len());
        }
        assert(false);
    }
    if b.len() < a.len() {
        assert((a + x)[b.len() as int] == a[b.len() as int]);
        if y.len() > 0 {
            assert((b + y)[b.len() as int] == y[0]);
        } else {
            assert((b + y).len() == b.len());
        }
        assert(false);
    }
    assert(a =~= b) by {
        assert forall|i: int| 0 <= i < a.len() implies a[i] == b[i] by {
            assert((a + x)[i] == a[i] && (b + y)[i] == b[i]);
        }
    }
    assert(x =~= y) by {
        assert((a + x).len() == a.len() + x.len());
        assert((b + y).len() == b.len() + y.len());
        assert(x.len() == y.len());
        assert forall|i: int| 0 <= i < x.len() implies x[i] == y[i] by {
            assert((a + x)[a.len() + i] == x[i]);
            assert((b + y)[b.len() + i] == y[i]);
        }
    }
}

/// Different amounts are written differently.
pub proof fn amounts_are_told_apart(a: int, b: int)
    requires
        a >= 0,
        b >= 0,
        bb_text(a) == bb_text(b),
    ensures
        a == b,
{
    let (wa, wb) = (text::decimal(a / 100), text::decimal(b / 100));
    let fa = fraction_text(a);
    let fb = fraction_text(b);
    assert(bb_text(a) =~= wa + fa);
    assert(bb_text(b) =~= wb + fb);
    text::lemma_decimal_digits(a / 100);
    text::lemma_decimal_digits(b / 100);
    lemma_point_splits(wa, wb, fa, fb);
    text::lemma_decimal_injective(a / 100, b / 100);
    if fa.len() > 0 {
        assert(fa[1] == fb[1]);
        assert(fa[1] as int == 48 + a % 100 / 10);
        assert(fb[1] as int == 48 + b % 100 / 10);
        if fa.len() > 2 {
            assert(fa[2] == fb[2]);
            assert(fa[2] as int == 48 + a % 10);
            assert(fb[2] as int == 48 + b % 10);
        }
    }
}

spec fn fraction_text(cb: int) -> Seq<char> {
    if cb % 100 == 0 {
        Seq::empty()
    } else if cb % 10 == 0 {
        seq!['.', text::digit(cb % 100 / 10)]
    } else {
        seq!['.', text::digit(cb % 100 / 10), text::digit(cb % 10)]
    }
}

// ---------------------------------------------------------------- raise sizes

/// One, in the units of a multiplier: multipliers are held in units of 2^-23,
/// which every single-precision number above one is a whole number of.
pub const MULT_ONE: u64 = 0x80_0000;

/// The distance between neighbouring single-precision numbers around `x`, for a
/// whole number `x`; below 2^24 every whole number is one.
pub open spec fn grid(x: int) -> int
    decreases x,
{
    if x < 0x100_0000 {
        1
    } else {
        2 * grid(x / 2)
    }
}

/// `x` rounded to a multiple of its [`grid`]: to nearest, ties to the even
/// multiple.
pub open spec fn rounded(x: int) -> int {
    let g = grid(x);
    let q = x / g;
    let rem = x % g;
    if 2 * rem > g || (2 * rem == g && q % 2 == 1) {
        (q + 1) * g
    } else {
        q * g
    }
}

/// The raise to `mult` times the bet, in single precision: the bet and the
/// product are each rounded, then the product goes to the nearest whole amount,
/// halves up. It stops at the largest amount that can be held.
pub open spec fn raise_to(bet: int, mult: int) -> int {
    let p = rounded(rounded(bet) * mult);
    let r = (p + 0x40_0000) / 0x80_0000;
    if r > u32::MAX {
        u32::MAX as int
    } else {
        r
    }
}

proof fn lemma_grid(x: int)
    requires
        x >= 0,
    ensures
        grid(x) >= 1,
        x < 0x100_0000 * grid(x),
        grid(x) > 1 ==> 0x80_0000 * grid(x) <= x,
    decreases x,
{
    if x >= 0x100_0000 {
        lemma_grid(x / 2);
    }
}

fn round24(x: u128) -> (r: u128)
    requires
        x < 0x100_0000_0000_0000_0000_0000_0000,
    ensures
        r == rounded(x as int),
        r <= 2 * x,
{
    let mut g: u128 = 1;
    let mut y: u128 = x;
    while y >= 0x100_0000
        invariant
            x < 0x100_0000_0000_0000_0000_0000_0000,
            1 <= g,
            g * y <= x,
            grid(x as int) == g * grid(y as int),
        decreases y,
    {
        let ghost (g0, y0) = (g as int, y as int);
        assert(2 * g0 * (y0 / 2) <= g0 * y0) by (nonlinear_arith)
            requires
                g0 >= 1,
                y0 >= 0,
        ;
        assert(2 * g0 <= g0 * y0) by (nonlinear_arith)
            requires
                g0 >= 1,
                y0 >= 2,
        ;
        assert(g0 * (2 * grid(y0 / 2)) == 2 * g0 * grid(y0 / 2)) by (nonlinear_arith);
        g = 2 * g;
        y = y / 2;
    }
    assert(grid(y as int) == 1);
    proof {
        lemma_grid(x as int);
    }
    let q: u128 = x / g;
    let rem: u128 = x % g;
    proof {
        vstd::arithmetic::div_mod::lemma_fundamental_div_mod(x as int, g as int);
        assert(q * g + rem == x) by (nonlinear_arith)
            requires
                x as int == g * q + rem,
        ;
        assert((q + 1) * g == q * g + g) by (nonlinear_arith);
        assert(g <= x || x == 0 || g == 1);
        assert(q <= x) by (nonlinear_arith)
            requires
                q * g + rem == x,
                g >= 1,
        ;
    }
    if 2 * rem > g || (2 * rem == g && q % 2 == 1) {
        (q + 1) * g
    } else {
        q * g
    }
}

/// Computes [`raise_to`].
pub fn raise_amount(bet: u32, mult: u64) -> (r: u32)
    ensures
        r == raise_to(bet as int, mult as int),
{
    let b: u128 = round24(bet as u128);
    assert(b * mult < 0x2_0000_0000 * 0x1_0000_0000_0000_0000) by (nonlinear_arith)
        requires
            b < 0x2_0000_0000,
            mult < 0x1_0000_0000_0000_0000,
    ;
    let p: u128 = round24(b * mult as u128);
    let w: u128 = (p + 0x40_0000) / 0x80_0000;
    if w > 0xffff_ffff {
        0xffff_ffff
    } else {
        w as u32
    }
}

// ---------------------------------------------------------------- rulesets

/// Solver knobs of a ruleset.
#[derive(Debug, Clone)]
pub struct SolverParams {
    /// Budget in dealt hands.
    pub traversals: u64,
    /// Seed of the random numbers.
    pub seed: u64,
    /// Nodes with at least this reach are exported.
    pub export_reach: F32,
    /// Nodes with at least this reach go to the starter tier.
    pub starter_reach: F32,
}

/// The seed where a ruleset names none.
pub fn default_seed() -> (r: u64)
    ensures
        r == 1,
{
    1
}

/// One rule set: table format, blinds and antes, the raise menus, and the
/// optional payouts.
#[derive(Debug, Clone)]
pub struct Ruleset {
    pub id: String,
    pub label: String,
    /// Seats in acting order; the last two post the blinds.
    pub seats: Vec<String>,
    /// Effective stack of every seat.
    pub stack_cb: u32,
    pub sb_cb: u32,
    pub bb_cb: u32,
    /// Whether the stack exceeds the big blind and both blinds are positive, in
    /// the amounts as they are written, which may be finer than a hundredth.
    pub blinds_sound: bool,
    /// Ante per player, dead in the pot.
    pub ante_cb: u32,
    /// Open sizes, as the amount raised to.
    pub open_to_cb: Vec<u32>,
    /// 3-bet sizes as multiples of the open, in units of 2^-23.
    pub threebet_mult: Vec<u64>,
    /// 3-bet sizes once the open has a caller.
    pub squeeze_mult: Vec<u64>,
    /// 4-bet sizes as multiples of the 3-bet.
    pub fourbet_mult: Vec<u64>,
    /// All-in is offered from this raise level on.
    pub jam_from_level: u8,
    pub rake_rate: F32,
    pub rake_cap_bb: F32,
    /// Payouts, one per seat, best finish first; none for a cash game.
    pub icm_payouts: Option<Vec<F32>>,
    pub solver: SolverParams,
}

/// What a ruleset can be refused for.
#[derive(Debug, Clone, Copy, PartialEq, Eq, Structural)]
pub enum RulesetError {
    /// Not 2 to 6 seats, but this many.
    Seats(usize),
    /// This many payouts for this many seats.
    Payouts(usize, usize),
    /// The stack does not exceed the big blind, or a blind is not positive.
    Blinds,
    /// An open size does not exceed the big blind.
    OpenSize,
    /// A 3-bet multiplier is not above one.
    Threebet,
    /// A squeeze multiplier is not above one.
    Squeeze,
    /// A 4-bet multiplier is not above one.
    Fourbet,
}

/// Some multiplier is not above one.
pub open spec fn some_low(mults: Seq<u64>) -> bool {
    exists|i: int| 0 <= i < mults.len() && #[trigger] mults[i] <= MULT_ONE
}

fn any_low(mults: &Vec<u64>) -> (r: bool)
    ensures
        r == some_low(mults@),
{
    let mut i: usize = 0;
    while i < mults.len()
        invariant
            i <= mults@.len(),
            forall|k: int| 0 <= k < i ==> #[trigger] mults@[k] > MULT_ONE,
        decreases mults@.len() - i,
    {
        if mults[i] <= MULT_ONE {
            return true;
        }
        i = i + 1;
    }
    false
}

impl Ruleset {
    /// 2 to 6 seats.
    pub open spec fn seated(&self) -> bool {
        2 <= self.seats@.len() <= 6
    }

    /// The first objection to the ruleset.
    pub open spec fn objection(&self) -> Option<RulesetError> {
        let n = self.seats@.len();
        if !self.seated() {
            Some(RulesetError::Seats(n as usize))
        } else if self.icm_payouts is Some && (self.icm_payouts->0)@.len() != n {
            Some(RulesetError::Payouts((self.icm_payouts->0)@.len() as usize, n as usize))
        } else if !self.blinds_sound {
            Some(RulesetError::Blinds)
        } else if exists|i: int|
            0 <= i < self.open_to_cb@.len() && #[trigger] self.open_to_cb@[i] <= self.bb_cb {
            Some(RulesetError::OpenSize)
        } else if some_low(self.threebet_mult@) {
            Some(RulesetError::Threebet)
        } else if some_low(self.squeeze_mult@) {
            Some(RulesetError::Squeeze)
        } else if some_low(self.fourbet_mult@) {
            Some(RulesetError::Fourbet)
        } else {
            None
        }
    }

    /// Number of seats.
    pub fn n(&self) -> (r: usize)
        ensures
            r == self.seats@.len(),
    {
        self.seats.len()
    }

    /// Effective stack.
    pub fn stack(&self) -> (r: u32)
        ensures
            r == self.stack_cb,
    {
        self.stack_cb
    }

    /// Accepts the ruleset, or gives the first objection to it.
    pub fn validate(&self) -> (r: Result<(), RulesetError>)
        ensures
            self.objection() is None ==> r is Ok,
            self.objection() matches Some(e) ==> r == Err::<(), RulesetError>(e),
    {
        let n: usize = self.n();
        if n < 2 || n > 6 {
            return Err(RulesetError::Seats(n));
        }
        match &self.icm_payouts {
            Some(p) => {
                if p.len() != n {
                    return Err(RulesetError::Payouts(p.len(), n));
                }
            },
            None => {},
        }
        if !self.blinds_sound {
            return Err(RulesetError::Blinds);
        }
        let mut i: usize = 0;
        while i < self.open_to_cb.len()
            invariant
                i <= self.open_to_cb@.len(),
                self.seated(),
                self.icm_payouts is Some ==> (self.icm_payouts->0)@.len() == self.seats@.len(),
                self.blinds_sound,
                forall|k: int| 0 <= k < i ==> #[trigger] self.open_to_cb@[k] > self.bb_cb,
            decreases self.open_to_cb@.len() - i,
        {
            if self.open_to_cb[i] <= self.bb_cb {
                return Err(RulesetError::OpenSize);
            }
            i = i + 1;
        }
        if any_low(&self.threebet_mult) {
            return Err(RulesetError::Threebet);
        }
        if any_low(&self.squeeze_mult) {
            return Err(RulesetError::Squeeze);
        }
        if any_low(&self.fourbet_mult) {
            return Err(RulesetError::Fourbet);
        }
        Ok(())
    }
}

// ---------------------------------------------------------------- actions

/// One player action.
#[derive(Debug, Clone, Copy, PartialEq, Eq, Structural)]
pub enum Action {
    /// Give up the hand.
    Fold,
    /// Match the current bet.
    Call,
    /// Raise to an amount below the stack.
    RaiseTo(u32),
    /// Put in the whole stack.
    AllIn,
}

impl Action {
    /// How the action is written in a path.
    pub open spec fn token_text(self) -> Seq<char> {
        match self {
            Action::Fold => "f"@,
            Action::Call => "c"@,
            Action::RaiseTo(cb) => "r"@ + bb_text(cb as int),
            Action::AllIn => "ai"@,
        }
    }

    /// How the action is shown.
    pub open spec fn label_text(self) -> Seq<char> {
        match self {
            Action::Fold => "Fold"@,
            Action::Call => "Call"@,
            Action::RaiseTo(cb) => "Raise to "@ + bb_text(cb as int) + "bb"@,
            Action::AllIn => "All-in"@,
        }
    }

    /// The path token: `f`, `c`, `r<amount>` or `ai`.
    pub fn token(&self) -> (r: String)
        ensures
            r@ == self.token_text(),
    {
        match self {
            Action::Fold => text::copy_text("f"),
            Action::Call => text::copy_text("c"),
            Action::RaiseTo(cb) => {
                let a = fmt_bb(*cb);
                text::join2("r", a.as_str())
            },
            Action::AllIn => text::copy_text("ai"),
        }
    }

    /// The display label.
    pub fn label(&self) -> (r: String)
        ensures
            r@ == self.label_text(),
    {
        match self {
            Action::Fold => text::copy_text("Fold"),
            Action::Call => text::copy_text("Call"),
            Action::RaiseTo(cb) => {
                let a = fmt_bb(*cb);
                text::join3("Raise to ", a.as_str(), "bb")
            },
            Action::AllIn => text::copy_text("All-in"),
        }
    }
}

/// Different actions have different tokens.
pub proof fn tokens_are_told_apart(a: Action, b: Action)
    requires
        a.token_text() == b.token_text(),
    ensures
        a == b,
{
    lemma_token_start(a);
    lemma_token_start(b);
    if let Action::RaiseTo(x) = a {
        if let Action::RaiseTo(y) = b {
            reveal_strlit("r");
            assert(a.token_text().skip(1) =~= bb_text(x as int));
            assert(b.token_text().skip(1) =~= bb_text(y as int));
            amounts_are_told_apart(x as int, y as int);
        }
    }
}

proof fn lemma_token_start(a: Action)
    ensures
        a.token_text().len() > 0,
        a is Fold ==> a.token_text()[0] == 'f',
        a is Call ==> a.token_text()[0] == 'c',
        a is RaiseTo ==> a.token_text()[0] == 'r',
        a is AllIn ==> a.token_text()[0] == 'a',
{
    reveal_strlit("f");
    reveal_strlit("c");
    reveal_strlit("r");
    reveal_strlit("ai");
}

// ---------------------------------------------------------------- seat masks

/// Seat `i` is in the mask.
pub open spec fn seated_in(mask: u8, i: int) -> bool {
    (mask >> (i as u8)) & 1u8 == 1u8
}

/// The mask with seat `i` added.
pub open spec fn with_seat(mask: u8, i: int) -> u8 {
    mask | (1u8 << (i as u8))
}

pub proof fn lemma_with_seat(mask: u8, i: int, j: int)
    requires
        0 <= i < 8,
        0 <= j < 8,
    ensures
        seated_in(with_seat(mask, i), j) == (seated_in(mask, j) || i == j),
{
    let (a, b) = (i as u8, j as u8);
    assert((((mask | (1u8 << a)) >> b) & 1u8 == 1u8) == ((mask >> b) & 1u8 == 1u8 || a == b))
        by (bit_vector)
        requires
            a < 8,
            b < 8,
    ;
}

/// How many of the first `n` seats are not in the mask.
pub open spec fn count_out(mask: u8, n: int) -> int
    decreases n,
{
    if n <= 0 {
        0
    } else {
        count_out(mask, n - 1) + if seated_in(mask, n - 1) {
            0int
        } else {
            1int
        }
    }
}

/// How many of the first `n` seats are in the mask.
pub open spec fn count_in(mask: u8, n: int) -> int
    decreases n,
{
    if n <= 0 {
        0
    } else {
        count_in(mask, n - 1) + if seated_in(mask, n - 1) {
            1int
        } else {
            0int
        }
    }
}

/// Tests for [`seated_in`].
pub fn in_mask(mask: u8, i: usize) -> (r: bool)
    requires
        i < 8,
    ensures
        r == seated_in(mask, i as int),
{
    (mask >> (i as u8)) & 1u8 == 1u8
}

/// Computes [`with_seat`].
pub fn add_seat(mask: u8, i: usize) -> (r: u8)
    requires
        i < 8,
    ensures
        r == with_seat(mask, i as int),
{
    mask | (1u8 << (i as u8))
}

/// Computes [`count_in`].
pub fn seats_in(mask: u8, n: usize) -> (r: usize)
    requires
        n <= 8,
    ensures
        r == count_in(mask, n as int),
        r <= n,
{
    let mut i: usize = 0;
    let mut c: usize = 0;
    while i < n
        invariant
            i <= n <= 8,
            c == count_in(mask, i as int),
            c <= i,
        decreases n - i,
    {
        if in_mask(mask, i) {
            c = c + 1;
        }
        i = i + 1;
    }
    c
}

/// The lowest of the first `n` seats in the mask, `n` if there is none.
pub open spec fn lowest(mask: u8, n: int, from: int) -> int
    decreases n - from,
{
    if from >= n {
        n
    } else if seated_in(mask, from) {
        from
    } else {
        lowest(mask, n, from + 1)
    }
}

// ---------------------------------------------------------------- states

/// The actor of a state in which betting is over.
pub const CLOSED: u8 = 6;

/// A betting state.
#[derive(Debug, Clone, Copy, PartialEq, Eq, Hash)]
pub struct State {
    /// Chips put in, blinds included. Folded seats keep theirs.
    pub committed: [u32; 6],
    /// Mask of folded seats.
    pub folded: u8,
    /// Mask of all-in seats.
    pub all_in: u8,
    /// The amount to match.
    pub cur_bet: u32,
    /// Raise level: 0 unopened, 1 open, 2 a 3-bet, 3 a 4-bet, 4 a 5-bet.
    pub level: u8,
    /// Someone called the open before a 3-bet.
    pub had_caller: bool,
    /// Seat to act, or [`CLOSED`].
    pub actor: u8,
}

/// How a closed betting round resolves.
#[derive(Debug, Clone, Copy, PartialEq, Eq, Structural)]
pub enum Terminal {
    /// Everyone else folded.
    FoldWin { winner: u8 },
    /// Two or more players are in for the whole stack.
    AllInShowdown { players: u8 },
    /// Betting matched below the stack.
    SeeFlop { players: u8 },
}

/// The amounts committed by the first `n` seats.
pub open spec fn committed_sum(s: State, n: int) -> int
    decreases n,
{
    if n <= 0 {
        0
    } else {
        committed_sum(s, n - 1) + s.committed[n - 1]
    }
}

/// The raises a level offers, before those at or over the stack become a jam.
pub open spec fn menu(s: State, rs: Ruleset) -> Seq<int> {
    let mults = if s.level == 1 && s.had_caller {
        rs.squeeze_mult@
    } else if s.level == 1 {
        rs.threebet_mult@
    } else {
        rs.fourbet_mult@
    };
    if s.level == 0 {
        rs.open_to_cb@.map_values(|o: u32| o as int)
    } else if s.level <= 2 {
        mults.map_values(|m: u64| raise_to(s.cur_bet as int, m as int))
    } else {
        Seq::empty()
    }
}

/// `acts`, then each raise of `raises` below the stack that is not there yet.
pub open spec fn with_raises(acts: Seq<Action>, raises: Seq<int>, stack: int) -> Seq<Action>
    decreases raises.len(),
{
    if raises.len() == 0 {
        acts
    } else {
        let a = with_raises(acts, raises.drop_last(), stack);
        let r = raises.last();
        if r < stack && !a.contains(Action::RaiseTo(r as u32)) {
            a.push(Action::RaiseTo(r as u32))
        } else {
            a
        }
    }
}

/// Fold and, when there is a raise to match, call.
pub open spec fn passive(s: State) -> Seq<Action> {
    if s.level > 0 {
        seq![Action::Fold, Action::Call]
    } else {
        seq![Action::Fold]
    }
}

/// Whether all-in is on offer: from the ruleset's level on, from a 4-bet on, and
/// where a raise of the menu reaches the stack.
pub open spec fn may_jam(s: State, rs: Ruleset) -> bool {
    ||| s.level >= rs.jam_from_level
    ||| s.level >= 3
    ||| exists|i: int| 0 <= i < menu(s, rs).len() && #[trigger] menu(s, rs)[i] >= rs.stack_cb
}

/// The legal actions, in the order in which they are offered.
pub open spec fn legal_actions(s: State, rs: Ruleset) -> Seq<Action> {
    if s.cur_bet >= rs.stack_cb {
        passive(s)
    } else {
        let a = with_raises(passive(s), menu(s, rs), rs.stack_cb as int);
        if may_jam(s, rs) {
            a.push(Action::AllIn)
        } else {
            a
        }
    }
}

/// Seat `i` still has to act: it is in the hand, not all-in, and has not
/// matched the bet.
pub open spec fn owes(s: State, i: int) -> bool {
    !seated_in(s.folded, i) && !seated_in(s.all_in, i) && s.committed[i] < s.cur_bet
}

/// The first seat after `me`, from the `k`-th on and going round, that still
/// has to act.
pub open spec fn next_owing(s: State, me: int, n: int, k: int) -> int
    decreases n + 1 - k,
{
    if k > n {
        CLOSED as int
    } else if owes(s, (me + k) % n) {
        (me + k) % n
    } else {
        next_owing(s, me, n, k + 1)
    }
}

/// The state after the actor's chips moved, before the next actor is known.
pub open spec fn acted(s: State, rs: Ruleset, a: Action) -> State {
    let me = s.actor as int;
    let stack = rs.stack_cb;
    match a {
        Action::Fold => State { folded: with_seat(s.folded, me), ..s },
        Action::Call => {
            let c = if s.cur_bet < stack {
                s.cur_bet
            } else {
                stack
            };
            State {
                committed: set_at(s.committed, me, c),
                all_in: if c == stack {
                    with_seat(s.all_in, me)
                } else {
                    s.all_in
                },
                had_caller: s.had_caller || s.level == 1,
                ..s
            }
        },
        Action::RaiseTo(x) => State {
            committed: set_at(s.committed, me, x),
            cur_bet: x,
            level: (s.level + 1) as u8,
            ..s
        },
        Action::AllIn => State {
            committed: set_at(s.committed, me, stack),
            cur_bet: stack,
            level: (s.level + 1) as u8,
            all_in: with_seat(s.all_in, me),
            ..s
        },
    }
}

/// `a` with entry `i` replaced.
pub open spec fn set_at(a: [u32; 6], i: int, x: u32) -> [u32; 6] {
    [
        if i == 0 {
            x
        } else {
            a[0]
        },
        if i == 1 {
            x
        } else {
            a[1]
        },
        if i == 2 {
            x
        } else {
            a[2]
        },
        if i == 3 {
            x
        } else {
            a[3]
        },
        if i == 4 {
            x
        } else {
            a[4]
        },
        if i == 5 {
            x
        } else {
            a[5]
        },
    ]
}

/// The state after `a`: betting closes when one seat is left, or when no seat
/// has to act.
pub open spec fn applied(s: State, rs: Ruleset, a: Action) -> State {
    let t = acted(s, rs, a);
    let n = rs.seats@.len() as int;
    State {
        actor: if count_out(t.folded, n) > 1 {
            next_owing(t, s.actor as int, n, 1) as u8
        } else {
            CLOSED
        },
        ..t
    }
}

/// The initial state: blinds posted, seat 0 to act.
pub open spec fn root_state(rs: Ruleset) -> State {
    let n = rs.seats@.len() as int;
    State {
        committed: set_at(
            set_at([0u32, 0u32, 0u32, 0u32, 0u32, 0u32], n - 2, rs.sb_cb),
            n - 1,
            rs.bb_cb,
        ),
        folded: 0,
        all_in: 0,
        cur_bet: rs.bb_cb,
        level: 0,
        had_caller: false,
        actor: 0,
    }
}

proof fn lemma_array_eq(a: [u32; 6], b: [u32; 6])
    requires
        forall|i: int| 0 <= i < 6 ==> a[i] == b[i],
    ensures
        a == b,
{
    assert(a@ =~= b@) by {
        assert forall|i: int| 0 <= i < 6 implies a@[i] == b@[i] by {
            assert(a[i] == b[i]);
        }
    }
}

impl State {
    /// The initial state.
    pub fn root(rs: &Ruleset) -> (r: State)
        requires
            rs.seated(),
        ensures
            r == root_state(*rs),
    {
        let n: usize = rs.n();
        let mut committed: [u32; 6] = [0, 0, 0, 0, 0, 0];
        committed[n - 2] = rs.sb_cb;
        committed[n - 1] = rs.bb_cb;
        proof {
            lemma_array_eq(committed, root_state(*rs).committed);
        }
        State {
            committed,
            folded: 0,
            all_in: 0,
            cur_bet: rs.bb_cb,
            level: 0,
            had_caller: false,
            actor: 0,
        }
    }
}

/// Seat `i` is one of the `n` and has not folded.
pub open spec fn in_hand(s: State, n: int, i: int) -> bool {
    i < n && !seated_in(s.folded, i)
}

/// The mask of the seats still in the hand.
pub open spec fn live_mask(folded: u8, n: int) -> u8 {
    !folded & (((1u16 << (n as u16)) - 1) as u8)
}

proof fn lemma_live_mask(folded: u8, n: int, i: int)
    requires
        2 <= n <= 6,
        0 <= i < 8,
    ensures
        seated_in(live_mask(folded, n), i) == (i < n && !seated_in(folded, i)),
{
    let a = n as u16;
    let b = i as u8;
    assert((((!folded & (((1u16 << a) - 1) as u8)) >> b) & 1u8 == 1u8) == ((b as u16) < a && !((
    folded >> b) & 1u8 == 1u8))) by (bit_vector)
        requires
            2 <= a <= 6,
            b < 8,
    ;
}

proof fn lemma_count_live(folded: u8, n: int, k: int)
    requires
        2 <= n <= 6,
        0 <= k <= n,
    ensures
        count_in(live_mask(folded, n), k) == count_out(folded, k),
    decreases k,
{
    if k > 0 {
        lemma_count_live(folded, n, k - 1);
        lemma_live_mask(folded, n, k - 1);
    }
}

/// How a closed state resolves.
pub open spec fn outcome(s: State, rs: Ruleset) -> Option<Terminal> {
    let n = rs.seats@.len() as int;
    let live = live_mask(s.folded, n);
    if s.actor != CLOSED {
        None
    } else if count_out(s.folded, n) == 1 {
        Some(Terminal::FoldWin { winner: lowest(live, n, 0) as u8 })
    } else if s.cur_bet >= rs.stack_cb {
        Some(Terminal::AllInShowdown { players: live })
    } else {
        Some(Terminal::SeeFlop { players: live })
    }
}

/// What the pot holds: every commitment and every ante.
pub open spec fn pot_of(s: State, rs: Ruleset) -> int {
    committed_sum(s, rs.seats@.len() as int) + rs.seats@.len() * rs.ante_cb
}

proof fn lemma_committed_grows(s: State, i: int, n: int)
    requires
        0 <= i <= n,
    ensures
        0 <= committed_sum(s, i) <= committed_sum(s, n),
    decreases n,
{
    if i < n {
        lemma_committed_grows(s, i, n - 1);
    } else if n > 0 {
        lemma_committed_grows(s, i - 1, n - 1);
    }
}

/// The menu of a level, as amounts.
fn menu_of(s: &State, rs: &Ruleset) -> (r: Vec<u32>)
    ensures
        r@.map_values(|x: u32| x as int) == menu(*s, *rs),
{
    let mut out: Vec<u32> = Vec::new();
    let mut i: usize = 0;
    if s.level == 0 {
        while i < rs.open_to_cb.len()
            invariant
                i <= rs.open_to_cb@.len(),
                out@ == rs.open_to_cb@.take(i as int),
            decreases rs.open_to_cb@.len() - i,
        {
            out.push(rs.open_to_cb[i]);
            i = i + 1;
            assert(rs.open_to_cb@.take(i as int) =~= rs.open_to_cb@.take(i - 1).push(
                rs.open_to_cb@[i - 1],
            ));
        }
        assert(rs.open_to_cb@.take(i as int) =~= rs.open_to_cb@);
        return out;
    }
    if s.level <= 2 {
        let mults: &Vec<u64> = if s.level == 1 && s.had_caller {
            &rs.squeeze_mult
        } else if s.level == 1 {
            &rs.threebet_mult
        } else {
            &rs.fourbet_mult
        };
        while i < mults.len()
            invariant
                i <= mults@.len(),
                out@.len() == i,
                forall|k: int|
                    0 <= k < i ==> #[trigger] out@[k] == raise_to(s.cur_bet as int, mults@[k] as int),
            decreases mults@.len() - i,
        {
            out.push(raise_amount(s.cur_bet, mults[i]));
            i = i + 1;
        }
        assert(out@.map_values(|x: u32| x as int) =~= menu(*s, *rs));
        return out;
    }
    assert(out@.map_values(|x: u32| x as int) =~= menu(*s, *rs));
    out
}

fn offers(acts: &Vec<Action>, a: Action) -> (r: bool)
    ensures
        r == acts@.contains(a),
{
    let mut i: usize = 0;
    while i < acts.len()
        invariant
            i <= acts@.len(),
            forall|k: int| 0 <= k < i ==> acts@[k] != a,
        decreases acts@.len() - i,
    {
        if acts[i] == a {
            assert(acts@[i as int] == a);
            return true;
        }
        i = i + 1;
    }
    false
}

impl State {
    /// The seat to act, or `None` when betting is closed.
    pub fn to_act(self) -> (r: Option<u8>)
        ensures
            self.actor == CLOSED ==> r is None,
            self.actor != CLOSED ==> r == Some(self.actor),
    {
        if self.actor != CLOSED {
            Some(self.actor)
        } else {
            None
        }
    }

    /// Mask of the seats still in the hand.
    pub fn live(&self, rs: &Ruleset) -> (r: u8)
        requires
            rs.seated(),
        ensures
            r == live_mask(self.folded, rs.seats@.len() as int),
            forall|i: int|
                0 <= i < 8 ==> #[trigger] seated_in(r, i) == in_hand(*self, rs.seats@.len() as int, i),
    {
        let n: u16 = rs.n() as u16;
        assert((1u16 << n) >= 4u16 && (1u16 << n) <= 64u16) by (bit_vector)
            requires
                2 <= n <= 6,
        ;
        let r: u8 = !self.folded & (((1u16 << n) - 1) as u8);
        proof {
            assert forall|i: int| 0 <= i < 8 implies #[trigger] seated_in(r, i) == in_hand(
                *self,
                rs.seats@.len() as int,
                i,
            ) by {
                lemma_live_mask(self.folded, rs.seats@.len() as int, i);
            }
        }
        r
    }

    /// The pot: all commitments, folded seats' included, and every ante.
    pub fn pot(&self, rs: &Ruleset) -> (r: u32)
        requires
            rs.seated(),
            pot_of(*self, *rs) <= u32::MAX,
        ensures
            r == pot_of(*self, *rs),
    {
        let n: usize = rs.n();
        let mut sum: u32 = 0;
        let mut i: usize = 0;
        assert(rs.seats@.len() * rs.ante_cb >= 0) by (nonlinear_arith);
        while i < n
            invariant
                i <= n <= 6,
                n == rs.seats@.len(),
                sum == committed_sum(*self, i as int),
                committed_sum(*self, n as int) <= u32::MAX,
            decreases n - i,
        {
            proof {
                lemma_committed_grows(*self, i + 1, n as int);
            }
            sum = sum + self.committed[i];
            i = i + 1;
        }
        proof {
            lemma_committed_grows(*self, 0, n as int);
        }
        sum + n as u32 * rs.ante_cb
    }

    /// How the closed round resolves; `None` while someone still acts.
    pub fn terminal(&self, rs: &Ruleset) -> (r: Option<Terminal>)
        requires
            rs.seated(),
        ensures
            r == outcome(*self, *rs),
    {
        if self.actor != CLOSED {
            return None;
        }
        let n: usize = rs.n();
        let live = self.live(rs);
        proof {
            lemma_count_live(self.folded, n as int, n as int);
        }
        if seats_in(live, n) == 1 {
            let mut w: usize = 0;
            while w < n && !in_mask(live, w)
                invariant
                    w <= n <= 6,
                    lowest(live, n as int, 0) == lowest(live, n as int, w as int),
                decreases n - w,
            {
                w = w + 1;
            }
            Some(Terminal::FoldWin { winner: w as u8 })
        } else if self.cur_bet >= rs.stack() {
            Some(Terminal::AllInShowdown { players: live })
        } else {
            Some(Terminal::SeeFlop { players: live })
        }
    }

    /// Puts the legal actions of the acting seat into `out`: fold, then call when
    /// there is a raise to match, then the raises of the level's menu, then
    /// all-in. There are no limps.
    pub fn legal(&self, rs: &Ruleset, out: &mut Vec<Action>)
        ensures
            final(out)@ == legal_actions(*self, *rs),
    {
        out.clear();
        out.push(Action::Fold);
        if self.level > 0 {
            out.push(Action::Call);
        }
        assert(out@ =~= passive(*self));
        let stack: u32 = rs.stack();
        if self.cur_bet >= stack {
            return;
        }
        let raises = menu_of(self, rs);
        let ghost m = menu(*self, *rs);
        let mut jam = self.level >= rs.jam_from_level || self.level >= 3;
        let mut i: usize = 0;
        assert(m.take(0) =~= Seq::empty());
        while i < raises.len()
            invariant
                i <= raises@.len(),
                raises@.map_values(|x: u32| x as int) == m,
                m == menu(*self, *rs),
                stack == rs.stack_cb,
                out@ == with_raises(passive(*self), m.take(i as int), stack as int),
                jam == (self.level >= rs.jam_from_level || self.level >= 3 || exists|k: int|
                    0 <= k < i && #[trigger] m[k] >= stack),
            decreases raises@.len() - i,
        {
            let r: u32 = raises[i];
            proof {
                assert(m[i as int] == raises@.map_values(|x: u32| x as int)[i as int]);
                assert(m[i as int] == r);
                assert(m.take(i + 1).drop_last() =~= m.take(i as int));
                assert(m.take(i + 1).last() == r as int);
            }
            if r >= stack {
                jam = true;
                assert(m[i as int] >= stack);
            } else if !offers(out, Action::RaiseTo(r)) {
                out.push(Action::RaiseTo(r));
            }
            i = i + 1;
        }
        assert(m.take(i as int) =~= m);
        if jam {
            out.push(Action::AllIn);
        }
    }

    /// The state after `a` by the acting seat.
    pub fn apply(&self, rs: &Ruleset, a: Action) -> (r: State)
        requires
            rs.seated(),
            self.actor < rs.seats@.len(),
            self.level < u8::MAX,
        ensures
            r == applied(*self, *rs, a),
    {
        let mut s = *self;
        let me: usize = self.actor as usize;
        let stack: u32 = rs.stack();
        match a {
            Action::Fold => {
                s.folded = add_seat(s.folded, me);
            },
            Action::Call => {
                let c: u32 = if self.cur_bet < stack {
                    self.cur_bet
                } else {
                    stack
                };
                s.committed[me] = c;
                if c == stack {
                    s.all_in = add_seat(s.all_in, me);
                }
                if self.level == 1 {
                    s.had_caller = true;
                }
            },
            Action::RaiseTo(x) => {
                s.committed[me] = x;
                s.cur_bet = x;
                s.level = s.level + 1;
            },
            Action::AllIn => {
                s.committed[me] = stack;
                s.cur_bet = stack;
                s.level = s.level + 1;
                s.all_in = add_seat(s.all_in, me);
            },
        }
        let ghost t = acted(*self, *rs, a);
        proof {
            lemma_array_eq(s.committed, t.committed);
            assert(s == t);
        }
        let n: usize = rs.n();
        s.actor = CLOSED;
        let live = s.live(rs);
        proof {
            lemma_count_live(s.folded, n as int, n as int);
        }
        if seats_in(live, n) > 1 {
            let mut k: usize = 1;
            let ghost want = next_owing(t, me as int, n as int, 1);
            while k <= n
                invariant_except_break
                    1 <= k <= n + 1,
                    2 <= n <= 6,
                    me < n,
                    s == (State { actor: CLOSED, ..t }),
                    want == next_owing(t, me as int, n as int, k as int),
                ensures
                    s == (State { actor: want as u8, ..t }),
                decreases n + 1 - k,
            {
                let seat: usize = (me + k) % n;
                if !in_mask(s.folded, seat) && !in_mask(s.all_in, seat) && s.committed[seat]
                    < s.cur_bet {
                    s.actor = seat as u8;
                    break;
                }
                k = k + 1;
            }
        }
        s
    }

    /// The bytes that the key hashes: the whole public state.
    pub open spec fn key_bytes(self) -> Seq<u8> {
        seq![
            self.actor,
            self.folded,
            self.all_in,
            self.level,
            if self.had_caller {
                1u8
            } else {
                0u8
            },
        ] + fnv::le4(self.cur_bet) + fnv::le4(self.committed[0]) + fnv::le4(self.committed[1])
            + fnv::le4(self.committed[2]) + fnv::le4(self.committed[3]) + fnv::le4(
            self.committed[4],
        ) + fnv::le4(self.committed[5])
    }

    /// FNV-1a key of the public state.
    pub fn key(&self) -> (r: u64)
        ensures
            r == fnv::fnv(self.key_bytes()),
    {
        let mut bytes: Vec<u8> = vec![
            self.actor,
            self.folded,
            self.all_in,
            self.level,
            if self.had_caller { 1u8 } else { 0u8 },
        ];
        fnv::push_le4(&mut bytes, self.cur_bet);
        fnv::push_le4(&mut bytes, self.committed[0]);
        fnv::push_le4(&mut bytes, self.committed[1]);
        fnv::push_le4(&mut bytes, self.committed[2]);
        fnv::push_le4(&mut bytes, self.committed[3]);
        fnv::push_le4(&mut bytes, self.committed[4]);
        fnv::push_le4(&mut bytes, self.committed[5]);
        assert(bytes@ =~= self.key_bytes());
        fnv::fnv_bytes(bytes.as_slice())
    }
}

// ---------------------------------------------------------------- paths

/// The tokens of a path such as `f-f-r2.5-c`.
pub open spec fn path_tokens(path: Seq<char>) -> Seq<Seq<char>> {
    text::split(path, '-').filter(|t: Seq<char>| t.len() > 0)
}

/// The first action of `acts` with this token.
pub open spec fn by_token(acts: Seq<Action>, tok: Seq<char>) -> Option<Action>
    decreases acts.len(),
{
    if acts.len() == 0 {
        None
    } else if acts[0].token_text() == tok {
        Some(acts[0])
    } else {
        by_token(acts.drop_first(), tok)
    }
}

/// Where a walk along tokens ends.
pub enum Walked {
    /// The state after the last token.
    At(State),
    /// This token comes after betting was closed.
    Past(Seq<char>),
    /// This token is none of the legal actions in this state.
    Illegal(Seq<char>, State),
}

/// Follows the tokens from `st`.
pub open spec fn walked(rs: Ruleset, st: State, toks: Seq<Seq<char>>) -> Walked
    decreases toks.len(),
{
    if toks.len() == 0 {
        Walked::At(st)
    } else if st.actor == CLOSED {
        Walked::Past(toks[0])
    } else {
        match by_token(legal_actions(st, rs), toks[0]) {
            Some(a) => walked(rs, applied(st, rs, a), toks.drop_first()),
            None => Walked::Illegal(toks[0], st),
        }
    }
}

/// Why a path is no path of the game.
#[derive(Debug, Clone)]
pub enum PathError {
    /// The path goes on after betting is closed, with this token.
    PastTerminal(String),
    /// This token is none of these legal actions.
    Illegal(String, Vec<Action>),
}

fn find_by_token(acts: &Vec<Action>, tok: &[char]) -> (r: Option<Action>)
    ensures
        r == by_token(acts@, tok@),
{
    let mut i: usize = 0;
    assert(acts@.skip(0) =~= acts@);
    while i < acts.len()
        invariant
            i <= acts@.len(),
            by_token(acts@, tok@) == by_token(acts@.skip(i as int), tok@),
        decreases acts@.len() - i,
    {
        let t = acts[i].token();
        let cs = text::chars_of(t.as_str());
        assert(acts@.skip(i as int).drop_first() =~= acts@.skip(i + 1));
        if text::same_chars(cs.as_slice(), tok) {
            return Some(acts[i]);
        }
        i = i + 1;
    }
    None
}

/// Betting can go on from here: the actor is a seat of the table that is in the
/// hand, has chips left and, once there was a raise, owes some.
pub open spec fn playing(s: State, rs: Ruleset) -> bool {
    let n = rs.seats@.len();
    &&& rs.seated()
    &&& s.level <= 4
    &&& s.level >= 4 ==> s.cur_bet >= rs.stack_cb
    &&& s.level > 0 ==> s.cur_bet <= rs.stack_cb
    &&& s.actor == CLOSED || {
        &&& s.actor < n
        &&& !seated_in(s.folded, s.actor as int)
        &&& s.level > 0 ==> owes(s, s.actor as int)
    }
}

/// The root is a state from which betting can go on.
pub proof fn root_is_playing(rs: Ruleset)
    requires
        rs.seated(),
    ensures
        playing(root_state(rs), rs),
{
    assert(!seated_in(0u8, 0)) by {
        assert((0u8 >> 0u8) & 1u8 == 0u8) by (bit_vector);
    }
}

proof fn lemma_next_owing(t: State, me: int, n: int, k: int)
    requires
        2 <= n <= 6,
        0 <= me < n,
        1 <= k,
    ensures
        next_owing(t, me, n, k) == CLOSED || (0 <= next_owing(t, me, n, k) < n && owes(
            t,
            next_owing(t, me, n, k),
        )),
    decreases n + 1 - k,
{
    if k <= n {
        lemma_next_owing(t, me, n, k + 1);
    }
}

proof fn lemma_with_raises_shape(acts: Seq<Action>, raises: Seq<int>, stack: int, a: Action)
    requires
        with_raises(acts, raises, stack).contains(a),
        forall|i: int| 0 <= i < raises.len() ==> 0 <= #[trigger] raises[i] <= u32::MAX,
    ensures
        acts.contains(a) || (a matches Action::RaiseTo(x) && x < stack && raises.contains(x as int)),
    decreases raises.len(),
{
    if raises.len() > 0 {
        let b = with_raises(acts, raises.drop_last(), stack);
        let r = raises.last();
        if b.contains(a) {
            lemma_with_raises_shape(acts, raises.drop_last(), stack, a);
            if !acts.contains(a) {
                let x = a->RaiseTo_0;
                let i = choose|i: int|
                    0 <= i < raises.drop_last().len() && raises.drop_last()[i] == x as int;
                assert(raises[i] == x as int);
            }
        } else {
            let c = b.push(Action::RaiseTo(r as u32));
            assert(c.contains(a));
            let i = choose|i: int| 0 <= i < c.len() && c[i] == a;
            if i < b.len() {
                assert(b[i] == a);
            }
            assert(raises[raises.len() - 1] == r);
        }
    }
}

/// What a legal action can be in a state.
pub proof fn legal_shape(s: State, rs: Ruleset, a: Action)
    requires
        legal_actions(s, rs).contains(a),
    ensures
        a is Call ==> s.level > 0,
        a is RaiseTo ==> s.level <= 2 && s.cur_bet < rs.stack_cb && a->RaiseTo_0 < rs.stack_cb,
        a is AllIn ==> s.cur_bet < rs.stack_cb,
{
    let p = passive(s);
    assert(p.contains(a) ==> a is Fold || (a is Call && s.level > 0)) by {
        if p.contains(a) {
            let i = choose|i: int| 0 <= i < p.len() && p[i] == a;
        }
    }
    if s.cur_bet < rs.stack_cb {
        let m = menu(s, rs);
        let b = with_raises(p, m, rs.stack_cb as int);
        assert forall|i: int| 0 <= i < m.len() implies 0 <= #[trigger] m[i] <= u32::MAX by {
            if s.level > 0 && s.level <= 2 {
                let mults = if s.level == 1 && s.had_caller {
                    rs.squeeze_mult@
                } else if s.level == 1 {
                    rs.threebet_mult@
                } else {
                    rs.fourbet_mult@
                };
                assert(m[i] == raise_to(s.cur_bet as int, mults[i] as int));
                lemma_raise_range(s.cur_bet as int, mults[i] as int);
            }
        }
        if b.contains(a) {
            lemma_with_raises_shape(p, m, rs.stack_cb as int, a);
        } else {
            let l = legal_actions(s, rs);
            let i = choose|i: int| 0 <= i < l.len() && l[i] == a;
            if i < b.len() {
                assert(b[i] == a);
            }
        }
    }
}

proof fn lemma_rounded_nonneg(x: int)
    requires
        x >= 0,
    ensures
        rounded(x) >= 0,
{
    lemma_grid(x);
    let g = grid(x);
    let q = x / g;
    assert(q >= 0) by (nonlinear_arith)
        requires
            x >= 0,
            g >= 1,
            q == x / g,
    ;
    assert(q * g >= 0 && (q + 1) * g >= 0) by (nonlinear_arith)
        requires
            q >= 0,
            g >= 1,
    ;
}

proof fn lemma_raise_range(bet: int, mult: int)
    requires
        bet >= 0,
        mult >= 0,
    ensures
        0 <= raise_to(bet, mult) <= u32::MAX,
{
    lemma_rounded_nonneg(bet);
    assert(rounded(bet) * mult >= 0) by (nonlinear_arith)
        requires
            rounded(bet) >= 0,
            mult >= 0,
    ;
    lemma_rounded_nonneg(rounded(bet) * mult);
}

/// A legal action leads to a state from which betting can go on, or is closed.
pub proof fn play_goes_on(s: State, rs: Ruleset, a: Action)
    requires
        playing(s, rs),
        s.actor != CLOSED,
        legal_actions(s, rs).contains(a),
    ensures
        playing(applied(s, rs, a), rs),
{
    legal_shape(s, rs, a);
    let n = rs.seats@.len() as int;
    let t = acted(s, rs, a);
    lemma_next_owing(t, s.actor as int, n, 1);
}

/// Walks `path` from the root. Every token must be a legal action of the state
/// it is met in.
pub fn replay(rs: &Ruleset, path: &str) -> (r: Result<State, PathError>)
    requires
        rs.seated(),
    ensures
        match walked(*rs, root_state(*rs), path_tokens(path@)) {
            Walked::At(s) => r == Ok::<State, PathError>(s),
            Walked::Past(t) => r matches Err(PathError::PastTerminal(u)) && u@ == t,
            Walked::Illegal(t, s) => r matches Err(PathError::Illegal(u, l)) && u@ == t && l@
                == legal_actions(s, *rs),
        },
{
    let cs = text::chars_of(path);
    let toks = text::split_at_char(cs.as_slice(), '-');
    let ghost all = text::split(path@, '-');
    let ghost keep = |t: Seq<char>| t.len() > 0;
    let ghost start = root_state(*rs);
    let mut st = State::root(rs);
    let mut i: usize = 0;
    proof {
        root_is_playing(*rs);
        assert(all.skip(0) =~= all);
    }
    while i < toks.len()
        invariant
            i <= toks@.len(),
            text::pieces(toks@) == all,
            rs.seated(),
            playing(st, *rs),
            keep == (|t: Seq<char>| t.len() > 0),
            walked(*rs, start, all.filter(keep)) == walked(*rs, st, all.skip(i as int).filter(keep)),
            start == root_state(*rs),
            all == text::split(path@, '-'),
        decreases toks@.len() - i,
    {
        let ghost tok = all[i as int];
        proof {
            assert(tok == toks@[i as int]@);
            assert(all.skip(i as int) =~= seq![tok] + all.skip(i + 1));
            lemma_filter_first(tok, all.skip(i + 1), keep);
        }
        if toks[i].len() > 0 {
            let ghost rest = all.skip(i + 1).filter(keep);
            assert((seq![tok] + rest).drop_first() =~= rest);
            if st.to_act().is_none() {
                return Err(PathError::PastTerminal(text::string_of(toks[i].as_slice())));
            }
            let mut legal: Vec<Action> = Vec::new();
            st.legal(rs, &mut legal);
            match find_by_token(&legal, toks[i].as_slice()) {
                Some(a) => {
                    proof {
                        lemma_by_token_member(legal@, tok);
                        play_goes_on(st, *rs, a);
                    }
                    st = st.apply(rs, a);
                },
                None => {
                    return Err(PathError::Illegal(text::string_of(toks[i].as_slice()), legal));
                },
            }
        }
        i = i + 1;
    }
    proof {
        assert(all.skip(i as int) =~= Seq::empty());
        reveal(Seq::filter);
    }
    Ok(st)
}

proof fn lemma_by_token_member(acts: Seq<Action>, tok: Seq<char>)
    ensures
        by_token(acts, tok) matches Some(a) ==> acts.contains(a),
    decreases acts.len(),
{
    if acts.len() > 0 {
        if acts[0].token_text() == tok {
            assert(acts.contains(acts[0]));
        } else {
            lemma_by_token_member(acts.drop_first(), tok);
            if let Some(a) = by_token(acts.drop_first(), tok) {
                let i = choose|i: int| 0 <= i < acts.drop_first().len() && acts.drop_first()[i] == a;
                assert(acts[i + 1] == a);
            }
        }
    }
}

/// Filtering a list with one more item in front.
pub proof fn lemma_filter_first<T>(x: T, s: Seq<T>, keep: spec_fn(T) -> bool)
    ensures
        (seq![x] + s).filter(keep) == if keep(x) {
            seq![x] + s.filter(keep)
        } else {
            s.filter(keep)
        },
    decreases s.len(),
{
    reveal(Seq::filter);
    if s.len() == 0 {
        assert((seq![x] + s).drop_last() =~= Seq::empty());
        assert((seq![x] + s).last() == x);
        assert(Seq::<T>::empty().filter(keep) =~= Seq::empty());
        assert(s =~= Seq::empty());
        assert(seq![x] + s.filter(keep) =~= seq![x]);
    } else {
        lemma_filter_first(x, s.drop_last(), keep);
        assert((seq![x] + s).drop_last() =~= seq![x] + s.drop_last());
        assert((seq![x] + s).last() == s.last());
        assert((seq![x] + s.drop_last().filter(keep)).push(s.last()) =~= seq![x]
            + s.drop_last().filter(keep).push(s.last()));
    }
}

// ---------------------------------------------------------------- laws of play

/// No seat has put in more than the bet to match, nor more than its stack.
pub open spec fn chips_sound(s: State, rs: Ruleset) -> bool {
    forall|i: int|
        0 <= i < 6 ==> (#[trigger] s.committed[i]) <= s.cur_bet && s.committed[i] <= rs.stack_cb
}

/// Only the actor's chips move and no chips come back, where a raise exceeds the
/// bet.
pub proof fn only_the_actor_pays(s: State, rs: Ruleset, a: Action)
    requires
        playing(s, rs),
        s.actor != CLOSED,
        legal_actions(s, rs).contains(a),
        chips_sound(s, rs),
        a matches Action::RaiseTo(x) ==> x > s.cur_bet,
    ensures
        chips_sound(applied(s, rs, a), rs),
        forall|i: int|
            0 <= i < 6 ==> (#[trigger] applied(s, rs, a).committed[i]) >= s.committed[i] && (i
                != s.actor ==> applied(s, rs, a).committed[i] == s.committed[i]),
{
    legal_shape(s, rs, a);
    assert(s.committed[s.actor as int] <= s.cur_bet);
}

/// A seat that has folded stays out, and only the actor can fold.
pub proof fn folds_are_final(s: State, rs: Ruleset, a: Action, i: int)
    requires
        s.actor < 6,
        0 <= i < 8,
    ensures
        seated_in(applied(s, rs, a).folded, i) == (seated_in(s.folded, i) || (a is Fold && i
            == s.actor)),
{
    lemma_with_seat(s.folded, s.actor as int, i);
}

/// A state resolves exactly when nobody is to act.
pub proof fn resolved_when_closed(s: State, rs: Ruleset)
    ensures
        outcome(s, rs) is Some <==> s.actor == CLOSED,
{
}

/// The bytes under the key determine the state: states are merged only where
/// they are equal, up to a collision of the hash.
pub proof fn key_bytes_determine_state(s: State, t: State)
    requires
        s.key_bytes() == t.key_bytes(),
    ensures
        s == t,
{
    let (a, b) = (s.key_bytes(), t.key_bytes());
    assert(a[0] == s.actor && b[0] == t.actor);
    assert(a[1] == s.folded && b[1] == t.folded);
    assert(a[2] == s.all_in && b[2] == t.all_in);
    assert(a[3] == s.level && b[3] == t.level);
    assert(a[4] == b[4]);
    assert(a.subrange(5, 9) =~= fnv::le4(s.cur_bet));
    assert(b.subrange(5, 9) =~= fnv::le4(t.cur_bet));
    fnv::lemma_le4_injective(s.cur_bet, t.cur_bet);
    assert(a.subrange(9, 13) =~= fnv::le4(s.committed[0]));
    assert(b.subrange(9, 13) =~= fnv::le4(t.committed[0]));
    fnv::lemma_le4_injective(s.committed[0], t.committed[0]);
    assert(a.subrange(13, 17) =~= fnv::le4(s.committed[1]));
    assert(b.subrange(13, 17) =~= fnv::le4(t.committed[1]));
    fnv::lemma_le4_injective(s.committed[1], t.committed[1]);
    assert(a.subrange(17, 21) =~= fnv::le4(s.committed[2]));
    assert(b.subrange(17, 21) =~= fnv::le4(t.committed[2]));
    fnv::lemma_le4_injective(s.committed[2], t.committed[2]);
    assert(a.subrange(21, 25) =~= fnv::le4(s.committed[3]));
    assert(b.subrange(21, 25) =~= fnv::le4(t.committed[3]));
    fnv::lemma_le4_injective(s.committed[3], t.committed[3]);
    assert(a.subrange(25, 29) =~= fnv::le4(s.committed[4]));
    assert(b.subrange(25, 29) =~= fnv::le4(t.committed[4]));
    fnv::lemma_le4_injective(s.committed[4], t.committed[4]);
    assert(a.subrange(29, 33) =~= fnv::le4(s.committed[5]));
    assert(b.subrange(29, 33) =~= fnv::le4(t.committed[5]));
    fnv::lemma_le4_injective(s.committed[5], t.committed[5]);
    lemma_array_eq(s.committed, t.committed);
}

// ---------------------------------------------------------------- the whole tree

/// How many of the first `n` seats still owe chips.
pub open spec fn count_owing(s: State, n: int) -> int
    decreases n,
{
    if n <= 0 {
        0
    } else {
        count_owing(s, n - 1) + if owes(s, n - 1) {
            1int
        } else {
            0int
        }
    }
}

/// What is left to happen: raises to come weigh most, then seats in the hand and
/// seats that owe chips.
pub open spec fn remaining(s: State, rs: Ruleset) -> int {
    let n = rs.seats@.len() as int;
    let raises: int = if s.cur_bet >= rs.stack_cb {
        0
    } else if s.level >= 3 {
        1
    } else {
        4 - s.level
    };
    13 * raises + count_out(s.folded, n) + count_owing(s, n)
}

proof fn lemma_counts_range(s: State, n: int)
    requires
        n >= 0,
    ensures
        0 <= count_owing(s, n) <= n,
        0 <= count_out(s.folded, n) <= n,
    decreases n,
{
    if n > 0 {
        lemma_counts_range(s, n - 1);
    }
}

proof fn lemma_fold_counts(s: State, t: State, me: int, n: int)
    requires
        0 <= n <= 6,
        0 <= me < 6,
        t.folded == with_seat(s.folded, me),
        t.all_in == s.all_in,
        t.committed == s.committed,
        t.cur_bet == s.cur_bet,
    ensures
        count_owing(t, n) <= count_owing(s, n),
        count_out(t.folded, n) == count_out(s.folded, n) - if me < n && !seated_in(s.folded, me) {
            1int
        } else {
            0int
        },
    decreases n,
{
    if n > 0 {
        lemma_fold_counts(s, t, me, n - 1);
        lemma_with_seat(s.folded, me, n - 1);
        lemma_with_seat(s.folded, me, me);
    }
}

proof fn lemma_call_counts(s: State, t: State, me: int, n: int)
    requires
        0 <= n <= 6,
        0 <= me < 6,
        t.folded == s.folded,
        t.all_in == s.all_in || t.all_in == with_seat(s.all_in, me),
        t.cur_bet == s.cur_bet,
        t.committed[me] == s.cur_bet,
        forall|i: int| 0 <= i < 6 && i != me ==> t.committed[i] == s.committed[i],
    ensures
        count_owing(t, n) == count_owing(s, n) - if me < n && owes(s, me) {
            1int
        } else {
            0int
        },
    decreases n,
{
    if n > 0 {
        lemma_call_counts(s, t, me, n - 1);
        lemma_with_seat(s.all_in, me, n - 1);
    }
}

/// Every legal action leaves less to happen, so every hand ends.
pub proof fn betting_ends(s: State, rs: Ruleset, a: Action)
    requires
        playing(s, rs),
        s.actor != CLOSED,
        legal_actions(s, rs).contains(a),
    ensures
        0 <= remaining(applied(s, rs, a), rs) < remaining(s, rs),
{
    let n = rs.seats@.len() as int;
    let me = s.actor as int;
    let t = acted(s, rs, a);
    let u = applied(s, rs, a);
    legal_shape(s, rs, a);
    lemma_counts_range(s, n);
    lemma_counts_range(u, n);
    lemma_owing_ignores_actor(t, u, n);
    match a {
        Action::Fold => {
            lemma_fold_counts(s, t, me, n);
        },
        Action::Call => {
            lemma_call_counts(s, t, me, n);
        },
        _ => {},
    }
}

proof fn lemma_owing_ignores_actor(t: State, u: State, n: int)
    requires
        t.folded == u.folded,
        t.all_in == u.all_in,
        t.committed == u.committed,
        t.cur_bet == u.cur_bet,
    ensures
        count_owing(t, n) == count_owing(u, n),
    decreases n,
{
    if n > 0 {
        lemma_owing_ignores_actor(t, u, n - 1);
    }
}

/// Counts over a tree, not limited in size.
#[verifier::ext_equal]
pub struct Tally {
    pub decisions: nat,
    pub keys: Set<u64>,
    pub edges: nat,
    pub fold_wins: nat,
    pub allin_2way: nat,
    pub allin_multi: nat,
    pub flop_2way: nat,
    pub flop_multi: nat,
    pub max_depth: nat,
}

/// Counts of nothing.
pub open spec fn no_tally() -> Tally {
    Tally {
        decisions: 0,
        keys: Set::empty(),
        edges: 0,
        fold_wins: 0,
        allin_2way: 0,
        allin_multi: 0,
        flop_2way: 0,
        flop_multi: 0,
        max_depth: 0,
    }
}

/// Two counts together.
pub open spec fn tally_sum(a: Tally, b: Tally) -> Tally {
    Tally {
        decisions: a.decisions + b.decisions,
        keys: a.keys.union(b.keys),
        edges: a.edges + b.edges,
        fold_wins: a.fold_wins + b.fold_wins,
        allin_2way: a.allin_2way + b.allin_2way,
        allin_multi: a.allin_multi + b.allin_multi,
        flop_2way: a.flop_2way + b.flop_2way,
        flop_multi: a.flop_multi + b.flop_multi,
        max_depth: if a.max_depth >= b.max_depth {
            a.max_depth
        } else {
            b.max_depth
        },
    }
}

/// The count of one end of betting, reached after `depth` actions.
pub open spec fn leaf_tally(t: Terminal, n: int, depth: nat) -> Tally {
    let z = Tally { max_depth: depth, ..no_tally() };
    match t {
        Terminal::FoldWin { winner } => Tally { fold_wins: 1, ..z },
        Terminal::AllInShowdown { players } => if count_in(players, n) == 2 {
            Tally { allin_2way: 1, ..z }
        } else {
            Tally { allin_multi: 1, ..z }
        },
        Terminal::SeeFlop { players } => if count_in(players, n) == 2 {
            Tally { flop_2way: 1, ..z }
        } else {
            Tally { flop_multi: 1, ..z }
        },
    }
}

/// The counts of the whole tree below `s`, itself included.
pub open spec fn tree_tally(rs: Ruleset, s: State, depth: nat) -> Tally
    decreases remaining(s, rs), 1int, 0nat,
    when playing(s, rs) && remaining(s, rs) >= 0
{
    if s.actor == CLOSED {
        leaf_tally(outcome(s, rs)->0, rs.seats@.len() as int, depth)
    } else {
        branch_tally(rs, s, depth, legal_actions(s, rs).len())
    }
}

/// The counts of `s` itself and of the trees below its first `k` actions.
pub open spec fn branch_tally(rs: Ruleset, s: State, depth: nat, k: nat) -> Tally
    decreases remaining(s, rs), 0int, k,
    when playing(s, rs) && remaining(s, rs) >= 0 && s.actor != CLOSED && k <= legal_actions(
        s,
        rs,
    ).len()
    via branch_tally_ends
{
    if k == 0 {
        Tally {
            decisions: 1,
            keys: set![fnv::fnv(s.key_bytes())],
            edges: legal_actions(s, rs).len(),
            max_depth: depth,
            ..no_tally()
        }
    } else {
        tally_sum(
            branch_tally(rs, s, depth, (k - 1) as nat),
            tree_tally(rs, applied(s, rs, legal_actions(s, rs)[k - 1]), depth + 1),
        )
    }
}

#[via_fn]
proof fn branch_tally_ends(rs: Ruleset, s: State, depth: nat, k: nat) {
    if k > 0 {
        let l = legal_actions(s, rs);
        assert(l.contains(l[k - 1]));
        betting_ends(s, rs, l[k - 1]);
    }
}

/// The ends of betting in a count.
pub open spec fn ends_of(t: Tally) -> nat {
    t.fold_wins + t.allin_2way + t.allin_multi + t.flop_2way + t.flop_multi
}

/// Every action of a tree leads to a decision or to an end, and to each of them
/// but the first one action leads.
pub proof fn every_action_leads_somewhere(rs: Ruleset, s: State, depth: nat)
    requires
        playing(s, rs),
        remaining(s, rs) >= 0,
    ensures
        ({
            let t = tree_tally(rs, s, depth);
            t.edges + 1 == t.decisions + ends_of(t)
        }),
    decreases remaining(s, rs), 1int, 0nat,
{
    if s.actor != CLOSED {
        lemma_branch_edges(rs, s, depth, legal_actions(s, rs).len());
    }
}

proof fn lemma_branch_edges(rs: Ruleset, s: State, depth: nat, k: nat)
    requires
        playing(s, rs),
        remaining(s, rs) >= 0,
        s.actor != CLOSED,
        k <= legal_actions(s, rs).len(),
    ensures
        ({
            let t = branch_tally(rs, s, depth, k);
            t.edges + k + 1 == t.decisions + ends_of(t) + legal_actions(s, rs).len()
        }),
    decreases remaining(s, rs), 0int, k,
{
    if k > 0 {
        let l = legal_actions(s, rs);
        assert(l.contains(l[k - 1]));
        betting_ends(s, rs, l[k - 1]);
        play_goes_on(s, rs, l[k - 1]);
        lemma_branch_edges(rs, s, depth, (k - 1) as nat);
        every_action_leads_somewhere(rs, applied(s, rs, l[k - 1]), depth + 1);
    }
}

/// Counts of a tree.
#[derive(Debug, Clone, Copy, PartialEq, Eq)]
pub struct TreeStats {
    /// Nodes at which someone acts.
    pub decisions: u64,
    /// Distinct keys of those nodes.
    pub states: u64,
    /// Actions out of those nodes.
    pub edges: u64,
    /// Hands won because everyone else folded.
    pub fold_wins: u64,
    /// All-in showdowns of two players.
    pub allin_2way: u64,
    /// All-in showdowns of more.
    pub allin_multi: u64,
    /// Flops seen by two players.
    pub flop_2way: u64,
    /// Flops seen by more.
    pub flop_multi: u64,
    /// Longest sequence of actions.
    pub max_depth: u32,
}

/// A count as far as 64 bits hold it.
pub open spec fn capped(n: nat) -> u64 {
    if n > u64::MAX {
        u64::MAX
    } else {
        n as u64
    }
}

/// `st` shows the counts `t`, but for the number of keys.
pub open spec fn shows(st: TreeStats, t: Tally) -> bool {
    &&& st.decisions == capped(t.decisions)
    &&& st.edges == capped(t.edges)
    &&& st.fold_wins == capped(t.fold_wins)
    &&& st.allin_2way == capped(t.allin_2way)
    &&& st.allin_multi == capped(t.allin_multi)
    &&& st.flop_2way == capped(t.flop_2way)
    &&& st.flop_multi == capped(t.flop_multi)
    &&& st.max_depth == t.max_depth
}

fn walk(
    rs: &Ruleset,
    st: State,
    depth: u32,
    stats: &mut TreeStats,
    keys: &mut std::collections::HashSet<u64>,
    Ghost(seen): Ghost<Tally>,
)
    requires
        playing(st, *rs),
        depth + remaining(st, *rs) <= 1000,
        shows(*old(stats), seen),
        old(keys)@ == seen.keys,
    ensures
        shows(*final(stats), tally_sum(seen, tree_tally(*rs, st, depth as nat))),
        final(keys)@ == tally_sum(seen, tree_tally(*rs, st, depth as nat)).keys,
        final(stats).states == old(stats).states,
    decreases remaining(st, *rs),
{
    broadcast use vstd::std_specs::hash::group_hash_axioms;

    proof {
        lemma_counts_range(st, rs.seats@.len() as int);
    }
    if depth > stats.max_depth {
        stats.max_depth = depth;
    }
    match st.terminal(rs) {
        Some(t) => {
            let n: usize = rs.n();
            match t {
                Terminal::FoldWin { winner: _ } => {
                    stats.fold_wins = stats.fold_wins.saturating_add(1);
                },
                Terminal::AllInShowdown { players } => {
                    if seats_in(players, n) == 2 {
                        stats.allin_2way = stats.allin_2way.saturating_add(1);
                    } else {
                        stats.allin_multi = stats.allin_multi.saturating_add(1);
                    }
                },
                Terminal::SeeFlop { players } => {
                    if seats_in(players, n) == 2 {
                        stats.flop_2way = stats.flop_2way.saturating_add(1);
                    } else {
                        stats.flop_multi = stats.flop_multi.saturating_add(1);
                    }
                },
            }
            assert(seen.keys.union(Set::<u64>::empty()) =~= seen.keys);
        },
        None => {
            stats.decisions = stats.decisions.saturating_add(1);
            let key: u64 = st.key();
            keys.insert(key);
            let mut acts: Vec<Action> = Vec::new();
            st.legal(rs, &mut acts);
            stats.edges = stats.edges.saturating_add(acts.len() as u64);
            let ghost mut now = tally_sum(seen, branch_tally(*rs, st, depth as nat, 0));
            assert(now.keys =~= seen.keys.insert(fnv::fnv(st.key_bytes())));
            let mut i: usize = 0;
            while i < acts.len()
                invariant
                    i <= acts@.len(),
                    playing(st, *rs),
                    st.actor != CLOSED,
                    remaining(st, *rs) >= 0,
                    acts@ == legal_actions(st, *rs),
                    depth + remaining(st, *rs) <= 1000,
                    now == tally_sum(seen, branch_tally(*rs, st, depth as nat, i as nat)),
                    shows(*stats, now),
                    keys@ == now.keys,
                    stats.states == old(stats).states,
                decreases acts@.len() - i,
            {
                let a = acts[i];
                proof {
                    assert(acts@.contains(a));
                    betting_ends(st, *rs, a);
                    play_goes_on(st, *rs, a);
                }
                let next = st.apply(rs, a);
                walk(rs, next, depth + 1, stats, keys, Ghost(now));
                proof {
                    let b = branch_tally(*rs, st, depth as nat, i as nat);
                    let c = tree_tally(*rs, next, depth as nat + 1);
                    assert(tally_sum(tally_sum(seen, b), c) =~= tally_sum(seen, tally_sum(b, c)))
                        by {
                        assert(seen.keys.union(b.keys).union(c.keys) =~= seen.keys.union(
                            b.keys.union(c.keys),
                        ));
                    }
                    now = tally_sum(seen, tally_sum(b, c));
                }
                i = i + 1;
            }
        },
    }
}

/// Walks the whole game and counts. A count stops at the largest number of 64
/// bits.
pub fn tree_stats(rs: &Ruleset) -> (r: TreeStats)
    requires
        rs.seated(),
    ensures
        shows(r, tree_tally(*rs, root_state(*rs), 0)),
        r.states == tree_tally(*rs, root_state(*rs), 0).keys.len(),
{
    broadcast use vstd::std_specs::hash::group_hash_axioms;

    let mut stats = TreeStats {
        decisions: 0,
        states: 0,
        edges: 0,
        fold_wins: 0,
        allin_2way: 0,
        allin_multi: 0,
        flop_2way: 0,
        flop_multi: 0,
        max_depth: 0,
    };
    let mut keys: std::collections::HashSet<u64> = std::collections::HashSet::new();
    proof {
        root_is_playing(*rs);
        lemma_counts_range(root_state(*rs), rs.seats@.len() as int);
    }
    let root = State::root(rs);
    walk(rs, root, 0, &mut stats, &mut keys, Ghost(no_tally()));
    proof {
        let t = tree_tally(*rs, root_state(*rs), 0);
        assert(tally_sum(no_tally(), t) =~= t) by {
            assert(Set::<u64>::empty().union(t.keys) =~= t.keys);
        }
    }
    stats.states = keys.len() as u64;
    stats
}

/// A number is rounded to a multiple of the distance of its neighbours, and to none
/// that is farther away than half of it; below 2^24 it stays as it is.
pub proof fn rounding_goes_to_the_nearest(x: int)
    requires
        0 <= x,
    ensures
        grid(x) > 0,
        rounded(x) % grid(x) == 0,
        2 * (rounded(x) - x) <= grid(x),
        2 * (x - rounded(x)) <= grid(x),
        x < 0x100_0000 ==> rounded(x) == x,
{
    lemma_grid_positive(x);
    let g = grid(x);
    let q = x / g;
    let rem = x % g;
    vstd::arithmetic::div_mod::lemma_fundamental_div_mod(x, g);
    vstd::arithmetic::div_mod::lemma_mod_bound(x, g);
    assert(q * g == g * q) by (nonlinear_arith);
    assert((q + 1) * g == g * q + g) by (nonlinear_arith);
    vstd::arithmetic::div_mod::lemma_mod_multiples_basic(q, g);
    vstd::arithmetic::div_mod::lemma_mod_multiples_basic(q + 1, g);
}

proof fn lemma_grid_positive(x: int)
    ensures
        grid(x) > 0,
    decreases x,
{
    if x >= 0x100_0000 {
        lemma_grid_positive(x / 2);
    }
}

/// A raise goes to the whole amount nearest to the product, as long as it can be
/// held.
pub proof fn raises_go_to_the_nearest_amount(bet: int, mult: int)
    requires
        0 <= bet,
        0 <= mult,
    ensures
        ({
            let p = rounded(rounded(bet) * mult);
            &&& raise_to(bet, mult) < u32::MAX ==> 2 * (raise_to(bet, mult) * 0x80_0000 - p)
                <= 0x80_0000
            &&& raise_to(bet, mult) < u32::MAX ==> 2 * (p - raise_to(bet, mult) * 0x80_0000)
                <= 0x80_0000
            &&& raise_to(bet, mult) <= u32::MAX
        }),
{
}

/// Every seat is in the mask or not.
pub proof fn seats_are_in_or_out(mask: u8, n: int)
    requires
        0 <= n,
    ensures
        count_in(mask, n) + count_out(mask, n) == n,
        0 <= count_in(mask, n),
        0 <= count_out(mask, n),
    decreases n,
{
    if n > 0 {
        seats_are_in_or_out(mask, n - 1);
    }
}

/// The seats in the mask are counted.
pub proof fn seats_are_counted(mask: u8, n: int)
    requires
        0 <= n,
    ensures
        Set::new(|i: int| 0 <= i < n && seated_in(mask, i)).finite(),
        count_in(mask, n) == Set::new(|i: int| 0 <= i < n && seated_in(mask, i)).len(),
    decreases n,
{
    let now = Set::new(|i: int| 0 <= i < n && seated_in(mask, i));
    if n > 0 {
        seats_are_counted(mask, n - 1);
        let before = Set::new(|i: int| 0 <= i < n - 1 && seated_in(mask, i));
        if seated_in(mask, n - 1) {
            assert(now =~= before.insert(n - 1));
        } else {
            assert(now =~= before);
        }
    } else {
        assert(now =~= Set::empty());
    }
}

/// The lowest seat of a mask is in it and none before it is.
pub proof fn the_lowest_seat_is_found(mask: u8, n: int, from: int)
    requires
        0 <= from <= n,
    ensures
        from <= lowest(mask, n, from) <= n,
        lowest(mask, n, from) < n ==> seated_in(mask, lowest(mask, n, from)),
        forall|i: int| from <= i < lowest(mask, n, from) ==> !#[trigger] seated_in(mask, i),
    decreases n - from,
{
    if from < n && !seated_in(mask, from) {
        the_lowest_seat_is_found(mask, n, from + 1);
    }
}

/// A hand that everyone but one seat folded is won by that seat.
pub proof fn the_last_seat_in_wins(s: State, rs: Ruleset)
    requires
        rs.seated(),
        outcome(s, rs) matches Some(Terminal::FoldWin { winner: _ }),
    ensures
        outcome(s, rs) matches Some(Terminal::FoldWin { winner }) && winner < rs.seats@.len()
            && !seated_in(s.folded, winner as int) && forall|i: int|
            0 <= i < rs.seats@.len() && i != winner ==> #[trigger] seated_in(s.folded, i),
{
    let n = rs.seats@.len() as int;
    let live = live_mask(s.folded, n);
    lemma_live_seats(s.folded, n);
    let w = lowest(live, n, 0);
    the_lowest_seat_is_found(live, n, 0);
    lemma_one_out(s.folded, n);
    let k = choose|k: int|
        0 <= k < n && !(#[trigger] seated_in(s.folded, k)) && forall|i: int|
            0 <= i < n && i != k ==> #[trigger] seated_in(s.folded, i);
    assert(seated_in(live, k) == !seated_in(s.folded, k));
    assert(w <= k) by {
        if k < w {
            assert(!seated_in(live, k));
        }
    }
    assert(seated_in(live, w) == !seated_in(s.folded, w));
}

proof fn lemma_live_seats(folded: u8, n: int)
    requires
        2 <= n <= 6,
    ensures
        forall|i: int|
            0 <= i < n ==> #[trigger] seated_in(live_mask(folded, n), i) == !seated_in(folded, i),
{
    assert forall|i: int| 0 <= i < n implies #[trigger] seated_in(live_mask(folded, n), i)
        == !seated_in(folded, i) by {
        lemma_live_mask(folded, n, i);
    }
}

proof fn lemma_none_out(mask: u8, n: int)
    requires
        0 <= n,
        count_out(mask, n) == 0,
    ensures
        forall|i: int| 0 <= i < n ==> #[trigger] seated_in(mask, i),
    decreases n,
{
    if n > 0 {
        seats_are_in_or_out(mask, n - 1);
        lemma_none_out(mask, n - 1);
    }
}

proof fn lemma_one_out(mask: u8, n: int)
    requires
        0 <= n,
        count_out(mask, n) == 1,
    ensures
        exists|k: int|
            0 <= k < n && !(#[trigger] seated_in(mask, k)) && forall|i: int|
                0 <= i < n && i != k ==> #[trigger] seated_in(mask, i),
    decreases n,
{
    if n > 0 {
        seats_are_in_or_out(mask, n - 1);
        if seated_in(mask, n - 1) {
            lemma_one_out(mask, n - 1);
            let k = choose|k: int|
                0 <= k < n - 1 && !(#[trigger] seated_in(mask, k)) && forall|i: int|
                    0 <= i < n - 1 && i != k ==> #[trigger] seated_in(mask, i);
            assert(!seated_in(mask, k));
        } else {
            lemma_none_out(mask, n - 1);
            assert(!seated_in(mask, n - 1));
        }
    }
}

/// The seat to act next is the first after the actor, going round, that is in the
/// hand with chips left and has not matched the bet; there is none only where no
/// seat owes.
pub proof fn the_next_seat_that_owes_acts(s: State, me: int, n: int, k: int)
    requires
        1 <= k <= n + 1,
        0 <= me,
        2 <= n <= 6,
    ensures
        next_owing(s, me, n, k) == CLOSED as int <==> forall|d: int|
            k <= d <= n ==> !owes(s, #[trigger] ((me + d) % n)),
        next_owing(s, me, n, k) != CLOSED as int ==> exists|d: int|
            k <= d <= n && next_owing(s, me, n, k) == #[trigger] ((me + d) % n) && owes(
                s,
                (me + d) % n,
            ) && forall|e: int| k <= e < d ==> !owes(s, #[trigger] ((me + e) % n)),
    decreases n + 1 - k,
{
    if k <= n {
        vstd::arithmetic::div_mod::lemma_mod_bound(me + k, n);
        if owes(s, (me + k) % n) {
            assert(next_owing(s, me, n, k) == (me + k) % n);
        } else {
            the_next_seat_that_owes_acts(s, me, n, k + 1);
            if next_owing(s, me, n, k) != CLOSED as int {
                let d = choose|d: int|
                    k + 1 <= d <= n && next_owing(s, me, n, k + 1) == #[trigger] ((me + d) % n)
                        && owes(s, (me + d) % n) && forall|e: int|
                        k + 1 <= e < d ==> !owes(s, #[trigger] ((me + e) % n));
                assert(next_owing(s, me, n, k) == (me + d) % n);
            }
        }
    }
}

/// What is offered: folding always; calling once there was a raise; raising to each
/// amount of the menu below the stack, as long as the bet is; each action once.
pub proof fn the_menu_is_offered(s: State, rs: Ruleset, x: u32)
    requires
        forall|i: int| 0 <= i < menu(s, rs).len() ==> 0 <= #[trigger] menu(s, rs)[i] <= u32::MAX,
    ensures
        legal_actions(s, rs).contains(Action::Fold),
        legal_actions(s, rs).contains(Action::Call) <==> s.level > 0,
        legal_actions(s, rs).contains(Action::RaiseTo(x)) <==> s.cur_bet < rs.stack_cb && x
            < rs.stack_cb && menu(s, rs).contains(x as int),
        legal_actions(s, rs).contains(Action::AllIn) <==> s.cur_bet < rs.stack_cb && may_jam(s, rs),
        legal_actions(s, rs).no_duplicates(),
{
    let p = passive(s);
    let m = menu(s, rs);
    assert(p[0] == Action::Fold);
    assert(p.contains(Action::Call) <==> s.level > 0) by {
        if s.level > 0 {
            assert(p[1] == Action::Call);
        }
    }
    assert(!p.contains(Action::RaiseTo(x)) && !p.contains(Action::AllIn));
    let stack = rs.stack_cb as int;
    lemma_with_raises(p, m, stack, x);
    let a = with_raises(p, m, stack);
    let l = legal_actions(s, rs);
    assert forall|y: u32| !#[trigger] p.contains(Action::RaiseTo(y)) by {}
    if s.cur_bet < rs.stack_cb && may_jam(s, rs) {
        assert(l == a.push(Action::AllIn));
        assert(l[a.len() as int] == Action::AllIn);
        assert forall|b: Action| #[trigger] l.contains(b) == (a.contains(b) || b == Action::AllIn) by {
            if a.contains(b) {
                let i = a.index_of(b);
                assert(l[i] == b);
            }
            if l.contains(b) {
                let i = l.index_of(b);
                if i < a.len() {
                    assert(a[i] == b);
                }
            }
        }
        assert(!a.contains(Action::AllIn));
    }
    assert(p.contains(Action::Fold));
}

proof fn lemma_with_raises(acts: Seq<Action>, raises: Seq<int>, stack: int, x: u32)
    requires
        forall|i: int| 0 <= i < raises.len() ==> 0 <= #[trigger] raises[i] <= u32::MAX,
        acts.no_duplicates(),
    ensures
        with_raises(acts, raises, stack).no_duplicates(),
        with_raises(acts, raises, stack).contains(Action::RaiseTo(x)) <==> acts.contains(
            Action::RaiseTo(x),
        ) || (x < stack && raises.contains(x as int)),
        forall|b: Action|
            !(b is RaiseTo) ==> #[trigger] with_raises(acts, raises, stack).contains(b)
                == acts.contains(b),
    decreases raises.len(),
{
    if raises.len() > 0 {
        let rest = raises.drop_last();
        assert forall|i: int| 0 <= i < rest.len() implies 0 <= #[trigger] rest[i] <= u32::MAX by {
            assert(rest[i] == raises[i]);
        }
        lemma_with_raises(acts, rest, stack, x);
        let a = with_raises(acts, rest, stack);
        let r = raises[raises.len() - 1];
        let now = with_raises(acts, raises, stack);
        assert(raises.contains(x as int) <==> rest.contains(x as int) || r == x) by {
            if raises.contains(x as int) {
                let i = raises.index_of(x as int);
                if i < rest.len() {
                    assert(rest[i] == x);
                }
            }
            if rest.contains(x as int) {
                let i = rest.index_of(x as int);
                assert(raises[i] == x);
            }
        }
        if r < stack && !a.contains(Action::RaiseTo(r as u32)) {
            assert forall|b: Action| #[trigger] now.contains(b) == (a.contains(b) || b
                == Action::RaiseTo(r as u32)) by {
                if a.contains(b) {
                    let i = a.index_of(b);
                    assert(now[i] == b);
                }
                if now.contains(b) {
                    let i = now.index_of(b);
                    if i < a.len() {
                        assert(a[i] == b);
                    }
                }
                assert(now[a.len() as int] == Action::RaiseTo(r as u32));
            }
        } else if r < stack && r == x {
            assert(a.contains(Action::RaiseTo(x)));
        }
    } else {
        assert(with_raises(acts, raises, stack) == acts);
    }
}

/// What an action does to the bet and to the actor's chips: a call matches the bet,
/// as far as the stack goes, a raise sets it, an all-in puts in the stack. Who has
/// put in the stack is all in.
pub proof fn actions_move_the_actors_chips(s: State, rs: Ruleset, a: Action)
    requires
        rs.seated(),
        s.actor < rs.seats@.len(),
        s.level < 255,
    ensures
        ({
            let t = applied(s, rs, a);
            let me = s.actor as int;
            &&& a is Fold ==> t.committed == s.committed && t.cur_bet == s.cur_bet && t.level
                == s.level && seated_in(t.folded, me)
            &&& a is Call ==> t.committed[me] <= s.cur_bet && t.committed[me] <= rs.stack_cb && (
            t.committed[me] == s.cur_bet || t.committed[me] == rs.stack_cb) && t.cur_bet
                == s.cur_bet && t.level == s.level && t.folded == s.folded
            &&& a matches Action::RaiseTo(x) ==> t.committed[me] == x && t.cur_bet == x && t.level
                == s.level + 1 && t.folded == s.folded && t.all_in == s.all_in
            &&& a is AllIn ==> t.committed[me] == rs.stack_cb && t.cur_bet == rs.stack_cb
                && t.level == s.level + 1 && seated_in(t.all_in, me) && t.folded == s.folded
            &&& a is Call && s.cur_bet >= rs.stack_cb ==> seated_in(t.all_in, me)
            &&& t.had_caller == (s.had_caller || (a is Call && s.level == 1))
            &&& forall|i: int|
                0 <= i < 6 && i != me ==> (#[trigger] t.committed[i]) == s.committed[i]
        }),
{
    lemma_with_seat(s.folded, s.actor as int, s.actor as int);
    lemma_with_seat(s.all_in, s.actor as int, s.actor as int);
}

/// The pot grows by what the actor puts in, and by nothing else.
pub proof fn the_pot_grows_by_what_is_paid(s: State, rs: Ruleset, a: Action)
    requires
        rs.seated(),
        s.actor < rs.seats@.len(),
        s.level < 255,
    ensures
        pot_of(applied(s, rs, a), rs) - pot_of(s, rs) == applied(s, rs, a).committed[s.actor as int]
            - s.committed[s.actor as int],
{
    actions_move_the_actors_chips(s, rs, a);
    let t = applied(s, rs, a);
    assert(forall|i: int| 0 <= i < 6 && i != s.actor ==> t.committed[i] == s.committed[i]);
    lemma_sums_differ(s, t, s.actor as int, rs.seats@.len() as int);
}

proof fn lemma_sums_differ(s: State, t: State, me: int, n: int)
    requires
        0 <= me < 6,
        0 <= n <= 6,
        forall|i: int| 0 <= i < 6 && i != me ==> (#[trigger] t.committed[i]) == s.committed[i],
    ensures
        committed_sum(t, n) - committed_sum(s, n) == if me < n {
            t.committed[me] - s.committed[me]
        } else {
            0
        },
    decreases n,
{
    if n > 0 {
        lemma_sums_differ(s, t, me, n - 1);
        if me != n - 1 {
            assert(t.committed[n - 1] == s.committed[n - 1]);
        }
    }
}

/// At the root the last two seats have posted the blinds and no other has put in
/// anything; the first seat acts.
pub proof fn the_last_seats_post_the_blinds(rs: Ruleset, i: int)
    requires
        rs.seated(),
        0 <= i < 6,
    ensures
        root_state(rs).committed[i] == if i == rs.seats@.len() - 1 {
            rs.bb_cb
        } else if i == rs.seats@.len() - 2 {
            rs.sb_cb
        } else {
            0
        },
        root_state(rs).cur_bet == rs.bb_cb,
        root_state(rs).actor == 0,
        pot_of(root_state(rs), rs) == rs.sb_cb + rs.bb_cb + rs.seats@.len() * rs.ante_cb,
{
    reveal_with_fuel(committed_sum, 7);
}

/// A token stands for the first action that is written so.
pub proof fn tokens_stand_for_the_first_action(acts: Seq<Action>, tok: Seq<char>, k: int)
    requires
        0 <= k < acts.len(),
        acts[k].token_text() == tok,
        forall|i: int| 0 <= i < k ==> (#[trigger] acts[i]).token_text() != tok,
    ensures
        by_token(acts, tok) == Some(acts[k]),
    decreases k,
{
    if k > 0 {
        let r = acts.drop_first();
        assert(acts[0].token_text() != tok);
        assert(r[k - 1] == acts[k]);
        assert forall|i: int| 0 <= i < k - 1 implies (#[trigger] r[i]).token_text() != tok by {
            assert(r[i] == acts[i + 1]);
        }
        tokens_stand_for_the_first_action(r, tok, k - 1);
    }
}

/// Walking along two stretches of a path is walking along the second from where the
/// first ends.
pub proof fn walks_go_on_where_they_stopped(
    rs: Ruleset,
    st: State,
    first: Seq<Seq<char>>,
    second: Seq<Seq<char>>,
)
    ensures
        walked(rs, st, first) matches Walked::At(t) ==> walked(rs, st, first + second) == walked(
            rs,
            t,
            second,
        ),
        !(walked(rs, st, first) is At) ==> walked(rs, st, first + second) == walked(rs, st, first),
    decreases first.len(),
{
    if first.len() == 0 {
        assert(first + second =~= second);
    } else {
        assert((first + second)[0] == first[0]);
        assert((first + second).drop_first() =~= first.drop_first() + second);
        if st.actor != CLOSED {
            match by_token(legal_actions(st, rs), first[0]) {
                Some(a) => {
                    walks_go_on_where_they_stopped(
                        rs,
                        applied(st, rs, a),
                        first.drop_first(),
                        second,
                    );
                },
                None => {},
            }
        }
    }
}

/// The raises on offer are those of the level: the opening sizes first, then the
/// multiples of the bet for a 3-bet, those for a squeeze where there was a caller,
/// those for a 4-bet, and none after it.
pub proof fn raises_are_those_of_the_level(s: State, rs: Ruleset, i: int)
    ensures
        s.level == 0 ==> menu(s, rs).len() == rs.open_to_cb@.len() && (0 <= i < rs.open_to_cb@.len()
            ==> menu(s, rs)[i] == rs.open_to_cb@[i]),
        s.level == 1 && !s.had_caller ==> menu(s, rs).len() == rs.threebet_mult@.len() && (0 <= i
            < rs.threebet_mult@.len() ==> menu(s, rs)[i] == raise_to(
            s.cur_bet as int,
            rs.threebet_mult@[i] as int,
        )),
        s.level == 1 && s.had_caller ==> menu(s, rs).len() == rs.squeeze_mult@.len() && (0 <= i
            < rs.squeeze_mult@.len() ==> menu(s, rs)[i] == raise_to(
            s.cur_bet as int,
            rs.squeeze_mult@[i] as int,
        )),
        s.level == 2 ==> menu(s, rs).len() == rs.fourbet_mult@.len() && (0 <= i
            < rs.fourbet_mult@.len() ==> menu(s, rs)[i] == raise_to(
            s.cur_bet as int,
            rs.fourbet_mult@[i] as int,
        )),
        s.level >= 3 ==> menu(s, rs).len() == 0,
{
}

/// All-in is on offer from the ruleset's level on, against a 4-bet and more, and
/// where a raise of the menu would take the stack.
pub proof fn jams_are_on_offer(s: State, rs: Ruleset)
    ensures
        s.level >= rs.jam_from_level ==> may_jam(s, rs),
        s.level >= 3 ==> may_jam(s, rs),
        s.level < 3 && s.level < rs.jam_from_level ==> (may_jam(s, rs) <==> exists|i: int|
            0 <= i < menu(s, rs).len() && #[trigger] menu(s, rs)[i] >= rs.stack_cb),
{
}

/// A closed hand with two or more seats left goes to a showdown where the stacks are
/// in and to the flop where they are not, with the seats that have not folded.
pub proof fn who_has_not_folded_plays_on(s: State, rs: Ruleset, i: int)
    requires
        rs.seated(),
        s.actor == CLOSED,
        count_out(s.folded, rs.seats@.len() as int) != 1,
        0 <= i < rs.seats@.len(),
    ensures
        match outcome(s, rs) {
            Some(Terminal::AllInShowdown { players }) => s.cur_bet >= rs.stack_cb && (seated_in(
                players,
                i,
            ) <==> !seated_in(s.folded, i)),
            Some(Terminal::SeeFlop { players }) => s.cur_bet < rs.stack_cb && (seated_in(
                players,
                i,
            ) <==> !seated_in(s.folded, i)),
            _ => false,
        },
{
    lemma_live_mask(s.folded, rs.seats@.len() as int, i);
}

/// A ruleset is accepted exactly where it has 2 to 6 seats, as many payouts as seats
/// where it pays any, sound blinds, opening raises above the big blind, and
/// multiples above one.
pub proof fn sound_rulesets_are_accepted(rs: Ruleset)
    ensures
        rs.objection() is None <==> {
            &&& 2 <= rs.seats@.len() <= 6
            &&& rs.icm_payouts matches Some(p) ==> p@.len() == rs.seats@.len()
            &&& rs.blinds_sound
            &&& forall|i: int|
                0 <= i < rs.open_to_cb@.len() ==> #[trigger] rs.open_to_cb@[i] > rs.bb_cb
            &&& forall|i: int|
                0 <= i < rs.threebet_mult@.len() ==> #[trigger] rs.threebet_mult@[i] > MULT_ONE
            &&& forall|i: int|
                0 <= i < rs.squeeze_mult@.len() ==> #[trigger] rs.squeeze_mult@[i] > MULT_ONE
            &&& forall|i: int|
                0 <= i < rs.fourbet_mult@.len() ==> #[trigger] rs.fourbet_mult@[i] > MULT_ONE
        },
{
}

} // verus!
