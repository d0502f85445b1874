//! Hand histories: reading them and matching them to the formations.
//!
//! Amounts stay as they are printed: a numeral is a row of digits with at most
//! one point among them.

use crate::bits;
use crate::bits::F32;
use crate::order;
use crate::solution;
use crate::solution::Formation;
use crate::text;
use crate::textmap::TextMap;
use vstd::prelude::*;

verus! {

/// One player action. A raise is to the total of the street, everything else
/// adds.
#[derive(Debug, Clone)]
pub enum Act {
    Fold,
    Check,
    Call(String),
    Bet(String),
    RaiseTo(String),
    /// Any blind or ante.
    Post(String),
}

/// What an action is, its amount as text.
pub enum ActView {
    Fold,
    Check,
    Call(Seq<char>),
    Bet(Seq<char>),
    RaiseTo(Seq<char>),
    Post(Seq<char>),
}

impl View for Act {
    type V = ActView;

    open spec fn view(&self) -> ActView {
        match self {
            Act::Fold => ActView::Fold,
            Act::Check => ActView::Check,
            Act::Call(a) => ActView::Call(a@),
            Act::Bet(a) => ActView::Bet(a@),
            Act::RaiseTo(a) => ActView::RaiseTo(a@),
            Act::Post(a) => ActView::Post(a@),
        }
    }
}

/// Who did what.
#[derive(Debug, Clone)]
pub struct Action {
    pub player: String,
    pub act: Act,
}

/// Who did what, as text.
pub struct ActionView {
    pub player: Seq<char>,
    pub act: ActView,
}

impl View for Action {
    type V = ActionView;

    open spec fn view(&self) -> ActionView {
        ActionView { player: self.player@, act: self.act@ }
    }
}

/// The actions of a list.
pub open spec fn actions_of(v: Seq<Action>) -> Seq<ActionView> {
    v.map_values(|a: Action| a@)
}

/// One seat at the table.
#[derive(Debug, Clone)]
pub struct Seat {
    pub number: u32,
    pub name: String,
    /// Chips at the start, as printed.
    pub stack: String,
}

/// One seat, as text.
pub struct SeatView {
    pub number: int,
    pub name: Seq<char>,
    pub stack: Seq<char>,
}

impl View for Seat {
    type V = SeatView;

    open spec fn view(&self) -> SeatView {
        SeatView { number: self.number as int, name: self.name@, stack: self.stack@ }
    }
}

/// The seats of a list.
pub open spec fn seats_of(v: Seq<Seat>) -> Seq<SeatView> {
    v.map_values(|s: Seat| s@)
}

/// One hand as it was read.
#[derive(Debug)]
pub struct RawHand {
    pub id: String,
    /// No-limit hold'em for cash.
    pub nlhe_cash: bool,
    /// Big blind, as printed.
    pub bb: String,
    pub button_seat: u32,
    pub seats: Vec<Seat>,
    pub sb_player: Option<String>,
    pub bb_player: Option<String>,
    pub hero: Option<String>,
    pub hero_cards: Vec<String>,
    /// All cards dealt.
    pub board: Vec<String>,
    /// Posts and preflop actions.
    pub preflop: Vec<Action>,
    pub flop: Vec<Action>,
    pub turn: Vec<Action>,
    pub river: Vec<Action>,
}

/// One hand, as text.
#[verifier::ext_equal]
pub struct HandView {
    pub id: Seq<char>,
    pub nlhe_cash: bool,
    pub bb: Seq<char>,
    pub button_seat: int,
    pub seats: Seq<SeatView>,
    pub sb_player: Option<Seq<char>>,
    pub bb_player: Option<Seq<char>>,
    pub hero: Option<Seq<char>>,
    pub hero_cards: Seq<Seq<char>>,
    pub board: Seq<Seq<char>>,
    pub preflop: Seq<ActionView>,
    pub flop: Seq<ActionView>,
    pub turn: Seq<ActionView>,
    pub river: Seq<ActionView>,
}

/// The text of an optional string.
pub open spec fn opt_text(s: Option<String>) -> Option<Seq<char>> {
    match s {
        Some(t) => Some(t@),
        None => None,
    }
}

impl View for RawHand {
    type V = HandView;

    open spec fn view(&self) -> HandView {
        HandView {
            id: self.id@,
            nlhe_cash: self.nlhe_cash,
            bb: self.bb@,
            button_seat: self.button_seat as int,
            seats: seats_of(self.seats@),
            sb_player: opt_text(self.sb_player),
            bb_player: opt_text(self.bb_player),
            hero: opt_text(self.hero),
            hero_cards: text::texts(self.hero_cards@),
            board: text::texts(self.board@),
            preflop: actions_of(self.preflop@),
            flop: actions_of(self.flop@),
            turn: actions_of(self.turn@),
            river: actions_of(self.river@),
        }
    }
}

// ---------------------------------------------------------------- amounts

/// `s` from its first digit on.
pub open spec fn from_digit(s: Seq<char>) -> Seq<char>
    decreases s.len(),
{
    if s.len() > 0 && !text::is_digit(s[0]) {
        from_digit(s.drop_first())
    } else {
        s
    }
}

/// How many characters at the start of `s`, from `i` on, are digits or points.
pub open spec fn numeral_end(s: Seq<char>, i: int) -> int
    decreases s.len() - i,
{
    if i < s.len() && (text::is_digit(s[i]) || s[i] == '.') {
        numeral_end(s, i + 1)
    } else {
        i
    }
}

/// How many points are in `s`.
pub open spec fn points(s: Seq<char>) -> int
    decreases s.len(),
{
    if s.len() == 0 {
        0
    } else {
        points(s.drop_last()) + if s.last() == '.' {
            1int
        } else {
            0int
        }
    }
}

/// The first numeral of a text, after any currency symbol.
pub open spec fn amount_in(s: Seq<char>) -> Option<Seq<char>> {
    let d = from_digit(s);
    let n = d.take(numeral_end(d, 0));
    if n.len() > 0 && points(n) <= 1 {
        Some(n)
    } else {
        None
    }
}

/// Reads an amount such as `"$1.50"` or `"1.00 USD"`: the numeral in it.
pub fn parse_amount(s: &[char]) -> (r: Option<String>)
    ensures
        r is Some == amount_in(s@) is Some,
        r matches Some(a) ==> amount_in(s@) == Some(a@),
{
    let mut i: usize = 0;
    assert(s@.skip(0) =~= s@);
    while i < s.len() && !('0' <= s[i] && s[i] <= '9')
        invariant
            i <= s@.len(),
            from_digit(s@) == from_digit(s@.skip(i as int)),
        decreases s@.len() - i,
    {
        assert(s@.skip(i as int).drop_first() =~= s@.skip(i + 1));
        i = i + 1;
    }
    let d = text::part(s, i, s.len());
    assert(d@ =~= s@.skip(i as int));
    assert(d@ == from_digit(s@));
    let mut n: usize = 0;
    let mut p: usize = 0;
    while n < d.len() && (('0' <= d[n] && d[n] <= '9') || d[n] == '.')
        invariant
            n <= d@.len(),
            p <= n,
            numeral_end(d@, 0) == numeral_end(d@, n as int),
            p == points(d@.take(n as int)),
        decreases d@.len() - n,
    {
        assert(d@.take(n + 1).drop_last() =~= d@.take(n as int));
        if d[n] == '.' {
            p = p + 1;
        }
        n = n + 1;
    }
    let t = text::part(d.as_slice(), 0, n);
    assert(t@ =~= d@.take(n as int));
    if n > 0 && p <= 1 {
        Some(text::string_of(t.as_slice()))
    } else {
        None
    }
}

// ---------------------------------------------------------------- brackets

/// The words inside the last brackets of a line.
pub open spec fn bracket_words(line: Seq<char>) -> Seq<Seq<char>> {
    let open = text::char_before(line, '[', line.len() as int);
    if open < 0 {
        Seq::empty()
    } else {
        text::words(text::up_to(line.skip(open + 1), ']'))
    }
}

/// The cards inside the last brackets of a line.
pub fn last_bracket(line: &[char]) -> (r: Vec<String>)
    ensures
        text::texts(r@) == bracket_words(line@),
{
    let n: usize = text::after_last_char(line, '[');
    if n == 0 {
        let out: Vec<String> = Vec::new();
        assert(text::texts(out@) =~= Seq::empty());
        return out;
    }
    let rest = text::part(line, n, line.len());
    assert(rest@ =~= line@.skip(n as int));
    let inner = text::cut_at(rest.as_slice(), ']');
    text::words_of(inner.as_slice())
}

// ---------------------------------------------------------------- seats

/// A seat line after `"Seat "`: `N: name ($stack in chips)`.
pub open spec fn seat_in(rest: Seq<char>) -> Option<SeatView> {
    let colon = text::sub_from(rest, ": "@, 0);
    let tail = rest.skip(colon + 2);
    let chips = text::sub_from(tail, " in chips"@, 0);
    let open = text::char_before(tail, '(', chips);
    if colon < 0 || chips < 0 || open < 0 {
        None
    } else {
        let number = text::whole_number(rest.take(colon), u32::MAX as int);
        let stack = amount_in(tail.subrange(open + 1, chips));
        if number is Some && stack is Some {
            Some(
                SeatView {
                    number: number->0,
                    name: text::trimmed(tail.take(open)),
                    stack: stack->0,
                },
            )
        } else {
            None
        }
    }
}

proof fn lemma_char_before_prefix(s: Seq<char>, c: char, n: int)
    requires
        0 <= n <= s.len(),
    ensures
        text::char_before(s, c, n) == text::char_before(s.take(n), c, n),
        -1 <= text::char_before(s, c, n) < n || n == 0,
    decreases n,
{
    if n > 0 {
        lemma_char_before_step(s, c, n, n);
    }
}

proof fn lemma_char_before_step(s: Seq<char>, c: char, n: int, k: int)
    requires
        0 <= k <= n <= s.len(),
    ensures
        text::char_before(s, c, k) == text::char_before(s.take(n), c, k),
        -1 <= text::char_before(s, c, k) < k || k == 0,
    decreases k,
{
    if k > 0 {
        lemma_char_before_step(s, c, n, k - 1);
    }
}

/// Reads the rest of a seat line.
pub fn parse_seat(rest: &[char]) -> (r: Option<Seat>)
    ensures
        r is Some == seat_in(rest@) is Some,
        r matches Some(s) ==> seat_in(rest@) == Some(s@),
{
    proof {
        reveal_strlit(": ");
        reveal_strlit(" in chips");
    }
    let sep = text::chars_of(": ");
    let colon = match text::find_sub(rest, sep.as_slice(), 0) {
        Some(i) => i,
        None => {
            return None;
        },
    };
    let len: usize = rest.len();
    let no = text::part(rest, 0, colon);
    let tail = text::part(rest, colon + 2, len);
    assert(no@ =~= rest@.take(colon as int));
    assert(tail@ =~= rest@.skip(colon + 2));
    let word = text::chars_of(" in chips");
    let chips = match text::find_sub(tail.as_slice(), word.as_slice(), 0) {
        Some(i) => i,
        None => {
            return None;
        },
    };
    let head = text::part(tail.as_slice(), 0, chips);
    assert(head@ =~= tail@.take(chips as int));
    proof {
        lemma_char_before_prefix(tail@, '(', chips as int);
    }
    let n: usize = text::after_last_char(head.as_slice(), '(');
    if n == 0 {
        return None;
    }
    let name = text::part(head.as_slice(), 0, n - 1);
    let money = text::part(head.as_slice(), n, chips);
    assert(name@ =~= tail@.take(n - 1));
    assert(money@ =~= tail@.subrange(n as int, chips as int));
    match (text::parse_whole(no.as_slice(), 0xffff_ffff), parse_amount(money.as_slice())) {
        (Some(number), Some(stack)) => {
            let t = text::trim_chars(name.as_slice());
            Some(Seat { number: number as u32, name: text::string_of(t.as_slice()), stack })
        },
        _ => None,
    }
}

// ---------------------------------------------------------------- verbs

/// The line is an action of the player with this name.
pub open spec fn owned_by(line: Seq<char>, name: Seq<char>) -> bool {
    text::begins(line, name) && text::begins(line.skip(name.len() as int), ": "@)
}

/// The seat, of the first `k`, whose action the line is: of the names that fit
/// the longest, so that no name can take the lines of one it starts.
pub open spec fn owner(line: Seq<char>, seats: Seq<SeatView>, k: int) -> Option<int>
    decreases k,
{
    if k <= 0 {
        None
    } else {
        let before = owner(line, seats, k - 1);
        if owned_by(line, seats[k - 1].name) && (before is None || seats[before->0].name.len()
            <= seats[k - 1].name.len()) {
            Some(k - 1)
        } else {
            before
        }
    }
}

/// The seat whose action the line is, and where its verb starts.
pub fn split_player(line: &[char], seats: &Vec<Seat>) -> (r: Option<(usize, usize)>)
    ensures
        r is Some == owner(line@, seats_of(seats@), seats@.len() as int) is Some,
        r matches Some((i, v)) ==> i < seats@.len() && owner(
            line@,
            seats_of(seats@),
            seats@.len() as int,
        ) == Some(i as int) && v == seats@[i as int].name@.len() + 2 && v <= line@.len(),
{
    proof {
        reveal_strlit(": ");
    }
    let ghost sv = seats_of(seats@);
    let mut best: Option<(usize, usize)> = None;
    let mut k: usize = 0;
    while k < seats.len()
        invariant
            k <= seats@.len(),
            sv == seats_of(seats@),
            ": "@.len() == 2,
            best is Some == owner(line@, sv, k as int) is Some,
            best matches Some((i, v)) ==> i < k && owner(line@, sv, k as int) == Some(i as int)
                && v == seats@[i as int].name@.len() + 2 && v <= line@.len(),
        decreases seats@.len() - k,
    {
        assert(sv[k as int] == seats@[k as int]@);
        let name = text::chars_of(seats[k].name.as_str());
        if text::has_prefix(line, seats[k].name.as_str()) {
            let rest = text::part(line, name.len(), line.len());
            assert(rest@ =~= line@.skip(name@.len() as int));
            if text::has_prefix(rest.as_slice(), ": ") {
                let better = match best {
                    Some((_, v)) => v <= name.len() + 2,
                    None => true,
                };
                proof {
                    if let Some((i, v)) = best {
                        assert(sv[i as int] == seats@[i as int]@);
                    }
                }
                if better {
                    best = Some((k, name.len() + 2));
                }
            }
        }
        k = k + 1;
    }
    best
}

/// The part after the first `" to "`, up to the next.
pub open spec fn raised_part(s: Seq<char>) -> Option<Seq<char>> {
    let i = text::sub_from(s, " to "@, 0);
    if i < 0 {
        None
    } else {
        let rest = s.skip(i + 4);
        let j = text::sub_from(rest, " to "@, 0);
        Some(
            if j < 0 {
                rest
            } else {
                rest.take(j)
            },
        )
    }
}

/// A verb without the mark of an all-in.
pub open spec fn without_all_in(verb: Seq<char>) -> Seq<char> {
    if text::ends(verb, " and is all-in"@) {
        verb.take(verb.len() - " and is all-in"@.len())
    } else {
        verb
    }
}

/// What stands after the last space.
pub open spec fn last_word(s: Seq<char>) -> Seq<char> {
    s.skip(text::char_before(s, ' ', s.len() as int) + 1)
}

/// The action of a verb; verbs without money are no action.
pub open spec fn act_in(verb: Seq<char>) -> Option<ActView> {
    let v = without_all_in(verb);
    if text::begins(v, "folds"@) {
        Some(ActView::Fold)
    } else if v == "checks"@ {
        Some(ActView::Check)
    } else if text::begins(v, "calls "@) {
        match amount_in(v.skip(6)) {
            Some(a) => Some(ActView::Call(a)),
            None => None,
        }
    } else if text::begins(v, "raises "@) {
        match raised_part(v.skip(7)) {
            Some(p) => match amount_in(p) {
                Some(a) => Some(ActView::RaiseTo(a)),
                None => None,
            },
            None => None,
        }
    } else if text::begins(v, "bets "@) {
        match amount_in(v.skip(5)) {
            Some(a) => Some(ActView::Bet(a)),
            None => None,
        }
    } else if text::begins(v, "posts "@) {
        match amount_in(last_word(v)) {
            Some(a) => Some(ActView::Post(a)),
            None => None,
        }
    } else {
        None
    }
}

fn raised_chars(s: &[char]) -> (r: Option<Vec<char>>)
    ensures
        r is Some == raised_part(s@) is Some,
        r matches Some(p) ==> raised_part(s@) == Some(p@),
{
    proof {
        reveal_strlit(" to ");
    }
    let to = text::chars_of(" to ");
    let len: usize = s.len();
    match text::find_sub(s, to.as_slice(), 0) {
        Some(i) => {
            let rest = text::part(s, i + 4, len);
            assert(rest@ =~= s@.skip(i + 4));
            match text::find_sub(rest.as_slice(), to.as_slice(), 0) {
                Some(j) => {
                    let p = text::part(rest.as_slice(), 0, j);
                    assert(p@ =~= rest@.take(j as int));
                    Some(p)
                },
                None => Some(rest),
            }
        },
        None => None,
    }
}

/// Reads the action of a verb.
pub fn parse_act(verb: &[char]) -> (r: Option<Act>)
    ensures
        r is Some == act_in(verb@) is Some,
        r matches Some(a) ==> act_in(verb@) == Some(a@),
{
    proof {
        reveal_strlit(" and is all-in");
        reveal_strlit("calls ");
        reveal_strlit("raises ");
        reveal_strlit("bets ");
    }
    let v = if text::has_suffix(verb, " and is all-in") {
        text::part(verb, 0, verb.len() - 14)
    } else {
        text::part(verb, 0, verb.len())
    };
    assert(v@ =~= without_all_in(verb@));
    if text::has_prefix(v.as_slice(), "folds") {
        return Some(Act::Fold);
    }
    let checks = text::chars_of("checks");
    if text::same_chars(v.as_slice(), checks.as_slice()) {
        return Some(Act::Check);
    }
    if text::has_prefix(v.as_slice(), "calls ") {
        let a = text::part(v.as_slice(), 6, v.len());
        assert(a@ =~= v@.skip(6));
        return match parse_amount(a.as_slice()) {
            Some(x) => Some(Act::Call(x)),
            None => None,
        };
    }
    if text::has_prefix(v.as_slice(), "raises ") {
        let a = text::part(v.as_slice(), 7, v.len());
        assert(a@ =~= v@.skip(7));
        return match raised_chars(a.as_slice()) {
            Some(p) => match parse_amount(p.as_slice()) {
                Some(x) => Some(Act::RaiseTo(x)),
                None => None,
            },
            None => None,
        };
    }
    if text::has_prefix(v.as_slice(), "bets ") {
        let a = text::part(v.as_slice(), 5, v.len());
        assert(a@ =~= v@.skip(5));
        return match parse_amount(a.as_slice()) {
            Some(x) => Some(Act::Bet(x)),
            None => None,
        };
    }
    if text::has_prefix(v.as_slice(), "posts ") {
        let n: usize = text::after_last_char(v.as_slice(), ' ');
        let a = text::part(v.as_slice(), n, v.len());
        assert(a@ =~= last_word(v@));
        return match parse_amount(a.as_slice()) {
            Some(x) => Some(Act::Post(x)),
            None => None,
        };
    }
    None
}

// ---------------------------------------------------------------- hands

/// The seat of the button in a table line, after `"Table '"`: the first word
/// after the last `"Seat #"`, 0 where it is no number.
pub open spec fn button_in(rest: Seq<char>) -> int {
    let at = text::sub_before(rest, "Seat #"@, rest.len() as int);
    let tail = if at < 0 {
        rest
    } else {
        rest.skip(at + 6)
    };
    let w = text::words(tail);
    if w.len() > 0 && text::whole_number(w[0], u32::MAX as int) is Some {
        text::whole_number(w[0], u32::MAX as int)->0
    } else {
        0
    }
}

fn button_of(rest: &[char]) -> (r: u32)
    ensures
        r == button_in(rest@),
{
    proof {
        reveal_strlit("Seat #");
    }
    let mark = text::chars_of("Seat #");
    let len: usize = rest.len();
    let tail = match text::rfind_sub(rest, mark.as_slice()) {
        Some(i) => {
            let t = text::part(rest, i + 6, len);
            assert(t@ =~= rest@.skip(i + 6));
            t
        },
        None => {
            let t = text::part(rest, 0, rest.len());
            assert(t@ =~= rest@);
            t
        },
    };
    let w = text::words_of(tail.as_slice());
    if w.len() == 0 {
        assert(text::texts(w@).len() == 0);
        return 0;
    }
    assert(text::texts(w@)[0] == w@[0]@);
    let c = text::chars_of(w[0].as_str());
    match text::parse_whole(c.as_slice(), 0xffff_ffff) {
        Some(n) => n as u32,
        None => 0,
    }
}

/// The hand with an action added to its street.
pub open spec fn with_action(h: HandView, street: int, a: ActionView) -> HandView {
    if street == 0 {
        HandView { preflop: h.preflop.push(a), ..h }
    } else if street == 1 {
        HandView { flop: h.flop.push(a), ..h }
    } else if street == 2 {
        HandView { turn: h.turn.push(a), ..h }
    } else {
        HandView { river: h.river.push(a), ..h }
    }
}

/// The hand after an action line of seat `i` with this verb.
pub open spec fn after_verb(h: HandView, street: int, i: int, verb: Seq<char>) -> HandView {
    let player = h.seats[i].name;
    let g = if text::begins(verb, "posts small blind"@) {
        HandView { sb_player: Some(player), ..h }
    } else if text::begins(verb, "posts big blind"@) {
        HandView { bb_player: Some(player), ..h }
    } else {
        h
    };
    match act_in(verb) {
        Some(act) => with_action(g, street, ActionView { player, act }),
        None => g,
    }
}

/// Where reading stands: the hand so far, the street (0 before the flop), and
/// whether the hand is over.
#[verifier::ext_equal]
pub struct Reading {
    pub hand: HandView,
    pub street: int,
    pub over: bool,
}

/// What a line of stars does: it starts a street, or ends the hand.
pub open spec fn after_stars(h: HandView, street: int, line: Seq<char>) -> Reading {
    if text::begins(line, "*** FLOP"@) {
        Reading { hand: HandView { board: bracket_words(line), ..h }, street: 1, over: false }
    } else if text::begins(line, "*** TURN"@) {
        Reading {
            hand: HandView { board: h.board + bracket_words(line), ..h },
            street: 2,
            over: false,
        }
    } else if text::begins(line, "*** RIVER"@) {
        Reading {
            hand: HandView { board: h.board + bracket_words(line), ..h },
            street: 3,
            over: false,
        }
    } else if text::begins(line, "*** SHOW DOWN"@) || text::begins(line, "*** SUMMARY"@) {
        Reading { hand: h, street, over: true }
    } else {
        Reading { hand: h, street, over: false }
    }
}

/// What one line does to the hand.
pub open spec fn after_line(h: HandView, street: int, line: Seq<char>) -> Reading {
    let same = Reading { hand: h, street, over: false };
    if text::begins(line, "Table '"@) {
        Reading { hand: HandView { button_seat: button_in(line.skip(7)), ..h }, ..same }
    } else if text::begins(line, "*** "@) {
        after_stars(h, street, line)
    } else if street == 0 && text::begins(line, "Seat "@) {
        match seat_in(line.skip(5)) {
            Some(s) => Reading { hand: HandView { seats: h.seats.push(s), ..h }, ..same },
            None => same,
        }
    } else if text::begins(line, "Dealt to "@) {
        let rest = line.skip(9);
        let open = text::char_before(rest, '[', rest.len() as int);
        if open < 0 {
            same
        } else {
            Reading {
                hand: HandView {
                    hero: Some(text::trimmed(rest.take(open))),
                    hero_cards: bracket_words(rest),
                    ..h
                },
                ..same
            }
        }
    } else {
        match owner(line, h.seats, h.seats.len() as int) {
            Some(i) => Reading {
                hand: after_verb(h, street, i, line.skip(h.seats[i].name.len() as int + 2)),
                ..same
            },
            None => same,
        }
    }
}

fn append_texts(v: &mut Vec<String>, more: Vec<String>)
    ensures
        text::texts(final(v)@) == text::texts(old(v)@) + text::texts(more@),
{
    let ghost start = text::texts(v@);
    let mut i: usize = 0;
    assert(start + text::texts(more@).take(0) =~= start);
    while i < more.len()
        invariant
            i <= more@.len(),
            text::texts(v@) == start + text::texts(more@).take(i as int),
        decreases more@.len() - i,
    {
        let ghost before = v@;
        v.push(more[i].clone());
        proof {
            assert(text::texts(v@) =~= text::texts(before).push(more@[i as int]@));
            assert(text::texts(more@).take(i + 1) =~= text::texts(more@).take(i as int).push(
                more@[i as int]@,
            ));
            assert(start + text::texts(more@).take(i + 1) =~= (start + text::texts(more@).take(
                i as int,
            )).push(more@[i as int]@));
        }
        i = i + 1;
    }
    assert(text::texts(more@).take(i as int) =~= text::texts(more@));
}

fn read_stars(hand: &mut RawHand, street: usize, line: &[char]) -> (r: (usize, bool))
    requires
        street <= 3,
    ensures
        r.0 <= 3,
        (Reading { hand: final(hand)@, street: r.0 as int, over: r.1 }) == after_stars(
            old(hand)@,
            street as int,
            line@,
        ),
{
    let ghost h = hand@;
    if text::has_prefix(line, "*** FLOP") {
        hand.board = last_bracket(line);
        assert(hand@ =~= (HandView { board: bracket_words(line@), ..h }));
        (1, false)
    } else if text::has_prefix(line, "*** TURN") {
        append_texts(&mut hand.board, last_bracket(line));
        assert(hand@ =~= (HandView { board: h.board + bracket_words(line@), ..h }));
        (2, false)
    } else if text::has_prefix(line, "*** RIVER") {
        append_texts(&mut hand.board, last_bracket(line));
        assert(hand@ =~= (HandView { board: h.board + bracket_words(line@), ..h }));
        (3, false)
    } else if text::has_prefix(line, "*** SHOW DOWN") || text::has_prefix(line, "*** SUMMARY") {
        (street, true)
    } else {
        (street, false)
    }
}

fn read_verb(hand: &mut RawHand, street: usize, seat: usize, verb: &[char])
    requires
        street <= 3,
        seat < old(hand).seats@.len(),
    ensures
        final(hand)@ == after_verb(old(hand)@, street as int, seat as int, verb@),
{
    let ghost h = hand@;
    let player = hand.seats[seat].name.clone();
    assert(h.seats[seat as int] == hand.seats@[seat as int]@);
    if text::has_prefix(verb, "posts small blind") {
        hand.sb_player = Some(player.clone());
    } else if text::has_prefix(verb, "posts big blind") {
        hand.bb_player = Some(player.clone());
    }
    let ghost g = hand@;
    match parse_act(verb) {
        Some(act) => {
            let a = Action { player, act };
            let ghost av = a@;
            if street == 0 {
                hand.preflop.push(a);
                assert(hand@.preflop =~= g.preflop.push(av));
            } else if street == 1 {
                hand.flop.push(a);
                assert(hand@.flop =~= g.flop.push(av));
            } else if street == 2 {
                hand.turn.push(a);
                assert(hand@.turn =~= g.turn.push(av));
            } else {
                hand.river.push(a);
                assert(hand@.river =~= g.river.push(av));
            }
            assert(hand@ =~= with_action(g, street as int, av));
        },
        None => {},
    }
}

fn read_line(hand: &mut RawHand, street: usize, line: &[char]) -> (r: (usize, bool))
    requires
        street <= 3,
    ensures
        r.0 <= 3,
        (Reading { hand: final(hand)@, street: r.0 as int, over: r.1 }) == after_line(
            old(hand)@,
            street as int,
            line@,
        ),
{
    proof {
        reveal_strlit("Table '");
        reveal_strlit("Seat ");
        reveal_strlit("Dealt to ");
    }
    let ghost h = hand@;
    if text::has_prefix(line, "Table '") {
        let rest = text::part(line, 7, line.len());
        assert(rest@ =~= line@.skip(7));
        hand.button_seat = button_of(rest.as_slice());
        return (street, false);
    }
    if text::has_prefix(line, "*** ") {
        return read_stars(hand, street, line);
    }
    if street == 0 && text::has_prefix(line, "Seat ") {
        let rest = text::part(line, 5, line.len());
        assert(rest@ =~= line@.skip(5));
        match parse_seat(rest.as_slice()) {
            Some(s) => {
                let ghost sv = s@;
                hand.seats.push(s);
                assert(hand@.seats =~= h.seats.push(sv));
            },
            None => {},
        }
        return (street, false);
    }
    if text::has_prefix(line, "Dealt to ") {
        let rest = text::part(line, 9, line.len());
        assert(rest@ =~= line@.skip(9));
        let n: usize = text::after_last_char(rest.as_slice(), '[');
        if n > 0 {
            let name = text::part(rest.as_slice(), 0, n - 1);
            assert(name@ =~= rest@.take(n - 1));
            let t = text::trim_chars(name.as_slice());
            hand.hero = Some(text::string_of(t.as_slice()));
            hand.hero_cards = last_bracket(rest.as_slice());
        }
        return (street, false);
    }
    match split_player(line, &hand.seats) {
        Some((i, v)) => {
            let verb = text::part(line, v, line.len());
            proof {
                assert(h.seats[i as int] == hand.seats@[i as int]@);
                assert(verb@ =~= line@.skip(v as int));
            }
            read_verb(hand, street, i, verb.as_slice());
        },
        None => {},
    }
    (street, false)
}

/// The hand number: after the first `#`, up to a `:` or the next `#`.
pub open spec fn id_in(header: Seq<char>) -> Seq<char> {
    let p = text::split(header, '#');
    if p.len() > 1 {
        text::up_to(p[1], ':')
    } else {
        Seq::empty()
    }
}

/// The first piece of `header` after a `(`, the start included, that has a `/`
/// before its `)`.
pub open spec fn stakes_in(pieces: Seq<Seq<char>>, i: int) -> Option<Seq<char>>
    decreases pieces.len() - i,
{
    if i >= pieces.len() {
        None
    } else if text::up_to(pieces[i], ')').contains('/') {
        Some(text::up_to(pieces[i], ')'))
    } else {
        stakes_in(pieces, i + 1)
    }
}

/// The big blind of a header: the amount after the first `/` of the stakes.
pub open spec fn big_blind_in(header: Seq<char>) -> Option<Seq<char>> {
    match stakes_in(text::split(header, '('), 0) {
        Some(p) => amount_in(text::split(p, '/')[1]),
        None => None,
    }
}

/// A hand of which only the header is read.
pub open spec fn header_hand(header: Seq<char>) -> HandView {
    HandView {
        id: id_in(header),
        nlhe_cash: text::has_sub(header, "Hold'em No Limit"@) && !text::has_sub(
            header,
            "Tournament #"@,
        ),
        bb: big_blind_in(header)->0,
        button_seat: 0,
        seats: Seq::empty(),
        sb_player: None,
        bb_player: None,
        hero: None,
        hero_cards: Seq::empty(),
        board: Seq::empty(),
        preflop: Seq::empty(),
        flop: Seq::empty(),
        turn: Seq::empty(),
        river: Seq::empty(),
    }
}

/// Reads the lines from `i` on until the hand is over.
pub open spec fn read_from(r: Reading, lines: Seq<Seq<char>>, i: int) -> HandView
    decreases lines.len() - i,
{
    if r.over || i >= lines.len() {
        r.hand
    } else {
        read_from(after_line(r.hand, r.street, lines[i]), lines, i + 1)
    }
}

/// The hand of a block of lines; `None` without stakes or without seats.
pub open spec fn hand_in(lines: Seq<Seq<char>>) -> Option<HandView> {
    if lines.len() == 0 || big_blind_in(lines[0]) is None {
        None
    } else {
        let h = read_from(
            Reading { hand: header_hand(lines[0]), street: 0, over: false },
            lines,
            1,
        );
        if h.seats.len() == 0 {
            None
        } else {
            Some(h)
        }
    }
}

fn id_of_header(header: &[char]) -> (r: String)
    ensures
        r@ == id_in(header@),
{
    let p = text::split_at_char(header, '#');
    if p.len() > 1 {
        assert(text::pieces(p@)[1] == p@[1]@);
        let t = text::cut_at(p[1].as_slice(), ':');
        text::string_of(t.as_slice())
    } else {
        assert(text::pieces(p@).len() == p@.len());
        String::new()
    }
}

fn big_blind_of(header: &[char]) -> (r: Option<String>)
    ensures
        r is Some == big_blind_in(header@) is Some,
        r matches Some(b) ==> big_blind_in(header@) == Some(b@),
{
    let p = text::split_at_char(header, '(');
    let ghost all = text::split(header@, '(');
    let mut i: usize = 0;
    while i < p.len()
        invariant
            i <= p@.len(),
            text::pieces(p@) == all,
            all == text::split(header@, '('),
            stakes_in(all, 0) == stakes_in(all, i as int),
        decreases p@.len() - i,
    {
        assert(all[i as int] == p@[i as int]@);
        let t = text::cut_at(p[i].as_slice(), ')');
        let f = text::find_char(t.as_slice(), '/');
        if f.is_some() {
            proof {
                assert(t@.contains(t@[f->0 as int]));
            }
            let q = text::split_at_char(t.as_slice(), '/');
            proof {
                lemma_two_pieces(t@, '/');
                assert(text::pieces(q@)[1] == q@[1]@);
                assert(text::pieces(q@).len() == q@.len());
            }
            return parse_amount(q[1].as_slice());
        }
        i = i + 1;
    }
    None
}

proof fn lemma_two_pieces(s: Seq<char>, c: char)
    requires
        s.contains(c),
    ensures
        text::split(s, c).len() >= 2,
    decreases s.len(),
{
    lemma_a_piece(s.drop_last(), c);
    if s.last() != c {
        let i = choose|i: int| 0 <= i < s.len() && s[i] == c;
        assert(s.drop_last()[i] == c);
        lemma_two_pieces(s.drop_last(), c);
    }
}

proof fn lemma_a_piece(s: Seq<char>, c: char)
    ensures
        text::split(s, c).len() >= 1,
    decreases s.len(),
{
    if s.len() > 0 {
        lemma_a_piece(s.drop_last(), c);
    }
}

/// Reads one hand from its lines.
pub fn parse_hand(lines: &Vec<Vec<char>>) -> (r: Option<RawHand>)
    ensures
        r is Some == hand_in(text::pieces(lines@)) is Some,
        r matches Some(h) ==> hand_in(text::pieces(lines@)) == Some(h@),
{
    let ghost ls = text::pieces(lines@);
    if lines.len() == 0 {
        return None;
    }
    assert(ls[0] == lines@[0]@);
    let header = lines[0].as_slice();
    let bb = match big_blind_of(header) {
        Some(b) => b,
        None => {
            return None;
        },
    };
    let mut hand = RawHand {
        id: id_of_header(header),
        nlhe_cash: text::contains_sub(header, "Hold'em No Limit") && !text::contains_sub(
            header,
            "Tournament #",
        ),
        bb,
        button_seat: 0,
        seats: Vec::new(),
        sb_player: None,
        bb_player: None,
        hero: None,
        hero_cards: Vec::new(),
        board: Vec::new(),
        preflop: Vec::new(),
        flop: Vec::new(),
        turn: Vec::new(),
        river: Vec::new(),
    };
    let ghost start = Reading { hand: header_hand(ls[0]), street: 0, over: false };
    assert(hand@ =~= header_hand(ls[0]));
    let mut street: usize = 0;
    let mut over = false;
    let mut i: usize = 1;
    while i < lines.len() && !over
        invariant
            1 <= i <= lines@.len(),
            ls == text::pieces(lines@),
            street <= 3,
            read_from(start, ls, 1) == read_from(
                Reading { hand: hand@, street: street as int, over },
                ls,
                i as int,
            ),
        decreases lines@.len() - i,
    {
        assert(ls[i as int] == lines@[i as int]@);
        let (s, o) = read_line(&mut hand, street, lines[i].as_slice());
        street = s;
        over = o;
        i = i + 1;
    }
    if hand.seats.len() == 0 {
        assert(hand@.seats.len() == 0);
        None
    } else {
        assert(hand@.seats.len() > 0);
        Some(hand)
    }
}

// ---------------------------------------------------------------- files

/// The blocks of a file, of its first `n` lines: each starts with a header line,
/// and empty lines are left out.
pub open spec fn blocks_of(lines: Seq<Seq<char>>, n: int) -> Seq<Seq<Seq<char>>>
    decreases n,
{
    if n <= 0 {
        Seq::empty()
    } else {
        let b = blocks_of(lines, n - 1);
        let line = text::trim_end(lines[n - 1]);
        if text::begins(line, "PokerStars "@) {
            b.push(seq![line])
        } else if b.len() > 0 && line.len() > 0 {
            b.drop_last().push(b.last().push(line))
        } else {
            b
        }
    }
}

/// The hands that the first `n` blocks hold.
pub open spec fn hands_in(blocks: Seq<Seq<Seq<char>>>, n: int) -> Seq<HandView>
    decreases n,
{
    if n <= 0 {
        Seq::empty()
    } else {
        match hand_in(blocks[n - 1]) {
            Some(h) => hands_in(blocks, n - 1).push(h),
            None => hands_in(blocks, n - 1),
        }
    }
}

/// The blocks of a text.
pub open spec fn file_blocks(s: Seq<char>) -> Seq<Seq<Seq<char>>> {
    let lines = text::lines(s);
    blocks_of(lines, lines.len() as int)
}

/// The contents of blocks.
pub open spec fn block_texts(v: Seq<Vec<Vec<char>>>) -> Seq<Seq<Seq<char>>> {
    v.map_values(|b: Vec<Vec<char>>| text::pieces(b@))
}

fn split_blocks(s: &str) -> (r: Vec<Vec<Vec<char>>>)
    ensures
        block_texts(r@) == file_blocks(s@),
{
    let cs = text::chars_of(s);
    let ls = text::lines_of(cs.as_slice());
    let ghost lines = text::lines(s@);
    let mut done: Vec<Vec<Vec<char>>> = Vec::new();
    let mut cur: Vec<Vec<char>> = Vec::new();
    let mut open = false;
    let mut i: usize = 0;
    assert(block_texts(done@) =~= Seq::empty());
    while i < ls.len()
        invariant
            i <= ls@.len(),
            text::pieces(ls@) == lines,
            blocks_of(lines, i as int) == if open {
                block_texts(done@).push(text::pieces(cur@))
            } else {
                block_texts(done@)
            },
            !open ==> done@.len() == 0,
        decreases ls@.len() - i,
    {
        assert(lines[i as int] == ls@[i as int]@);
        let line = text::trim_end_chars(ls[i].as_slice());
        let ghost l = line@;
        let ghost b = blocks_of(lines, i as int);
        if text::has_prefix(line.as_slice(), "PokerStars ") {
            if open {
                let ghost before = done@;
                done.push(cur);
                assert(block_texts(done@) =~= b);
            }
            cur = vec![line];
            open = true;
            assert(text::pieces(cur@) =~= seq![l]);
        } else if open && line.len() > 0 {
            let ghost before = cur@;
            cur.push(line);
            proof {
                assert(text::pieces(cur@) =~= text::pieces(before).push(l));
                assert(b.drop_last() =~= block_texts(done@));
            }
        } else {
            assert(!open ==> b.len() == 0);
        }
        i = i + 1;
    }
    if open {
        let ghost before = done@;
        done.push(cur);
        assert(block_texts(done@) =~= block_texts(before).push(text::pieces(cur@)));
    }
    done
}

/// The hands of a list.
pub open spec fn hand_views(v: Seq<RawHand>) -> Seq<HandView> {
    v.map_values(|h: RawHand| h@)
}

/// Splits a file into hands and reads each; gives the hands and the number of
/// blocks that are none.
pub fn parse_file(s: &str) -> (r: (Vec<RawHand>, usize))
    ensures
        hand_views(r.0@) == hands_in(file_blocks(s@), file_blocks(s@).len() as int),
        r.0@.len() + r.1 == file_blocks(s@).len(),
{
    let blocks = split_blocks(s);
    let ghost all = file_blocks(s@);
    let mut hands: Vec<RawHand> = Vec::new();
    let mut failed: usize = 0;
    let mut i: usize = 0;
    assert(block_texts(blocks@).len() == blocks@.len());
    assert(hand_views(hands@) =~= Seq::empty());
    while i < blocks.len()
        invariant
            i <= blocks@.len(),
            block_texts(blocks@) == all,
            hand_views(hands@) == hands_in(all, i as int),
            hands@.len() + failed == i,
        decreases blocks@.len() - i,
    {
        assert(all[i as int] == text::pieces(blocks@[i as int]@));
        match parse_hand(&blocks[i]) {
            Some(h) => {
                let ghost before = hands@;
                let ghost hv = h@;
                hands.push(h);
                assert(hand_views(hands@) =~= hand_views(before).push(hv));
            },
            None => {
                failed = failed + 1;
            },
        }
        i = i + 1;
    }
    (hands, failed)
}

// ---------------------------------------------------------------- matching

/// Why a hand was not matched.
#[derive(Debug, Clone, Copy, PartialEq, Eq, Structural)]
pub enum Skip {
    /// A tournament, or another game.
    NotNlheCash,
    /// An observed hand.
    NoHero,
    /// The hand ended before the flop.
    NoFlop,
    HeroNotOnFlop,
    /// Three or more players saw the flop.
    Multiway,
    /// A limped pot, or one with more than two raises.
    PotType,
    /// No formation has these positions.
    Formation,
    /// The stack on the flop is outside the depth band.
    Stack,
    /// The pot on the flop is too far from the formation's.
    Pot,
}

impl Skip {
    /// The words for it.
    pub open spec fn words(self) -> &'static str {
        match self {
            Skip::NotNlheCash => "tournament / non-NLHE",
            Skip::NoHero => "no hero cards (observed hand)",
            Skip::NoFlop => "no flop",
            Skip::HeroNotOnFlop => "hero folded preflop",
            Skip::Multiway => "multiway flop",
            Skip::PotType => "limped or 4-bet+ pot",
            Skip::Formation => "uncovered formation",
            Skip::Stack => "stack outside depth band",
            Skip::Pot => "pot mismatch > 25%",
        }
    }

    /// The label in reports.
    pub fn label(self) -> (r: &'static str)
        ensures
            r == self.words(),
    {
        match self {
            Skip::NotNlheCash => "tournament / non-NLHE",
            Skip::NoHero => "no hero cards (observed hand)",
            Skip::NoFlop => "no flop",
            Skip::HeroNotOnFlop => "hero folded preflop",
            Skip::Multiway => "multiway flop",
            Skip::PotType => "limped or 4-bet+ pot",
            Skip::Formation => "uncovered formation",
            Skip::Stack => "stack outside depth band",
            Skip::Pot => "pot mismatch > 25%",
        }
    }
}

/// The player is in one of the actions.
pub open spec fn acted(actions: Seq<ActionView>, name: Seq<char>) -> bool {
    exists|k: int| 0 <= k < actions.len() && (#[trigger] actions[k]).player == name
}

/// The player folds in one of the actions.
pub open spec fn folded(actions: Seq<ActionView>, name: Seq<char>) -> bool {
    exists|k: int|
        0 <= k < actions.len() && (#[trigger] actions[k]).player == name && actions[k].act is Fold
}

/// The seats, of the first `n`, whose players posted or acted before the flop.
pub open spec fn dealt_in(h: HandView, n: int) -> Seq<int>
    decreases n,
{
    if n <= 0 {
        Seq::empty()
    } else if acted(h.preflop, h.seats[n - 1].name) {
        dealt_in(h, n - 1).push(n - 1)
    } else {
        dealt_in(h, n - 1)
    }
}

/// The seats, of the first `n`, whose players saw the flop.
pub open spec fn on_flop(h: HandView, n: int) -> Seq<int>
    decreases n,
{
    if n <= 0 {
        Seq::empty()
    } else if acted(h.preflop, h.seats[n - 1].name) && !folded(h.preflop, h.seats[n - 1].name) {
        on_flop(h, n - 1).push(n - 1)
    } else {
        on_flop(h, n - 1)
    }
}

/// The indices as numbers.
pub open spec fn places(v: Seq<usize>) -> Seq<int> {
    v.map_values(|i: usize| i as int)
}

fn has_acted(actions: &Vec<Action>, name: &str) -> (r: bool)
    ensures
        r == acted(actions_of(actions@), name@),
{
    let ghost av = actions_of(actions@);
    let mut i: usize = 0;
    while i < actions.len()
        invariant
            i <= actions@.len(),
            av == actions_of(actions@),
            forall|k: int| 0 <= k < i ==> (#[trigger] av[k]).player != name@,
        decreases actions@.len() - i,
    {
        assert(av[i as int] == actions@[i as int]@);
        if text::same_text(actions[i].player.as_str(), name) {
            return true;
        }
        i = i + 1;
    }
    false
}

fn has_folded(actions: &Vec<Action>, name: &str) -> (r: bool)
    ensures
        r == folded(actions_of(actions@), name@),
{
    let ghost av = actions_of(actions@);
    let mut i: usize = 0;
    while i < actions.len()
        invariant
            i <= actions@.len(),
            av == actions_of(actions@),
            forall|k: int|
                0 <= k < i ==> !((#[trigger] av[k]).player == name@ && av[k].act is Fold),
        decreases actions@.len() - i,
    {
        assert(av[i as int] == actions@[i as int]@);
        if matches!(actions[i].act, Act::Fold) && text::same_text(
            actions[i].player.as_str(),
            name,
        ) {
            return true;
        }
        i = i + 1;
    }
    false
}

/// The seats of the players dealt in, in seat order: who sits out never acts.
pub fn participants(h: &RawHand) -> (r: Vec<usize>)
    ensures
        places(r@) == dealt_in(h@, h@.seats.len() as int),
        forall|i: int| 0 <= i < r@.len() ==> #[trigger] r@[i] < h.seats@.len(),
{
    let mut out: Vec<usize> = Vec::new();
    let mut i: usize = 0;
    assert(places(out@) =~= Seq::<int>::empty());
    while i < h.seats.len()
        invariant
            i <= h.seats@.len(),
            places(out@) == dealt_in(h@, i as int),
            forall|k: int| 0 <= k < out@.len() ==> #[trigger] out@[k] < h.seats@.len(),
        decreases h.seats@.len() - i,
    {
        assert(h@.seats[i as int] == h.seats@[i as int]@);
        if has_acted(&h.preflop, h.seats[i].name.as_str()) {
            let ghost before = out@;
            out.push(i);
            assert(places(out@) =~= places(before).push(i as int));
        }
        i = i + 1;
    }
    out
}

fn flop_players(h: &RawHand) -> (r: Vec<usize>)
    ensures
        places(r@) == on_flop(h@, h@.seats.len() as int),
        forall|i: int| 0 <= i < r@.len() ==> #[trigger] r@[i] < h.seats@.len(),
{
    let mut out: Vec<usize> = Vec::new();
    let mut i: usize = 0;
    assert(places(out@) =~= Seq::<int>::empty());
    while i < h.seats.len()
        invariant
            i <= h.seats@.len(),
            places(out@) == on_flop(h@, i as int),
            forall|k: int| 0 <= k < out@.len() ==> #[trigger] out@[k] < h.seats@.len(),
        decreases h.seats@.len() - i,
    {
        assert(h@.seats[i as int] == h.seats@[i as int]@);
        let name = h.seats[i].name.as_str();
        if has_acted(&h.preflop, name) && !has_folded(&h.preflop, name) {
            let ghost before = out@;
            out.push(i);
            assert(places(out@) =~= places(before).push(i as int));
        }
        i = i + 1;
    }
    out
}

/// The name of the `k`-th position back from the button.
pub open spec fn back_label(k: int) -> &'static str {
    if k == 0 {
        "BTN"
    } else if k == 1 {
        "CO"
    } else if k == 2 {
        "HJ"
    } else if k == 3 {
        "MP"
    } else if k == 4 {
        "UTG"
    } else {
        "EP"
    }
}

fn label_back(k: usize) -> (r: &'static str)
    ensures
        r == back_label(k as int),
{
    if k == 0 {
        "BTN"
    } else if k == 1 {
        "CO"
    } else if k == 2 {
        "HJ"
    } else if k == 3 {
        "MP"
    } else if k == 4 {
        "UTG"
    } else {
        "EP"
    }
}

/// The positions of those who posted a blind.
pub open spec fn blinds(h: HandView) -> Map<Seq<char>, &'static str> {
    let a = match h.sb_player {
        Some(n) => Map::empty().insert(n, "SB"),
        None => Map::empty(),
    };
    match h.bb_player {
        Some(n) => a.insert(n, "BB"),
        None => a,
    }
}

/// The first seat of the ring with the button.
pub open spec fn button_at(h: HandView, ring: Seq<int>, i: int) -> Option<int>
    decreases ring.len() - i,
{
    if i >= ring.len() {
        None
    } else if h.seats[ring[i]].number == h.button_seat {
        Some(i)
    } else {
        button_at(h, ring, i + 1)
    }
}

/// Labels handed out from the `k`-th seat before the button on, `used` of them
/// being gone: each player without a position takes the next.
pub open spec fn label_back_from(
    h: HandView,
    ring: Seq<int>,
    btn: int,
    k: int,
    used: int,
    pos: Map<Seq<char>, &'static str>,
) -> Map<Seq<char>, &'static str>
    decreases ring.len() - k,
{
    if k >= ring.len() {
        pos
    } else {
        let name = h.seats[ring[(btn + ring.len() - k) % (ring.len() as int)]].name;
        if pos.dom().contains(name) {
            label_back_from(h, ring, btn, k + 1, used, pos)
        } else {
            label_back_from(h, ring, btn, k + 1, used + 1, pos.insert(name, back_label(used)))
        }
    }
}

/// Position by player: the blinds by who posted them, the rest back from the
/// button. With no one on the button only the blinds have one.
pub open spec fn position_map(h: HandView) -> Map<Seq<char>, &'static str> {
    let ring = dealt_in(h, h.seats.len() as int);
    match button_at(h, ring, 0) {
        Some(btn) => label_back_from(h, ring, btn, 0, 0, blinds(h)),
        None => blinds(h),
    }
}

/// How many seats a player at place `i` of a ring of `n` is before the button at
/// place `b`.
pub open spec fn seats_to_button(i: int, b: int, n: int) -> int {
    (b - i) % n
}

/// The places of the ring that are closer to the button than place `j` and whose
/// players posted no blind.
pub open spec fn closer_without_blind(h: HandView, ring: Seq<int>, b: int, j: int) -> Set<int> {
    Set::new(
        |i: int|
            0 <= i < ring.len() && seats_to_button(i, b, ring.len() as int) < seats_to_button(
                j,
                b,
                ring.len() as int,
            ) && h.sb_player != Some(h.seats[ring[i]].name) && h.bb_player != Some(
                h.seats[ring[i]].name,
            ),
    )
}

spec fn place_back(b: int, n: int, k: int) -> int {
    (b + n - k) % n
}

spec fn blindless_back(h: HandView, ring: Seq<int>, b: int, k: int) -> Set<int> {
    Set::new(
        |i: int|
            0 <= i < ring.len() && seats_to_button(i, b, ring.len() as int) < k && !blinds(
                h,
            ).dom().contains(h.seats[ring[i]].name),
    )
}

proof fn lemma_place_back(b: int, n: int, k: int)
    requires
        0 <= b < n,
        0 <= k < n,
    ensures
        0 <= place_back(b, n, k) < n,
        seats_to_button(place_back(b, n, k), b, n) == k,
        forall|i: int| 0 <= i < n && #[trigger] seats_to_button(i, b, n) == k ==> i == place_back(b, n, k),
{
    if k <= b {
        vstd::arithmetic::div_mod::lemma_fundamental_div_mod_converse(b + n - k, n, 1, b - k);
        vstd::arithmetic::div_mod::lemma_fundamental_div_mod_converse(k, n, 0, k);
    } else {
        vstd::arithmetic::div_mod::lemma_fundamental_div_mod_converse(b + n - k, n, 0, b + n - k);
        vstd::arithmetic::div_mod::lemma_fundamental_div_mod_converse(k - n, n, -1, k);
    }
    assert forall|i: int| 0 <= i < n && #[trigger] seats_to_button(i, b, n) == k implies i
        == place_back(b, n, k) by {
        if i <= b {
            vstd::arithmetic::div_mod::lemma_fundamental_div_mod_converse(b - i, n, 0, b - i);
        } else {
            vstd::arithmetic::div_mod::lemma_fundamental_div_mod_converse(b - i, n, -1, b - i + n);
        }
    }
}

proof fn lemma_labels_stay(
    h: HandView,
    ring: Seq<int>,
    b: int,
    k: int,
    used: int,
    pos: Map<Seq<char>, &'static str>,
    name: Seq<char>,
)
    requires
        pos.dom().contains(name),
    ensures
        label_back_from(h, ring, b, k, used, pos).dom().contains(name),
        label_back_from(h, ring, b, k, used, pos)[name] == pos[name],
    decreases ring.len() - k,
{
    if k < ring.len() {
        let x = h.seats[ring[(b + ring.len() - k) % (ring.len() as int)]].name;
        if pos.dom().contains(x) {
            lemma_labels_stay(h, ring, b, k + 1, used, pos, name);
        } else {
            lemma_labels_stay(h, ring, b, k + 1, used + 1, pos.insert(x, back_label(used)), name);
        }
    }
}

proof fn lemma_labels_reach(
    h: HandView,
    ring: Seq<int>,
    b: int,
    k: int,
    used: int,
    pos: Map<Seq<char>, &'static str>,
    j: int,
)
    requires
        0 <= b < ring.len(),
        0 <= j < ring.len(),
        0 <= k <= seats_to_button(j, b, ring.len() as int),
        forall|x: int, y: int|
            0 <= x < ring.len() && 0 <= y < ring.len() && x != y ==> h.seats[#[trigger] ring[x]].name
                != h.seats[#[trigger] ring[y]].name,
        !blinds(h).dom().contains(h.seats[ring[j]].name),
        blindless_back(h, ring, b, k).finite(),
        used == blindless_back(h, ring, b, k).len(),
        forall|i: int|
            0 <= i < ring.len() && seats_to_button(i, b, ring.len() as int) >= k ==> (
            pos.dom().contains(h.seats[#[trigger] ring[i]].name) <==> blinds(h).dom().contains(
                h.seats[ring[i]].name,
            )),
    ensures
        blindless_back(h, ring, b, seats_to_button(j, b, ring.len() as int)).finite(),
        label_back_from(h, ring, b, k, used, pos).dom().contains(h.seats[ring[j]].name),
        label_back_from(h, ring, b, k, used, pos)[h.seats[ring[j]].name] == back_label(
            blindless_back(h, ring, b, seats_to_button(j, b, ring.len() as int)).len() as int,
        ),
    decreases ring.len() - k,
{
    let n = ring.len() as int;
    vstd::arithmetic::div_mod::lemma_mod_bound(b - j, n);
    lemma_place_back(b, n, k);
    let at = place_back(b, n, k);
    let name = h.seats[ring[at]].name;
    if k == seats_to_button(j, b, n) {
        assert(j == at);
        assert(!pos.dom().contains(name));
        lemma_labels_stay(h, ring, b, k + 1, used + 1, pos.insert(name, back_label(used)), name);
    } else {
        assert(seats_to_button(at, b, n) == k);
        if pos.dom().contains(name) {
            assert(blinds(h).dom().contains(name));
            assert(blindless_back(h, ring, b, k + 1) =~= blindless_back(h, ring, b, k));
            lemma_labels_reach(h, ring, b, k + 1, used, pos, j);
        } else {
            assert(!blinds(h).dom().contains(name));
            assert(blindless_back(h, ring, b, k + 1) =~= blindless_back(h, ring, b, k).insert(at));
            assert(!blindless_back(h, ring, b, k).contains(at));
            let next = pos.insert(name, back_label(used));
            assert forall|i: int| 0 <= i < n && seats_to_button(i, b, n) >= k + 1 implies (
            next.dom().contains(h.seats[#[trigger] ring[i]].name) <==> blinds(h).dom().contains(
                h.seats[ring[i]].name,
            )) by {
                assert(i != at);
                assert(h.seats[ring[i]].name != h.seats[ring[at]].name);
            }
            lemma_labels_reach(h, ring, b, k + 1, used + 1, next, j);
        }
    }
}

proof fn lemma_button_at(h: HandView, ring: Seq<int>, i: int, b: int)
    requires
        0 <= i <= b < ring.len(),
        h.seats[ring[b]].number == h.button_seat,
        forall|k: int| i <= k < b ==> h.seats[#[trigger] ring[k]].number != h.button_seat,
    ensures
        button_at(h, ring, i) == Some(b),
    decreases b - i,
{
    if i < b {
        lemma_button_at(h, ring, i + 1, b);
    }
}

/// Positions count back from the button. Of the players dealt in who posted no
/// blind, the one on the button or, failing that, the nearest before it is the
/// button, the next before it the cutoff, and so on: who has `m` of them closer to
/// the button has the `m`-th name.
pub proof fn positions_count_back_from_the_button(h: HandView, b: int, j: int)
    requires
        ({
            let ring = dealt_in(h, h.seats.len() as int);
            &&& 0 <= b < ring.len()
            &&& 0 <= j < ring.len()
            &&& h.seats[ring[b]].number == h.button_seat
            &&& forall|k: int| 0 <= k < b ==> h.seats[#[trigger] ring[k]].number != h.button_seat
            &&& forall|x: int, y: int|
                0 <= x < ring.len() && 0 <= y < ring.len() && x != y ==> h.seats[#[trigger] ring[x]].name
                    != h.seats[#[trigger] ring[y]].name
            &&& h.sb_player != Some(h.seats[ring[j]].name)
            &&& h.bb_player != Some(h.seats[ring[j]].name)
        }),
    ensures
        ({
            let ring = dealt_in(h, h.seats.len() as int);
            let m = closer_without_blind(h, ring, b, j).len();
            let name = h.seats[ring[j]].name;
            &&& position_map(h).dom().contains(name)
            &&& m == 0 ==> position_map(h)[name] == "BTN"
            &&& m == 1 ==> position_map(h)[name] == "CO"
            &&& m == 2 ==> position_map(h)[name] == "HJ"
            &&& m == 3 ==> position_map(h)[name] == "MP"
            &&& m == 4 ==> position_map(h)[name] == "UTG"
            &&& m >= 5 ==> position_map(h)[name] == "EP"
        }),
{
    let ring = dealt_in(h, h.seats.len() as int);
    let n = ring.len() as int;
    lemma_button_at(h, ring, 0, b);
    assert forall|i: int| 0 <= i < n implies 0 <= #[trigger] seats_to_button(i, b, n) < n by {
        vstd::arithmetic::div_mod::lemma_mod_bound(b - i, n);
    }
    let none = blindless_back(h, ring, b, 0);
    assert(none =~= Set::empty());
    lemma_labels_reach(h, ring, b, 0, 0, blinds(h), j);
    assert(closer_without_blind(h, ring, b, j) =~= blindless_back(
        h,
        ring,
        b,
        seats_to_button(j, b, n),
    ));
}

/// The player dealt in at the seat before the button is the cutoff, where neither
/// that player nor the one on the button posted a blind.
pub proof fn the_seat_before_the_button_is_the_cutoff(h: HandView, b: int, j: int)
    requires
        ({
            let ring = dealt_in(h, h.seats.len() as int);
            &&& 0 <= b < ring.len()
            &&& ring.len() >= 2
            &&& j == if b == 0 {
                ring.len() - 1
            } else {
                b - 1
            }
            &&& h.seats[ring[b]].number == h.button_seat
            &&& forall|k: int| 0 <= k < b ==> h.seats[#[trigger] ring[k]].number != h.button_seat
            &&& forall|x: int, y: int|
                0 <= x < ring.len() && 0 <= y < ring.len() && x != y ==> h.seats[#[trigger] ring[x]].name
                    != h.seats[#[trigger] ring[y]].name
            &&& h.sb_player != Some(h.seats[ring[j]].name)
            &&& h.bb_player != Some(h.seats[ring[j]].name)
            &&& h.sb_player != Some(h.seats[ring[b]].name)
            &&& h.bb_player != Some(h.seats[ring[b]].name)
        }),
    ensures
        ({
            let ring = dealt_in(h, h.seats.len() as int);
            &&& position_map(h).dom().contains(h.seats[ring[b]].name)
            &&& position_map(h)[h.seats[ring[b]].name] == "BTN"
            &&& position_map(h).dom().contains(h.seats[ring[j]].name)
            &&& position_map(h)[h.seats[ring[j]].name] == "CO"
        }),
{
    let ring = dealt_in(h, h.seats.len() as int);
    let n = ring.len() as int;
    positions_count_back_from_the_button(h, b, b);
    positions_count_back_from_the_button(h, b, j);
    lemma_place_back(b, n, 0);
    lemma_place_back(b, n, 1);
    vstd::arithmetic::div_mod::lemma_small_mod(0, n as nat);
    assert(seats_to_button(b, b, n) == 0);
    if b == 0 {
        vstd::arithmetic::div_mod::lemma_fundamental_div_mod_converse(b - j, n, -1, 1);
    } else {
        vstd::arithmetic::div_mod::lemma_fundamental_div_mod_converse(b - j, n, 0, 1);
    }
    assert(seats_to_button(j, b, n) == 1);
    assert forall|i: int| 0 <= i < n implies 0 <= #[trigger] seats_to_button(i, b, n) < n by {
        vstd::arithmetic::div_mod::lemma_mod_bound(b - i, n);
    }
    assert(place_back(b, n, 0) == b);
    assert(closer_without_blind(h, ring, b, b) =~= Set::empty());
    assert(closer_without_blind(h, ring, b, j) =~= Set::empty().insert(b));
}

/// Who posted a blind has the position of that blind; of both, that of the big
/// blind.
pub proof fn blinds_keep_their_positions(h: HandView)
    ensures
        h.bb_player matches Some(n) ==> position_map(h).dom().contains(n) && position_map(h)[n]
            == "BB",
        h.sb_player matches Some(n) ==> h.bb_player != Some(n) ==> position_map(h).dom().contains(n)
            && position_map(h)[n] == "SB",
{
    let ring = dealt_in(h, h.seats.len() as int);
    if let Some(btn) = button_at(h, ring, 0) {
        if let Some(n) = h.bb_player {
            lemma_labels_stay(h, ring, btn, 0, 0, blinds(h), n);
        }
        if let Some(n) = h.sb_player {
            lemma_labels_stay(h, ring, btn, 0, 0, blinds(h), n);
        }
    }
}

/// The players dealt in are those who posted or acted before the flop, each seat
/// once and in seat order.
pub proof fn dealt_in_lists_who_acted(h: HandView, n: int)
    requires
        0 <= n <= h.seats.len(),
    ensures
        forall|i: int|
            #![trigger dealt_in(h, n).contains(i)]
            dealt_in(h, n).contains(i) <==> 0 <= i < n && exists|k: int|
                0 <= k < h.preflop.len() && (#[trigger] h.preflop[k]).player == h.seats[i].name,
        forall|x: int, y: int|
            0 <= x < y < dealt_in(h, n).len() ==> #[trigger] dealt_in(h, n)[x]
                < #[trigger] dealt_in(h, n)[y],
    decreases n,
{
    if n > 0 {
        dealt_in_lists_who_acted(h, n - 1);
        let before = dealt_in(h, n - 1);
        let now = dealt_in(h, n);
        assert forall|x: int, y: int| 0 <= x < y < now.len() implies #[trigger] now[x]
            < #[trigger] now[y] by {
            assert(before.contains(before[x]));
        }
        assert forall|i: int| #![trigger now.contains(i)]
            now.contains(i) <==> 0 <= i < n && exists|k: int|
                0 <= k < h.preflop.len() && (#[trigger] h.preflop[k]).player == h.seats[i].name by {
            assert(before.contains(i) ==> now.contains(i)) by {
                if before.contains(i) {
                    let at = before.index_of(i);
                    assert(now[at] == i);
                }
            }
            if now.contains(i) {
                let at = now.index_of(i);
                if at < before.len() {
                    assert(before[at] == i);
                    assert(before.contains(i));
                }
            }
            if i == n - 1 && acted(h.preflop, h.seats[n - 1].name) {
                assert(now[now.len() - 1] == i);
            }
        }
    }
}

/// The players on the flop are those dealt in who did not fold before it, each
/// seat once and in seat order.
pub proof fn on_flop_lists_who_stayed(h: HandView, n: int)
    requires
        0 <= n <= h.seats.len(),
    ensures
        forall|i: int|
            #![trigger on_flop(h, n).contains(i)]
            on_flop(h, n).contains(i) <==> dealt_in(h, n).contains(i) && forall|k: int|
                0 <= k < h.preflop.len() && (#[trigger] h.preflop[k]).player == h.seats[i].name
                    ==> !(h.preflop[k].act is Fold),
        forall|x: int, y: int|
            0 <= x < y < on_flop(h, n).len() ==> #[trigger] on_flop(h, n)[x]
                < #[trigger] on_flop(h, n)[y],
    decreases n,
{
    dealt_in_lists_who_acted(h, n);
    if n > 0 {
        on_flop_lists_who_stayed(h, n - 1);
        dealt_in_lists_who_acted(h, n - 1);
        let before = on_flop(h, n - 1);
        let now = on_flop(h, n);
        assert forall|x: int, y: int| 0 <= x < y < now.len() implies #[trigger] now[x]
            < #[trigger] now[y] by {
            assert(before.contains(before[x]));
            assert(dealt_in(h, n - 1).contains(before[x]));
        }
        assert forall|i: int| #![trigger now.contains(i)]
            now.contains(i) <==> dealt_in(h, n).contains(i) && forall|k: int|
                0 <= k < h.preflop.len() && (#[trigger] h.preflop[k]).player == h.seats[i].name
                    ==> !(h.preflop[k].act is Fold) by {
            assert(dealt_in(h, n - 1).contains(i) ==> i < n - 1);
            assert(before.contains(i) ==> now.contains(i)) by {
                if before.contains(i) {
                    let at = before.index_of(i);
                    assert(now[at] == i);
                }
            }
            if now.contains(i) {
                let at = now.index_of(i);
                if at < before.len() {
                    assert(before[at] == i);
                    assert(before.contains(i));
                }
            }
            if i == n - 1 && now.len() > before.len() {
                assert(now[now.len() - 1] == i);
            }
        }
    }
}

/// Maps the players dealt in to the names of their positions.
pub fn positions(h: &RawHand) -> (r: TextMap<&'static str>)
    ensures
        r.wf(),
        r@ == position_map(h@),
{
    let mut pos: TextMap<&'static str> = TextMap::new();
    if let Some(n) = &h.sb_player {
        pos.insert(n.clone(), "SB");
    }
    if let Some(n) = &h.bb_player {
        pos.insert(n.clone(), "BB");
    }
    assert(pos@ == blinds(h@));
    let ring = participants(h);
    let ghost rv = places(ring@);
    let mut b: usize = 0;
    while b < ring.len() && h.seats[ring[b]].number != h.button_seat
        invariant
            b <= ring@.len(),
            rv == places(ring@),
            forall|i: int| 0 <= i < ring@.len() ==> #[trigger] ring@[i] < h.seats@.len(),
            button_at(h@, rv, 0) == button_at(h@, rv, b as int),
        decreases ring@.len() - b,
    {
        assert(rv[b as int] == ring@[b as int]);
        assert(h@.seats[rv[b as int]] == h.seats@[rv[b as int]]@);
        b = b + 1;
    }
    if b == ring.len() {
        return pos;
    }
    assert(rv[b as int] == ring@[b as int]);
    assert(h@.seats[rv[b as int]] == h.seats@[rv[b as int]]@);
    let mut used: usize = 0;
    let mut k: usize = 0;
    while k < ring.len()
        invariant
            k <= ring@.len(),
            used <= k,
            b < ring@.len(),
            rv == places(ring@),
            pos.wf(),
            forall|i: int| 0 <= i < ring@.len() ==> #[trigger] ring@[i] < h.seats@.len(),
            label_back_from(h@, rv, b as int, 0, 0, blinds(h@)) == label_back_from(
                h@,
                rv,
                b as int,
                k as int,
                used as int,
                pos@,
            ),
        decreases ring@.len() - k,
    {
        let at: usize = if k <= b {
            b - k
        } else {
            ring.len() - (k - b)
        };
        proof {
            let n = ring@.len() as int;
            if k <= b {
                vstd::arithmetic::div_mod::lemma_fundamental_div_mod_converse(
                    b + n - k,
                    n,
                    1,
                    b - k,
                );
            } else {
                vstd::arithmetic::div_mod::lemma_fundamental_div_mod_converse(
                    b + n - k,
                    n,
                    0,
                    b + n - k,
                );
            }
            assert(at == (b + n - k) % n);
            assert(rv[at as int] == ring@[at as int]);
            assert(h@.seats[rv[at as int]] == h.seats@[rv[at as int]]@);
        }
        let name = h.seats[ring[at]].name.as_str();
        if !pos.has_key(name) {
            pos.insert(text::copy_text(name), label_back(used));
            used = used + 1;
        }
        k = k + 1;
    }
    pos
}

/// What a player has put in during a street, of the first `n` actions: the
/// amounts to sum up. A raise sets the total, everything else adds to it.
pub open spec fn ledger(actions: Seq<ActionView>, n: int) -> Map<Seq<char>, Seq<Seq<char>>>
    decreases n,
{
    if n <= 0 {
        Map::empty()
    } else {
        let before = ledger(actions, n - 1);
        let a = actions[n - 1];
        let paid = if before.dom().contains(a.player) {
            before[a.player]
        } else {
            Seq::empty()
        };
        before.insert(
            a.player,
            match a.act {
                ActView::Call(x) => paid.push(x),
                ActView::Bet(x) => paid.push(x),
                ActView::Post(x) => paid.push(x),
                ActView::RaiseTo(x) => seq![x],
                ActView::Fold => paid,
                ActView::Check => paid,
            },
        )
    }
}

/// The lists of texts of a map.
pub open spec fn text_lists(m: Map<Seq<char>, Vec<String>>) -> Map<Seq<char>, Seq<Seq<char>>> {
    Map::new(|k: Seq<char>| m.dom().contains(k), |k: Seq<char>| text::texts(m[k]@))
}

/// Per player the amounts put in during one street, to be summed in order.
pub fn street_totals(actions: &Vec<Action>) -> (r: TextMap<Vec<String>>)
    ensures
        r.wf(),
        text_lists(r@) == ledger(actions_of(actions@), actions@.len() as int),
{
    let ghost av = actions_of(actions@);
    let mut paid: TextMap<Vec<String>> = TextMap::new();
    let mut i: usize = 0;
    assert(text_lists(paid@) =~= Map::empty());
    while i < actions.len()
        invariant
            i <= actions@.len(),
            av == actions_of(actions@),
            paid.wf(),
            text_lists(paid@) == ledger(av, i as int),
        decreases actions@.len() - i,
    {
        let a = &actions[i];
        assert(av[i as int] == a@);
        let ghost before = paid@;
        let mut list = match paid.get(a.player.as_str()) {
            Some(v) => text::copy_texts(v),
            None => Vec::new(),
        };
        let ghost old_list = text::texts(list@);
        proof {
            assert(text_lists(before).dom().contains(a.player@) == before.dom().contains(a.player@));
            if before.dom().contains(a.player@) {
                assert(old_list == text_lists(before)[a.player@]);
            } else {
                assert(old_list =~= Seq::<Seq<char>>::empty());
            }
        }
        match &a.act {
            Act::Call(x) | Act::Bet(x) | Act::Post(x) => {
                list.push(x.clone());
                assert(text::texts(list@) =~= old_list.push(x@));
            },
            Act::RaiseTo(x) => {
                list = Vec::new();
                list.push(x.clone());
                assert(text::texts(list@) =~= seq![x@]);
            },
            Act::Fold | Act::Check => {},
        }
        let ghost now = list;
        paid.insert(a.player.clone(), list);
        proof {
            assert(text_lists(paid@) =~= text_lists(before).insert(
                a.player@,
                text::texts(now@),
            ));
        }
        i = i + 1;
    }
    paid
}

/// The players, of the first `n` actions, who raised, in order.
pub open spec fn raisers(actions: Seq<ActionView>, n: int) -> Seq<Seq<char>>
    decreases n,
{
    if n <= 0 {
        Seq::empty()
    } else if actions[n - 1].act is RaiseTo {
        raisers(actions, n - 1).push(actions[n - 1].player)
    } else {
        raisers(actions, n - 1)
    }
}

/// How many of the actions are the player's.
pub open spec fn acts_by(actions: Seq<ActionView>, name: Seq<char>) -> int
    decreases actions.len(),
{
    if actions.len() == 0 {
        0
    } else {
        acts_by(actions.drop_last(), name) + if actions.last().player == name {
            1int
        } else {
            0int
        }
    }
}

/// One of the seats is the player's.
pub open spec fn sits(h: HandView, seats: Seq<int>, name: Seq<char>) -> bool {
    exists|k: int| 0 <= k < seats.len() && h.seats[#[trigger] seats[k]].name == name
}

/// The players on the flop, by seat.
pub open spec fn flop_seats(h: HandView) -> Seq<int> {
    on_flop(h, h.seats.len() as int)
}

/// The raises before the flop.
pub open spec fn preflop_raisers(h: HandView) -> Seq<Seq<char>> {
    raisers(h.preflop, h.preflop.len() as int)
}

/// Why a hand is skipped before its positions are looked at.
pub open spec fn early_skip_of(h: HandView, bb_positive: bool) -> Option<Skip> {
    let seats = flop_seats(h);
    let raised = preflop_raisers(h);
    if !h.nlhe_cash || !bb_positive {
        Some(Skip::NotNlheCash)
    } else if h.hero is None || h.hero_cards.len() != 2 {
        Some(Skip::NoHero)
    } else if h.board.len() < 3 {
        Some(Skip::NoFlop)
    } else if !sits(h, seats, h.hero->0) {
        Some(Skip::HeroNotOnFlop)
    } else if seats.len() != 2 {
        Some(Skip::Multiway)
    } else if raised.len() != 1 && raised.len() != 2 {
        Some(Skip::PotType)
    } else if !sits(h, seats, raised.last()) {
        Some(Skip::Formation)
    } else {
        None
    }
}

/// The caller of the last raise: the first on the flop who is not the raiser.
pub open spec fn caller_of(h: HandView) -> Seq<char> {
    let seats = flop_seats(h);
    if h.seats[seats[0]].name != preflop_raisers(h).last() {
        h.seats[seats[0]].name
    } else {
        h.seats[seats[1]].name
    }
}

/// The position of a player, `"?"` where there is none.
pub open spec fn position_or(h: HandView, name: Seq<char>) -> &'static str {
    if position_map(h).dom().contains(name) {
        position_map(h)[name]
    } else {
        "?"
    }
}

/// The id of the formation of a hand: the kind of pot, then the raiser's and the
/// caller's positions.
pub open spec fn formation_id(h: HandView) -> Seq<char> {
    let prefix = if preflop_raisers(h).len() == 1 {
        "srp"@
    } else {
        "3bp"@
    };
    prefix + "-"@ + text::lower_case(position_or(h, preflop_raisers(h).last())@) + "-"@
        + text::lower_case(position_or(h, caller_of(h))@)
}

/// The chips of the first seat of a player.
pub open spec fn stack_of(seats: Seq<SeatView>, name: Seq<char>, i: int) -> Option<Seq<char>>
    decreases seats.len() - i,
{
    if i >= seats.len() {
        None
    } else if seats[i].name == name {
        Some(seats[i].stack)
    } else {
        stack_of(seats, name, i + 1)
    }
}

/// A hand in a formation of the library, its depth and pot still to be held
/// against it.
pub struct Candidate {
    pub formation: Formation,
    /// The flop in lower case, as dealt.
    pub flop: String,
    pub hero_oop: bool,
    /// How often the hero acts after the flop.
    pub decisions: usize,
    /// The two players on the flop and their chips at the start.
    pub players: Vec<(String, String)>,
    /// What each player put in before the flop.
    pub paid: TextMap<Vec<String>>,
}

/// The players of a list and their chips.
pub open spec fn stacks_in(v: Seq<(String, String)>) -> Seq<(Seq<char>, Seq<char>)> {
    v.map_values(|p: (String, String)| (p.0@, p.1@))
}

/// The player at a seat and the chips of their first seat.
pub open spec fn start_of(h: HandView, seat: int) -> (Seq<char>, Seq<char>) {
    (h.seats[seat].name, stack_of(h.seats, h.seats[seat].name, 0)->0)
}

/// What is known of a hand in a formation.
pub open spec fn candidate_of(c: Candidate, h: HandView) -> bool {
    let f = solution::formation_at(solution::formation_index(formation_id(h))->0);
    &&& c.formation == f
    &&& c.flop@ == text::lower_case(text::joined(h.board.take(3), ""@))
    &&& c.hero_oop == (position_or(h, h.hero->0)@ == f.oop_seat@)
    &&& c.decisions == acts_by(h.flop, h.hero->0) + acts_by(h.turn, h.hero->0) + acts_by(
        h.river,
        h.hero->0,
    )
    &&& stacks_in(c.players@) == seq![
        start_of(h, flop_seats(h)[0]),
        start_of(h, flop_seats(h)[1]),
    ]
    &&& c.paid.wf()
    &&& text_lists(c.paid@) == ledger(h.preflop, h.preflop.len() as int)
}

fn is_seated(h: &RawHand, seats: &Vec<usize>, name: &str) -> (r: bool)
    requires
        forall|i: int| 0 <= i < seats@.len() ==> #[trigger] seats@[i] < h.seats@.len(),
    ensures
        r == sits(h@, places(seats@), name@),
{
    let ghost pv = places(seats@);
    let mut i: usize = 0;
    while i < seats.len()
        invariant
            i <= seats@.len(),
            pv == places(seats@),
            forall|k: int| 0 <= k < seats@.len() ==> #[trigger] seats@[k] < h.seats@.len(),
            forall|k: int| 0 <= k < i ==> h@.seats[#[trigger] pv[k]].name != name@,
        decreases seats@.len() - i,
    {
        assert(pv[i as int] == seats@[i as int]);
        assert(h@.seats[pv[i as int]] == h.seats@[pv[i as int]]@);
        if text::same_text(h.seats[seats[i]].name.as_str(), name) {
            return true;
        }
        i = i + 1;
    }
    false
}

fn raisers_in(actions: &Vec<Action>) -> (r: Vec<String>)
    ensures
        text::texts(r@) == raisers(actions_of(actions@), actions@.len() as int),
{
    let ghost av = actions_of(actions@);
    let mut out: Vec<String> = Vec::new();
    let mut i: usize = 0;
    assert(text::texts(out@) =~= Seq::<Seq<char>>::empty());
    while i < actions.len()
        invariant
            i <= actions@.len(),
            av == actions_of(actions@),
            text::texts(out@) == raisers(av, i as int),
        decreases actions@.len() - i,
    {
        assert(av[i as int] == actions@[i as int]@);
        if matches!(actions[i].act, Act::RaiseTo(_)) {
            let ghost before = out@;
            out.push(actions[i].player.clone());
            assert(text::texts(out@) =~= text::texts(before).push(av[i as int].player));
        }
        i = i + 1;
    }
    out
}

fn count_acts(actions: &Vec<Action>, name: &str) -> (r: usize)
    ensures
        r == acts_by(actions_of(actions@), name@),
        r <= actions@.len(),
{
    let ghost av = actions_of(actions@);
    let mut n: usize = 0;
    let mut i: usize = 0;
    assert(av.take(0) =~= Seq::<ActionView>::empty());
    while i < actions.len()
        invariant
            i <= actions@.len(),
            n <= i,
            av == actions_of(actions@),
            n == acts_by(av.take(i as int), name@),
        decreases actions@.len() - i,
    {
        proof {
            assert(av[i as int] == actions@[i as int]@);
            assert(av.take(i + 1).drop_last() =~= av.take(i as int));
        }
        if text::same_text(actions[i].player.as_str(), name) {
            n = n + 1;
        }
        i = i + 1;
    }
    assert(av.take(i as int) =~= av);
    n
}

fn find_stack(h: &RawHand, seat: usize) -> (r: String)
    requires
        seat < h.seats@.len(),
    ensures
        stack_of(h@.seats, h@.seats[seat as int].name, 0) == Some(r@),
{
    let ghost name = h@.seats[seat as int].name;
    assert(h@.seats[seat as int] == h.seats@[seat as int]@);
    let mut i: usize = 0;
    while i < seat && !text::same_text(h.seats[i].name.as_str(), h.seats[seat].name.as_str())
        invariant
            i <= seat,
            seat < h.seats@.len(),
            name == h.seats@[seat as int].name@,
            stack_of(h@.seats, name, 0) == stack_of(h@.seats, name, i as int),
        decreases seat - i,
    {
        assert(h@.seats[i as int] == h.seats@[i as int]@);
        i = i + 1;
    }
    assert(h@.seats[i as int] == h.seats@[i as int]@);
    h.seats[i].stack.clone()
}

/// Why a hand is skipped, as far as can be said before its positions are looked
/// at: the game, the hero, the flop, who saw it and who raised. `bb_positive`
/// says whether the big blind is above zero.
pub fn early_skip(h: &RawHand, bb_positive: bool) -> (r: Option<Skip>)
    ensures
        r == early_skip_of(h@, bb_positive),
{
    if !h.nlhe_cash || !bb_positive {
        return Some(Skip::NotNlheCash);
    }
    let hero = match &h.hero {
        Some(n) => n,
        None => {
            return Some(Skip::NoHero);
        },
    };
    if h.hero_cards.len() != 2 {
        assert(h@.hero_cards.len() == h.hero_cards@.len());
        return Some(Skip::NoHero);
    }
    if h.board.len() < 3 {
        assert(h@.board.len() == h.board@.len());
        return Some(Skip::NoFlop);
    }
    let seats = flop_players(h);
    assert(places(seats@).len() == seats@.len());
    if !is_seated(h, &seats, hero.as_str()) {
        return Some(Skip::HeroNotOnFlop);
    }
    if seats.len() != 2 {
        return Some(Skip::Multiway);
    }
    let raised = raisers_in(&h.preflop);
    assert(text::texts(raised@).len() == raised@.len());
    if raised.len() != 1 && raised.len() != 2 {
        return Some(Skip::PotType);
    }
    assert(text::texts(raised@).last() == raised@.last()@);
    if !is_seated(h, &seats, raised[raised.len() - 1].as_str()) {
        return Some(Skip::Formation);
    }
    None
}

fn position_text(pos: &TextMap<&'static str>, name: &str) -> (r: &'static str)
    requires
        pos.wf(),
    ensures
        r == if pos@.dom().contains(name@) {
            pos@[name@]
        } else {
            "?"
        },
{
    match pos.get(name) {
        Some(p) => *p,
        None => "?",
    }
}

/// Matches a hand against the formations, up to its depth and pot, which
/// `settle` decides. `bb_positive` says whether the big blind is above zero.
/// Where both players on the flop have the raiser's name there is no caller.
pub fn normalize(h: &RawHand, bb_positive: bool) -> (r: Result<Candidate, Skip>)
    requires
        early_skip_of(h@, bb_positive) is None ==> h@.seats[flop_seats(h@)[0]].name
            != h@.seats[flop_seats(h@)[1]].name,
        h@.flop.len() + h@.turn.len() + h@.river.len() <= usize::MAX,
    ensures
        r is Ok == (early_skip_of(h@, bb_positive) is None && solution::formation_index(
            formation_id(h@),
        ) is Some),
        r matches Ok(c) ==> candidate_of(c, h@),
        r matches Err(s) ==> s == match early_skip_of(h@, bb_positive) {
            Some(e) => e,
            None => Skip::Formation,
        },
{
    match early_skip(h, bb_positive) {
        Some(s) => {
            return Err(s);
        },
        None => {},
    }
    let hero = match &h.hero {
        Some(n) => n,
        None => {
            return Err(Skip::NoHero);
        },
    };
    let seats = flop_players(h);
    let raised = raisers_in(&h.preflop);
    let ghost sv = places(seats@);
    proof {
        assert(sv.len() == seats@.len());
        assert(sv[0] == seats@[0] && sv[1] == seats@[1]);
        assert(text::texts(raised@).len() == raised@.len());
        assert(text::texts(raised@).last() == raised@.last()@);
        assert(h@.seats[sv[0]] == h.seats@[sv[0]]@);
        assert(h@.seats[sv[1]] == h.seats@[sv[1]]@);
    }
    let aggressor = raised[raised.len() - 1].as_str();
    let caller = if text::same_text(h.seats[seats[0]].name.as_str(), aggressor) {
        h.seats[seats[1]].name.as_str()
    } else {
        h.seats[seats[0]].name.as_str()
    };
    let pos = positions(h);
    let prefix = if raised.len() == 1 {
        "srp"
    } else {
        "3bp"
    };
    let a = text::to_lower_case(position_text(&pos, aggressor));
    let b = text::to_lower_case(position_text(&pos, caller));
    let left = text::join3(prefix, "-", a.as_str());
    let id = text::join3(left.as_str(), "-", b.as_str());
    assert(id@ == formation_id(h@));
    let f = match solution::formation(id.as_str()) {
        Some(f) => f,
        None => {
            return Err(Skip::Formation);
        },
    };
    assert(h@.board.len() == h.board@.len());
    let mut dealt: Vec<String> = Vec::new();
    dealt.push(h.board[0].clone());
    dealt.push(h.board[1].clone());
    dealt.push(h.board[2].clone());
    assert(text::texts(dealt@) =~= h@.board.take(3));
    let flop = text::join_all(&dealt, "");
    let mut players: Vec<(String, String)> = Vec::new();
    players.push((h.seats[seats[0]].name.clone(), find_stack(h, seats[0])));
    players.push((h.seats[seats[1]].name.clone(), find_stack(h, seats[1])));
    assert(stacks_in(players@) =~= seq![start_of(h@, sv[0]), start_of(h@, sv[1])]);
    let n1: usize = count_acts(&h.flop, hero.as_str());
    let n2: usize = count_acts(&h.turn, hero.as_str());
    let n3: usize = count_acts(&h.river, hero.as_str());
    proof {
        assert(h@.flop.len() == h.flop@.len());
        assert(h@.turn.len() == h.turn@.len());
        assert(h@.river.len() == h.river@.len());
        assert(h@.preflop.len() == h.preflop@.len());
    }
    Ok(
        Candidate {
            hero_oop: text::same_text(position_text(&pos, hero.as_str()), f.oop_seat),
            formation: f,
            flop: text::to_lower_case(flop.as_str()),
            decisions: n1 + n2 + n3,
            players,
            paid: street_totals(&h.preflop),
        },
    )
}

/// A hand that the library models.
pub struct Matched {
    pub formation: Formation,
    pub flop: String,
    pub hero_oop: bool,
    pub decisions: usize,
    pub pot_bb: F32,
    pub stack_bb: F32,
}

/// The depths that a formation covers, from 0.6 to 1.5 times its own, and the
/// pots: a quarter of its own away.
pub open spec fn covers(f: Formation, stack_bb: F32) -> bool {
    let deep = f.stack_bb == F32 { bits: 0x42c2_0000 };
    let low = if deep {
        F32 { bits: 0x4268_cccd }
    } else {
        F32 { bits: 0x4255_999a }
    };
    let high = if deep {
        F32 { bits: 0x4311_8000 }
    } else {
        F32 { bits: 0x4305_8000 }
    };
    stack_bb.reaches(low) && high.reaches(stack_bb)
}

/// A quarter of the pot of a formation.
pub open spec fn pot_tolerance(f: Formation) -> F32 {
    if f.pot_bb == (F32 { bits: 0x40c0_0000 }) {
        F32 { bits: 0x3fc0_0000 }
    } else if f.pot_bb == (F32 { bits: 0x40b0_0000 }) {
        F32 { bits: 0x3fb0_0000 }
    } else if f.pot_bb == (F32 { bits: 0x4190_0000 }) {
        F32 { bits: 0x4090_0000 }
    } else {
        F32 { bits: 0x40a0_0000 }
    }
}

/// Holds a candidate against the depth and pot of its formation: `stack_bb` is
/// the smaller stack behind, `pot_bb` the pot on the flop and `pot_gap` its
/// distance from the formation's.
pub fn settle(c: Candidate, stack_bb: F32, pot_bb: F32, pot_gap: F32) -> (r: Result<Matched, Skip>)
    ensures
        r is Ok == (covers(c.formation, stack_bb) && !pot_tolerance(c.formation).below(pot_gap)),
        r matches Ok(m) ==> {
            &&& m.formation == c.formation
            &&& m.flop == c.flop
            &&& m.hero_oop == c.hero_oop
            &&& m.decisions == c.decisions
            &&& m.pot_bb == pot_bb
            &&& m.stack_bb == stack_bb
        },
        r matches Err(s) ==> s == if covers(c.formation, stack_bb) {
            Skip::Pot
        } else {
            Skip::Stack
        },
{
    let deep = c.formation.stack_bb.bits == 0x42c2_0000;
    let low = F32 {
        bits: if deep {
            0x4268_cccd
        } else {
            0x4255_999a
        },
    };
    let high = F32 {
        bits: if deep {
            0x4311_8000
        } else {
            0x4305_8000
        },
    };
    if !(stack_bb.ge(low) && high.ge(stack_bb)) {
        return Err(Skip::Stack);
    }
    let tolerance = if c.formation.pot_bb.bits == 0x40c0_0000 {
        F32 { bits: 0x3fc0_0000 }
    } else if c.formation.pot_bb.bits == 0x40b0_0000 {
        F32 { bits: 0x3fb0_0000 }
    } else if c.formation.pot_bb.bits == 0x4190_0000 {
        F32 { bits: 0x4090_0000 }
    } else {
        F32 { bits: 0x40a0_0000 }
    };
    if tolerance.lt(pot_gap) {
        return Err(Skip::Pot);
    }
    Ok(
        Matched {
            formation: c.formation,
            flop: c.flop,
            hero_oop: c.hero_oop,
            decisions: c.decisions,
            pot_bb,
            stack_bb,
        },
    )
}

// ---------------------------------------------------------------- coverage

/// The text of two bytes, empty where they are no text.
pub open spec fn pair_text(p: Seq<u8>) -> Seq<char> {
    if vstd::utf8::valid_utf8(p) {
        vstd::utf8::decode_utf8(p)
    } else {
        Seq::empty()
    }
}

/// The cards of a flop in ascending order, as one text.
pub open spec fn flop_identity(flop: Seq<char>) -> Seq<char> {
    text::joined(
        solution::sorted_texts(
            solution::byte_pairs(vstd::utf8::encode_utf8(flop)).map_values(
                |p: Seq<u8>| pair_text(p),
            ),
        ),
        ""@,
    )
}

/// A flop whatever the order of its cards.
pub fn sorted_flop(flop: &str) -> (r: String)
    ensures
        r@ == flop_identity(flop@),
{
    let bytes = flop.as_bytes();
    let mut out: Vec<String> = Vec::new();
    let mut i: usize = 0;
    let ghost all = bytes@;
    let ghost as_text = |p: Seq<u8>| pair_text(p);
    assert(solution::byte_pairs(all.take(0)) =~= Seq::empty());
    while i < bytes.len()
        invariant
            i <= bytes@.len(),
            all == bytes@,
            as_text == (|p: Seq<u8>| pair_text(p)),
            i % 2 == 0 || i == bytes@.len(),
            text::texts(out@) == solution::byte_pairs(all.take(i as int)).map_values(as_text),
        decreases bytes@.len() - i,
    {
        let n: usize = if bytes.len() - i >= 2 {
            i + 2
        } else {
            i + 1
        };
        let piece = vstd::slice::slice_subrange(bytes, i, n);
        let s = match text::from_bytes(piece) {
            Some(t) => t,
            None => String::new(),
        };
        let ghost before = out@;
        out.push(s);
        proof {
            let b = all.take(n as int);
            assert(b.take(i as int) =~= all.take(i as int));
            assert(b.skip(i as int) =~= piece@);
            assert(s@ =~= pair_text(piece@));
            assert(text::texts(out@) =~= text::texts(before).push(s@));
            assert(text::texts(out@) =~= solution::byte_pairs(b).map_values(as_text));
        }
        i = n;
    }
    assert(all.take(i as int) =~= all);
    let sorted = solution::sort_texts(&out);
    text::join_all(&sorted, "")
}

/// How many of the hands were skipped for this reason.
pub open spec fn skip_count(v: Seq<Result<Matched, Skip>>, s: Skip) -> nat
    decreases v.len(),
{
    if v.len() == 0 {
        0
    } else {
        skip_count(v.drop_last(), s) + if v.last() == Err::<Matched, Skip>(s) {
            1nat
        } else {
            0nat
        }
    }
}

/// How many of the hands are in this formation.
pub open spec fn hands_of(v: Seq<Result<Matched, Skip>>, id: Seq<char>) -> nat
    decreases v.len(),
{
    if v.len() == 0 {
        0
    } else {
        hands_of(v.drop_last(), id) + match v.last() {
            Ok(m) => if m.formation.id@ == id {
                1nat
            } else {
                0nat
            },
            Err(_) => 0nat,
        }
    }
}

/// How many decisions the hero made in this formation.
pub open spec fn decisions_of(v: Seq<Result<Matched, Skip>>, id: Seq<char>) -> nat
    decreases v.len(),
{
    if v.len() == 0 {
        0
    } else {
        decisions_of(v.drop_last(), id) + match v.last() {
            Ok(m) => if m.formation.id@ == id {
                m.decisions as nat
            } else {
                0nat
            },
            Err(_) => 0nat,
        }
    }
}

/// How many hands were matched.
pub open spec fn matched_of(v: Seq<Result<Matched, Skip>>) -> nat
    decreases v.len(),
{
    if v.len() == 0 {
        0
    } else {
        matched_of(v.drop_last()) + if v.last() is Ok {
            1nat
        } else {
            0nat
        }
    }
}

/// How many decisions the hero made in matched hands.
pub open spec fn all_decisions(v: Seq<Result<Matched, Skip>>) -> nat
    decreases v.len(),
{
    if v.len() == 0 {
        0
    } else {
        all_decisions(v.drop_last()) + match v.last() {
            Ok(m) => m.decisions as nat,
            Err(_) => 0nat,
        }
    }
}

/// The spots that matched hands ask for: formation and flop.
pub open spec fn gap_of(v: Seq<Result<Matched, Skip>>) -> Set<(Seq<char>, Seq<char>)>
    decreases v.len(),
{
    if v.len() == 0 {
        Set::empty()
    } else {
        match v.last() {
            Ok(m) => gap_of(v.drop_last()).insert((m.formation.id@, flop_identity(m.flop@))),
            Err(_) => gap_of(v.drop_last()),
        }
    }
}

/// The hands and decisions in one formation.
#[derive(Debug, Clone)]
pub struct FormationCount {
    pub id: String,
    pub hands: usize,
    pub decisions: usize,
}

/// What a set of hand histories covers.
#[derive(Debug, Clone)]
pub struct Coverage {
    pub matched: usize,
    pub decisions: usize,
    /// By id.
    pub formations: Vec<FormationCount>,
    /// The most frequent first, then by label.
    pub skips: Vec<(Skip, usize)>,
    pub skipped: usize,
    /// Distinct spots that matched hands ask for.
    pub gap: usize,
}

/// Each formation that was matched, once, in the order of ids.
pub open spec fn formation_rows(rows: Seq<FormationCount>, v: Seq<Result<Matched, Skip>>) -> bool {
    &&& forall|i: int, j: int|
        0 <= i < j < rows.len() ==> solution::text_before((#[trigger] rows[i]).id@, (#[trigger] rows[j]).id@)
    &&& forall|i: int|
        0 <= i < rows.len() ==> {
            &&& (#[trigger] rows[i]).hands == hands_of(v, rows[i].id@)
            &&& rows[i].hands > 0
            &&& rows[i].decisions == decisions_of(v, rows[i].id@)
        }
    &&& forall|id: Seq<char>|
        #[trigger] hands_of(v, id) > 0 ==> exists|i: int|
            0 <= i < rows.len() && (#[trigger] rows[i]).id@ == id
}

/// Each reason that occurs, once, by falling number and then by label.
pub open spec fn skip_rows(rows: Seq<(Skip, usize)>, v: Seq<Result<Matched, Skip>>) -> bool {
    &&& forall|i: int, j: int|
        0 <= i < j < rows.len() ==> (#[trigger] rows[i]).1 > (#[trigger] rows[j]).1 || (rows[i].1
            == rows[j].1 && solution::text_before(rows[i].0.words()@, rows[j].0.words()@))
    &&& forall|i: int|
        0 <= i < rows.len() ==> (#[trigger] rows[i]).1 == skip_count(v, rows[i].0) && rows[i].1 > 0
    &&& forall|s: Skip| #[trigger]
        skip_count(v, s) > 0 ==> exists|i: int| 0 <= i < rows.len() && (#[trigger] rows[i]).0 == s
}

/// The place of a reason among all, by label.
pub open spec fn skip_rank(s: Skip) -> int {
    match s {
        Skip::HeroNotOnFlop => 0,
        Skip::PotType => 1,
        Skip::Multiway => 2,
        Skip::NoFlop => 3,
        Skip::NoHero => 4,
        Skip::Pot => 5,
        Skip::Stack => 6,
        Skip::NotNlheCash => 7,
        Skip::Formation => 8,
    }
}

/// The reason at this place by label.
pub open spec fn skip_at(i: int) -> Skip {
    if i == 0 {
        Skip::HeroNotOnFlop
    } else if i == 1 {
        Skip::PotType
    } else if i == 2 {
        Skip::Multiway
    } else if i == 3 {
        Skip::NoFlop
    } else if i == 4 {
        Skip::NoHero
    } else if i == 5 {
        Skip::Pot
    } else if i == 6 {
        Skip::Stack
    } else if i == 7 {
        Skip::NotNlheCash
    } else {
        Skip::Formation
    }
}

fn skip_of(i: usize) -> (r: Skip)
    ensures
        r == skip_at(i as int),
{
    if i == 0 {
        Skip::HeroNotOnFlop
    } else if i == 1 {
        Skip::PotType
    } else if i == 2 {
        Skip::Multiway
    } else if i == 3 {
        Skip::NoFlop
    } else if i == 4 {
        Skip::NoHero
    } else if i == 5 {
        Skip::Pot
    } else if i == 6 {
        Skip::Stack
    } else if i == 7 {
        Skip::NotNlheCash
    } else {
        Skip::Formation
    }
}

proof fn lemma_first_letters(a: Seq<char>, b: Seq<char>)
    requires
        a.len() > 0,
        b.len() > 0,
        (a[0] as u32) < (b[0] as u32),
    ensures
        solution::text_before(a, b),
{
    assert(order::text_key(a)[0] == a[0] as u32);
    assert(order::text_key(b)[0] == b[0] as u32);
}

proof fn lemma_skip_labels(a: Skip, b: Skip)
    requires
        skip_rank(a) < skip_rank(b),
    ensures
        solution::text_before(a.words()@, b.words()@),
{
    reveal_strlit("hero folded preflop");
    reveal_strlit("limped or 4-bet+ pot");
    reveal_strlit("multiway flop");
    reveal_strlit("no flop");
    reveal_strlit("no hero cards (observed hand)");
    reveal_strlit("pot mismatch > 25%");
    reveal_strlit("stack outside depth band");
    reveal_strlit("tournament / non-NLHE");
    reveal_strlit("uncovered formation");
    let x = a.words()@;
    let y = b.words()@;
    if a is NoFlop && b is NoHero {
        let k = order::text_key(x);
        let l = order::text_key(y);
        assert(k[0] == l[0] && k[1] == l[1] && k[2] == l[2] && k[3] < l[3]);
        let k1 = k.drop_first();
        let l1 = l.drop_first();
        let k2 = k1.drop_first();
        let l2 = l1.drop_first();
        let k3 = k2.drop_first();
        let l3 = l2.drop_first();
        assert(k3[0] == k[3] && l3[0] == l[3]);
        assert(order::lex_le(k3, l3));
        assert(k2[0] == k[2] && l2[0] == l[2]);
        assert(order::lex_le(k2, l2));
        assert(k1[0] == k[1] && l1[0] == l[1]);
        assert(order::lex_le(k1, l1));
        assert(order::lex_le(k, l));
        assert(x[3] != y[3]);
    } else {
        lemma_first_letters(x, y);
    }
}

fn count_skip(v: &Vec<Result<Matched, Skip>>, s: Skip) -> (r: usize)
    ensures
        r == skip_count(v@, s),
{
    let mut n: usize = 0;
    let mut i: usize = 0;
    assert(v@.take(0) =~= Seq::<Result<Matched, Skip>>::empty());
    while i < v.len()
        invariant
            i <= v@.len(),
            n <= i,
            n == skip_count(v@.take(i as int), s),
        decreases v@.len() - i,
    {
        assert(v@.take(i + 1).drop_last() =~= v@.take(i as int));
        match &v[i] {
            Err(e) => {
                if *e == s {
                    n = n + 1;
                }
            },
            Ok(_) => {},
        }
        i = i + 1;
    }
    assert(v@.take(i as int) =~= v@);
    n
}

fn rank_skips(v: &Vec<Result<Matched, Skip>>) -> (rows: Vec<(Skip, usize)>)
    ensures
        skip_rows(rows@, v@),
{
    let mut rows: Vec<(Skip, usize)> = Vec::new();
    let mut k: usize = 0;
    while k < 9
        invariant
            k <= 9,
            forall|i: int, j: int|
                0 <= i < j < rows@.len() ==> (#[trigger] rows@[i]).1 > (#[trigger] rows@[j]).1 || (
                rows@[i].1 == rows@[j].1 && skip_rank(rows@[i].0) < skip_rank(rows@[j].0)),
            forall|i: int|
                0 <= i < rows@.len() ==> {
                    &&& (#[trigger] rows@[i]).1 == skip_count(v@, rows@[i].0)
                    &&& rows@[i].1 > 0
                    &&& skip_rank(rows@[i].0) < k
                },
            forall|s: Skip|
                skip_rank(s) < k && #[trigger] skip_count(v@, s) > 0 ==> exists|i: int|
                    0 <= i < rows@.len() && (#[trigger] rows@[i]).0 == s,
        decreases 9 - k,
    {
        let s = skip_of(k);
        assert(skip_rank(s) == k);
        let n: usize = count_skip(v, s);
        let ghost before = rows@;
        if n > 0 {
            let mut at: usize = 0;
            while at < rows.len() && rows[at].1 >= n
                invariant
                    at <= rows@.len(),
                    forall|i: int| 0 <= i < at ==> (#[trigger] rows@[i]).1 >= n,
                decreases rows@.len() - at,
            {
                at = at + 1;
            }
            rows.insert(at, (s, n));
            proof {
                assert forall|t: Skip|
                    skip_rank(t) < k + 1 && #[trigger] skip_count(v@, t) > 0 implies exists|i: int|
                    0 <= i < rows@.len() && (#[trigger] rows@[i]).0 == t by {
                    if t == s {
                        assert(rows@[at as int].0 == t);
                    } else {
                        assert(skip_rank(t) < k);
                        let i = choose|i: int| 0 <= i < before.len() && (#[trigger] before[i]).0 == t;
                        if i < at {
                            assert(rows@[i].0 == t);
                        } else {
                            assert(rows@[i + 1].0 == t);
                        }
                    }
                }
            }
        } else {
            assert(forall|t: Skip| skip_rank(t) < k + 1 ==> skip_rank(t) < k || t == s);
        }
        k = k + 1;
    }
    proof {
        assert forall|i: int, j: int| 0 <= i < j < rows@.len() implies (#[trigger] rows@[i]).1 > (
        #[trigger] rows@[j]).1 || (rows@[i].1 == rows@[j].1 && solution::text_before(
            rows@[i].0.words()@,
            rows@[j].0.words()@,
        )) by {
            if rows@[i].1 == rows@[j].1 {
                lemma_skip_labels(rows@[i].0, rows@[j].0);
            }
        }
    }
    rows
}

proof fn lemma_decisions_bound(v: Seq<Result<Matched, Skip>>, id: Seq<char>)
    ensures
        decisions_of(v, id) <= all_decisions(v),
        hands_of(v, id) <= v.len(),
    decreases v.len(),
{
    if v.len() > 0 {
        lemma_decisions_bound(v.drop_last(), id);
    }
}

proof fn lemma_decisions_grow(v: Seq<Result<Matched, Skip>>, i: int)
    requires
        0 <= i <= v.len(),
    ensures
        all_decisions(v.take(i)) <= all_decisions(v),
    decreases v.len(),
{
    if i < v.len() {
        lemma_decisions_grow(v.drop_last(), i);
        assert(v.drop_last().take(i) =~= v.take(i));
    } else {
        assert(v.take(i) =~= v);
    }
}

fn count_formation(v: &Vec<Result<Matched, Skip>>, id: &str) -> (r: (usize, usize))
    requires
        all_decisions(v@) <= usize::MAX,
    ensures
        r.0 == hands_of(v@, id@),
        r.1 == decisions_of(v@, id@),
{
    let mut n: usize = 0;
    let mut d: usize = 0;
    let mut i: usize = 0;
    assert(v@.take(0) =~= Seq::<Result<Matched, Skip>>::empty());
    while i < v.len()
        invariant
            i <= v@.len(),
            n <= i,
            n == hands_of(v@.take(i as int), id@),
            d == decisions_of(v@.take(i as int), id@),
            all_decisions(v@) <= usize::MAX,
        decreases v@.len() - i,
    {
        proof {
            assert(v@.take(i + 1).drop_last() =~= v@.take(i as int));
            lemma_decisions_grow(v@, i + 1);
            lemma_decisions_bound(v@.take(i + 1), id@);
        }
        match &v[i] {
            Ok(m) => {
                if text::same_text(m.formation.id, id) {
                    n = n + 1;
                    d = d + m.decisions;
                }
            },
            Err(_) => {},
        }
        i = i + 1;
    }
    assert(v@.take(i as int) =~= v@);
    (n, d)
}

/// The ids of the matched formations, each once, in no particular order.
pub open spec fn distinct_ids(ids: Seq<Seq<char>>, v: Seq<Result<Matched, Skip>>) -> bool {
    &&& ids.no_duplicates()
    &&& forall|id: Seq<char>| #[trigger] ids.contains(id) == (hands_of(v, id) > 0)
}

fn collect_ids(v: &Vec<Result<Matched, Skip>>) -> (r: Vec<String>)
    ensures
        distinct_ids(text::texts(r@), v@),
{
    let mut out: Vec<String> = Vec::new();
    let mut i: usize = 0;
    assert(v@.take(0) =~= Seq::<Result<Matched, Skip>>::empty());
    assert(text::texts(out@) =~= Seq::<Seq<char>>::empty());
    while i < v.len()
        invariant
            i <= v@.len(),
            distinct_ids(text::texts(out@), v@.take(i as int)),
        decreases v@.len() - i,
    {
        let ghost before = text::texts(out@);
        let ghost now = v@.take(i + 1);
        assert(now.drop_last() =~= v@.take(i as int));
        match &v[i] {
            Ok(m) => {
                if !solution::has_text(&out, m.formation.id) {
                    out.push(text::copy_text(m.formation.id));
                    assert(text::texts(out@) =~= before.push(m.formation.id@));
                    assert forall|id: Seq<char>| #[trigger]
                        text::texts(out@).contains(id) == (hands_of(now, id) > 0) by {
                        solution::lemma_push_contains(before, m.formation.id@, id);
                        assert(before.contains(id) == (hands_of(v@.take(i as int), id) > 0));
                    }
                } else {
                    assert forall|id: Seq<char>| #[trigger]
                        text::texts(out@).contains(id) == (hands_of(now, id) > 0) by {
                        assert(before.contains(id) == (hands_of(v@.take(i as int), id) > 0));
                    }
                }
            },
            Err(_) => {
                assert forall|id: Seq<char>| #[trigger]
                    text::texts(out@).contains(id) == (hands_of(now, id) > 0) by {
                    assert(before.contains(id) == (hands_of(v@.take(i as int), id) > 0));
                }
            },
        }
        i = i + 1;
    }
    assert(v@.take(i as int) =~= v@);
    out
}

fn formation_counts(v: &Vec<Result<Matched, Skip>>) -> (rows: Vec<FormationCount>)
    requires
        all_decisions(v@) <= usize::MAX,
    ensures
        formation_rows(rows@, v@),
{
    let ids = collect_ids(v);
    let ghost iv = text::texts(ids@);
    assert(iv.len() == ids.len());
    let sorted = solution::sort_texts(&ids);
    let ghost sv = text::texts(sorted@);
    proof {
        solution::lemma_sorted_distinct(iv);
    }
    let mut rows: Vec<FormationCount> = Vec::new();
    let mut i: usize = 0;
    while i < sorted.len()
        invariant
            i <= sorted@.len(),
            sv == text::texts(sorted@),
            rows@.len() == i,
            all_decisions(v@) <= usize::MAX,
            forall|k: int|
                0 <= k < i ==> {
                    &&& (#[trigger] rows@[k]).id@ == sv[k]
                    &&& rows@[k].hands == hands_of(v@, sv[k])
                    &&& rows@[k].decisions == decisions_of(v@, sv[k])
                },
        decreases sorted@.len() - i,
    {
        assert(sv[i as int] == sorted@[i as int]@);
        let (hands, decisions) = count_formation(v, sorted[i].as_str());
        rows.push(FormationCount { id: sorted[i].clone(), hands, decisions });
        i = i + 1;
    }
    proof {
        assert forall|k: int| 0 <= k < rows@.len() implies (#[trigger] rows@[k]).hands > 0 by {
            assert(sv.contains(sv[k]));
            assert(iv.contains(sv[k]));
        }
        assert forall|id: Seq<char>| #[trigger] hands_of(v@, id) > 0 implies exists|i: int|
            0 <= i < rows@.len() && (#[trigger] rows@[i]).id@ == id by {
            assert(iv.contains(id));
            assert(sv.contains(id));
            let k = choose|k: int| 0 <= k < sv.len() && sv[k] == id;
            assert(rows@[k].id@ == id);
        }
    }
    rows
}

/// Pairs of texts.
pub open spec fn text_pairs(v: Seq<(String, String)>) -> Seq<(Seq<char>, Seq<char>)> {
    v.map_values(|p: (String, String)| (p.0@, p.1@))
}

fn has_pair(list: &Vec<(String, String)>, a: &str, b: &str) -> (r: bool)
    ensures
        r == text_pairs(list@).contains((a@, b@)),
{
    let ghost tv = text_pairs(list@);
    let mut i: usize = 0;
    while i < list.len()
        invariant
            i <= list@.len(),
            tv == text_pairs(list@),
            forall|k: int| 0 <= k < i ==> #[trigger] tv[k] != (a@, b@),
        decreases list@.len() - i,
    {
        assert(tv[i as int] == (list@[i as int].0@, list@[i as int].1@));
        if text::same_text(list[i].0.as_str(), a) && text::same_text(list[i].1.as_str(), b) {
            return true;
        }
        i = i + 1;
    }
    false
}

proof fn lemma_pushed_set(s: Seq<(Seq<char>, Seq<char>)>, p: (Seq<char>, Seq<char>))
    ensures
        s.push(p).to_set() == s.to_set().insert(p),
{
    let t = s.push(p);
    assert forall|x: (Seq<char>, Seq<char>)| #[trigger]
        t.to_set().contains(x) == s.to_set().insert(p).contains(x) by {
        if s.contains(x) {
            let k = choose|k: int| 0 <= k < s.len() && s[k] == x;
            assert(t[k] == x);
        }
        assert(t[s.len() as int] == p);
        if t.contains(x) {
            let k = choose|k: int| 0 <= k < t.len() && t[k] == x;
            assert(k < s.len() ==> s[k] == x);
        }
    }
    assert(t.to_set() =~= s.to_set().insert(p));
}

fn count_gap(v: &Vec<Result<Matched, Skip>>) -> (r: usize)
    ensures
        r == gap_of(v@).len(),
{
    let mut out: Vec<(String, String)> = Vec::new();
    let mut i: usize = 0;
    assert(v@.take(0) =~= Seq::<Result<Matched, Skip>>::empty());
    assert(text_pairs(out@).to_set() =~= Set::empty());
    while i < v.len()
        invariant
            i <= v@.len(),
            text_pairs(out@).no_duplicates(),
            text_pairs(out@).to_set() == gap_of(v@.take(i as int)),
        decreases v@.len() - i,
    {
        let ghost before = text_pairs(out@);
        let ghost now = v@.take(i + 1);
        assert(now.drop_last() =~= v@.take(i as int));
        match &v[i] {
            Ok(m) => {
                let flop = sorted_flop(m.flop.as_str());
                let ghost p = (m.formation.id@, flop@);
                if !has_pair(&out, m.formation.id, flop.as_str()) {
                    out.push((text::copy_text(m.formation.id), flop));
                    proof {
                        assert(text_pairs(out@) =~= before.push(p));
                        lemma_pushed_set(before, p);
                    }
                } else {
                    assert(before.to_set().contains(p));
                    assert(before.to_set().insert(p) =~= before.to_set());
                }
            },
            Err(_) => {},
        }
        i = i + 1;
    }
    proof {
        assert(v@.take(i as int) =~= v@);
        text_pairs(out@).unique_seq_to_set();
    }
    out.len()
}

/// What the hands cover: how many were matched, in which formations, why the
/// others were not, and how many spots they ask for.
pub fn coverage(v: &Vec<Result<Matched, Skip>>) -> (r: Coverage)
    requires
        all_decisions(v@) <= usize::MAX,
    ensures
        r.matched == matched_of(v@),
        r.decisions == all_decisions(v@),
        formation_rows(r.formations@, v@),
        skip_rows(r.skips@, v@),
        r.matched + r.skipped == v@.len(),
        r.gap == gap_of(v@).len(),
{
    let mut matched: usize = 0;
    let mut decisions: usize = 0;
    let mut i: usize = 0;
    assert(v@.take(0) =~= Seq::<Result<Matched, Skip>>::empty());
    while i < v.len()
        invariant
            i <= v@.len(),
            matched <= i,
            matched == matched_of(v@.take(i as int)),
            decisions == all_decisions(v@.take(i as int)),
            all_decisions(v@) <= usize::MAX,
        decreases v@.len() - i,
    {
        proof {
            assert(v@.take(i + 1).drop_last() =~= v@.take(i as int));
            lemma_decisions_grow(v@, i + 1);
        }
        match &v[i] {
            Ok(m) => {
                matched = matched + 1;
                decisions = decisions + m.decisions;
            },
            Err(_) => {},
        }
        i = i + 1;
    }
    assert(v@.take(i as int) =~= v@);
    Coverage {
        matched,
        decisions,
        formations: formation_counts(v),
        skips: rank_skips(v),
        skipped: v.len() - matched,
        gap: count_gap(v),
    }
}

/// Every hand is counted once: the reasons and the matched hands add up.
pub proof fn every_hand_is_counted(v: Seq<Result<Matched, Skip>>)
    ensures
        matched_of(v) + skip_count(v, Skip::NotNlheCash) + skip_count(v, Skip::NoHero)
            + skip_count(v, Skip::NoFlop) + skip_count(v, Skip::HeroNotOnFlop) + skip_count(
            v,
            Skip::Multiway,
        ) + skip_count(v, Skip::PotType) + skip_count(v, Skip::Formation) + skip_count(
            v,
            Skip::Stack,
        ) + skip_count(v, Skip::Pot) == v.len(),
    decreases v.len(),
{
    if v.len() > 0 {
        every_hand_is_counted(v.drop_last());
        match v.last() {
            Ok(m) => {},
            Err(s) => {
                assert forall|t: Skip| #[trigger]
                    skip_count(v, t) == skip_count(v.drop_last(), t) + if s == t {
                        1nat
                    } else {
                        0nat
                    } by {}
            },
        }
    }
}

/// A line belongs to a player whose name it starts with, followed by `": "`: of
/// those players one with the longest name, of equally long ones the last. It is
/// nobody's only where there is no such player.
pub proof fn the_longest_name_owns_the_line(line: Seq<char>, seats: Seq<SeatView>, k: int)
    requires
        0 <= k <= seats.len(),
    ensures
        owner(line, seats, k) is None <==> forall|i: int|
            0 <= i < k ==> !owned_by(line, (#[trigger] seats[i]).name),
        owner(line, seats, k) matches Some(w) ==> {
            &&& 0 <= w < k
            &&& line == seats[w].name + ": "@ + line.skip(seats[w].name.len() as int + 2)
            &&& forall|i: int|
                0 <= i < k && owned_by(line, (#[trigger] seats[i]).name) ==> seats[i].name.len()
                    < seats[w].name.len() || (seats[i].name.len() == seats[w].name.len() && i <= w)
        },
    decreases k,
{
    reveal_strlit(": ");
    if k > 0 {
        the_longest_name_owns_the_line(line, seats, k - 1);
        let name = seats[k - 1].name;
        if owned_by(line, name) {
            let rest = line.skip(name.len() as int);
            assert(rest.take(2) == ": "@);
            assert(line.take(name.len() as int) == name);
            assert(line =~= name + ": "@ + line.skip(name.len() as int + 2)) by {
                assert(line =~= line.take(name.len() as int) + rest.take(2) + rest.skip(2));
                assert(rest.skip(2) =~= line.skip(name.len() as int + 2));
            }
        }
    }
}

/// A numeral: it starts with a digit and has digits and at most one point.
pub open spec fn numeral(n: Seq<char>) -> bool {
    &&& n.len() > 0
    &&& text::is_digit(n[0])
    &&& forall|i: int| 0 <= i < n.len() ==> text::is_digit(#[trigger] n[i]) || n[i] == '.'
    &&& forall|i: int, j: int|
        0 <= i < n.len() && 0 <= j < n.len() && #[trigger] n[i] == '.' && #[trigger] n[j] == '.'
            ==> i == j
}

/// An amount is the numeral in it: what stands before the numeral has no digit,
/// and what follows it starts with neither a digit nor a point.
pub proof fn amounts_read_back(before: Seq<char>, n: Seq<char>, after: Seq<char>)
    requires
        forall|i: int| 0 <= i < before.len() ==> !text::is_digit(#[trigger] before[i]),
        numeral(n),
        after.len() > 0 ==> !text::is_digit(after[0]) && after[0] != '.',
    ensures
        amount_in(before + n + after) == Some(n),
    decreases before.len(),
{
    let s = before + n + after;
    if before.len() > 0 {
        assert(s[0] == before[0]);
        assert(s.drop_first() =~= before.drop_first() + n + after);
        amounts_read_back(before.drop_first(), n, after);
    } else {
        assert(s =~= n + after);
        assert(from_digit(s) == s) by {
            assert(s[0] == n[0]);
        }
        lemma_numeral_end(n, after, 0);
        assert(s.take(n.len() as int) =~= n);
        lemma_one_point(n);
    }
}

proof fn lemma_numeral_end(n: Seq<char>, after: Seq<char>, i: int)
    requires
        0 <= i <= n.len(),
        forall|k: int| 0 <= k < n.len() ==> text::is_digit(#[trigger] n[k]) || n[k] == '.',
        after.len() > 0 ==> !text::is_digit(after[0]) && after[0] != '.',
    ensures
        numeral_end(n + after, i) == n.len(),
    decreases n.len() - i,
{
    let s = n + after;
    if i < n.len() {
        assert(s[i] == n[i]);
        lemma_numeral_end(n, after, i + 1);
    } else if after.len() > 0 {
        assert(s[i] == after[0]);
    }
}

proof fn lemma_one_point(n: Seq<char>)
    requires
        forall|i: int, j: int|
            0 <= i < n.len() && 0 <= j < n.len() && #[trigger] n[i] == '.' && #[trigger] n[j]
                == '.' ==> i == j,
    ensures
        0 <= points(n) <= 1,
        points(n) == 1 ==> n.contains('.'),
    decreases n.len(),
{
    if n.len() > 0 {
        let r = n.drop_last();
        assert forall|i: int, j: int|
            0 <= i < r.len() && 0 <= j < r.len() && #[trigger] r[i] == '.' && #[trigger] r[j]
                == '.' implies i == j by {
            assert(n[i] == '.' && n[j] == '.');
        }
        lemma_one_point(r);
        if points(r) == 1 {
            let i = r.index_of('.');
            assert(n[i] == '.');
            assert(n[n.len() - 1] != '.');
        }
        if n.last() == '.' {
            assert(n[n.len() - 1] == '.');
        }
    }
}

/// The line starts a hand.
pub open spec fn starts_hand(line: Seq<char>) -> bool {
    text::begins(text::trim_end(line), "PokerStars "@)
}

/// The blocks of a file are the lines from the first header on that hold more than
/// white space, cut before each header.
pub proof fn blocks_are_cut_at_headers(lines: Seq<Seq<char>>, n: int, f: int)
    requires
        0 <= f <= n <= lines.len(),
        f < n ==> starts_hand(lines[f]),
        forall|i: int| 0 <= i < f ==> !starts_hand(#[trigger] lines[i]),
    ensures
        blocks_of(lines, n).flatten() == lines.subrange(f, n).map_values(
            |l: Seq<char>| text::trim_end(l),
        ).filter(|l: Seq<char>| l.len() > 0),
        forall|b: int|
            0 <= b < blocks_of(lines, n).len() ==> (#[trigger] blocks_of(lines, n)[b]).len() > 0
                && text::begins(blocks_of(lines, n)[b][0], "PokerStars "@),
        forall|b: int, i: int|
            0 <= b < blocks_of(lines, n).len() && 1 <= i < blocks_of(lines, n)[b].len()
                ==> !text::begins(#[trigger] blocks_of(lines, n)[b][i], "PokerStars "@),
{
    lemma_blocks(lines, n, f);
    blocks_of(lines, n).lemma_flatten_and_flatten_alt_are_equivalent();
}

proof fn lemma_blocks(lines: Seq<Seq<char>>, n: int, f: int)
    requires
        0 <= f <= n <= lines.len(),
        f < n ==> starts_hand(lines[f]),
        forall|i: int| 0 <= i < f ==> !starts_hand(#[trigger] lines[i]),
    ensures
        blocks_of(lines, n).len() > 0 <==> f < n,
        blocks_of(lines, n).flatten_alt() == lines.subrange(f, n).map_values(
            |l: Seq<char>| text::trim_end(l),
        ).filter(|l: Seq<char>| l.len() > 0),
        forall|b: int|
            0 <= b < blocks_of(lines, n).len() ==> (#[trigger] blocks_of(lines, n)[b]).len() > 0
                && text::begins(blocks_of(lines, n)[b][0], "PokerStars "@),
        forall|b: int, i: int|
            0 <= b < blocks_of(lines, n).len() && 1 <= i < blocks_of(lines, n)[b].len()
                ==> !text::begins(#[trigger] blocks_of(lines, n)[b][i], "PokerStars "@),
    decreases n,
{
    reveal(Seq::filter);
    reveal_strlit("PokerStars ");
    let cut = |l: Seq<char>| text::trim_end(l);
    let some = |l: Seq<char>| l.len() > 0;
    let now = blocks_of(lines, n);
    let kept = lines.subrange(f, n).map_values(cut);
    if n == 0 {
        assert(kept =~= Seq::empty());
    } else if f == n {
        lemma_no_blocks(lines, n);
        assert(kept =~= Seq::empty());
    } else {
        let b = blocks_of(lines, n - 1);
        let line = text::trim_end(lines[n - 1]);
        assert(kept.drop_last() =~= lines.subrange(f, n - 1).map_values(cut));
        assert(kept.last() == line);
        if f == n - 1 {
            lemma_no_blocks(lines, n - 1);
            assert(lines.subrange(f, n - 1).map_values(cut) =~= Seq::empty());
            assert(now =~= seq![seq![line]]);
            assert(now.drop_last() =~= Seq::<Seq<Seq<char>>>::empty());
            assert(now.drop_last().flatten_alt() =~= Seq::empty());
            assert(now.flatten_alt() =~= seq![line]);
            assert(kept.drop_last().filter(some) =~= Seq::empty());
            assert(kept.filter(some) =~= seq![line]);
        } else {
            lemma_blocks(lines, n - 1, f);
            if text::begins(line, "PokerStars "@) {
                assert(now.drop_last() =~= b);
                assert(now.flatten_alt() =~= b.flatten_alt().push(line));
            } else if line.len() > 0 {
                assert(now.drop_last() =~= b.drop_last());
                assert(now.flatten_alt() =~= b.flatten_alt().push(line));
                assert forall|c: int| 0 <= c < now.len() implies (#[trigger] now[c]).len() > 0
                    && text::begins(now[c][0], "PokerStars "@) by {
                    assert(b[c].len() > 0 && text::begins(b[c][0], "PokerStars "@));
                    assert(now[c][0] == b[c][0]);
                }
                assert forall|c: int, i: int|
                    0 <= c < now.len() && 1 <= i < now[c].len() implies !text::begins(
                    #[trigger] now[c][i],
                    "PokerStars "@,
                ) by {
                    if c == b.len() - 1 && i == b[c].len() {
                        assert(now[c][i] == line);
                    } else {
                        assert(now[c][i] == b[c][i]);
                    }
                }
            }
        }
    }
}

proof fn lemma_no_blocks(lines: Seq<Seq<char>>, n: int)
    requires
        0 <= n <= lines.len(),
        forall|i: int| 0 <= i < n ==> !starts_hand(#[trigger] lines[i]),
    ensures
        blocks_of(lines, n) == Seq::<Seq<Seq<char>>>::empty(),
    decreases n,
{
    if n > 0 {
        lemma_no_blocks(lines, n - 1);
        assert(!starts_hand(lines[n - 1]));
    }
}

/// The hands of a file are those of the blocks that can be read, in order.
pub proof fn every_readable_block_is_a_hand(blocks: Seq<Seq<Seq<char>>>, n: int)
    requires
        0 <= n <= blocks.len(),
    ensures
        hands_in(blocks, n) == blocks.take(n).filter(|b: Seq<Seq<char>>| hand_in(b) is Some).map_values(
            |b: Seq<Seq<char>>| hand_in(b)->0,
        ),
    decreases n,
{
    reveal(Seq::filter);
    let ok = |b: Seq<Seq<char>>| hand_in(b) is Some;
    let read = |b: Seq<Seq<char>>| hand_in(b)->0;
    if n > 0 {
        every_readable_block_is_a_hand(blocks, n - 1);
        assert(blocks.take(n).drop_last() =~= blocks.take(n - 1));
        assert(blocks.take(n).last() == blocks[n - 1]);
        let before = blocks.take(n - 1).filter(ok);
        if ok(blocks[n - 1]) {
            assert(before.push(blocks[n - 1]).map_values(read) =~= before.map_values(read).push(
                read(blocks[n - 1]),
            ));
        }
    } else {
        assert(blocks.take(n).filter(ok).map_values(read) =~= Seq::empty());
    }
}

/// The raisers before the flop are the players of the raises, in order.
pub proof fn raisers_are_the_players_of_raises(actions: Seq<ActionView>, n: int)
    requires
        0 <= n <= actions.len(),
    ensures
        raisers(actions, n) == actions.take(n).filter(|a: ActionView| a.act is RaiseTo).map_values(
            |a: ActionView| a.player,
        ),
    decreases n,
{
    reveal(Seq::filter);
    let raises = |a: ActionView| a.act is RaiseTo;
    let who = |a: ActionView| a.player;
    if n > 0 {
        raisers_are_the_players_of_raises(actions, n - 1);
        assert(actions.take(n).drop_last() =~= actions.take(n - 1));
        assert(actions.take(n).last() == actions[n - 1]);
        let before = actions.take(n - 1).filter(raises);
        if raises(actions[n - 1]) {
            assert(before.push(actions[n - 1]).map_values(who) =~= before.map_values(who).push(
                actions[n - 1].player,
            ));
        }
    } else {
        assert(actions.take(n).filter(raises).map_values(who) =~= Seq::empty());
    }
}

/// The decisions of a player on a street are that player's actions on it.
pub proof fn decisions_are_the_players_actions(actions: Seq<ActionView>, name: Seq<char>)
    ensures
        acts_by(actions, name) == actions.filter(|a: ActionView| a.player == name).len(),
    decreases actions.len(),
{
    reveal(Seq::filter);
    if actions.len() > 0 {
        decisions_are_the_players_actions(actions.drop_last(), name);
    }
}

/// The amount that an action puts in, where it puts in one.
pub open spec fn money_of(a: ActView) -> Option<Seq<char>> {
    match a {
        ActView::Call(x) => Some(x),
        ActView::Bet(x) => Some(x),
        ActView::Post(x) => Some(x),
        ActView::RaiseTo(x) => Some(x),
        ActView::Fold => None,
        ActView::Check => None,
    }
}

/// What a player has put in on a street counts from that player's last raise: the
/// total raised to, then what was added. Without a raise everything counts. What
/// the others do does not matter, and who did nothing is not listed.
pub proof fn street_totals_count_from_the_last_raise(
    actions: Seq<ActionView>,
    n: int,
    name: Seq<char>,
    from: int,
)
    requires
        0 <= from <= n <= actions.len(),
        from > 0 ==> actions[from - 1].player == name && actions[from - 1].act is RaiseTo,
        forall|i: int|
            from <= i < n && (#[trigger] actions[i]).player == name ==> !(actions[i].act is RaiseTo),
    ensures
        ledger(actions, n).dom().contains(name) <==> exists|i: int|
            0 <= i < n && (#[trigger] actions[i]).player == name,
        ledger(actions, n).dom().contains(name) ==> ledger(actions, n)[name] == (if from > 0 {
            seq![actions[from - 1].act->RaiseTo_0]
        } else {
            Seq::empty()
        }) + actions.subrange(from, n).filter(
            |a: ActionView| a.player == name && money_of(a.act) is Some,
        ).map_values(|a: ActionView| money_of(a.act)->0),
    decreases n,
{
    reveal(Seq::filter);
    let pays = |a: ActionView| a.player == name && money_of(a.act) is Some;
    let sum = |a: ActionView| money_of(a.act)->0;
    if from == n {
        assert(actions.subrange(from, n).filter(pays).map_values(sum) =~= Seq::empty());
    }
    if n > 0 {
        let a = actions[n - 1];
        if from < n {
            street_totals_count_from_the_last_raise(actions, n - 1, name, from);
            assert(actions.subrange(from, n).drop_last() =~= actions.subrange(from, n - 1));
            assert(actions.subrange(from, n).last() == a);
            let before = actions.subrange(from, n - 1).filter(pays);
            if pays(a) {
                assert(before.push(a).map_values(sum) =~= before.map_values(sum).push(sum(a)));
            }
            if a.player == name && !ledger(actions, n - 1).dom().contains(name) {
                assert(from == 0) by {
                    if from > 0 {
                        assert(actions[from - 1].player == name);
                    }
                }
                assert(before.len() == 0) by {
                    if before.len() > 0 {
                        actions.subrange(from, n - 1).lemma_filter_pred(pays, 0);
                        actions.subrange(from, n - 1).lemma_filter_contains_rev(pays, before[0]);
                        let i = actions.subrange(from, n - 1).index_of(before[0]);
                        assert(actions[from + i].player == name);
                    }
                }
                assert(before.map_values(sum) =~= Seq::empty());
            }
            if ledger(actions, n).dom().contains(name) {
                let head = if from > 0 {
                    seq![actions[from - 1].act->RaiseTo_0]
                } else {
                    Seq::empty()
                };
                assert(ledger(actions, n)[name] =~= head + actions.subrange(from, n).filter(
                    pays,
                ).map_values(sum));
            }
        } else {
            assert(ledger(actions, n)[name] == seq![a.act->RaiseTo_0]);
            assert(seq![a.act->RaiseTo_0] + actions.subrange(from, n).filter(pays).map_values(sum)
                =~= seq![a.act->RaiseTo_0]);
            assert(actions[n - 1].player == name);
        }
        if a.player == name {
            assert(actions[n - 1].player == name);
        } else {
            assert(ledger(actions, n).dom().contains(name) == ledger(
                actions,
                n - 1,
            ).dom().contains(name));
        }
    }
}

/// The chips of a player are those of the first seat with that name.
pub proof fn stacks_are_of_the_first_seat(seats: Seq<SeatView>, name: Seq<char>, i: int, k: int)
    requires
        0 <= i <= k < seats.len(),
        seats[k].name == name,
        forall|j: int| i <= j < k ==> (#[trigger] seats[j]).name != name,
    ensures
        stack_of(seats, name, i) == Some(seats[k].stack),
    decreases k - i,
{
    if i < k {
        stacks_are_of_the_first_seat(seats, name, i + 1, k);
    }
}

/// A hand goes on to its formation exactly where it is a no-limit cash game with
/// blinds, the hero has two cards, there is a flop, the hero and one other player
/// dealt in did not fold before it, and there were one or two raises, the last by
/// one of the two.
pub proof fn heads_up_raised_pots_are_matched(h: HandView, bb_positive: bool)
    ensures
        early_skip_of(h, bb_positive) is None <==> {
            let raises = h.preflop.filter(|a: ActionView| a.act is RaiseTo);
            &&& h.nlhe_cash
            &&& bb_positive
            &&& h.hero is Some
            &&& h.hero_cards.len() == 2
            &&& h.board.len() >= 3
            &&& flop_seats(h).len() == 2
            &&& sits(h, flop_seats(h), h.hero->0)
            &&& 1 <= raises.len() <= 2
            &&& sits(h, flop_seats(h), raises.last().player)
        },
        early_skip_of(h, bb_positive) is None ==> h.seats[flop_seats(h)[0]].name
            != h.seats[flop_seats(h)[1]].name ==> {
            &&& caller_of(h) != preflop_raisers(h).last()
            &&& sits(h, flop_seats(h), caller_of(h))
        },
{
    let raises = h.preflop.filter(|a: ActionView| a.act is RaiseTo);
    raisers_are_the_players_of_raises(h.preflop, h.preflop.len() as int);
    assert(h.preflop.take(h.preflop.len() as int) =~= h.preflop);
    assert(preflop_raisers(h).len() == raises.len());
    if raises.len() > 0 {
        assert(preflop_raisers(h).last() == raises.last().player);
    }
    if early_skip_of(h, bb_positive) is None && h.seats[flop_seats(h)[0]].name
        != h.seats[flop_seats(h)[1]].name {
        let seats = flop_seats(h);
        assert(h.seats[seats[0]].name == caller_of(h) || h.seats[seats[1]].name == caller_of(h));
    }
}

/// The formation of a hand counts its matched hands, and the decisions in them.
pub proof fn formations_count_their_hands(v: Seq<Result<Matched, Skip>>, id: Seq<char>)
    ensures
        hands_of(v, id) == v.filter(|m: Result<Matched, Skip>| m is Ok && (m->Ok_0).formation.id@ == id).len(),
        decisions_of(v, id) == v.filter(
            |m: Result<Matched, Skip>| m is Ok && (m->Ok_0).formation.id@ == id,
        ).fold_left(0int, |n: int, m: Result<Matched, Skip>| n + (m->Ok_0).decisions),
        matched_of(v) == v.filter(|m: Result<Matched, Skip>| m is Ok).len(),
    decreases v.len(),
{
    reveal(Seq::filter);
    reveal(Seq::fold_left);
    if v.len() > 0 {
        formations_count_their_hands(v.drop_last(), id);
        let of = |m: Result<Matched, Skip>| m is Ok && (m->Ok_0).formation.id@ == id;
        let add = |n: int, m: Result<Matched, Skip>| n + (m->Ok_0).decisions;
        let before = v.drop_last().filter(of);
        if of(v.last()) {
            assert(before.push(v.last()).drop_last() =~= before);
        }
    }
}

/// The gap is made of the spots of matched hands, and of no others.
pub proof fn the_gap_is_what_matched_hands_ask_for(
    v: Seq<Result<Matched, Skip>>,
    id: Seq<char>,
    flop: Seq<char>,
)
    ensures
        gap_of(v).contains((id, flop)) <==> exists|i: int|
            0 <= i < v.len() && (#[trigger] v[i]) is Ok && (v[i]->Ok_0).formation.id@ == id
                && flop_identity((v[i]->Ok_0).flop@) == flop,
    decreases v.len(),
{
    if v.len() > 0 {
        let r = v.drop_last();
        the_gap_is_what_matched_hands_ask_for(r, id, flop);
        if gap_of(r).contains((id, flop)) {
            let i = choose|i: int|
                0 <= i < r.len() && (#[trigger] r[i]) is Ok && (r[i]->Ok_0).formation.id@ == id
                    && flop_identity((r[i]->Ok_0).flop@) == flop;
            assert(v[i] == r[i]);
        }
        if exists|i: int|
            0 <= i < v.len() && (#[trigger] v[i]) is Ok && (v[i]->Ok_0).formation.id@ == id
                && flop_identity((v[i]->Ok_0).flop@) == flop {
            let i = choose|i: int|
                0 <= i < v.len() && (#[trigger] v[i]) is Ok && (v[i]->Ok_0).formation.id@ == id
                    && flop_identity((v[i]->Ok_0).flop@) == flop;
            if i < r.len() {
                assert(r[i] == v[i]);
            }
        }
        assert(v[v.len() - 1] == v.last());
    }
}

/// The words in the last brackets of a line are read back.
pub proof fn bracketed_cards_read_back(before: Seq<char>, ws: Seq<Seq<char>>, after: Seq<char>)
    requires
        forall|i: int| 0 <= i < ws.len() ==> text::solid(#[trigger] ws[i]),
        forall|i: int|
            0 <= i < ws.len() ==> !(#[trigger] ws[i]).contains('[') && !ws[i].contains(']'),
        !after.contains('['),
    ensures
        bracket_words(before + seq!['['] + text::joined(ws, seq![' ']) + seq![']'] + after) == ws,
{
    let inner = text::joined(ws, seq![' ']);
    lemma_joined_without(ws, '[');
    lemma_joined_without(ws, ']');
    let line = before + seq!['['] + inner + seq![']'] + after;
    let open = text::char_before(line, '[', line.len() as int);
    text::the_last_char_is_found(line, '[', line.len() as int);
    assert(line[before.len() as int] == '[');
    assert(open >= before.len());
    assert(open == before.len()) by {
        if open > before.len() {
            assert(line[open] == '[');
            let k = open - before.len() - 1;
            if k < inner.len() {
                assert(line[open] == inner[k]);
                assert(inner.contains('['));
            } else if k > inner.len() {
                assert(line[open] == after[k - inner.len() - 1]);
                assert(after.contains('['));
            }
        }
    }
    let rest = line.skip(open + 1);
    assert(rest =~= inner + seq![']'] + after);
    text::the_first_char_is_found(rest, ']', 0);
    let close = text::char_from(rest, ']', 0);
    assert(rest[inner.len() as int] == ']');
    assert(close <= inner.len());
    assert(close == inner.len()) by {
        if close < inner.len() {
            assert(rest[close] == inner[close]);
            assert(inner.contains(']'));
        }
    }
    assert(rest.take(close) =~= inner);
    text::spaced_words_read_back(ws, ' ');
}

proof fn lemma_joined_without(ws: Seq<Seq<char>>, c: char)
    requires
        c != ' ',
        forall|i: int| 0 <= i < ws.len() ==> !(#[trigger] ws[i]).contains(c),
    ensures
        !text::joined(ws, seq![' ']).contains(c),
    decreases ws.len(),
{
    let j = text::joined(ws, seq![' ']);
    if ws.len() == 1 {
        assert(!ws[0].contains(c));
    } else if ws.len() > 1 {
        let r = ws.drop_last();
        assert forall|i: int| 0 <= i < r.len() implies !(#[trigger] r[i]).contains(c) by {
            assert(!ws[i].contains(c));
        }
        lemma_joined_without(r, c);
        let a = text::joined(r, seq![' ']);
        assert(!ws[ws.len() - 1].contains(c));
        if j.contains(c) {
            let k = j.index_of(c);
            if k < a.len() {
                assert(a[k] == c);
            } else if k > a.len() {
                assert(ws.last()[k - a.len() - 1] == c);
            }
        }
    }
}

/// A raise is read as the total it is to, not as what it adds.
pub proof fn raises_read_the_total(added: Seq<char>, currency: Seq<char>, total: Seq<char>)
    requires
        !added.contains(' '),
        forall|i: int| 0 <= i < currency.len() ==> !text::is_digit(#[trigger] currency[i]),
        !currency.contains(' '),
        numeral(total),
    ensures
        act_in("raises "@ + added + " to "@ + currency + total) == Some(ActView::RaiseTo(total)),
{
    reveal_strlit("raises ");
    reveal_strlit(" to ");
    reveal_strlit(" and is all-in");
    reveal_strlit("folds");
    reveal_strlit("checks");
    reveal_strlit("calls ");
    let amount = currency + total;
    let v = "raises "@ + added + " to "@ + currency + total;
    assert(v.skip(v.len() - total.len()) =~= total);
    lemma_no_all_in(v, total);
    assert(v.take(7) =~= "raises "@);
    assert(v[0] == 'r');
    assert(!text::begins(v, "folds"@)) by {
        if text::begins(v, "folds"@) {
            assert(v.take(5)[0] == 'f');
        }
    }
    assert(!text::begins(v, "calls "@)) by {
        if text::begins(v, "calls "@) {
            assert(v.take(6)[0] == 'c');
        }
    }
    assert("checks"@[0] == 'c');
    let s = v.skip(7);
    assert(s =~= added + " to "@ + amount);
    text::the_first_place_is_found(s, " to "@, 0);
    let at = added.len() as int;
    assert(s.subrange(at, at + 4) =~= " to "@);
    let i = text::sub_from(s, " to "@, 0);
    assert(i == at) by {
        if i < at {
            assert(s.subrange(i, i + 4)[0] == ' ');
            assert(s[i] == added[i]);
            assert(added.contains(' '));
        }
    }
    let rest = s.skip(at + 4);
    assert(rest =~= amount);
    text::the_first_place_is_found(rest, " to "@, 0);
    let j = text::sub_from(rest, " to "@, 0);
    assert(j < 0) by {
        if j >= 0 {
            assert(rest.subrange(j, j + 4)[0] == ' ');
            if j < currency.len() {
                assert(rest[j] == currency[j]);
                assert(currency.contains(' '));
            } else {
                assert(rest[j] == total[j - currency.len()]);
            }
        }
    }
    amounts_read_back(currency, total, Seq::empty());
    assert(currency + total + Seq::empty() =~= amount);
}

proof fn lemma_no_all_in(v: Seq<char>, n: Seq<char>)
    requires
        numeral(n),
        v.len() >= n.len(),
        v.skip(v.len() - n.len()) == n,
    ensures
        without_all_in(v) == v,
{
    reveal_strlit(" and is all-in");
    if text::ends(v, " and is all-in"@) {
        assert(v.skip(v.len() - 14)[13] == 'n');
        assert(v.last() == 'n');
        assert(n[n.len() - 1] == v.last());
    }
}

/// Calls, bets and posts are read with the amount that they name; of a post that
/// is the last word.
pub proof fn paid_amounts_are_read(currency: Seq<char>, n: Seq<char>, what: Seq<char>)
    requires
        forall|i: int| 0 <= i < currency.len() ==> !text::is_digit(#[trigger] currency[i]),
        !currency.contains(' '),
        numeral(n),
    ensures
        act_in("calls "@ + currency + n) == Some(ActView::Call(n)),
        act_in("bets "@ + currency + n) == Some(ActView::Bet(n)),
        act_in("posts "@ + what + " "@ + currency + n) == Some(ActView::Post(n)),
{
    reveal_strlit("calls ");
    reveal_strlit("bets ");
    reveal_strlit("posts ");
    reveal_strlit("raises ");
    reveal_strlit("folds");
    reveal_strlit("checks");
    reveal_strlit(" ");
    amounts_read_back(currency, n, Seq::empty());
    let amount = currency + n;
    assert(currency + n + Seq::empty() =~= amount);
    let c = "calls "@ + currency + n;
    assert(c.skip(c.len() - n.len()) =~= n);
    lemma_no_all_in(c, n);
    assert(c.take(6) =~= "calls "@);
    assert(c.skip(6) =~= amount);
    assert(c[0] == 'c' && c[1] == 'a' && "checks"@[1] == 'h');
    assert(!text::begins(c, "folds"@)) by {
        if text::begins(c, "folds"@) {
            assert(c.take(5)[0] == 'f');
        }
    }
    let b = "bets "@ + currency + n;
    assert(b.skip(b.len() - n.len()) =~= n);
    lemma_no_all_in(b, n);
    assert(b.take(5) =~= "bets "@);
    assert(b.skip(5) =~= amount);
    assert(b[0] == 'b' && "checks"@[0] == 'c');
    assert(!text::begins(b, "folds"@) && !text::begins(b, "calls "@) && !text::begins(
        b,
        "raises "@,
    )) by {
        if text::begins(b, "folds"@) {
            assert(b.take(5)[0] == 'f');
        }
        if text::begins(b, "calls "@) {
            assert(b.take(6)[0] == 'c');
        }
        if text::begins(b, "raises "@) {
            assert(b.take(7)[0] == 'r');
        }
    }
    let p = "posts "@ + what + " "@ + currency + n;
    assert(p.skip(p.len() - n.len()) =~= n);
    lemma_no_all_in(p, n);
    assert(p.take(6) =~= "posts "@);
    assert(p[0] == 'p');
    assert(!text::begins(p, "folds"@) && !text::begins(p, "calls "@) && !text::begins(
        p,
        "raises "@,
    ) && !text::begins(p, "bets "@)) by {
        if text::begins(p, "folds"@) {
            assert(p.take(5)[0] == 'f');
        }
        if text::begins(p, "calls "@) {
            assert(p.take(6)[0] == 'c');
        }
        if text::begins(p, "raises "@) {
            assert(p.take(7)[0] == 'r');
        }
        if text::begins(p, "bets "@) {
            assert(p.take(5)[0] == 'b');
        }
    }
    text::the_last_char_is_found(p, ' ', p.len() as int);
    let at = 6 + what.len() as int;
    assert(p[at] == ' ');
    let k = text::char_before(p, ' ', p.len() as int);
    assert(k == at) by {
        if k > at {
            if k < at + 1 + currency.len() {
                assert(p[k] == currency[k - at - 1]);
                assert(currency.contains(' '));
            } else {
                assert(p[k] == n[k - at - 1 - currency.len()]);
            }
        }
    }
    assert(p.skip(at + 1) =~= amount);
}

/// The mark of an all-in changes nothing about an action.
pub proof fn all_in_marks_change_nothing(verb: Seq<char>)
    requires
        !text::ends(verb, " and is all-in"@),
    ensures
        act_in(verb + " and is all-in"@) == act_in(verb),
{
    let v = verb + " and is all-in"@;
    assert(v.skip(verb.len() as int) =~= " and is all-in"@);
    assert(v.take(verb.len() as int) =~= verb);
}

/// A seat line is read back: its number, the name of the player, and the chips in
/// the brackets before `" in chips"`.
pub proof fn seat_lines_read_back(
    number: int,
    name: Seq<char>,
    currency: Seq<char>,
    chips: Seq<char>,
    after: Seq<char>,
    tail: Seq<char>,
)
    requires
        0 <= number <= u32::MAX,
        tail == name + seq![' ', '('] + currency + chips + " in chips"@ + after,
        name.len() > 0,
        !text::is_space(name[0]),
        !text::is_space(name.last()),
        forall|i: int| 0 <= i < currency.len() ==> !text::is_digit(#[trigger] currency[i]),
        !currency.contains('('),
        numeral(chips),
        forall|k: int|
            0 <= k < name.len() + 2 + currency.len() + chips.len() ==> !#[trigger] text::occurs(
                tail,
                " in chips"@,
                k,
            ),
    ensures
        seat_in(text::decimal(number) + ": "@ + tail) == Some(
            SeatView { number, name, stack: chips },
        ),
{
    reveal_strlit(": ");
    reveal_strlit(" in chips");
    let d = text::decimal(number);
    let rest = d + ": "@ + tail;
    text::lemma_decimal_digits(number);
    text::decimals_read_back(number, u32::MAX as int);
    let at = d.len() as int;
    text::the_first_place_is_found(rest, ": "@, 0);
    assert(rest.subrange(at, at + 2) =~= ": "@);
    let colon = text::sub_from(rest, ": "@, 0);
    assert(colon == at) by {
        if colon < at {
            assert(rest.subrange(colon, colon + 2)[0] == ':');
            assert(rest[colon] == d[colon]);
        }
    }
    assert(rest.skip(colon + 2) =~= tail);
    assert(rest.take(colon) =~= d);
    let c: int = name.len() as int + 2 + currency.len() + chips.len();
    text::the_first_place_is_found(tail, " in chips"@, 0);
    assert(tail.subrange(c, c + 9) =~= " in chips"@);
    let found = text::sub_from(tail, " in chips"@, 0);
    assert(found == c) by {
        if found < c {
            assert(text::occurs(tail, " in chips"@, found));
        }
    }
    let o: int = name.len() as int + 1;
    text::the_last_char_is_found(tail, '(', c);
    let open = text::char_before(tail, '(', c);
    assert(tail[o] == '(');
    assert(open == o) by {
        if open > o {
            if open < o + 1 + currency.len() {
                assert(tail[open] == currency[open - o - 1]);
                assert(currency.contains('('));
            } else {
                assert(tail[open] == chips[open - o - 1 - currency.len()]);
            }
        }
    }
    amounts_read_back(currency, chips, Seq::empty());
    assert(tail.subrange(open + 1, found) =~= currency + chips + Seq::empty());
    let padded = tail.take(open);
    assert(padded =~= name.push(' '));
    let r = text::trimming_takes_the_ends(padded);
    assert(padded[0] == name[0]);
    assert(padded[name.len() - 1] == name.last());
    assert(padded[name.len() as int] == ' ');
    assert(r.0 == 0);
    assert(r.1 == name.len());
    assert(padded.subrange(0, name.len() as int) =~= name);
}

/// The actions are as they were, or with the action of the line added.
pub open spec fn gains(
    now: Seq<ActionView>,
    was: Seq<ActionView>,
    h: HandView,
    line: Seq<char>,
) -> bool {
    ||| now == was
    ||| owner(line, h.seats, h.seats.len() as int) matches Some(i) && now.len() == was.len() + 1
        && now.take(was.len() as int) == was && now.last().player == h.seats[i].name && act_in(
        line.skip(h.seats[i].name.len() as int + 2),
    ) == Some(now.last().act)
}

/// A line that starts no street adds at most one action, of the player who owns
/// the line and on the street that is played, and touches neither the board nor
/// the other streets.
pub proof fn actions_land_on_their_street(h: HandView, street: int, line: Seq<char>)
    requires
        0 <= street <= 3,
        !text::begins(line, "*** "@),
    ensures
        ({
            let g = after_line(h, street, line).hand;
            &&& after_line(h, street, line).street == street
            &&& !after_line(h, street, line).over
            &&& g.board == h.board
            &&& g.id == h.id
            &&& g.bb == h.bb
            &&& if street == 0 {
                gains(g.preflop, h.preflop, h, line)
            } else {
                g.preflop == h.preflop && g.seats == h.seats
            }
            &&& if street == 1 {
                gains(g.flop, h.flop, h, line)
            } else {
                g.flop == h.flop
            }
            &&& if street == 2 {
                gains(g.turn, h.turn, h, line)
            } else {
                g.turn == h.turn
            }
            &&& street < 3 ==> g.river == h.river
            &&& street == 3 ==> gains(g.river, h.river, h, line)
        }),
{
    let g = after_line(h, street, line).hand;
    if street == 0 && g.preflop != h.preflop {
        assert(g.preflop.take(h.preflop.len() as int) =~= h.preflop);
    }
    if street == 1 && g.flop != h.flop {
        assert(g.flop.take(h.flop.len() as int) =~= h.flop);
    }
    if street == 2 && g.turn != h.turn {
        assert(g.turn.take(h.turn.len() as int) =~= h.turn);
    }
    if street == 3 && g.river != h.river {
        assert(g.river.take(h.river.len() as int) =~= h.river);
    }
}

/// A line of stars touches nothing but the board: the flop sets it, the turn and
/// the river add to it.
pub proof fn streets_deal_the_board(h: HandView, street: int, line: Seq<char>)
    requires
        text::begins(line, "*** "@),
    ensures
        ({
            let r = after_line(h, street, line);
            &&& r.hand == HandView { board: r.hand.board, ..h }
            &&& r.street == street || 1 <= r.street <= 3
            &&& text::begins(line, "*** FLOP"@) ==> r.street == 1 && r.hand.board
                == bracket_words(line)
            &&& text::begins(line, "*** TURN"@) ==> r.street == 2 && r.hand.board == h.board
                + bracket_words(line)
            &&& text::begins(line, "*** RIVER"@) ==> r.street == 3 && r.hand.board == h.board
                + bracket_words(line)
        }),
{
    reveal_strlit("*** ");
    reveal_strlit("*** FLOP");
    reveal_strlit("*** TURN");
    reveal_strlit("*** RIVER");
    reveal_strlit("Table '");
    assert(!text::begins(line, "Table '"@)) by {
        if text::begins(line, "Table '"@) {
            assert(line.take(7)[0] == 'T' && line.take(4)[0] == '*');
        }
    }
    if text::begins(line, "*** FLOP"@) {
        assert(line.take(8)[4] == 'F');
    }
    if text::begins(line, "*** TURN"@) {
        assert(line.take(8)[4] == 'T');
    }
    if text::begins(line, "*** RIVER"@) {
        assert(line.take(9)[4] == 'R');
    }
}

/// The button is the seat whose number stands after the last `"Seat #"` of the table
/// line.
pub proof fn the_button_seat_is_read(
    before: Seq<char>,
    number: int,
    after: Seq<Seq<char>>,
    tail: Seq<char>,
)
    requires
        0 <= number <= u32::MAX,
        forall|i: int| 0 <= i < after.len() ==> text::solid(#[trigger] after[i]),
        tail == text::joined(seq![text::decimal(number)] + after, seq![' ']),
        forall|k: int| !#[trigger] text::occurs(tail, "Seat #"@, k),
    ensures
        button_in(before + "Seat #"@ + tail) == number,
{
    reveal_strlit("Seat #");
    let d = text::decimal(number);
    text::lemma_decimal_digits(number);
    text::decimals_read_back(number, u32::MAX as int);
    let ws = seq![d] + after;
    let rest = before + "Seat #"@ + tail;
    let k = before.len() as int;
    text::the_last_place_is_found(rest, "Seat #"@, rest.len() as int);
    assert(rest.subrange(k, k + 6) =~= "Seat #"@);
    let at = text::sub_before(rest, "Seat #"@, rest.len() as int);
    assert(at == k) by {
        if at > k {
            assert(rest.subrange(at, at + 6)[0] == 'S');
            assert(rest[at] == 'S');
            if at < k + 6 {
                assert(rest[at] == "Seat #"@[at - k]);
            } else {
                assert(tail.subrange(at - k - 6, at - k) =~= rest.subrange(at, at + 6));
                assert(text::occurs(tail, "Seat #"@, at - k - 6));
            }
        }
    }
    assert(rest.skip(at + 6) =~= tail);
    assert forall|i: int| 0 <= i < ws.len() implies text::solid(#[trigger] ws[i]) by {
        if i == 0 {
            assert forall|j: int| 0 <= j < d.len() implies !text::is_space(#[trigger] d[j]) by {
                assert(text::is_digit(d[j]));
            }
        } else {
            assert(ws[i] == after[i - 1]);
        }
    }
    text::spaced_words_read_back(ws, ' ');
    assert(ws[0] == d);
}

/// The number of a hand stands between the first `#` of its header and the `:` after
/// it.
pub proof fn hand_numbers_are_read(before: Seq<char>, id: Seq<char>, after: Seq<char>)
    requires
        !before.contains('#'),
        !id.contains('#'),
        !id.contains(':'),
    ensures
        id_in(before + seq!['#'] + (id + seq![':'] + after)) == id,
{
    let rest = id + seq![':'] + after;
    let header = before + seq!['#'] + rest;
    lemma_split_head(before, rest, '#');
    let p = text::split(header, '#');
    let q = text::split(rest, '#');
    assert(p == seq![before] + q);
    let start = id + seq![':'];
    assert(rest.take(start.len() as int) =~= start);
    assert(!start.contains('#')) by {
        if start.contains('#') {
            let i = start.index_of('#');
            if i < id.len() {
                assert(id[i] == '#');
                assert(id.contains('#'));
            }
        }
    }
    lemma_first_piece(rest, '#', start);
    let w = q[0];
    assert(p[1] == w);
    text::the_first_char_is_found(w, ':', 0);
    assert(w[id.len() as int] == ':') by {
        assert(w.take(id.len() as int + 1)[id.len() as int] == ':');
    }
    let c = text::char_from(w, ':', 0);
    assert(c == id.len()) by {
        if c < id.len() {
            assert(w.take(id.len() as int + 1)[c] == w[c]);
            assert(id[c] == ':');
            assert(id.contains(':'));
        }
    }
    assert(w.take(c) =~= id) by {
        assert(w.take(id.len() as int + 1) =~= id + seq![':']);
        assert forall|i: int| 0 <= i < c implies #[trigger] w[i] == id[i] by {
            assert(w.take(id.len() as int + 1)[i] == w[i]);
        }
    }
}

proof fn lemma_split_head(a: Seq<char>, b: Seq<char>, sep: char)
    requires
        !a.contains(sep),
    ensures
        text::split(a + seq![sep] + b, sep) == seq![a] + text::split(b, sep),
    decreases b.len(),
{
    let whole = a + seq![sep] + b;
    if b.len() == 0 {
        text::lemma_split_whole(a, sep);
        assert(whole =~= a + seq![sep] + Seq::empty());
        text::lemma_split_tail(a, Seq::empty(), sep);
        assert(text::split(b, sep) =~= seq![Seq::empty()]);
        assert(seq![a].push(Seq::empty()) =~= seq![a] + seq![Seq::empty()]);
    } else {
        let c = b.drop_last();
        lemma_split_head(a, c, sep);
        text::joining_undoes_splitting(c, sep);
        assert(whole.drop_last() =~= a + seq![sep] + c);
        assert(whole.last() == b.last());
        let p = seq![a] + text::split(c, sep);
        if b.last() == sep {
            assert(p.push(Seq::empty()) =~= seq![a] + text::split(c, sep).push(Seq::empty()));
        } else {
            let q = text::split(c, sep);
            assert(p.drop_last().push(p.last().push(b.last())) =~= seq![a] + q.drop_last().push(
                q.last().push(b.last()),
            ));
        }
    }
}

proof fn lemma_first_piece(s: Seq<char>, sep: char, head: Seq<char>)
    requires
        head.len() <= s.len(),
        s.take(head.len() as int) == head,
        !head.contains(sep),
    ensures
        text::split(s, sep).len() >= 1,
        text::split(s, sep)[0].len() >= head.len(),
        text::split(s, sep)[0].take(head.len() as int) == head,
    decreases s.len(),
{
    text::joining_undoes_splitting(s, sep);
    if s.len() == head.len() {
        assert(s =~= head);
        text::lemma_split_whole(head, sep);
        assert(head.take(head.len() as int) =~= head);
    } else {
        let r = s.drop_last();
        assert(r.take(head.len() as int) =~= head);
        lemma_first_piece(r, sep, head);
        let p = text::split(r, sep);
        if s.last() != sep && p.len() == 1 {
            assert(text::split(s, sep)[0] == p[0].push(s.last()));
            assert(p[0].push(s.last()).take(head.len() as int) =~= p[0].take(head.len() as int));
        }
    }
}

/// The big blind is the second amount of the first brackets that hold two.
pub proof fn stakes_are_read(
    before: Seq<char>,
    small: Seq<char>,
    currency: Seq<char>,
    big: Seq<char>,
    unit: Seq<char>,
    after: Seq<char>,
)
    requires
        !before.contains('('),
        !before.contains('/'),
        !before.contains(')'),
        !small.contains('/'),
        !small.contains(')'),
        !small.contains('('),
        !currency.contains('/'),
        !currency.contains(')'),
        !currency.contains('('),
        forall|i: int| 0 <= i < currency.len() ==> !text::is_digit(#[trigger] currency[i]),
        numeral(big),
        !unit.contains('/'),
        !unit.contains(')'),
        !unit.contains('('),
        unit.len() > 0 ==> !text::is_digit(unit[0]) && unit[0] != '.',
    ensures
        big_blind_in(
            before + seq!['('] + (small + seq!['/'] + (currency + big + unit) + seq![')'] + after),
        ) == Some(big),
{
    let amount = currency + big + unit;
    let inner = small + seq!['/'] + amount;
    let rest = inner + seq![')'] + after;
    assert(rest =~= small + seq!['/'] + amount + seq![')'] + after);
    let header = before + seq!['('] + rest;
    lemma_split_head(before, rest, '(');
    let p = text::split(header, '(');
    assert forall|c: char| (c == '/' || c == ')' || c == '(') implies !#[trigger] amount.contains(
        c,
    ) by {
        if amount.contains(c) {
            let i = amount.index_of(c);
            if i < currency.len() {
                assert(currency[i] == c);
                assert(currency.contains(c));
            } else if i < currency.len() + big.len() {
                assert(big[i - currency.len()] == c);
            } else {
                assert(unit[i - currency.len() - big.len()] == c);
                assert(unit.contains(c));
            }
        }
    }
    let head = inner + seq![')'];
    assert(!head.contains('(') && !inner.contains(')')) by {
        if head.contains('(') {
            let i = head.index_of('(');
            if i < small.len() {
                assert(small[i] == '(');
                assert(small.contains('('));
            } else if i > small.len() && i < inner.len() {
                assert(amount[i - small.len() - 1] == '(');
                assert(amount.contains('('));
            }
        }
        if inner.contains(')') {
            let i = inner.index_of(')');
            if i < small.len() {
                assert(small[i] == ')');
                assert(small.contains(')'));
            } else if i > small.len() {
                assert(amount[i - small.len() - 1] == ')');
                assert(amount.contains(')'));
            }
        }
    }
    assert(rest.take(head.len() as int) =~= head);
    lemma_first_piece(rest, '(', head);
    let w = p[1];
    assert(w == text::split(rest, '(')[0]);
    assert(p[0] == before);
    lemma_up_to(before, ')', before, true);
    assert(!text::up_to(p[0], ')').contains('/'));
    assert(inner.push(')') =~= head);
    lemma_up_to(w, ')', inner, false);
    assert(text::up_to(w, ')') == inner);
    assert(inner[small.len() as int] == '/');
    assert(inner.contains('/'));
    reveal_with_fuel(stakes_in, 3);
    assert(stakes_in(p, 0) == Some(inner));
    lemma_split_head(small, amount, '/');
    text::lemma_split_whole(amount, '/');
    assert(text::split(inner, '/')[1] == amount);
    amounts_read_back(currency, big, unit);
}

proof fn lemma_up_to(s: Seq<char>, c: char, head: Seq<char>, whole: bool)
    requires
        !head.contains(c),
        whole ==> s == head,
        !whole ==> head.len() < s.len() && s.take(head.len() as int + 1) == head.push(c),
    ensures
        text::up_to(s, c) == head,
{
    text::the_first_char_is_found(s, c, 0);
    let k = text::char_from(s, c, 0);
    if whole {
        if k < s.len() {
            assert(head.contains(c));
        }
        assert(s.take(k) =~= head);
    } else {
        let t = head.push(c);
        assert(s[head.len() as int] == c) by {
            assert(s.take(head.len() as int + 1)[head.len() as int] == c);
        }
        assert(k == head.len()) by {
            if k < head.len() {
                assert(s.take(head.len() as int + 1)[k] == s[k]);
                assert(head[k] == c);
                assert(head.contains(c));
            }
        }
        assert(s.take(k) =~= head) by {
            assert forall|i: int| 0 <= i < k implies #[trigger] s[i] == head[i] by {
                assert(s.take(head.len() as int + 1)[i] == s[i]);
            }
        }
    }
}

/// What follows the summary of a hand is not read.
pub proof fn the_summary_ends_the_hand(r: Reading, lines: Seq<Seq<char>>, i: int)
    requires
        0 <= i < lines.len(),
        text::begins(lines[i], "*** SUMMARY"@),
    ensures
        read_from(r, lines, i) == r.hand,
{
    reveal_strlit("*** SUMMARY");
    reveal_strlit("*** ");
    reveal_strlit("*** FLOP");
    reveal_strlit("*** TURN");
    reveal_strlit("*** RIVER");
    reveal_strlit("Table '");
    let line = lines[i];
    assert(line.take(11)[4] == 'S' && line.take(11)[0] == '*');
    assert(line.take(4) =~= "*** "@) by {
        assert(line.take(4) =~= line.take(11).take(4));
    }
    if text::begins(line, "Table '"@) {
        assert(line.take(7)[0] == 'T');
    }
    if text::begins(line, "*** FLOP"@) {
        assert(line.take(8)[4] == 'F');
    }
    if text::begins(line, "*** TURN"@) {
        assert(line.take(8)[4] == 'T');
    }
    if text::begins(line, "*** RIVER"@) {
        assert(line.take(9)[4] == 'R');
    }
    reveal_with_fuel(read_from, 2);
}

/// The hero is the player who is dealt cards, and holds them.
pub proof fn the_hero_is_dealt_cards(h: HandView, street: int, name: Seq<char>, ws: Seq<Seq<char>>)
    requires
        name.len() > 0,
        !text::is_space(name[0]),
        !text::is_space(name.last()),
        forall|i: int| 0 <= i < ws.len() ==> text::solid(#[trigger] ws[i]),
        forall|i: int|
            0 <= i < ws.len() ==> !(#[trigger] ws[i]).contains('[') && !ws[i].contains(']'),
    ensures
        ({
            let line = "Dealt to "@ + (name.push(' ') + seq!['['] + text::joined(ws, seq![' '])
                + seq![']'] + Seq::empty());
            let g = after_line(h, street, line).hand;
            g == (HandView { hero: Some(name), hero_cards: ws, ..h })
        }),
{
    reveal_strlit("Dealt to ");
    reveal_strlit("Table '");
    reveal_strlit("*** ");
    reveal_strlit("Seat ");
    let rest = name.push(' ') + seq!['['] + text::joined(ws, seq![' ']) + seq![']'] + Seq::empty();
    let line = "Dealt to "@ + rest;
    assert(line[0] == 'D');
    assert(line.take(9) =~= "Dealt to "@);
    assert(line.skip(9) =~= rest);
    if text::begins(line, "Table '"@) {
        assert(line.take(7)[0] == 'T');
    }
    if text::begins(line, "*** "@) {
        assert(line.take(4)[0] == '*');
    }
    if text::begins(line, "Seat "@) {
        assert(line.take(5)[0] == 'S');
    }
    bracketed_cards_read_back(name.push(' '), ws, Seq::empty());
    let inner = text::joined(ws, seq![' ']);
    lemma_joined_without(ws, '[');
    text::the_last_char_is_found(rest, '[', rest.len() as int);
    let open = text::char_before(rest, '[', rest.len() as int);
    let k = name.len() as int + 1;
    assert(rest[k] == '[');
    assert(open == k) by {
        if open > k {
            if open < k + 1 + inner.len() {
                assert(rest[open] == inner[open - k - 1]);
                assert(inner.contains('['));
            }
        }
    }
    let padded = rest.take(open);
    assert(padded =~= name.push(' '));
    let r = text::trimming_takes_the_ends(padded);
    assert(padded[0] == name[0]);
    assert(padded[name.len() - 1] == name.last());
    assert(padded[name.len() as int] == ' ');
    assert(r.0 == 0 && r.1 == name.len());
    assert(padded.subrange(0, name.len() as int) =~= name);
}

/// The pot of a hand may be a quarter of the formation's away from it: the tolerance
/// is the pot with an exponent two lower.
pub proof fn pots_may_be_a_quarter_off(i: int)
    requires
        0 <= i < 5,
    ensures
        pot_tolerance(solution::formation_at(i)).bits == solution::formation_at(i).pot_bb.bits
            - 2 * 0x80_0000,
        4 * pot_tolerance(solution::formation_at(i)).magnitude() == solution::formation_at(
            i,
        ).pot_bb.magnitude(),
{
    let t = pot_tolerance(solution::formation_at(i));
    let p = solution::formation_at(i).pot_bb;
    let e = (t.exponent() - 1) as nat;
    vstd::arithmetic::power2::lemma_pow2_adds(e, 2);
    vstd::arithmetic::power2::lemma2_to64();
    let q = vstd::arithmetic::power2::pow2(e) as int;
    assert(p.exponent() == t.exponent() + 2 && p.fraction() == t.fraction());
    assert((p.exponent() - 1) as nat == e + 2);
    let f = 0x80_0000 + t.fraction();
    assert(4 * (f * q) == f * (q * 4)) by (nonlinear_arith);
}

/// A hand is deep enough for a formation from three fifths of its stacks to three
/// halves of them, but for the rounding of the lower bound.
pub proof fn depths_go_from_three_fifths_to_three_halves(i: int, stack: F32)
    requires
        0 <= i < 5,
        stack.finite(),
    ensures
        ({
            let f = solution::formation_at(i);
            let (s, d) = (bits::value_of(stack), f.stack_bb.magnitude());
            let unit = vstd::arithmetic::power2::pow2(131) as int;
            &&& covers(f, stack) ==> 3 * d <= 5 * s && 2 * s <= 3 * d
            &&& 3 * d + 2 * unit <= 5 * s && 2 * s <= 3 * d ==> covers(f, stack)
        }),
{
    let f = solution::formation_at(i);
    let deep = f.stack_bb == F32 { bits: 0x42c2_0000 };
    let low = if deep {
        F32 { bits: 0x4268_cccd }
    } else {
        F32 { bits: 0x4255_999a }
    };
    let high = if deep {
        F32 { bits: 0x4311_8000 }
    } else {
        F32 { bits: 0x4305_8000 }
    };
    bits::numbers_compare_by_value(stack, low);
    bits::numbers_compare_by_value(high, stack);
    vstd::arithmetic::power2::lemma_pow2_adds(131, 1);
    vstd::arithmetic::power2::lemma_pow2_adds(132, 1);
    vstd::arithmetic::power2::lemma2_to64();
    let u = vstd::arithmetic::power2::pow2(131) as int;
    assert(vstd::arithmetic::power2::pow2(132) == 2 * u);
    assert(vstd::arithmetic::power2::pow2(133) == 4 * u);
    assert(low.exponent() == 132 && f.stack_bb.exponent() == 133 && high.exponent() == 134);
    if deep {
        assert(low.magnitude() == 15256781 * u);
        assert(f.stack_bb.magnitude() == 12713984 * (2 * u));
        assert(high.magnitude() == 9535488 * (4 * u));
    } else {
        assert(low.magnitude() == 13998490 * u);
        assert(f.stack_bb.magnitude() == 11665408 * (2 * u));
        assert(high.magnitude() == 8749056 * (4 * u));
    }
}

/// A flop is the same spot whatever the order of its cards.
pub proof fn spots_ignore_the_order_of_the_flop(a: Seq<char>, b: Seq<char>)
    requires
        ({
            let cut = |f: Seq<char>|
                solution::byte_pairs(vstd::utf8::encode_utf8(f)).map_values(
                    |p: Seq<u8>| pair_text(p),
                );
            cut(a).to_multiset() == cut(b).to_multiset() && cut(a).len() <= usize::MAX && cut(
                b,
            ).len() <= usize::MAX
        }),
    ensures
        flop_identity(a) == flop_identity(b),
{
    let cut = |f: Seq<char>|
        solution::byte_pairs(vstd::utf8::encode_utf8(f)).map_values(|p: Seq<u8>| pair_text(p));
    order::sorting_ignores_order(cut(a), cut(b));
}

/// Each reason to skip a hand comes where it applies and no earlier one does: the
/// game, the hero, the flop, the hero on it, who else is, the raises before it, and
/// who made the last.
pub proof fn reasons_come_in_their_order(h: HandView, bb_positive: bool)
    ensures
        ({
            let r = early_skip_of(h, bb_positive);
            let raises = h.preflop.filter(|a: ActionView| a.act is RaiseTo);
            let cash = h.nlhe_cash && bb_positive;
            let hero = cash && h.hero is Some && h.hero_cards.len() == 2;
            let flop = hero && h.board.len() >= 3;
            let stayed = flop && sits(h, flop_seats(h), h.hero->0);
            let two = stayed && flop_seats(h).len() == 2;
            let pot = two && (raises.len() == 1 || raises.len() == 2);
            &&& r == Some(Skip::NotNlheCash) <==> !cash
            &&& r == Some(Skip::NoHero) <==> cash && !hero
            &&& r == Some(Skip::NoFlop) <==> hero && !flop
            &&& r == Some(Skip::HeroNotOnFlop) <==> flop && !stayed
            &&& r == Some(Skip::Multiway) <==> stayed && !two
            &&& r == Some(Skip::PotType) <==> two && !pot
            &&& r == Some(Skip::Formation) <==> pot && !sits(
                h,
                flop_seats(h),
                raises.last().player,
            )
        }),
{
    let raises = h.preflop.filter(|a: ActionView| a.act is RaiseTo);
    raisers_are_the_players_of_raises(h.preflop, h.preflop.len() as int);
    assert(h.preflop.take(h.preflop.len() as int) =~= h.preflop);
    assert(preflop_raisers(h).len() == raises.len());
    if raises.len() > 0 {
        assert(preflop_raisers(h).last() == raises.last().player);
    }
}

/// Who posts a blind is remembered as its player, and the post counts as an action.
pub proof fn blinds_are_posted_by_their_players(
    h: HandView,
    street: int,
    i: int,
    currency: Seq<char>,
    n: Seq<char>,
)
    requires
        0 <= i < h.seats.len(),
        street == 0,
        forall|k: int| 0 <= k < currency.len() ==> !text::is_digit(#[trigger] currency[k]),
        !currency.contains(' '),
        numeral(n),
    ensures
        ({
            let small = after_verb(h, street, i, "posts "@ + "small blind"@ + " "@ + currency + n);
            let big = after_verb(h, street, i, "posts "@ + "big blind"@ + " "@ + currency + n);
            let post = ActionView { player: h.seats[i].name, act: ActView::Post(n) };
            &&& small.sb_player == Some(h.seats[i].name)
            &&& small.bb_player == h.bb_player
            &&& small.preflop == h.preflop.push(post)
            &&& big.bb_player == Some(h.seats[i].name)
            &&& big.sb_player == h.sb_player
            &&& big.preflop == h.preflop.push(post)
        }),
{
    reveal_strlit("posts ");
    reveal_strlit("small blind");
    reveal_strlit("big blind");
    reveal_strlit("posts small blind");
    reveal_strlit("posts big blind");
    paid_amounts_are_read(currency, n, "small blind"@);
    paid_amounts_are_read(currency, n, "big blind"@);
    let s = "posts "@ + "small blind"@ + " "@ + currency + n;
    let b = "posts "@ + "big blind"@ + " "@ + currency + n;
    assert(s.take("posts small blind"@.len() as int) =~= "posts small blind"@);
    assert(b.take("posts big blind"@.len() as int) =~= "posts big blind"@);
    assert(!text::begins(b, "posts small blind"@)) by {
        if text::begins(b, "posts small blind"@) {
            assert(b.take("posts small blind"@.len() as int)[6] == 's');
            assert(b[6] == 'b');
        }
    }
}

/// A hand that was matched up to its depth counts the hero's actions after the flop,
/// names the first three cards of the board, and has the two players on the flop with
/// what each brought.
pub proof fn candidates_tell_of_the_hero(c: Candidate, h: HandView)
    requires
        candidate_of(c, h),
        early_skip_of(h, true) is None,
    ensures
        c.decisions == h.flop.filter(|a: ActionView| a.player == h.hero->0).len() + h.turn.filter(
            |a: ActionView| a.player == h.hero->0,
        ).len() + h.river.filter(|a: ActionView| a.player == h.hero->0).len(),
        c.flop@ == text::lower_case(
            text::joined(seq![h.board[0], h.board[1], h.board[2]], Seq::empty()),
        ),
        c.hero_oop <==> position_map(h).dom().contains(h.hero->0) && position_map(
            h,
        )[h.hero->0]@ == c.formation.oop_seat@ || !position_map(h).dom().contains(h.hero->0)
            && "?"@ == c.formation.oop_seat@,
        c.players@.len() == 2,
        c.players@[0].0@ == h.seats[flop_seats(h)[0]].name,
        c.players@[1].0@ == h.seats[flop_seats(h)[1]].name,
{
    decisions_are_the_players_actions(h.flop, h.hero->0);
    decisions_are_the_players_actions(h.turn, h.hero->0);
    decisions_are_the_players_actions(h.river, h.hero->0);
    assert(h.board.take(3) =~= seq![h.board[0], h.board[1], h.board[2]]);
    reveal_strlit("");
    assert(""@ =~= Seq::empty());
    let s = stacks_in(c.players@);
    assert(s.len() == 2);
    assert(s[0].0 == c.players@[0].0@ && s[1].0 == c.players@[1].0@);
}

/// The decisions of all matched hands are counted.
pub proof fn all_decisions_are_counted(v: Seq<Result<Matched, Skip>>)
    ensures
        all_decisions(v) == v.filter(|m: Result<Matched, Skip>| m is Ok).fold_left(
            0int,
            |n: int, m: Result<Matched, Skip>| n + (m->Ok_0).decisions,
        ),
    decreases v.len(),
{
    reveal(Seq::filter);
    reveal(Seq::fold_left);
    if v.len() > 0 {
        all_decisions_are_counted(v.drop_last());
        let ok = |m: Result<Matched, Skip>| m is Ok;
        let before = v.drop_last().filter(ok);
        if ok(v.last()) {
            assert(before.push(v.last()).drop_last() =~= before);
        }
    }
}

/// Only no-limit hold'em outside tournaments is taken for a cash game.
pub proof fn cash_games_are_told_by_their_header(header: Seq<char>)
    ensures
        header_hand(header).nlhe_cash <==> (exists|i: int|
            0 <= i && i + "Hold'em No Limit"@.len() <= header.len() && #[trigger] header.subrange(
                i,
                i + "Hold'em No Limit"@.len(),
            ) == "Hold'em No Limit"@) && !(exists|i: int|
            0 <= i && i + "Tournament #"@.len() <= header.len() && #[trigger] header.subrange(
                i,
                i + "Tournament #"@.len(),
            ) == "Tournament #"@),
{
    text::parts_are_found(header, "Hold'em No Limit"@);
    text::parts_are_found(header, "Tournament #"@);
}

} // verus!
