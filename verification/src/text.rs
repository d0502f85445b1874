//! Plain text: strings as sequences of characters, and the few operations on
//! them that parsing and labelling need.

use vstd::prelude::*;

verus! {

/// `String::push`: appends one character at the end of the string.
pub assume_specification[ String::push ](s: &mut String, c: char)
    ensures
        final(s)@ == old(s)@.push(c),
;

// ---------------------------------------------------------------- building

/// The characters of `s`, in order.
pub fn chars_of(s: &str) -> (r: Vec<char>)
    ensures
        r@ == s@,
{
    let mut out: Vec<char> = Vec::new();
    for c in it: s.chars()
        invariant
            out@ == s@.take(it.index() as int),
            it.seq() == s@,
            it.index() <= s@.len(),
    {
        proof {
            assert(s@.take(it.index() as int + 1) =~= s@.take(it.index() as int).push(c));
        }
        out.push(c);
    }
    assert(s@.take(s@.len() as int) =~= s@);
    out
}

/// The string made of the characters `cs`.
pub fn string_of(cs: &[char]) -> (r: String)
    ensures
        r@ == cs@,
{
    let mut out = String::new();
    let mut i: usize = 0;
    while i < cs.len()
        invariant
            i <= cs@.len(),
            out@ == cs@.take(i as int),
        decreases cs@.len() - i,
    {
        out.push(cs[i]);
        i = i + 1;
        assert(cs@.take(i as int) =~= cs@.take(i - 1).push(cs@[i - 1]));
    }
    assert(cs@.take(cs@.len() as int) =~= cs@);
    out
}

/// The part of `cs` from `from` up to, and without, `to`.
pub fn part(cs: &[char], from: usize, to: usize) -> (r: Vec<char>)
    requires
        from <= to <= cs@.len(),
    ensures
        r@ == cs@.subrange(from as int, to as int),
{
    let mut out: Vec<char> = Vec::new();
    let mut i: usize = from;
    while i < to
        invariant
            from <= i <= to <= cs@.len(),
            out@ == cs@.subrange(from as int, i as int),
        decreases to - i,
    {
        out.push(cs[i]);
        i = i + 1;
        assert(cs@.subrange(from as int, i as int) =~= cs@.subrange(from as int, i - 1).push(
            cs@[i - 1],
        ));
    }
    out
}

/// Whether the two character slices are equal.
pub fn same_chars(a: &[char], b: &[char]) -> (r: bool)
    ensures
        r == (a@ == b@),
{
    if a.len() != b.len() {
        return false;
    }
    let mut i: usize = 0;
    while i < a.len()
        invariant
            i <= a@.len(),
            a@.len() == b@.len(),
            forall|k: int| 0 <= k < i ==> a@[k] == b@[k],
        decreases a@.len() - i,
    {
        if a[i] != b[i] {
            return false;
        }
        i = i + 1;
    }
    assert(a@ =~= b@);
    true
}

/// Whether the two strings are equal.
pub fn same_text(a: &str, b: &str) -> (r: bool)
    ensures
        r == (a@ == b@),
{
    let x = chars_of(a);
    let y = chars_of(b);
    same_chars(x.as_slice(), y.as_slice())
}

/// A copy of `s`.
pub fn copy_text(s: &str) -> (r: String)
    ensures
        r@ == s@,
{
    s.to_owned()
}

/// `a` followed by `b`.
pub fn join2(a: &str, b: &str) -> (r: String)
    ensures
        r@ == a@ + b@,
{
    let x = a.to_owned();
    x.concat(b)
}

/// `a`, then `b`, then `c`.
pub fn join3(a: &str, b: &str, c: &str) -> (r: String)
    ensures
        r@ == a@ + b@ + c@,
{
    let x = a.to_owned();
    let y = x.concat(b);
    y.concat(c)
}

/// The strings of a list, as character sequences.
pub open spec fn texts(v: Seq<String>) -> Seq<Seq<char>> {
    v.map_values(|s: String| s@)
}

/// The words joined with `sep` between each two.
pub open spec fn joined(words: Seq<Seq<char>>, sep: Seq<char>) -> Seq<char>
    decreases words.len(),
{
    if words.len() == 0 {
        Seq::empty()
    } else if words.len() == 1 {
        words[0]
    } else {
        joined(words.drop_last(), sep) + sep + words.last()
    }
}

/// Joins the strings with `sep` between each two.
pub fn join_all(words: &Vec<String>, sep: &str) -> (r: String)
    ensures
        r@ == joined(texts(words@), sep@),
{
    let mut out = String::new();
    let mut i: usize = 0;
    while i < words.len()
        invariant
            i <= words@.len(),
            out@ == joined(texts(words@.take(i as int)), sep@),
        decreases words@.len() - i,
    {
        proof {
            let w = texts(words@.take(i + 1));
            assert(w.drop_last() =~= texts(words@.take(i as int)));
            assert(w.last() == words@[i as int]@);
            if i == 0 {
                assert(w[0] == words@[0]@);
                assert(Seq::<char>::empty() + words@[0]@ =~= words@[0]@);
            }
        }
        if i > 0 {
            out.append(sep);
        }
        out.append(words[i].as_str());
        i = i + 1;
    }
    assert(words@.take(words@.len() as int) =~= words@);
    out
}

/// A copy of a list of strings.
pub fn copy_texts(v: &Vec<String>) -> (r: Vec<String>)
    ensures
        texts(r@) == texts(v@),
        r@.len() == v@.len(),
{
    let mut out: Vec<String> = Vec::new();
    let mut i: usize = 0;
    while i < v.len()
        invariant
            i <= v@.len(),
            out@.len() == i,
            forall|k: int| 0 <= k < i ==> out@[k]@ == v@[k]@,
        decreases v@.len() - i,
    {
        out.push(v[i].clone());
        i = i + 1;
    }
    assert(texts(out@) =~= texts(v@));
    out
}

/// Whether two lists of strings are equal, string by string.
pub fn same_texts(a: &Vec<String>, b: &Vec<String>) -> (r: bool)
    ensures
        r == (texts(a@) == texts(b@)),
{
    if a.len() != b.len() {
        assert(texts(a@).len() != texts(b@).len());
        return false;
    }
    let mut i: usize = 0;
    while i < a.len()
        invariant
            i <= a@.len(),
            a@.len() == b@.len(),
            forall|k: int| 0 <= k < i ==> a@[k]@ == b@[k]@,
        decreases a@.len() - i,
    {
        if !same_text(a[i].as_str(), b[i].as_str()) {
            assert(texts(a@)[i as int] != texts(b@)[i as int]);
            return false;
        }
        i = i + 1;
    }
    assert(texts(a@) =~= texts(b@));
    true
}

// ---------------------------------------------------------------- characters

/// The ASCII lower case of `c`; any other character is itself.
pub open spec fn lower(c: char) -> char {
    if 'A' <= c && c <= 'Z' {
        ((c as u32) + 32) as char
    } else {
        c
    }
}

/// The ASCII upper case of `c`; any other character is itself.
pub open spec fn upper(c: char) -> char {
    if 'a' <= c && c <= 'z' {
        ((c as u32) - 32) as char
    } else {
        c
    }
}

/// Every character in ASCII lower case.
pub open spec fn lowered(s: Seq<char>) -> Seq<char> {
    s.map_values(|c: char| lower(c))
}

/// `char::to_ascii_lowercase`, by [`lower`].
pub fn lower_char(c: char) -> (r: char)
    ensures
        r == lower(c),
{
    if 'A' <= c && c <= 'Z' {
        let n: u8 = c as u8;
        (n + 32) as char
    } else {
        c
    }
}

/// `char::to_ascii_uppercase`, by [`upper`].
pub fn upper_char(c: char) -> (r: char)
    ensures
        r == upper(c),
{
    if 'a' <= c && c <= 'z' {
        let n: u8 = c as u8;
        (n - 32) as char
    } else {
        c
    }
}

/// Whether `c` has the Unicode property `White_Space`.
pub open spec fn is_space(c: char) -> bool {
    let n = c as u32;
    ||| 9 <= n <= 13
    ||| n == 0x20
    ||| n == 0x85
    ||| n == 0xa0
    ||| n == 0x1680
    ||| 0x2000 <= n <= 0x200a
    ||| n == 0x2028
    ||| n == 0x2029
    ||| n == 0x202f
    ||| n == 0x205f
    ||| n == 0x3000
}

/// Tests for [`is_space`].
pub fn space_char(c: char) -> (r: bool)
    ensures
        r == is_space(c),
{
    let n: u32 = c as u32;
    (9 <= n && n <= 13) || n == 0x20 || n == 0x85 || n == 0xa0 || n == 0x1680 || (0x2000 <= n && n
        <= 0x200a) || n == 0x2028 || n == 0x2029 || n == 0x202f || n == 0x205f || n == 0x3000
}

/// `s` without its white space.
pub open spec fn unspaced(s: Seq<char>) -> Seq<char> {
    s.filter(|c: char| !is_space(c))
}

/// Drops the white space of `cs`.
pub fn without_spaces(cs: &[char]) -> (r: Vec<char>)
    ensures
        r@ == unspaced(cs@),
{
    let mut out: Vec<char> = Vec::new();
    let mut i: usize = 0;
    while i < cs.len()
        invariant
            i <= cs@.len(),
            out@ == unspaced(cs@.take(i as int)),
        decreases cs@.len() - i,
    {
        proof {
            reveal(Seq::filter);
            assert(cs@.take(i + 1).drop_last() =~= cs@.take(i as int));
        }
        if !space_char(cs[i]) {
            out.push(cs[i]);
        }
        i = i + 1;
    }
    assert(cs@.take(cs@.len() as int) =~= cs@);
    out
}

// ---------------------------------------------------------------- splitting

/// The pieces of `s` between the occurrences of `sep`.
pub open spec fn split(s: Seq<char>, sep: char) -> Seq<Seq<char>>
    decreases s.len(),
{
    if s.len() == 0 {
        seq![Seq::empty()]
    } else {
        let p = split(s.drop_last(), sep);
        if s.last() == sep {
            p.push(Seq::empty())
        } else {
            p.drop_last().push(p.last().push(s.last()))
        }
    }
}

/// The contents of character lists.
pub open spec fn pieces(v: Seq<Vec<char>>) -> Seq<Seq<char>> {
    v.map_values(|p: Vec<char>| p@)
}

/// Splits at every `sep`.
pub fn split_at_char(cs: &[char], sep: char) -> (r: Vec<Vec<char>>)
    ensures
        pieces(r@) == split(cs@, sep),
{
    let mut done: Vec<Vec<char>> = Vec::new();
    let mut cur: Vec<char> = Vec::new();
    let mut i: usize = 0;
    assert(pieces(done@).push(cur@) =~= split(cs@.take(0), sep));
    while i < cs.len()
        invariant
            i <= cs@.len(),
            pieces(done@).push(cur@) == split(cs@.take(i as int), sep),
        decreases cs@.len() - i,
    {
        let ghost p = split(cs@.take(i as int), sep);
        proof {
            assert(cs@.take(i + 1).drop_last() =~= cs@.take(i as int));
            assert(p.drop_last() =~= pieces(done@));
            assert(p.last() == cur@);
        }
        if cs[i] == sep {
            let ghost before = done@;
            done.push(cur);
            cur = Vec::new();
            assert(pieces(done@) =~= p);
        } else {
            cur.push(cs[i]);
        }
        i = i + 1;
    }
    let ghost before = done@;
    done.push(cur);
    proof {
        assert(pieces(done@) =~= pieces(before).push(cur@));
        assert(cs@.take(cs@.len() as int) =~= cs@);
    }
    done
}

// ---------------------------------------------------------------- numbers

/// The character of a digit.
pub open spec fn digit(d: int) -> char {
    (48 + d) as char
}

/// `n` in decimal.
pub open spec fn decimal(n: int) -> Seq<char>
    decreases n,
{
    if n < 10 {
        seq![digit(n)]
    } else {
        decimal(n / 10).push(digit(n % 10))
    }
}

fn digit_char(d: u64) -> (r: char)
    requires
        d < 10,
    ensures
        r == digit(d as int),
{
    let n: u8 = 48 + d as u8;
    n as char
}

/// Writes `n` in decimal.
pub fn decimal_text(n: u64) -> (r: String)
    ensures
        r@ == decimal(n as int),
    decreases n,
{
    if n < 10 {
        let mut out = String::new();
        out.push(digit_char(n));
        assert(out@ =~= decimal(n as int));
        out
    } else {
        let mut out = decimal_text(n / 10);
        out.push(digit_char(n % 10));
        out
    }
}

/// A decimal has at least one character, and only digits.
pub proof fn lemma_decimal_digits(n: int)
    requires
        n >= 0,
    ensures
        decimal(n).len() > 0,
        forall|i: int| 0 <= i < decimal(n).len() ==> '0' <= #[trigger] decimal(n)[i] && decimal(n)[i]
            <= '9',
    decreases n,
{
    if n >= 10 {
        lemma_decimal_digits(n / 10);
    }
}

/// Different numbers are written differently.
pub proof fn lemma_decimal_injective(m: int, n: int)
    requires
        m >= 0,
        n >= 0,
        decimal(m) == decimal(n),
    ensures
        m == n,
    decreases m,
{
    lemma_decimal_digits(m / 10);
    lemma_decimal_digits(n / 10);
    if m < 10 && n < 10 {
        assert(decimal(m)[0] == digit(m) && decimal(n)[0] == digit(n));
        assert(digit(m) as int == 48 + m && digit(n) as int == 48 + n);
    } else if m >= 10 && n >= 10 {
        assert(decimal(m).drop_last() =~= decimal(m / 10));
        assert(decimal(n).drop_last() =~= decimal(n / 10));
        assert(decimal(m).last() == digit(m % 10));
        assert(decimal(n).last() == digit(n % 10));
        assert(m % 10 == n % 10);
        lemma_decimal_injective(m / 10, n / 10);
    } else if m < 10 {
        assert(decimal(m).len() == 1);
        assert(decimal(n).len() == decimal(n / 10).len() + 1);
    } else {
        assert(decimal(n).len() == 1);
        assert(decimal(m).len() == decimal(m / 10).len() + 1);
    }
}

// ---------------------------------------------------------------- ends

/// `s` begins with `p`.
pub open spec fn begins(s: Seq<char>, p: Seq<char>) -> bool {
    p.len() <= s.len() && s.take(p.len() as int) == p
}

/// `s` ends with `p`.
pub open spec fn ends(s: Seq<char>, p: Seq<char>) -> bool {
    p.len() <= s.len() && s.skip(s.len() - p.len()) == p
}

/// Tests for [`begins`].
pub fn has_prefix(cs: &[char], p: &str) -> (r: bool)
    ensures
        r == begins(cs@, p@),
{
    let q = chars_of(p);
    if q.len() > cs.len() {
        return false;
    }
    let head = part(cs, 0, q.len());
    assert(head@ =~= cs@.take(p@.len() as int));
    same_chars(head.as_slice(), q.as_slice())
}

/// Tests for [`ends`].
pub fn has_suffix(cs: &[char], p: &str) -> (r: bool)
    ensures
        r == ends(cs@, p@),
{
    let q = chars_of(p);
    if q.len() > cs.len() {
        return false;
    }
    let tail = part(cs, cs.len() - q.len(), cs.len());
    assert(tail@ =~= cs@.skip(cs@.len() - p@.len()));
    same_chars(tail.as_slice(), q.as_slice())
}

/// `s` without white space at its start.
pub open spec fn trim_start(s: Seq<char>) -> Seq<char>
    decreases s.len(),
{
    if s.len() > 0 && is_space(s[0]) {
        trim_start(s.drop_first())
    } else {
        s
    }
}

/// `s` without white space at its end.
pub open spec fn trim_end(s: Seq<char>) -> Seq<char>
    decreases s.len(),
{
    if s.len() > 0 && is_space(s.last()) {
        trim_end(s.drop_last())
    } else {
        s
    }
}

/// `s` without white space at either end.
pub open spec fn trimmed(s: Seq<char>) -> Seq<char> {
    trim_end(trim_start(s))
}

/// Drops white space at the start.
pub fn trim_start_chars(cs: &[char]) -> (r: Vec<char>)
    ensures
        r@ == trim_start(cs@),
{
    let mut i: usize = 0;
    assert(cs@.skip(0) =~= cs@);
    while i < cs.len() && space_char(cs[i])
        invariant
            i <= cs@.len(),
            trim_start(cs@) == trim_start(cs@.skip(i as int)),
        decreases cs@.len() - i,
    {
        assert(cs@.skip(i as int).drop_first() =~= cs@.skip(i + 1));
        i = i + 1;
    }
    let r = part(cs, i, cs.len());
    assert(r@ =~= cs@.skip(i as int));
    r
}

/// Drops white space at the end.
pub fn trim_end_chars(cs: &[char]) -> (r: Vec<char>)
    ensures
        r@ == trim_end(cs@),
{
    let mut n: usize = cs.len();
    assert(cs@.take(n as int) =~= cs@);
    while n > 0 && space_char(cs[n - 1])
        invariant
            n <= cs@.len(),
            trim_end(cs@) == trim_end(cs@.take(n as int)),
        decreases n,
    {
        assert(cs@.take(n as int).drop_last() =~= cs@.take(n - 1));
        n = n - 1;
    }
    let r = part(cs, 0, n);
    assert(r@ =~= cs@.take(n as int));
    r
}

/// Drops white space at both ends.
pub fn trim_chars(cs: &[char]) -> (r: Vec<char>)
    ensures
        r@ == trimmed(cs@),
{
    let a = trim_start_chars(cs);
    trim_end_chars(a.as_slice())
}

/// Drops white space at both ends.
pub fn trim_text(s: &str) -> (r: String)
    ensures
        r@ == trimmed(s@),
{
    let cs = chars_of(s);
    let t = trim_chars(cs.as_slice());
    string_of(t.as_slice())
}

/// The first place of `c`.
pub fn find_char(cs: &[char], c: char) -> (r: Option<usize>)
    ensures
        r is None ==> !cs@.contains(c),
        r matches Some(i) ==> i < cs@.len() && cs@[i as int] == c && forall|k: int|
            0 <= k < i ==> cs@[k] != c,
{
    let mut i: usize = 0;
    while i < cs.len()
        invariant
            i <= cs@.len(),
            forall|k: int| 0 <= k < i ==> cs@[k] != c,
        decreases cs@.len() - i,
    {
        if cs[i] == c {
            return Some(i);
        }
        i = i + 1;
    }
    None
}

/// Whether `c` occurs in the text.
pub fn has_char(s: &str, c: char) -> (r: bool)
    ensures
        r == s@.contains(c),
{
    let cs = chars_of(s);
    let f = find_char(cs.as_slice(), c);
    proof {
        if let Some(i) = f {
            assert(s@.contains(s@[i as int]));
        }
    }
    f.is_some()
}

// ---------------------------------------------------------------- std

/// The lower case of a text.
pub uninterp spec fn lower_case(s: Seq<char>) -> Seq<char>;

/// All characters are ASCII.
pub open spec fn plain(s: Seq<char>) -> bool {
    forall|i: int| 0 <= i < s.len() ==> (#[trigger] s[i] as u32) < 128
}

/// `str::to_lowercase`. On ASCII text it lowers each letter and keeps the rest.
#[verifier::external_body]
pub(crate) fn to_lower_case(s: &str) -> (r: String)
    ensures
        r@ == lower_case(s@),
        plain(s@) ==> r@ == lowered(s@),
{
    s.to_lowercase()
}

/// The text of bytes that need not be UTF-8.
pub uninterp spec fn lossy_text(bytes: Seq<u8>) -> Seq<char>;

/// `String::from_utf8_lossy`. Bytes below 128 are the characters with their
/// numbers.
#[verifier::external_body]
pub(crate) fn from_bytes_lossy(bytes: &[u8]) -> (r: String)
    ensures
        r@ == lossy_text(bytes@),
        (forall|i: int| 0 <= i < bytes@.len() ==> #[trigger] bytes@[i] < 128) ==> r@
            == bytes@.map_values(|b: u8| b as char),
{
    String::from_utf8_lossy(bytes).into_owned()
}

/// `std::str::from_utf8`: the text that the bytes encode, where they are UTF-8.
#[verifier::external_body]
pub(crate) fn from_bytes(bytes: &[u8]) -> (r: Option<String>)
    ensures
        r is Some == vstd::utf8::valid_utf8(bytes@),
        r matches Some(s) ==> s@ == vstd::utf8::decode_utf8(bytes@),
{
    std::str::from_utf8(bytes).ok().map(String::from)
}

// ---------------------------------------------------------------- lines

/// `s` without a carriage return at its end.
pub open spec fn chomped(s: Seq<char>) -> Seq<char> {
    if s.len() > 0 && s.last() == '\r' {
        s.drop_last()
    } else {
        s
    }
}

/// The lines of a text: what stands between line feeds, without the carriage
/// return before one; nothing stands after a line feed at the end.
pub open spec fn lines(s: Seq<char>) -> Seq<Seq<char>> {
    let p = split(s, '\n');
    let full = p.drop_last().map_values(|l: Seq<char>| chomped(l));
    if p.last().len() == 0 {
        full
    } else {
        full.push(p.last())
    }
}

/// The lines of a text.
pub fn lines_of(cs: &[char]) -> (r: Vec<Vec<char>>)
    ensures
        pieces(r@) == lines(cs@),
{
    let p = split_at_char(cs, '\n');
    proof {
        lemma_split_not_empty(cs@, '\n');
        assert(p@.len() == split(cs@, '\n').len());
    }
    let n: usize = p.len() - 1;
    let ghost all = split(cs@, '\n');
    let mut out: Vec<Vec<char>> = Vec::new();
    let mut i: usize = 0;
    while i < n
        invariant
            i <= n,
            n == p@.len() - 1,
            pieces(p@) == all,
            out@.len() == i,
            forall|k: int| 0 <= k < i ==> (#[trigger] out@[k])@ == chomped(all[k]),
        decreases n - i,
    {
        assert(all[i as int] == p@[i as int]@);
        let len: usize = p[i].len();
        if len > 0 && p[i][len - 1] == '\r' {
            let q = part(p[i].as_slice(), 0, len - 1);
            assert(q@ =~= all[i as int].drop_last());
            out.push(q);
        } else {
            let q = part(p[i].as_slice(), 0, len);
            assert(q@ =~= all[i as int]);
            out.push(q);
        }
        i = i + 1;
    }
    assert(pieces(out@) =~= all.drop_last().map_values(|l: Seq<char>| chomped(l)));
    assert(all.last() == p@[n as int]@);
    if p[n].len() > 0 {
        let q = part(p[n].as_slice(), 0, p[n].len());
        assert(q@ =~= all.last());
        let ghost before = out@;
        out.push(q);
        assert(pieces(out@) =~= pieces(before).push(all.last()));
    }
    out
}

pub proof fn lemma_split_tail(a: Seq<char>, b: Seq<char>, sep: char)
    requires
        !b.contains(sep),
    ensures
        split(a + seq![sep] + b, sep) == split(a, sep).push(b),
    decreases b.len(),
{
    let whole = a + seq![sep] + b;
    if b.len() == 0 {
        assert(whole =~= a.push(sep));
        assert(whole.drop_last() =~= a);
        assert(b =~= Seq::empty());
    } else {
        let c = b.drop_last();
        assert(!c.contains(sep)) by {
            if c.contains(sep) {
                let i = choose|i: int| 0 <= i < c.len() && c[i] == sep;
                assert(b[i] == sep);
            }
        }
        lemma_split_tail(a, c, sep);
        assert(whole.drop_last() =~= a + seq![sep] + c);
        assert(whole.last() == b.last());
        assert(b.contains(b.last()));
        let p = split(a, sep).push(c);
        assert(p.drop_last() =~= split(a, sep));
        assert(p.last() == c);
        assert(c.push(b.last()) =~= b);
    }
}

pub proof fn lemma_split_whole(b: Seq<char>, sep: char)
    requires
        !b.contains(sep),
    ensures
        split(b, sep) == seq![b],
    decreases b.len(),
{
    if b.len() == 0 {
        assert(b =~= Seq::empty());
    } else {
        let c = b.drop_last();
        assert(!c.contains(sep)) by {
            if c.contains(sep) {
                let i = choose|i: int| 0 <= i < c.len() && c[i] == sep;
                assert(b[i] == sep);
            }
        }
        lemma_split_whole(c, sep);
        assert(b.contains(b.last()));
        assert(seq![c].drop_last() =~= Seq::empty());
        assert(c.push(b.last()) =~= b);
        assert(Seq::empty().push(b) =~= seq![b]);
    }
}

/// No word holds the separator.
pub open spec fn none_holds(words: Seq<Seq<char>>, sep: char) -> bool {
    forall|i: int| 0 <= i < words.len() ==> !(#[trigger] words[i]).contains(sep)
}

/// Splitting at a separator undoes joining with it.
pub proof fn splitting_undoes_joining(words: Seq<Seq<char>>, sep: char)
    requires
        words.len() > 0,
        none_holds(words, sep),
    ensures
        split(joined(words, seq![sep]), sep) == words,
    decreases words.len(),
{
    if words.len() == 1 {
        lemma_split_whole(words[0], sep);
        assert(words =~= seq![words[0]]);
    } else {
        let rest = words.drop_last();
        assert(none_holds(rest, sep)) by {
            assert forall|i: int| 0 <= i < rest.len() implies !(#[trigger] rest[i]).contains(
                sep,
            ) by {
                assert(!words[i].contains(sep));
            }
        }
        splitting_undoes_joining(rest, sep);
        assert(!words[words.len() - 1].contains(sep));
        lemma_split_tail(joined(rest, seq![sep]), words.last(), sep);
        assert(rest.push(words.last()) =~= words);
    }
}

/// What begins and ends with no white space is left as it is.
pub proof fn lemma_nothing_to_trim(s: Seq<char>)
    requires
        s.len() == 0 || (!is_space(s[0]) && !is_space(s.last())),
    ensures
        trimmed(s) == s,
{
}

proof fn lemma_split_not_empty(s: Seq<char>, sep: char)
    ensures
        split(s, sep).len() > 0,
    decreases s.len(),
{
    if s.len() > 0 {
        lemma_split_not_empty(s.drop_last(), sep);
    }
}

/// The lines that hold more than white space.
pub open spec fn filled_lines(s: Seq<char>) -> Seq<Seq<char>> {
    lines(s).filter(|l: Seq<char>| trimmed(l).len() > 0)
}

/// The lines that hold more than white space.
pub fn nonblank_lines(s: &str) -> (r: Vec<String>)
    ensures
        texts(r@) == filled_lines(s@),
{
    let cs = chars_of(s);
    let ls = lines_of(cs.as_slice());
    let ghost all = lines(s@);
    let ghost keep = |l: Seq<char>| trimmed(l).len() > 0;
    let mut out: Vec<String> = Vec::new();
    let mut i: usize = 0;
    proof {
        reveal(Seq::filter);
        assert(texts(out@) =~= all.take(0).filter(keep));
    }
    while i < ls.len()
        invariant
            i <= ls@.len(),
            pieces(ls@) == all,
            keep == (|l: Seq<char>| trimmed(l).len() > 0),
            texts(out@) == all.take(i as int).filter(keep),
        decreases ls@.len() - i,
    {
        proof {
            reveal(Seq::filter);
            assert(all.take(i + 1).drop_last() =~= all.take(i as int));
            assert(all[i as int] == ls@[i as int]@);
        }
        let t = trim_chars(ls[i].as_slice());
        if t.len() > 0 {
            let ghost before = out@;
            let l = string_of(ls[i].as_slice());
            out.push(l);
            assert(texts(out@) =~= texts(before).push(all[i as int]));
        }
        i = i + 1;
    }
    assert(all.take(i as int) =~= all);
    out
}

// ---------------------------------------------------------------- substrings

/// `p` stands in `s` at `i`.
pub open spec fn occurs(s: Seq<char>, p: Seq<char>, i: int) -> bool {
    0 <= i && i + p.len() <= s.len() && s.subrange(i, i + p.len()) == p
}

/// The first place of `p` in `s` from `i` on, -1 where there is none.
pub open spec fn sub_from(s: Seq<char>, p: Seq<char>, i: int) -> int
    decreases s.len() + 1 - i,
{
    if i + p.len() > s.len() {
        -1
    } else if occurs(s, p, i) {
        i
    } else {
        sub_from(s, p, i + 1)
    }
}

/// The last place of `p` in `s` before `n`, -1 where there is none.
pub open spec fn sub_before(s: Seq<char>, p: Seq<char>, n: int) -> int
    decreases n,
{
    if n <= 0 {
        -1
    } else if occurs(s, p, n - 1) {
        n - 1
    } else {
        sub_before(s, p, n - 1)
    }
}

/// `p` stands somewhere in `s`.
pub open spec fn has_sub(s: Seq<char>, p: Seq<char>) -> bool {
    sub_from(s, p, 0) >= 0
}

fn occurs_at(cs: &[char], p: &[char], i: usize) -> (r: bool)
    requires
        i <= cs@.len(),
    ensures
        r == occurs(cs@, p@, i as int),
{
    if cs.len() - i < p.len() {
        return false;
    }
    let w = part(cs, i, i + p.len());
    same_chars(w.as_slice(), p)
}

/// The first place of `p` from `from` on.
pub fn find_sub(cs: &[char], p: &[char], from: usize) -> (r: Option<usize>)
    requires
        from <= cs@.len(),
    ensures
        r is None ==> sub_from(cs@, p@, from as int) == -1,
        r matches Some(i) ==> i == sub_from(cs@, p@, from as int) && from <= i && i + p@.len()
            <= cs@.len() && cs@.subrange(i as int, i + p@.len()) == p@,
{
    let mut i: usize = from;
    while i < cs.len()
        invariant
            from <= i <= cs@.len(),
            sub_from(cs@, p@, from as int) == sub_from(cs@, p@, i as int),
        decreases cs@.len() - i,
    {
        if occurs_at(cs, p, i) {
            return Some(i);
        }
        proof {
            if i + p@.len() > cs@.len() {
                assert(sub_from(cs@, p@, i + 1) == -1);
            }
        }
        i = i + 1;
    }
    if occurs_at(cs, p, i) {
        Some(i)
    } else {
        proof {
            if p@.len() == 0 {
                assert(cs@.subrange(i as int, i as int) =~= p@);
            }
        }
        None
    }
}

/// The last place of `p`.
pub fn rfind_sub(cs: &[char], p: &[char]) -> (r: Option<usize>)
    ensures
        r is None ==> sub_before(cs@, p@, cs@.len() as int) == -1,
        r matches Some(i) ==> i == sub_before(cs@, p@, cs@.len() as int) && i + p@.len()
            <= cs@.len(),
{
    let mut n: usize = cs.len();
    while n > 0
        invariant
            n <= cs@.len(),
            sub_before(cs@, p@, cs@.len() as int) == sub_before(cs@, p@, n as int),
        decreases n,
    {
        if occurs_at(cs, p, n - 1) {
            return Some(n - 1);
        }
        n = n - 1;
    }
    None
}

/// Whether `p` stands somewhere in the text.
pub fn contains_sub(cs: &[char], p: &str) -> (r: bool)
    ensures
        r == has_sub(cs@, p@),
{
    let q = chars_of(p);
    find_sub(cs, q.as_slice(), 0).is_some()
}

// ---------------------------------------------------------------- words

/// The pieces of `s` between white space.
pub open spec fn split_spaces(s: Seq<char>) -> Seq<Seq<char>>
    decreases s.len(),
{
    if s.len() == 0 {
        seq![Seq::empty()]
    } else {
        let p = split_spaces(s.drop_last());
        if is_space(s.last()) {
            p.push(Seq::empty())
        } else {
            p.drop_last().push(p.last().push(s.last()))
        }
    }
}

/// The words of `s`: what stands between white space.
pub open spec fn words(s: Seq<char>) -> Seq<Seq<char>> {
    split_spaces(s).filter(|w: Seq<char>| w.len() > 0)
}

/// The words of a text.
pub fn words_of(cs: &[char]) -> (r: Vec<String>)
    ensures
        texts(r@) == words(cs@),
{
    let mut done: Vec<String> = Vec::new();
    let mut cur: Vec<char> = Vec::new();
    let ghost keep = |w: Seq<char>| w.len() > 0;
    let mut i: usize = 0;
    proof {
        reveal(Seq::filter);
        let p = split_spaces(cs@.take(0));
        assert(p.drop_last() =~= Seq::empty());
        assert(texts(done@) =~= p.drop_last().filter(keep));
    }
    while i < cs.len()
        invariant
            i <= cs@.len(),
            keep == (|w: Seq<char>| w.len() > 0),
            split_spaces(cs@.take(i as int)).len() > 0,
            split_spaces(cs@.take(i as int)).last() == cur@,
            texts(done@) == split_spaces(cs@.take(i as int)).drop_last().filter(keep),
        decreases cs@.len() - i,
    {
        let ghost p = split_spaces(cs@.take(i as int));
        proof {
            assert(cs@.take(i + 1).drop_last() =~= cs@.take(i as int));
        }
        if space_char(cs[i]) {
            proof {
                reveal(Seq::filter);
                assert(p.push(Seq::<char>::empty()).drop_last() =~= p);
            }
            if cur.len() > 0 {
                let ghost before = done@;
                let w = string_of(cur.as_slice());
                done.push(w);
                assert(texts(done@) =~= texts(before).push(cur@));
            }
            cur = Vec::new();
            assert(cur@ =~= Seq::<char>::empty());
        } else {
            cur.push(cs[i]);
            assert(p.drop_last().push(cur@).drop_last() =~= p.drop_last());
        }
        i = i + 1;
    }
    proof {
        reveal(Seq::filter);
        assert(cs@.take(i as int) =~= cs@);
    }
    if cur.len() > 0 {
        let ghost before = done@;
        let w = string_of(cur.as_slice());
        done.push(w);
        assert(texts(done@) =~= texts(before).push(cur@));
    }
    done
}

// ---------------------------------------------------------------- whole numbers

/// `c` is one of the ten digits.
pub open spec fn is_digit(c: char) -> bool {
    '0' <= c && c <= '9'
}

/// The number that a row of digits stands for.
pub open spec fn digits_value(s: Seq<char>) -> int
    decreases s.len(),
{
    if s.len() == 0 {
        0
    } else {
        digits_value(s.drop_last()) * 10 + (s.last() as int - 48)
    }
}

/// Only digits.
pub open spec fn all_digits(s: Seq<char>) -> bool {
    forall|i: int| 0 <= i < s.len() ==> is_digit(#[trigger] s[i])
}

/// `s` without a `+` in front.
pub open spec fn unsigned(s: Seq<char>) -> Seq<char> {
    if s.len() > 0 && s[0] == '+' {
        s.skip(1)
    } else {
        s
    }
}

/// The number of a text of digits, a `+` in front allowed, where it fits.
pub open spec fn whole_number(s: Seq<char>, max: int) -> Option<int> {
    let d = unsigned(s);
    if d.len() > 0 && all_digits(d) && digits_value(d) <= max {
        Some(digits_value(d))
    } else {
        None
    }
}

proof fn lemma_digits_grow(s: Seq<char>, n: int)
    requires
        all_digits(s),
        0 <= n <= s.len(),
    ensures
        0 <= digits_value(s.take(n)) <= digits_value(s),
    decreases s.len() - n,
{
    if n == s.len() {
        assert(s.take(n) =~= s);
        lemma_digits_nonneg(s);
    } else {
        lemma_digits_grow(s, n + 1);
        assert(s.take(n + 1).drop_last() =~= s.take(n));
        assert forall|i: int| 0 <= i < s.take(n).len() implies is_digit(#[trigger] s.take(n)[i]) by {
            assert(is_digit(s[i]));
        }
        lemma_digits_nonneg(s.take(n));
        assert(is_digit(s[n]));
    }
}

proof fn lemma_digits_nonneg(s: Seq<char>)
    requires
        all_digits(s),
    ensures
        digits_value(s) >= 0,
    decreases s.len(),
{
    if s.len() > 0 {
        assert forall|i: int| 0 <= i < s.drop_last().len() implies is_digit(
            #[trigger] s.drop_last()[i],
        ) by {
            assert(is_digit(s[i]));
        }
        lemma_digits_nonneg(s.drop_last());
        assert(is_digit(s[s.len() - 1]));
    }
}

/// Reads a whole number that is at most `max`.
pub fn parse_whole(cs: &[char], max: u64) -> (r: Option<u64>)
    requires
        max < 0x1000_0000_0000_0000,
    ensures
        r is Some == whole_number(cs@, max as int) is Some,
        r matches Some(n) ==> n == whole_number(cs@, max as int)->0 && n <= max,
{
    let from: usize = if cs.len() > 0 && cs[0] == '+' {
        1
    } else {
        0
    };
    let d = part(cs, from, cs.len());
    assert(d@ =~= unsigned(cs@));
    if d.len() == 0 {
        return None;
    }
    let mut v: u64 = 0;
    let mut i: usize = 0;
    let mut k: usize = 0;
    while k < d.len()
        invariant
            k <= d@.len(),
            d@ == unsigned(cs@),
            forall|j: int| 0 <= j < k ==> is_digit(#[trigger] d@[j]),
        decreases d@.len() - k,
    {
        if !('0' <= d[k] && d[k] <= '9') {
            assert(!is_digit(d@[k as int]));
            return None;
        }
        k = k + 1;
    }
    while i < d.len()
        invariant
            i <= d@.len(),
            max < 0x1000_0000_0000_0000,
            all_digits(d@),
            d@ == unsigned(cs@),
            v == digits_value(d@.take(i as int)),
            v <= max,
        decreases d@.len() - i,
    {
        assert(is_digit(d@[i as int]));
        assert(d@.take(i + 1).drop_last() =~= d@.take(i as int));
        let c: u64 = (d[i] as u32 - 48) as u64;
        v = v * 10 + c;
        i = i + 1;
        if v > max {
            proof {
                lemma_digits_grow(d@, i as int);
            }
            return None;
        }
    }
    assert(d@.take(i as int) =~= d@);
    Some(v)
}

// ---------------------------------------------------------------- cutting at characters

/// The first place of `c` in `s` from `i` on, the length where there is none.
pub open spec fn char_from(s: Seq<char>, c: char, i: int) -> int
    decreases s.len() - i,
{
    if i >= s.len() {
        s.len() as int
    } else if s[i] == c {
        i
    } else {
        char_from(s, c, i + 1)
    }
}

/// The last place of `c` in `s` before `n`, -1 where there is none.
pub open spec fn char_before(s: Seq<char>, c: char, n: int) -> int
    decreases n,
{
    if n <= 0 {
        -1
    } else if s[n - 1] == c {
        n - 1
    } else {
        char_before(s, c, n - 1)
    }
}

/// What stands before the first `c`, all of `s` where there is none.
pub open spec fn up_to(s: Seq<char>, c: char) -> Seq<char> {
    s.take(char_from(s, c, 0))
}

/// The place of the first `c`, the length where there is none.
pub fn first_char(cs: &[char], c: char) -> (r: usize)
    ensures
        r == char_from(cs@, c, 0),
        r <= cs@.len(),
{
    let mut i: usize = 0;
    while i < cs.len() && cs[i] != c
        invariant
            i <= cs@.len(),
            char_from(cs@, c, 0) == char_from(cs@, c, i as int),
        decreases cs@.len() - i,
    {
        i = i + 1;
    }
    i
}

/// The place after the last `c`, 0 where there is none.
pub fn after_last_char(cs: &[char], c: char) -> (r: usize)
    ensures
        r == char_before(cs@, c, cs@.len() as int) + 1,
        r <= cs@.len(),
{
    let mut n: usize = cs.len();
    while n > 0 && cs[n - 1] != c
        invariant
            n <= cs@.len(),
            char_before(cs@, c, cs@.len() as int) == char_before(cs@, c, n as int),
        decreases n,
    {
        n = n - 1;
    }
    n
}

/// What stands before the first `c`.
pub fn cut_at(cs: &[char], c: char) -> (r: Vec<char>)
    ensures
        r@ == up_to(cs@, c),
{
    let i: usize = first_char(cs, c);
    let r = part(cs, 0, i);
    assert(r@ =~= up_to(cs@, c));
    r
}

/// Whether two texts are the same but for the case of their ASCII letters.
pub fn same_lowered(a: &str, b: &str) -> (r: bool)
    ensures
        r == (lowered(a@) == lowered(b@)),
{
    let x = chars_of(a);
    let y = chars_of(b);
    if x.len() != y.len() {
        assert(lowered(a@).len() != lowered(b@).len());
        return false;
    }
    let mut i: usize = 0;
    while i < x.len()
        invariant
            i <= x@.len(),
            x@ == a@,
            y@ == b@,
            x@.len() == y@.len(),
            forall|k: int| 0 <= k < i ==> lower(#[trigger] x@[k]) == lower(y@[k]),
        decreases x@.len() - i,
    {
        if lower_char(x[i]) != lower_char(y[i]) {
            proof {
                assert(lowered(a@)[i as int] == lower(x@[i as int]));
                assert(lowered(b@)[i as int] == lower(y@[i as int]));
            }
            return false;
        }
        i = i + 1;
    }
    assert(lowered(a@) =~= lowered(b@));
    true
}

/// A text in quotation marks, as it is shown to programmers.
pub uninterp spec fn debug_text(s: Seq<char>) -> Seq<char>;

/// The character stands for itself between quotation marks.
pub open spec fn shows_itself(c: char) -> bool {
    32 <= (c as u32) < 127 && c != '"' && c != '\\'
}

/// `std::fmt::Debug` of a text: in quotation marks, with what is not printable
/// escaped. Printable ASCII other than quotation marks and backslashes stays.
#[verifier::external_body]
pub(crate) fn to_debug(s: &str) -> (r: String)
    ensures
        r@ == debug_text(s@),
        (forall|i: int| 0 <= i < s@.len() ==> shows_itself(#[trigger] s@[i])) ==> r@ == seq!['"']
            + s@ + seq!['"'],
{
    format!("{:?}", s)
}

/// A decimal reads back as the number it was written from.
pub proof fn decimals_read_back(n: int, max: int)
    requires
        0 <= n <= max,
    ensures
        whole_number(decimal(n), max) == Some(n),
{
    lemma_decimal_digits(n);
    lemma_decimal_value(n);
    let d = decimal(n);
    assert(is_digit(d[0]));
    assert(d[0] != '+');
}

proof fn lemma_decimal_value(n: int)
    requires
        0 <= n,
    ensures
        digits_value(decimal(n)) == n,
        all_digits(decimal(n)),
    decreases n,
{
    let d = decimal(n);
    if n < 10 {
        assert(d.drop_last() =~= Seq::empty());
        assert(digits_value(d.drop_last()) == 0);
        assert(d.last() as int == 48 + n);
    } else {
        lemma_decimal_value(n / 10);
        assert(d.drop_last() =~= decimal(n / 10));
        assert(d.last() as int == 48 + n % 10);
        assert forall|i: int| 0 <= i < d.len() implies is_digit(#[trigger] d[i]) by {
            if i < d.len() - 1 {
                assert(d[i] == decimal(n / 10)[i]);
            }
        }
    }
}

/// The first place of `p` from `i` on: it stands there and nowhere between. There
/// is none where it stands nowhere from `i` on.
pub proof fn the_first_place_is_found(s: Seq<char>, p: Seq<char>, i: int)
    requires
        0 <= i,
    ensures
        sub_from(s, p, i) >= 0 ==> i <= sub_from(s, p, i) && sub_from(s, p, i) + p.len() <= s.len()
            && s.subrange(sub_from(s, p, i), sub_from(s, p, i) + p.len()) == p,
        forall|k: int|
            i <= k && k + p.len() <= s.len() && #[trigger] s.subrange(k, k + p.len()) == p ==> 0
                <= sub_from(s, p, i) <= k,
    decreases s.len() + 1 - i,
{
    if i + p.len() <= s.len() && !occurs(s, p, i) {
        the_first_place_is_found(s, p, i + 1);
    }
}

/// The last place of `p` before `n`: it stands there and nowhere between.
pub proof fn the_last_place_is_found(s: Seq<char>, p: Seq<char>, n: int)
    ensures
        sub_before(s, p, n) >= 0 ==> sub_before(s, p, n) < n && sub_before(s, p, n) + p.len()
            <= s.len() && s.subrange(sub_before(s, p, n), sub_before(s, p, n) + p.len()) == p,
        forall|k: int|
            0 <= k < n && k + p.len() <= s.len() && #[trigger] s.subrange(k, k + p.len()) == p ==> k
                <= sub_before(s, p, n),
    decreases n,
{
    if n > 0 && !occurs(s, p, n - 1) {
        the_last_place_is_found(s, p, n - 1);
    }
}

/// The first place of a character from `i` on, the length where there is none.
pub proof fn the_first_char_is_found(s: Seq<char>, c: char, i: int)
    requires
        0 <= i <= s.len(),
    ensures
        i <= char_from(s, c, i) <= s.len(),
        char_from(s, c, i) < s.len() ==> s[char_from(s, c, i)] == c,
        forall|k: int| i <= k < char_from(s, c, i) ==> #[trigger] s[k] != c,
    decreases s.len() - i,
{
    if i < s.len() && s[i] != c {
        the_first_char_is_found(s, c, i + 1);
    }
}

/// The last place of a character before `n`, -1 where there is none.
pub proof fn the_last_char_is_found(s: Seq<char>, c: char, n: int)
    requires
        0 <= n <= s.len(),
    ensures
        -1 <= char_before(s, c, n) < n,
        char_before(s, c, n) >= 0 ==> s[char_before(s, c, n)] == c,
        forall|k: int| char_before(s, c, n) < k < n ==> #[trigger] s[k] != c,
    decreases n,
{
    if n > 0 && s[n - 1] != c {
        the_last_char_is_found(s, c, n - 1);
    }
}

/// Trimming takes white space off the two ends and nothing else, and leaves none
/// there.
pub proof fn trimming_takes_the_ends(s: Seq<char>) -> (r: (int, int))
    ensures
        0 <= r.0 <= r.1 <= s.len(),
        trimmed(s) == s.subrange(r.0, r.1),
        forall|i: int| 0 <= i < r.0 ==> is_space(#[trigger] s[i]),
        forall|i: int| r.1 <= i < s.len() ==> is_space(#[trigger] s[i]),
        r.0 < r.1 ==> !is_space(s[r.0]) && !is_space(s[r.1 - 1]),
{
    let a = lemma_trim_start_cut(s);
    let t = trim_start(s);
    let e = lemma_trim_end_cut(t);
    assert(t == s.skip(a));
    assert(t.take(e) =~= s.subrange(a, a + e));
    assert forall|i: int| a + e <= i < s.len() implies is_space(#[trigger] s[i]) by {
        assert(t[i - a] == s[i]);
    }
    if e > 0 {
        assert(t[0] == s[a]);
        assert(t[e - 1] == s[a + e - 1]);
    }
    (a, a + e)
}

proof fn lemma_trim_start_cut(s: Seq<char>) -> (a: int)
    ensures
        0 <= a <= s.len(),
        trim_start(s) == s.skip(a),
        forall|i: int| 0 <= i < a ==> is_space(#[trigger] s[i]),
        a < s.len() ==> !is_space(s[a]),
    decreases s.len(),
{
    if s.len() > 0 && is_space(s[0]) {
        let b = lemma_trim_start_cut(s.drop_first());
        assert(s.drop_first().skip(b) =~= s.skip(b + 1));
        assert forall|i: int| 0 <= i < b + 1 implies is_space(#[trigger] s[i]) by {
            if i > 0 {
                assert(s.drop_first()[i - 1] == s[i]);
            }
        }
        b + 1
    } else {
        assert(s.skip(0) =~= s);
        0
    }
}

/// Cutting the white space at the end of a text leaves the text up to its last
/// other character.
pub proof fn lemma_trim_end_cut(s: Seq<char>) -> (e: int)
    ensures
        0 <= e <= s.len(),
        trim_end(s) == s.take(e),
        forall|i: int| e <= i < s.len() ==> is_space(#[trigger] s[i]),
        e > 0 ==> !is_space(s[e - 1]),
    decreases s.len(),
{
    if s.len() > 0 && is_space(s.last()) {
        let e = lemma_trim_end_cut(s.drop_last());
        assert(s.drop_last().take(e) =~= s.take(e));
        assert forall|i: int| e <= i < s.len() implies is_space(#[trigger] s[i]) by {
            if i < s.len() - 1 {
                assert(s.drop_last()[i] == s[i]);
            }
        }
        if e > 0 {
            assert(s.drop_last()[e - 1] == s[e - 1]);
        }
        e
    } else {
        assert(s.take(s.len() as int) =~= s);
        s.len() as int
    }
}

/// Joining the pieces of a text gives the text back, and no piece holds the
/// separator.
pub proof fn joining_undoes_splitting(s: Seq<char>, sep: char)
    ensures
        joined(split(s, sep), seq![sep]) == s,
        split(s, sep).len() >= 1,
        none_holds(split(s, sep), sep),
    decreases s.len(),
{
    if s.len() > 0 {
        let rest = s.drop_last();
        joining_undoes_splitting(rest, sep);
        let p = split(rest, sep);
        let q = split(s, sep);
        assert(s =~= rest.push(s.last()));
        if s.last() == sep {
            assert(q.drop_last() =~= p);
            assert(q.last() =~= Seq::empty());
            assert(joined(q, seq![sep]) =~= joined(p, seq![sep]) + seq![sep] + q.last());
            assert(joined(q, seq![sep]) =~= s);
            assert forall|i: int| 0 <= i < q.len() implies !(#[trigger] q[i]).contains(sep) by {
                if i < p.len() {
                    assert(q[i] == p[i]);
                }
            }
        } else {
            assert(q.drop_last() =~= p.drop_last());
            assert(q.last() == p.last().push(s.last()));
            if p.len() == 1 {
                assert(joined(p, seq![sep]) == p[0]);
                assert(joined(q, seq![sep]) == q[0]);
            } else {
                assert(joined(q, seq![sep]) =~= joined(p, seq![sep]).push(s.last()));
            }
            assert(joined(q, seq![sep]) =~= s);
            assert forall|i: int| 0 <= i < q.len() implies !(#[trigger] q[i]).contains(sep) by {
                if i < p.len() - 1 {
                    assert(q[i] == p[i]);
                } else {
                    assert(!p[p.len() - 1].contains(sep));
                    if q[i].contains(sep) {
                        let k = q[i].index_of(sep);
                        if k < p.last().len() {
                            assert(p.last()[k] == sep);
                        }
                    }
                }
            }
        }
    } else {
        assert(split(s, sep) =~= seq![Seq::empty()]);
        assert(joined(split(s, sep), seq![sep]) =~= s);
    }
}

/// No word of a text is empty or holds white space, and the words one after the
/// other are the text without its white space.
pub proof fn words_are_what_is_not_space(s: Seq<char>)
    ensures
        words(s).flatten() == s.filter(|c: char| !is_space(c)),
        forall|i: int|
            0 <= i < words(s).len() ==> (#[trigger] words(s)[i]).len() > 0 && forall|k: int|
                0 <= k < words(s)[i].len() ==> !is_space(#[trigger] words(s)[i][k]),
{
    lemma_space_pieces(s);
    let p = split_spaces(s);
    let some = |w: Seq<char>| w.len() > 0;
    lemma_flatten_without_empty(p, some);
    assert forall|i: int| 0 <= i < words(s).len() implies (#[trigger] words(s)[i]).len() > 0
        && forall|k: int| 0 <= k < words(s)[i].len() ==> !is_space(#[trigger] words(s)[i][k]) by {
        p.lemma_filter_pred(some, i);
        p.lemma_filter_contains_rev(some, words(s)[i]);
        let j = p.index_of(words(s)[i]);
        assert(p[j] == words(s)[i]);
    }
    p.filter(some).lemma_flatten_and_flatten_alt_are_equivalent();
}

proof fn lemma_space_pieces(s: Seq<char>)
    ensures
        split_spaces(s).len() >= 1,
        split_spaces(s).flatten_alt() == s.filter(|c: char| !is_space(c)),
        forall|i: int, k: int|
            0 <= i < split_spaces(s).len() && 0 <= k < split_spaces(s)[i].len() ==> !is_space(
                #[trigger] split_spaces(s)[i][k],
            ),
    decreases s.len(),
{
    reveal(Seq::filter);
    let q = split_spaces(s);
    if s.len() == 0 {
        assert(q.drop_last() =~= Seq::<Seq<char>>::empty());
        assert(q.drop_last().flatten_alt() =~= Seq::empty());
        assert(q.flatten_alt() =~= Seq::empty());
    } else {
        lemma_space_pieces(s.drop_last());
        let p = split_spaces(s.drop_last());
        if is_space(s.last()) {
            assert(q.drop_last() =~= p);
            assert(q.last() =~= Seq::empty());
            assert(q.flatten_alt() =~= p.flatten_alt());
            assert forall|i: int, k: int| 0 <= i < q.len() && 0 <= k < q[i].len() implies !is_space(
                #[trigger] q[i][k],
            ) by {
                assert(q[i] == p[i]);
                assert(!is_space(p[i][k]));
            }
        } else {
            assert(q.drop_last() =~= p.drop_last());
            assert(q.flatten_alt() =~= p.flatten_alt().push(s.last()));
            assert forall|i: int, k: int| 0 <= i < q.len() && 0 <= k < q[i].len() implies !is_space(
                #[trigger] q[i][k],
            ) by {
                if i < p.len() - 1 {
                    assert(q[i] == p[i]);
                    assert(!is_space(p[i][k]));
                } else if k < p.last().len() {
                    assert(!is_space(p[i][k]));
                }
            }
        }
    }
}

proof fn lemma_flatten_without_empty(p: Seq<Seq<char>>, some: spec_fn(Seq<char>) -> bool)
    requires
        forall|w: Seq<char>| #[trigger] some(w) == (w.len() > 0),
    ensures
        p.filter(some).flatten_alt() == p.flatten_alt(),
    decreases p.len(),
{
    reveal(Seq::filter);
    if p.len() > 0 {
        lemma_flatten_without_empty(p.drop_last(), some);
        let f = p.drop_last().filter(some);
        if some(p.last()) {
            assert(p.filter(some) =~= f.push(p.last()));
            assert(f.push(p.last()).drop_last() =~= f);
        } else {
            assert(p.last() =~= Seq::empty());
            assert(p.flatten_alt() =~= p.drop_last().flatten_alt());
        }
    }
}

/// The text has at least one character and no white space.
pub open spec fn solid(w: Seq<char>) -> bool {
    w.len() > 0 && forall|k: int| 0 <= k < w.len() ==> !is_space(#[trigger] w[k])
}

/// Words with a character of white space between each two are read as those words.
pub proof fn spaced_words_read_back(ws: Seq<Seq<char>>, sep: char)
    requires
        is_space(sep),
        forall|i: int| 0 <= i < ws.len() ==> solid(#[trigger] ws[i]),
    ensures
        words(joined(ws, seq![sep])) == ws,
{
    let some = |w: Seq<char>| w.len() > 0;
    if ws.len() > 0 {
        lemma_spaced_pieces(ws, sep);
        lemma_all_kept(ws, some);
    } else {
        reveal(Seq::filter);
        let p = split_spaces(Seq::empty());
        assert(p.drop_last() =~= Seq::<Seq<char>>::empty());
        assert(p.last() =~= Seq::empty());
        assert(p.drop_last().filter(some) =~= Seq::<Seq<char>>::empty());
        assert(p.filter(some) =~= Seq::<Seq<char>>::empty());
    }
}

proof fn lemma_all_kept(ws: Seq<Seq<char>>, some: spec_fn(Seq<char>) -> bool)
    requires
        forall|i: int| 0 <= i < ws.len() ==> some(#[trigger] ws[i]),
    ensures
        ws.filter(some) == ws,
    decreases ws.len(),
{
    reveal(Seq::filter);
    if ws.len() > 0 {
        let r = ws.drop_last();
        assert forall|i: int| 0 <= i < r.len() implies some(#[trigger] r[i]) by {
            assert(r[i] == ws[i]);
        }
        lemma_all_kept(r, some);
        assert(some(ws[ws.len() - 1]));
        assert(r.push(ws.last()) =~= ws);
    }
}

proof fn lemma_spaced_tail(a: Seq<char>, b: Seq<char>, sep: char)
    requires
        is_space(sep),
        forall|k: int| 0 <= k < b.len() ==> !is_space(#[trigger] b[k]),
    ensures
        split_spaces(a + seq![sep] + b) == split_spaces(a).push(b),
    decreases b.len(),
{
    let whole = a + seq![sep] + b;
    if b.len() == 0 {
        assert(whole =~= a.push(sep));
        assert(whole.drop_last() =~= a);
        assert(b =~= Seq::empty());
    } else {
        let c = b.drop_last();
        lemma_spaced_tail(a, c, sep);
        assert(whole.drop_last() =~= a + seq![sep] + c);
        assert(whole.last() == b[b.len() - 1]);
        let p = split_spaces(a).push(c);
        assert(p.drop_last() =~= split_spaces(a));
        assert(p.last() == c);
        assert(c.push(b.last()) =~= b);
    }
}

proof fn lemma_spaced_whole(b: Seq<char>)
    requires
        forall|k: int| 0 <= k < b.len() ==> !is_space(#[trigger] b[k]),
    ensures
        split_spaces(b) == seq![b],
    decreases b.len(),
{
    if b.len() == 0 {
        assert(b =~= Seq::empty());
    } else {
        let c = b.drop_last();
        lemma_spaced_whole(c);
        assert(!is_space(b[b.len() - 1]));
        assert(seq![c].drop_last() =~= Seq::empty());
        assert(c.push(b.last()) =~= b);
        assert(Seq::empty().push(b) =~= seq![b]);
    }
}

proof fn lemma_spaced_pieces(ws: Seq<Seq<char>>, sep: char)
    requires
        ws.len() > 0,
        is_space(sep),
        forall|i: int| 0 <= i < ws.len() ==> solid(#[trigger] ws[i]),
    ensures
        split_spaces(joined(ws, seq![sep])) == ws,
    decreases ws.len(),
{
    assert(solid(ws[ws.len() - 1]));
    if ws.len() == 1 {
        lemma_spaced_whole(ws[0]);
        assert(ws =~= seq![ws[0]]);
    } else {
        let rest = ws.drop_last();
        assert forall|i: int| 0 <= i < rest.len() implies solid(#[trigger] rest[i]) by {
            assert(solid(ws[i]));
        }
        lemma_spaced_pieces(rest, sep);
        lemma_spaced_tail(joined(rest, seq![sep]), ws.last(), sep);
        assert(rest.push(ws.last()) =~= ws);
    }
}

/// A text is found in another exactly where it stands somewhere in it.
pub proof fn parts_are_found(s: Seq<char>, p: Seq<char>)
    ensures
        has_sub(s, p) <==> exists|i: int|
            0 <= i && i + p.len() <= s.len() && #[trigger] s.subrange(i, i + p.len()) == p,
{
    the_first_place_is_found(s, p, 0);
    let i = sub_from(s, p, 0);
    if i >= 0 {
        assert(s.subrange(i, i + p.len()) == p);
    }
}

/// Only the letters from A to Z change in lower case, each to the small letter 32
/// places on; upper case undoes that.
pub proof fn letters_change_case(c: char)
    ensures
        'A' <= c && c <= 'Z' ==> lower(c) as int == c as int + 32 && upper(lower(c)) == c,
        !('A' <= c && c <= 'Z') ==> lower(c) == c,
        'a' <= c && c <= 'z' ==> upper(c) as int == c as int - 32 && lower(upper(c)) == c,
        !('a' <= c && c <= 'z') ==> upper(c) == c,
{
}

/// Lines that were joined with line feeds are read back, where none holds one or
/// ends in a carriage return and the last is not empty.
pub proof fn joined_lines_read_back(ls: Seq<Seq<char>>)
    requires
        ls.len() > 0,
        none_holds(ls, '\n'),
        ls.last().len() > 0,
        forall|i: int|
            0 <= i < ls.len() ==> (#[trigger] ls[i]).len() == 0 || ls[i].last() != '\r',
    ensures
        lines(joined(ls, seq!['\n'])) == ls,
        lines(joined(ls, seq!['\n']) + seq!['\n']) == ls,
{
    splitting_undoes_joining(ls, '\n');
    let cut = |l: Seq<char>| chomped(l);
    assert(ls.drop_last().map_values(cut) =~= ls.drop_last()) by {
        assert forall|i: int| 0 <= i < ls.len() - 1 implies chomped(
            #[trigger] ls.drop_last()[i],
        ) == ls.drop_last()[i] by {
            assert(ls[i] == ls.drop_last()[i]);
        }
    }
    assert(ls.drop_last().push(ls.last()) =~= ls);
    let s = joined(ls, seq!['\n']);
    let e = Seq::<char>::empty();
    lemma_split_tail(s, e, '\n');
    assert(s + seq!['\n'] + e =~= s + seq!['\n']);
    let p = ls.push(e);
    assert(p.drop_last() =~= ls);
    assert(ls.map_values(cut) =~= ls) by {
        assert forall|i: int| 0 <= i < ls.len() implies chomped(#[trigger] ls[i]) == ls[i] by {}
    }
}

/// What stands before the first `c` of a text.
pub proof fn texts_are_cut_at_the_first_char(a: Seq<char>, c: char, b: Seq<char>)
    requires
        !a.contains(c),
    ensures
        up_to(a.push(c) + b, c) == a,
        up_to(a, c) == a,
{
    let s = a.push(c) + b;
    the_first_char_is_found(s, c, 0);
    the_first_char_is_found(a, c, 0);
    let i = char_from(s, c, 0);
    assert(s[a.len() as int] == c);
    if i < a.len() {
        assert(s[i] == a[i]);
        assert(a.contains(a[i]));
    }
    assert(s.take(i) =~= a);
    let k = char_from(a, c, 0);
    if k < a.len() {
        assert(a.contains(a[k]));
    }
    assert(a.take(k) =~= a);
}

/// White space at the start is taken off, and nothing else.
pub proof fn the_start_is_trimmed(a: Seq<char>, b: Seq<char>)
    requires
        forall|i: int| 0 <= i < a.len() ==> is_space(#[trigger] a[i]),
        b.len() > 0 ==> !is_space(b[0]),
    ensures
        trim_start(a + b) == b,
    decreases a.len(),
{
    if a.len() == 0 {
        assert(a + b =~= b);
    } else {
        assert(a[0] == (a + b)[0]);
        assert((a + b).drop_first() =~= a.drop_first() + b);
        the_start_is_trimmed(a.drop_first(), b);
    }
}

/// The lines that are kept are those with a character that is no white space.
pub proof fn blank_lines_are_left_out(s: Seq<char>)
    ensures
        filled_lines(s) == lines(s).filter(
            |l: Seq<char>| exists|i: int| 0 <= i < l.len() && !is_space(#[trigger] l[i]),
        ),
{
    let kept = |l: Seq<char>| trimmed(l).len() > 0;
    let solid = |l: Seq<char>| exists|i: int| 0 <= i < l.len() && !is_space(#[trigger] l[i]);
    assert forall|l: Seq<char>| #[trigger] kept(l) == solid(l) by {
        let r = trimming_takes_the_ends(l);
        if r.0 < r.1 {
            assert(!is_space(l[r.0]));
        }
    }
    assert(kept =~= solid);
}

} // verus!
