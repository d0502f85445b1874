//! Stable sorting by lexicographic keys.
//!
//! A key is a list of numbers. A string is the list of its code points, a pair
//! of numbers is a list of two, and so one order serves every sort.

use crate::text;
use vstd::prelude::*;

verus! {

/// `a` is before or equal to `b`: the first difference decides, and a proper
/// prefix comes first.
pub open spec fn lex_le(a: Seq<u32>, b: Seq<u32>) -> bool
    decreases a.len(),
{
    if a.len() == 0 {
        true
    } else if b.len() == 0 {
        false
    } else if a[0] != b[0] {
        a[0] < b[0]
    } else {
        lex_le(a.drop_first(), b.drop_first())
    }
}

pub proof fn lemma_lex_reflexive(a: Seq<u32>)
    ensures
        lex_le(a, a),
    decreases a.len(),
{
    if a.len() > 0 {
        lemma_lex_reflexive(a.drop_first());
    }
}

pub proof fn lemma_lex_total(a: Seq<u32>, b: Seq<u32>)
    ensures
        lex_le(a, b) || lex_le(b, a),
    decreases a.len(),
{
    if a.len() > 0 && b.len() > 0 {
        lemma_lex_total(a.drop_first(), b.drop_first());
    }
}

pub proof fn lemma_lex_transitive(a: Seq<u32>, b: Seq<u32>, c: Seq<u32>)
    requires
        lex_le(a, b),
        lex_le(b, c),
    ensures
        lex_le(a, c),
    decreases a.len(),
{
    if a.len() > 0 && b.len() > 0 && c.len() > 0 {
        if a[0] == b[0] && b[0] == c[0] {
            lemma_lex_transitive(a.drop_first(), b.drop_first(), c.drop_first());
        }
    }
}

pub proof fn lemma_lex_antisymmetric(a: Seq<u32>, b: Seq<u32>)
    requires
        lex_le(a, b),
        lex_le(b, a),
    ensures
        a == b,
    decreases a.len(),
{
    if a.len() > 0 && b.len() > 0 {
        lemma_lex_antisymmetric(a.drop_first(), b.drop_first());
        assert(a =~= seq![a[0]] + a.drop_first());
        assert(b =~= seq![b[0]] + b.drop_first());
    } else {
        assert(a =~= b);
    }
}

/// Tests for [`lex_le`].
pub fn key_le(a: &[u32], b: &[u32]) -> (r: bool)
    ensures
        r == lex_le(a@, b@),
{
    let mut i: usize = 0;
    proof {
        assert(a@.skip(0) =~= a@);
        assert(b@.skip(0) =~= b@);
    }
    while i < a.len() && i < b.len()
        invariant
            i <= a@.len(),
            i <= b@.len(),
            lex_le(a@, b@) == lex_le(a@.skip(i as int), b@.skip(i as int)),
        decreases a@.len() - i,
    {
        proof {
            assert(a@.skip(i as int).drop_first() =~= a@.skip(i + 1));
            assert(b@.skip(i as int).drop_first() =~= b@.skip(i + 1));
        }
        if a[i] != b[i] {
            return a[i] < b[i];
        }
        i = i + 1;
    }
    i == a.len()
}

/// The keys of a list, as sequences.
pub open spec fn keys_of(keys: Seq<Vec<u32>>) -> Seq<Seq<u32>> {
    keys.map_values(|k: Vec<u32>| k@)
}

/// `i` comes before `j`: by key, and by position among equal keys.
pub open spec fn comes_before(keys: Seq<Seq<u32>>, i: int, j: int) -> bool {
    lex_le(keys[i], keys[j]) && (keys[i] == keys[j] ==> i < j)
}

/// `idx` lists the positions of `keys`, each once, in ascending order of key,
/// equal keys in their original order.
pub open spec fn stable_order(keys: Seq<Seq<u32>>, idx: Seq<usize>) -> bool {
    &&& idx.len() == keys.len()
    &&& forall|i: int| 0 <= i < idx.len() ==> (#[trigger] idx[i]) < keys.len()
    &&& forall|i: int, j: int|
        0 <= i < j < idx.len() ==> comes_before(keys, #[trigger] idx[i] as int, #[trigger] idx[j] as int)
}

/// Two stable orders of the same keys are the same: the order is a function of
/// the keys.
pub proof fn lemma_stable_order_unique(keys: Seq<Seq<u32>>, a: Seq<usize>, b: Seq<usize>)
    requires
        stable_order(keys, a),
        stable_order(keys, b),
    ensures
        a == b,
{
    lemma_stable_order_onto(keys, a);
    lemma_stable_order_onto(keys, b);
    assert forall|n: int| 0 <= n <= a.len() implies a.take(n) == b.take(n) by {
        lemma_stable_prefix(keys, a, b, n);
    }
    assert(a.take(a.len() as int) =~= a);
    assert(b.take(a.len() as int) =~= b);
}

proof fn lemma_stable_prefix(keys: Seq<Seq<u32>>, a: Seq<usize>, b: Seq<usize>, n: int)
    requires
        stable_order(keys, a),
        stable_order(keys, b),
        0 <= n <= a.len(),
        forall|p: usize| p < keys.len() ==> #[trigger] a.contains(p),
        forall|p: usize| p < keys.len() ==> #[trigger] b.contains(p),
    ensures
        a.take(n) == b.take(n),
    decreases n,
{
    if n == 0 {
        assert(a.take(0) =~= b.take(0));
    } else {
        lemma_stable_prefix(keys, a, b, n - 1);
        let x = a[n - 1];
        let y = b[n - 1];
        if x != y {
            assert(b.contains(x) && a.contains(y));
            let i = choose|i: int| 0 <= i < b.len() && b[i] == x;
            let j = choose|j: int| 0 <= j < a.len() && a[j] == y;
            if i < n - 1 {
                assert(a.take(n - 1)[i] == b.take(n - 1)[i]);
                assert(a[i] == x);
                assert(comes_before(keys, a[i] as int, a[n - 1] as int));
                assert(false);
            }
            if j < n - 1 {
                assert(a.take(n - 1)[j] == b.take(n - 1)[j]);
                assert(b[j] == y);
                assert(comes_before(keys, b[j] as int, b[n - 1] as int));
                assert(false);
            }
            assert(i > n - 1 && j > n - 1);
            assert(comes_before(keys, b[n - 1] as int, b[i] as int));
            assert(comes_before(keys, a[n - 1] as int, a[j] as int));
            lemma_lex_antisymmetric(keys[x as int], keys[y as int]);
            assert(false);
        }
        assert(a.take(n) =~= a.take(n - 1).push(a[n - 1]));
        assert(b.take(n) =~= b.take(n - 1).push(b[n - 1]));
    }
}

/// A stable order lists every position.
pub proof fn lemma_stable_order_onto(keys: Seq<Seq<u32>>, idx: Seq<usize>)
    requires
        stable_order(keys, idx),
    ensures
        idx.no_duplicates(),
        forall|p: usize| p < keys.len() ==> #[trigger] idx.contains(p),
{
    assert forall|i: int, j: int| 0 <= i < idx.len() && 0 <= j < idx.len() && i != j implies idx[i]
        != idx[j] by {
        if i < j {
            assert(comes_before(keys, idx[i] as int, idx[j] as int));
        } else {
            assert(comes_before(keys, idx[j] as int, idx[i] as int));
        }
    }
    let ints = idx.map_values(|u: usize| u as int);
    assert forall|i: int, j: int| 0 <= i < ints.len() && 0 <= j < ints.len() && i != j implies ints[i]
        != ints[j] by {
        assert(idx[i] != idx[j]);
    }
    let s = ints.to_set();
    let full = vstd::set_lib::set_int_range(0, keys.len() as int);
    vstd::set_lib::lemma_int_range(0, keys.len() as int);
    ints.unique_seq_to_set();
    assert(s.subset_of(full)) by {
        assert forall|x: int| s.contains(x) implies full.contains(x) by {
            let i = choose|i: int| 0 <= i < ints.len() && ints[i] == x;
            assert(idx[i] < keys.len());
        }
    }
    vstd::set_lib::lemma_subset_equality(s, full);
    assert forall|p: usize| p < keys.len() implies #[trigger] idx.contains(p) by {
        assert(full.contains(p as int));
        assert(s.contains(p as int));
        let i = choose|i: int| 0 <= i < ints.len() && ints[i] == p as int;
        assert(idx[i] == p);
    }
}

/// The positions of `keys` in ascending order of key; equal keys keep their
/// order.
pub fn sorted_positions(keys: &Vec<Vec<u32>>) -> (idx: Vec<usize>)
    ensures
        stable_order(keys_of(keys@), idx@),
{
    let ghost ks = keys_of(keys@);
    let mut idx: Vec<usize> = Vec::new();
    let mut n: usize = 0;
    while n < keys.len()
        invariant
            n <= keys@.len(),
            ks == keys_of(keys@),
            idx@.len() == n,
            forall|i: int| 0 <= i < n ==> (#[trigger] idx@[i]) < n,
            forall|i: int, j: int|
                0 <= i < j < n ==> comes_before(ks, #[trigger] idx@[i] as int, #[trigger] idx@[j] as int),
        decreases keys@.len() - n,
    {
        // The new position goes right after the last key that is not above it.
        let mut at: usize = n;
        while at > 0 && !key_le(keys[idx[at - 1]].as_slice(), keys[n].as_slice())
            invariant
                at <= n,
                n < keys@.len(),
                ks == keys_of(keys@),
                idx@.len() == n,
                forall|i: int| 0 <= i < n ==> (#[trigger] idx@[i]) < n,
                forall|i: int| at <= i < n ==> !lex_le(ks[#[trigger] idx@[i] as int], ks[n as int]),
            decreases at,
        {
            at = at - 1;
        }
        let ghost before = idx@;
        proof {
            assert forall|i: int| 0 <= i < at implies lex_le(
                ks[#[trigger] before[i] as int],
                ks[n as int],
            ) by {
                assert(lex_le(ks[before[at - 1] as int], ks[n as int]));
                if i < at - 1 {
                    assert(comes_before(ks, before[i] as int, before[at - 1] as int));
                    lemma_lex_transitive(
                        ks[before[i] as int],
                        ks[before[at - 1] as int],
                        ks[n as int],
                    );
                }
            }
        }
        idx.insert(at, n);
        proof {
            assert(idx@ =~= before.insert(at as int, n));
            assert forall|i: int, j: int| 0 <= i < j < n + 1 implies comes_before(
                ks,
                #[trigger] idx@[i] as int,
                #[trigger] idx@[j] as int,
            ) by {
                let bi = if i < at { i } else { i - 1 };
                let bj = if j < at { j } else { j - 1 };
                if i == at {
                    let x = before[bj] as int;
                    assert(!lex_le(ks[x], ks[n as int]));
                    lemma_lex_total(ks[x], ks[n as int]);
                    lemma_lex_reflexive(ks[n as int]);
                } else if j == at {
                    assert(lex_le(ks[before[bi] as int], ks[n as int]));
                } else {
                    assert(idx@[i] == before[bi]);
                    assert(idx@[j] == before[bj]);
                    assert(comes_before(ks, before[bi] as int, before[bj] as int));
                }
            }
        }
        n = n + 1;
    }
    idx
}

/// `s` read in the order `idx`.
pub open spec fn in_order<T>(s: Seq<T>, idx: Seq<usize>) -> Seq<T> {
    Seq::new(idx.len(), |i: int| s[idx[i] as int])
}

/// The stable order of the keys.
pub open spec fn order_of(keys: Seq<Seq<u32>>) -> Seq<usize> {
    choose|idx: Seq<usize>| stable_order(keys, idx)
}

/// There is a stable order, and `order_of` is one.
pub proof fn lemma_order_of_is_stable(keys: Seq<Seq<u32>>)
    requires
        keys.len() <= usize::MAX,
    ensures
        stable_order(keys, order_of(keys)),
{
    let idx = lemma_order_built(keys);
    assert(stable_order(keys, idx));
}

pub proof fn lemma_order_of(keys: Seq<Seq<u32>>, idx: Seq<usize>)
    requires
        stable_order(keys, idx),
    ensures
        idx == order_of(keys),
{
    lemma_stable_order_unique(keys, idx, order_of(keys));
}

/// `v` read in the order `idx`.
pub fn permuted<T: Clone>(v: &[T], idx: &[usize]) -> (r: Vec<T>)
    requires
        forall|i: int| 0 <= i < idx@.len() ==> (#[trigger] idx@[i]) < v@.len(),
    ensures
        r@.len() == idx@.len(),
        forall|i: int| 0 <= i < r@.len() ==> cloned(v@[idx@[i] as int], #[trigger] r@[i]),
{
    let mut out: Vec<T> = Vec::new();
    let mut i: usize = 0;
    while i < idx.len()
        invariant
            i <= idx@.len(),
            out@.len() == i,
            forall|k: int| 0 <= k < idx@.len() ==> (#[trigger] idx@[k]) < v@.len(),
            forall|k: int| 0 <= k < i ==> cloned(v@[idx@[k] as int], #[trigger] out@[k]),
        decreases idx@.len() - i,
    {
        out.push(v[idx[i]].clone());
        i = i + 1;
    }
    out
}

/// The code points of a string: its sorting key.
pub open spec fn text_key(s: Seq<char>) -> Seq<u32> {
    s.map_values(|c: char| c as u32)
}

/// The sorting key of a string.
pub fn key_of_text(s: &str) -> (r: Vec<u32>)
    ensures
        r@ == text_key(s@),
{
    let cs = crate::text::chars_of(s);
    let mut out: Vec<u32> = Vec::new();
    let mut i: usize = 0;
    while i < cs.len()
        invariant
            i <= cs@.len(),
            cs@ == s@,
            out@ == text_key(s@.take(i as int)),
        decreases cs@.len() - i,
    {
        out.push(cs[i] as u32);
        i = i + 1;
        assert(text_key(s@.take(i as int)) =~= text_key(s@.take(i - 1)).push(s@[i - 1] as u32));
    }
    assert(s@.take(s@.len() as int) =~= s@);
    out
}

/// `idx` lists each of the first `n` positions once.
pub open spec fn rearranges(idx: Seq<usize>, n: int) -> bool {
    &&& idx.len() == n
    &&& forall|i: int| 0 <= i < n ==> (#[trigger] idx[i]) < n
    &&& idx.no_duplicates()
}

/// Distinct keys in ascending order.
pub open spec fn ascending(keys: Seq<Seq<u32>>) -> bool {
    forall|i: int, j: int|
        0 <= i < j < keys.len() ==> lex_le(#[trigger] keys[i], #[trigger] keys[j]) && keys[i]
            != keys[j]
}

/// Keys that were ascending are brought back to where they were by sorting them.
pub proof fn lemma_sorted_back(keys: Seq<Seq<u32>>, idx: Seq<usize>, back: Seq<usize>)
    requires
        ascending(keys),
        rearranges(idx, keys.len() as int),
        stable_order(in_order(keys, idx), back),
        keys.len() <= usize::MAX,
    ensures
        back.len() == keys.len(),
        forall|j: int|
            0 <= j < keys.len() ==> (#[trigger] back[j]) < keys.len() && idx[back[j] as int] == j,
{
    let mixed = in_order(keys, idx);
    let n = keys.len();
    let both = Seq::new(n, |j: int| idx[back[j] as int]);
    let same = Seq::new(n, |j: int| j as usize);
    lemma_stable_order_onto(mixed, back);
    assert forall|i: int, j: int| 0 <= i < j < n implies comes_before(
        keys,
        #[trigger] both[i] as int,
        #[trigger] both[j] as int,
    ) by {
        assert(comes_before(mixed, back[i] as int, back[j] as int));
        assert(back[i] != back[j]);
        let (a, b) = (both[i] as int, both[j] as int);
        assert(idx[back[i] as int] != idx[back[j] as int]);
        assert(mixed[back[i] as int] == keys[a] && mixed[back[j] as int] == keys[b]);
        if a < b {
            assert(keys[a] != keys[b]);
        } else {
            assert(keys[b] != keys[a]);
        }
    }
    assert(stable_order(keys, both)) by {
        assert forall|i: int| 0 <= i < both.len() implies (#[trigger] both[i]) < n by {
            assert(back[i] < n);
        }
    }
    assert(stable_order(keys, same)) by {
        assert forall|i: int, j: int| 0 <= i < j < n implies comes_before(
            keys,
            #[trigger] same[i] as int,
            #[trigger] same[j] as int,
        ) by {
            assert(keys[i] != keys[j]);
        }
    }
    lemma_stable_order_unique(keys, both, same);
    assert forall|j: int| 0 <= j < n implies (#[trigger] back[j]) < n && idx[back[j] as int] == j by {
        assert(both[j] == same[j]);
    }
}

/// Reading a list in another order keeps its items.
pub proof fn lemma_in_order_items<T>(s: Seq<T>, idx: Seq<usize>)
    requires
        rearranges(idx, s.len() as int),
    ensures
        in_order(s, idx).to_multiset() == s.to_multiset(),
    decreases s.len(),
{
    broadcast use vstd::multiset::group_multiset_axioms;
    broadcast use vstd::seq_lib::group_to_multiset_ensures;

    if s.len() == 0 {
        assert(in_order(s, idx) =~= s);
    } else {
        let p = idx.last() as int;
        let t = s.remove(p);
        let shorter = Seq::new(
            (idx.len() - 1) as nat,
            |i: int|
                if idx[i] > p {
                    (idx[i] - 1) as usize
                } else {
                    idx[i]
                },
        );
        assert forall|i: int, j: int|
            0 <= i < shorter.len() && 0 <= j < shorter.len() && i != j implies shorter[i]
            != shorter[j] by {
            assert(idx[i] != idx[j]);
            assert(idx[i] != idx[idx.len() - 1]);
            assert(idx[j] != idx[idx.len() - 1]);
        }
        assert forall|i: int| 0 <= i < shorter.len() implies (#[trigger] shorter[i]) < t.len() by {
            assert(idx[i] != idx[idx.len() - 1]);
            assert(idx[i] < s.len());
        }
        lemma_in_order_items(t, shorter);
        let whole = in_order(s, idx);
        assert(whole.drop_last() =~= in_order(t, shorter)) by {
            assert forall|i: int| 0 <= i < shorter.len() implies whole[i] == t[shorter[i] as int] by {
                assert(idx[i] != idx[idx.len() - 1]);
                assert(idx[i] < s.len());
            }
        }
        assert(whole =~= whole.drop_last().push(s[p]));
        assert(t.to_multiset() == s.to_multiset().remove(s[p]));
        assert(s.contains(s[p]));
        assert(s.to_multiset().remove(s[p]).insert(s[p]) =~= s.to_multiset());
    }
}

pub proof fn lemma_char_number(c: char, d: char)
    requires
        c as u32 == d as u32,
    ensures
        c == d,
{
}

proof fn lemma_text_key_injective(a: Seq<char>, b: Seq<char>)
    requires
        text_key(a) == text_key(b),
    ensures
        a == b,
{
    assert(text_key(a).len() == a.len() && text_key(b).len() == b.len());
    assert forall|i: int| 0 <= i < a.len() implies a[i] == b[i] by {
        assert(text_key(a)[i] == a[i] as u32);
        assert(text_key(b)[i] == b[i] as u32);
        lemma_char_number(a[i], b[i]);
    }
    assert(a =~= b);
}

/// Two lists of the same texts sort to the same list.
pub proof fn sorting_ignores_order(a: Seq<Seq<char>>, b: Seq<Seq<char>>)
    requires
        a.to_multiset() == b.to_multiset(),
        a.len() <= usize::MAX,
        b.len() <= usize::MAX,
    ensures
        in_order(a, order_of(a.map_values(|s: Seq<char>| text_key(s)))) == in_order(
            b,
            order_of(b.map_values(|s: Seq<char>| text_key(s))),
        ),
{
    let leq = |x: Seq<char>, y: Seq<char>| lex_le(text_key(x), text_key(y));
    lemma_sorted_result(a);
    lemma_sorted_result(b);
    assert(vstd::relations::total_ordering(leq)) by {
        assert forall|x: Seq<char>| #[trigger] leq(x, x) by {
            lemma_lex_reflexive(text_key(x));
        }
        assert forall|x: Seq<char>, y: Seq<char>| #[trigger] leq(x, y) && #[trigger] leq(y, x) implies x
            == y by {
            lemma_lex_antisymmetric(text_key(x), text_key(y));
            lemma_text_key_injective(x, y);
        }
        assert forall|x: Seq<char>, y: Seq<char>, z: Seq<char>| #[trigger]
            leq(x, y) && #[trigger] leq(y, z) implies leq(x, z) by {
            lemma_lex_transitive(text_key(x), text_key(y), text_key(z));
        }
        assert forall|x: Seq<char>, y: Seq<char>| #[trigger] leq(x, y) || #[trigger] leq(y, x) by {
            lemma_lex_total(text_key(x), text_key(y));
        }
    }
    vstd::seq_lib::lemma_sorted_unique(
        in_order(a, order_of(a.map_values(|s: Seq<char>| text_key(s)))),
        in_order(b, order_of(b.map_values(|s: Seq<char>| text_key(s)))),
        leq,
    );
}

proof fn lemma_sorted_result(a: Seq<Seq<char>>)
    requires
        a.len() <= usize::MAX,
    ensures
        in_order(a, order_of(a.map_values(|s: Seq<char>| text_key(s)))).to_multiset()
            == a.to_multiset(),
        vstd::relations::sorted_by(
            in_order(a, order_of(a.map_values(|s: Seq<char>| text_key(s)))),
            |x: Seq<char>, y: Seq<char>| lex_le(text_key(x), text_key(y)),
        ),
{
    let keys = a.map_values(|s: Seq<char>| text_key(s));
    let built = lemma_order_built(keys);
    let idx = order_of(keys);
    lemma_stable_order_onto(keys, idx);
    lemma_in_order_items(a, idx);
    let r = in_order(a, idx);
    assert forall|i: int, j: int| 0 <= i < j < r.len() implies #[trigger] lex_le(
        text_key(r[i]),
        text_key(r[j]),
    ) by {
        assert(comes_before(keys, idx[i] as int, idx[j] as int));
        assert(keys[idx[i] as int] == text_key(r[i]));
        assert(keys[idx[j] as int] == text_key(r[j]));
    }
}

/// Every list of keys has a stable order.
proof fn lemma_order_built(keys: Seq<Seq<u32>>) -> (idx: Seq<usize>)
    requires
        keys.len() <= usize::MAX,
    ensures
        stable_order(keys, idx),
    decreases keys.len(),
{
    if keys.len() == 0 {
        Seq::empty()
    } else {
        let n = (keys.len() - 1) as usize;
        let rest = keys.drop_last();
        let before = lemma_order_built(rest);
        let at = lemma_place(keys, before, before.len() as int);
        let idx = before.insert(at, n);
        assert forall|i: int, j: int| 0 <= i < j < idx.len() implies comes_before(
            keys,
            #[trigger] idx[i] as int,
            #[trigger] idx[j] as int,
        ) by {
            let bi = if i < at {
                i
            } else {
                i - 1
            };
            let bj = if j < at {
                j
            } else {
                j - 1
            };
            if i == at {
                let x = before[bj] as int;
                lemma_lex_total(keys[x], keys[n as int]);
                lemma_lex_reflexive(keys[n as int]);
            } else if j == at {
                assert(before[bi] < rest.len());
            } else {
                assert(comes_before(rest, before[bi] as int, before[bj] as int));
            }
        }
        assert forall|i: int| 0 <= i < idx.len() implies (#[trigger] idx[i]) < keys.len() by {
            if i < at {
                assert(before[i] < rest.len());
            } else if i > at {
                assert(before[i - 1] < rest.len());
            }
        }
        idx
    }
}

proof fn lemma_place(keys: Seq<Seq<u32>>, before: Seq<usize>, at: int) -> (r: int)
    requires
        keys.len() > 0,
        keys.len() <= usize::MAX,
        stable_order(keys.drop_last(), before),
        0 <= at <= before.len(),
        forall|i: int| at <= i < before.len() ==> !lex_le(keys[#[trigger] before[i] as int], keys.last()),
    ensures
        0 <= r <= before.len(),
        forall|i: int| 0 <= i < r ==> lex_le(keys[#[trigger] before[i] as int], keys.last()),
        forall|i: int| r <= i < before.len() ==> !lex_le(keys[#[trigger] before[i] as int], keys.last()),
    decreases at,
{
    if at == 0 {
        0
    } else if lex_le(keys[before[at - 1] as int], keys.last()) {
        let rest = keys.drop_last();
        assert forall|i: int| 0 <= i < at implies lex_le(
            keys[#[trigger] before[i] as int],
            keys.last(),
        ) by {
            if i < at - 1 {
                assert(comes_before(rest, before[i] as int, before[at - 1] as int));
                assert(before[i] < rest.len() && before[at - 1] < rest.len());
                lemma_lex_transitive(
                    keys[before[i] as int],
                    keys[before[at - 1] as int],
                    keys.last(),
                );
            }
        }
        at
    } else {
        lemma_place(keys, before, at - 1)
    }
}

/// The key of a list of texts: text by text, a list before those it begins.
pub open spec fn list_key(v: Seq<Seq<char>>) -> Seq<u32>
    decreases v.len(),
{
    if v.len() == 0 {
        Seq::empty()
    } else {
        list_key(v.drop_last()) + v.last().map_values(|c: char| (c as u32 + 1) as u32).push(0)
    }
}

/// The number of a character is below 0x110000.
pub proof fn lemma_char_bound(c: char)
    ensures
        (c as u32) <= 0x10ffff,
{
}

/// The key of a list of texts.
pub fn key_of_list(v: &Vec<String>) -> (r: Vec<u32>)
    ensures
        r@ == list_key(text::texts(v@)),
{
    let ghost tv = text::texts(v@);
    let mut out: Vec<u32> = Vec::new();
    let mut i: usize = 0;
    assert(tv.take(0) =~= Seq::<Seq<char>>::empty());
    while i < v.len()
        invariant
            i <= v@.len(),
            tv == text::texts(v@),
            out@ == list_key(tv.take(i as int)),
        decreases v@.len() - i,
    {
        let ghost before = out@;
        let cs = text::chars_of(v[i].as_str());
        let mut k: usize = 0;
        assert(before + cs@.take(0).map_values(|c: char| (c as u32 + 1) as u32) =~= before);
        while k < cs.len()
            invariant
                k <= cs@.len(),
                out@ == before + cs@.take(k as int).map_values(|c: char| (c as u32 + 1) as u32),
            decreases cs@.len() - k,
        {
            let n: u32 = cs[k] as u32;
            proof {
                lemma_char_bound(cs@[k as int]);
                assert(cs@.take(k + 1).map_values(|c: char| (c as u32 + 1) as u32)
                    =~= cs@.take(k as int).map_values(|c: char| (c as u32 + 1) as u32).push(
                    (cs@[k as int] as u32 + 1) as u32,
                ));
            }
            out.push(n + 1);
            k = k + 1;
        }
        out.push(0);
        proof {
            assert(cs@.take(k as int) =~= cs@);
            assert(tv.take(i + 1).drop_last() =~= tv.take(i as int));
            assert(tv.take(i + 1).last() == cs@);
            assert(out@ =~= list_key(tv.take(i + 1)));
        }
        i = i + 1;
    }
    assert(tv.take(i as int) =~= tv);
    out
}

/// The first place where two keys differ decides which comes first; a key that ends
/// there comes first.
pub proof fn the_first_difference_decides(a: Seq<u32>, b: Seq<u32>, k: int)
    requires
        0 <= k <= a.len(),
        k <= b.len(),
        forall|i: int| 0 <= i < k ==> a[i] == b[i],
    ensures
        k == a.len() ==> lex_le(a, b),
        k < a.len() && k == b.len() ==> !lex_le(a, b),
        k < a.len() && k < b.len() && a[k] < b[k] ==> lex_le(a, b),
        k < a.len() && k < b.len() && a[k] > b[k] ==> !lex_le(a, b),
    decreases k,
{
    if k > 0 {
        assert(a[0] == b[0]);
        let (c, d) = (a.drop_first(), b.drop_first());
        assert forall|i: int| 0 <= i < k - 1 implies c[i] == d[i] by {
            assert(a[i + 1] == b[i + 1]);
        }
        the_first_difference_decides(c, d, k - 1);
        if k < a.len() {
            assert(c[k - 1] == a[k]);
        }
        if k < b.len() {
            assert(d[k - 1] == b[k]);
        }
    }
}

/// The places whose keys stand strictly before that of place `m`.
pub open spec fn places_below(keys: Seq<Seq<u32>>, m: int) -> Set<int> {
    Set::new(|i: int| 0 <= i < keys.len() && !lex_le(keys[m], keys[i]))
}

/// The places whose keys stand strictly behind that of place `m`.
pub open spec fn places_above(keys: Seq<Seq<u32>>, m: int) -> Set<int> {
    Set::new(|i: int| 0 <= i < keys.len() && !lex_le(keys[i], keys[m]))
}

/// What stands at place `at` of the sorted list has at most `at` entries strictly
/// before it, and at most as many strictly behind it as follow that place.
pub proof fn sorted_places_part_the_list(keys: Seq<Seq<u32>>, idx: Seq<usize>, at: int)
    requires
        stable_order(keys, idx),
        0 <= at < keys.len() <= usize::MAX,
    ensures
        places_below(keys, idx[at] as int).finite(),
        places_below(keys, idx[at] as int).len() <= at,
        places_above(keys, idx[at] as int).finite(),
        places_above(keys, idx[at] as int).len() <= keys.len() - 1 - at,
{
    let m = idx[at] as int;
    let below = places_below(keys, m);
    let above = places_above(keys, m);
    let first = idx.take(at).map_values(|i: usize| i as int);
    let last = idx.skip(at + 1).map_values(|i: usize| i as int);
    lemma_stable_order_onto(keys, idx);
    assert forall|i: int| below.contains(i) implies first.to_set().contains(i) by {
        assert(idx.contains(i as usize));
        let j = idx.index_of(i as usize);
        assert(idx[j] == i);
        if j > at {
            assert(comes_before(keys, idx[at] as int, idx[j] as int));
        } else if j == at {
            lemma_lex_reflexive(keys[m]);
        } else {
            assert(first[j] == i);
        }
    }
    assert forall|i: int| above.contains(i) implies last.to_set().contains(i) by {
        assert(idx.contains(i as usize));
        let j = idx.index_of(i as usize);
        assert(idx[j] == i);
        if j < at {
            assert(comes_before(keys, idx[j] as int, idx[at] as int));
        } else if j == at {
            lemma_lex_reflexive(keys[m]);
        } else {
            assert(last[j - at - 1] == i);
        }
    }
    vstd::seq_lib::seq_to_set_is_finite(first);
    vstd::seq_lib::seq_to_set_is_finite(last);
    first.lemma_cardinality_of_set();
    last.lemma_cardinality_of_set();
    vstd::set_lib::lemma_len_subset(below, first.to_set());
    vstd::set_lib::lemma_len_subset(above, last.to_set());
}

/// A list of texts comes before those that it begins.
pub proof fn lists_come_before_those_they_begin(a: Seq<Seq<char>>, b: Seq<Seq<char>>)
    ensures
        lex_le(list_key(a), list_key(a + b)),
    decreases b.len(),
{
    lemma_key_begins(a, b);
    let (x, y) = (list_key(a), list_key(a + b));
    the_first_difference_decides(x, y, x.len() as int);
}

proof fn lemma_key_begins(a: Seq<Seq<char>>, b: Seq<Seq<char>>)
    ensures
        list_key(a).len() <= list_key(a + b).len(),
        forall|i: int| 0 <= i < list_key(a).len() ==> list_key(a)[i] == list_key(a + b)[i],
    decreases b.len(),
{
    if b.len() == 0 {
        assert(a + b =~= a);
    } else {
        lemma_key_begins(a, b.drop_last());
        assert((a + b).drop_last() =~= a + b.drop_last());
    }
}

/// Sorting keeps the texts, each as often as it was there.
pub proof fn sorting_keeps_the_texts(a: Seq<Seq<char>>)
    requires
        a.len() <= usize::MAX,
    ensures
        in_order(a, order_of(a.map_values(|s: Seq<char>| text_key(s)))).to_multiset()
            == a.to_multiset(),
{
    lemma_sorted_result(a);
}

} // verus!
