//! A map keyed by text.

use crate::text;
use vstd::prelude::*;

verus! {

/// Values under different texts, in the order in which the texts first came.
#[derive(Debug)]
pub struct TextMap<V> {
    pub keys: Vec<String>,
    pub values: Vec<V>,
}

impl<V> View for TextMap<V> {
    type V = Map<Seq<char>, V>;

    open spec fn view(&self) -> Map<Seq<char>, V> {
        Map::new(
            |k: Seq<char>| text::texts(self.keys@).contains(k),
            |k: Seq<char>| self.values@[text::texts(self.keys@).index_of(k)],
        )
    }
}

impl<V> TextMap<V> {
    /// One value per key, and no key twice.
    pub open spec fn wf(&self) -> bool {
        &&& self.keys@.len() == self.values@.len()
        &&& text::texts(self.keys@).no_duplicates()
    }

    proof fn lemma_entry(&self, i: int)
        requires
            self.wf(),
            0 <= i < self.keys@.len(),
        ensures
            self@.dom().contains(self.keys@[i]@),
            self@[self.keys@[i]@] == self.values@[i],
    {
        let t = text::texts(self.keys@);
        assert(t[i] == self.keys@[i]@);
        assert(t.contains(t[i]));
        assert(t.index_of(t[i]) == i);
    }

    /// The empty map.
    pub fn new() -> (r: Self)
        ensures
            r.wf(),
            r@ == Map::<Seq<char>, V>::empty(),
            r.keys@.len() == 0,
    {
        let r = TextMap { keys: Vec::new(), values: Vec::new() };
        assert(text::texts(r.keys@) =~= Seq::empty());
        assert(r@ =~= Map::<Seq<char>, V>::empty());
        r
    }

    fn place(&self, key: &str) -> (r: Option<usize>)
        requires
            self.wf(),
        ensures
            r is None ==> !text::texts(self.keys@).contains(key@),
            r matches Some(i) ==> i < self.keys@.len() && self.keys@[i as int]@ == key@,
    {
        let mut i: usize = 0;
        while i < self.keys.len()
            invariant
                i <= self.keys@.len(),
                forall|k: int| 0 <= k < i ==> (#[trigger] self.keys@[k])@ != key@,
            decreases self.keys@.len() - i,
        {
            if text::same_text(self.keys[i].as_str(), key) {
                return Some(i);
            }
            i = i + 1;
        }
        assert(!text::texts(self.keys@).contains(key@)) by {
            if text::texts(self.keys@).contains(key@) {
                let k = choose|k: int|
                    0 <= k < text::texts(self.keys@).len() && text::texts(self.keys@)[k] == key@;
                assert(self.keys@[k]@ == key@);
            }
        }
        None
    }

    /// The value under `key`.
    pub fn get(&self, key: &str) -> (r: Option<&V>)
        requires
            self.wf(),
        ensures
            r is Some == self@.dom().contains(key@),
            r matches Some(v) ==> *v == self@[key@],
    {
        match self.place(key) {
            Some(i) => {
                proof {
                    self.lemma_entry(i as int);
                }
                Some(&self.values[i])
            },
            None => None,
        }
    }

    /// Whether there is a value under `key`.
    pub fn has_key(&self, key: &str) -> (r: bool)
        requires
            self.wf(),
        ensures
            r == self@.dom().contains(key@),
    {
        match self.place(key) {
            Some(i) => {
                proof {
                    self.lemma_entry(i as int);
                }
                true
            },
            None => false,
        }
    }

    /// Puts `value` under `key`, in place of what was there.
    pub fn insert(&mut self, key: String, value: V)
        requires
            old(self).wf(),
        ensures
            final(self).wf(),
            final(self)@ == old(self)@.insert(key@, value),
            final(self).keys@.len() == old(self).keys@.len() + if old(self)@.dom().contains(key@) {
                0int
            } else {
                1int
            },
    {
        match self.place(key.as_str()) {
            Some(i) => {
                proof {
                    self.lemma_entry(i as int);
                }
                self.values.set(i, value);
                proof {
                    let t = text::texts(self.keys@);
                    assert(self@ =~= old(self)@.insert(key@, value)) by {
                        assert forall|k: Seq<char>| t.contains(k) && k != key@ implies t.index_of(k)
                            != i by {}
                        assert(t[i as int] == key@);
                        assert(t.index_of(key@) == i);
                    }
                }
            },
            None => {
                self.keys.push(key);
                self.values.push(value);
                proof {
                    let s = text::texts(old(self).keys@);
                    let t = text::texts(self.keys@);
                    assert(t =~= s.push(key@));
                    assert(t.no_duplicates()) by {
                        assert forall|a: int, b: int|
                            0 <= a < t.len() && 0 <= b < t.len() && a != b implies t[a] != t[b] by {
                            if a == s.len() {
                                assert(s[b] == t[b]);
                                assert(s.contains(s[b]));
                            } else if b == s.len() {
                                assert(s[a] == t[a]);
                                assert(s.contains(s[a]));
                            } else {
                                assert(s[a] == t[a] && s[b] == t[b]);
                            }
                        }
                    }
                    assert(self@ =~= old(self)@.insert(key@, value)) by {
                        assert forall|k: Seq<char>| s.contains(k) implies t.contains(k)
                            && t.index_of(k) == s.index_of(k) by {
                            let i = s.index_of(k);
                            assert(s[i] == k);
                            assert(t[i] == k);
                            assert(t.contains(k));
                        }
                        assert(t[s.len() as int] == key@);
                        assert(t.contains(key@));
                        assert(t.index_of(key@) == s.len());
                        assert forall|k: Seq<char>| t.contains(k) && k != key@ implies s.contains(
                            k,
                        ) by {
                            let i = t.index_of(k);
                            assert(t[i] == k);
                            assert(s[i] == k);
                        }
                    }
                }
            },
        }
    }

    /// How many keys there are.
    pub fn len(&self) -> (r: usize)
        requires
            self.wf(),
        ensures
            r == self.keys@.len(),
            r == self@.dom().len(),
            self@.dom().finite(),
    {
        proof {
            let t = text::texts(self.keys@);
            t.unique_seq_to_set();
            assert(self@.dom() =~= t.to_set());
        }
        self.keys.len()
    }
}

} // verus!
