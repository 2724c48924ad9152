//! A small map from text keys to values that remembers the order in which
//! keys first arrived.

use vstd::prelude::*;
use vstd::string::*;

use crate::seqs::{lemma_first_found, lemma_first_is, lemma_first_none};
use crate::text::str_eq;

verus! {

/// The condition of having a key.
pub open spec fn keyed<T>(k: Seq<char>) -> spec_fn((Seq<char>, T)) -> bool {
    |e: (Seq<char>, T)| e.0 == k
}

/// The position of a key among entries.
pub open spec fn key_index<T>(s: Seq<(Seq<char>, T)>, k: Seq<char>) -> Option<int> {
    crate::seqs::first_where(s, keyed(k))
}

/// Some entry has this key.
pub open spec fn has_key<T>(s: Seq<(Seq<char>, T)>, k: Seq<char>) -> bool {
    key_index(s, k) is Some
}

/// The value under a key.
pub open spec fn lookup<T>(s: Seq<(Seq<char>, T)>, k: Seq<char>) -> Option<T> {
    match key_index(s, k) {
        Some(i) => Some(s[i].1),
        None => None,
    }
}

/// The entries after a value was put under a key: in the key's place, or at
/// the end where the key is new.
pub open spec fn put<T>(s: Seq<(Seq<char>, T)>, k: Seq<char>, v: T) -> Seq<(Seq<char>, T)> {
    match key_index(s, k) {
        Some(i) => s.update(i, (k, v)),
        None => s.push((k, v)),
    }
}

/// No key occurs twice.
pub open spec fn keys_unique<T>(s: Seq<(Seq<char>, T)>) -> bool {
    forall|i: int, j: int| 0 <= i < j < s.len() ==> (#[trigger] s[i]).0 != (#[trigger] s[j]).0
}

/// What a position found says.
pub proof fn lemma_key_index<T>(s: Seq<(Seq<char>, T)>, k: Seq<char>)
    ensures
        match key_index(s, k) {
            Some(i) => 0 <= i < s.len() && s[i].0 == k,
            None => forall|j: int| 0 <= j < s.len() ==> (#[trigger] s[j]).0 != k,
        },
{
    let p = keyed::<T>(k);
    lemma_first_found(s, p);
    if key_index(s, k) is None {
        assert forall|j: int| 0 <= j < s.len() implies (#[trigger] s[j]).0 != k by {
            assert(!p(s[j]));
        }
    }
}

/// Where keys are unique, an entry is found under its key.
pub proof fn lemma_lookup_entry<T>(s: Seq<(Seq<char>, T)>, i: int)
    requires
        keys_unique(s),
        0 <= i < s.len(),
    ensures
        key_index(s, s[i].0) == Some(i),
        lookup(s, s[i].0) == Some(s[i].1),
{
    let p = keyed::<T>(s[i].0);
    assert(crate::seqs::is_first(s, p, i));
    lemma_first_is(s, p, i);
}

/// Putting a value keeps keys unique, makes the key readable with that value
/// and leaves every other key as it was.
pub proof fn lemma_put<T>(s: Seq<(Seq<char>, T)>, k: Seq<char>, v: T)
    requires
        keys_unique(s),
    ensures
        keys_unique(put(s, k, v)),
        lookup(put(s, k, v), k) == Some(v),
        forall|other: Seq<char>|
            other != k ==> #[trigger] lookup(put(s, k, v), other) == lookup(s, other),
{
    lemma_key_index(s, k);
    let t = put(s, k, v);
    let at: int = match key_index(s, k) {
        Some(i) => i,
        None => s.len() as int,
    };
    assert(t[at] == (k, v));
    assert(keys_unique(t));
    lemma_lookup_entry(t, at);
    assert forall|other: Seq<char>| other != k implies #[trigger] lookup(t, other) == lookup(
        s,
        other,
    ) by {
        lemma_key_index(s, other);
        match key_index(s, other) {
            Some(j) => {
                assert(t[j] == s[j]);
                lemma_lookup_entry(t, j);
            },
            None => {
                assert forall|j: int| 0 <= j < t.len() implies (#[trigger] t[j]).0 != other by {
                    if j < s.len() && j != at {
                        assert(t[j] == s[j]);
                    }
                }
                let p = keyed::<T>(other);
                assert(forall|j: int| 0 <= j < t.len() ==> !p(#[trigger] t[j]));
                lemma_first_none(t, p);
            },
        }
    }
}

/// A map from text keys to values.
pub struct KeyMap<V> {
    pub entries: Vec<(String, V)>,
}

impl<V: DeepView> DeepView for KeyMap<V> {
    type V = Seq<(Seq<char>, V::V)>;

    open spec fn deep_view(&self) -> Seq<(Seq<char>, V::V)> {
        self.entries.deep_view()
    }
}

impl<V: DeepView> KeyMap<V> {
    /// A map with no entry.
    pub fn new() -> (r: KeyMap<V>)
        ensures
            r.deep_view() == Seq::<(Seq<char>, V::V)>::empty(),
            keys_unique(r.deep_view()),
    {
        KeyMap { entries: Vec::new() }
    }

    /// How many keys there are.
    pub fn len(&self) -> (r: usize)
        ensures
            r == self.deep_view().len(),
    {
        self.entries.len()
    }

    /// The place of a key.
    pub fn position(&self, key: &str) -> (r: Option<usize>)
        ensures
            match r {
                Some(i) => i < self.entries@.len() && key_index(self.deep_view(), key@) == Some(
                    i as int,
                ),
                None => key_index(self.deep_view(), key@) is None,
            },
    {
        let ghost all = self.deep_view();
        let ghost p = keyed::<V::V>(key@);
        let mut i: usize = 0;
        while i < self.entries.len()
            invariant
                i <= self.entries.len(),
                all == self.deep_view(),
                p == keyed::<V::V>(key@),
                forall|j: int| 0 <= j < i ==> !p(#[trigger] all[j]),
            decreases self.entries.len() - i,
        {
            assert(all[i as int].0 == self.entries@[i as int].0@);
            if str_eq(self.entries[i].0.as_str(), key) {
                proof {
                    assert(crate::seqs::is_first(all, p, i as int));
                    lemma_first_is(all, p, i as int);
                }
                return Some(i);
            }
            i = i + 1;
        }
        proof {
            lemma_first_none(all, p);
        }
        None
    }

    /// The value under a key.
    pub fn get(&self, key: &str) -> (r: Option<&V>)
        ensures
            r.deep_view() == lookup(self.deep_view(), key@),
    {
        match self.position(key) {
            Some(i) => Some(&self.entries[i].1),
            None => None,
        }
    }

    /// Whether a key is there.
    pub fn contains_key(&self, key: &str) -> (r: bool)
        ensures
            r == has_key(self.deep_view(), key@),
    {
        self.position(key).is_some()
    }

    /// Put a value under a key: in the key's place, or at the end where the
    /// key is new.
    pub fn insert(&mut self, key: String, value: V)
        ensures
            final(self).deep_view() == put(old(self).deep_view(), key@, value.deep_view()),
            keys_unique(old(self).deep_view()) ==> keys_unique(final(self).deep_view()),
    {
        let ghost before = self.deep_view();
        let ghost k = key@;
        let ghost v = value.deep_view();
        match self.position(key.as_str()) {
            Some(i) => {
                self.entries.set(i, (key, value));
                assert(self.deep_view() == before.update(i as int, (k, v)));
            },
            None => {
                self.entries.push((key, value));
                assert(self.deep_view() == before.push((k, v)));
            },
        }
        proof {
            if keys_unique(before) {
                lemma_put(before, k, v);
            }
        }
    }
}

} // verus!
