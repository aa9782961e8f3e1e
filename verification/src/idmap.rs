//! A map from string identifiers to values that remembers insertion order.
//!
//! Identifiers are compared by their characters. Each identifier occurs at
//! most once; inserting an identifier that is already present replaces its
//! value in place, so the order of entries is the order in which identifiers
//! were first inserted.

use vstd::prelude::*;

verus! {

/// Whether no identifier occurs twice in `s`.
pub open spec fn distinct_keys<W>(s: Seq<(Seq<char>, W)>) -> bool {
    forall|i: int, j: int| 0 <= i < j < s.len() ==> s[i].0 != s[j].0
}

/// Whether `k` occurs as an identifier in `s`.
pub open spec fn has_key<W>(s: Seq<(Seq<char>, W)>, k: Seq<char>) -> bool {
    exists|i: int| 0 <= i < s.len() && s[i].0 == k
}

/// The position of identifier `k` in `s` (meaningful when `has_key(s, k)`).
pub open spec fn index_of<W>(s: Seq<(Seq<char>, W)>, k: Seq<char>) -> int {
    choose|i: int| 0 <= i < s.len() && s[i].0 == k
}

/// The value stored under `k`, if any.
pub open spec fn lookup<W>(s: Seq<(Seq<char>, W)>, k: Seq<char>) -> Option<W> {
    if has_key(s, k) {
        Some(s[index_of(s, k)].1)
    } else {
        None
    }
}

/// `s` after storing `v` under `k`: replaced in place, or appended when new.
pub open spec fn put<W>(s: Seq<(Seq<char>, W)>, k: Seq<char>, v: W) -> Seq<(Seq<char>, W)> {
    if has_key(s, k) {
        s.update(index_of(s, k), (k, v))
    } else {
        s.push((k, v))
    }
}

/// `s` without the entry for `k`, the other entries keeping their order.
pub open spec fn drop_key<W>(s: Seq<(Seq<char>, W)>, k: Seq<char>) -> Seq<(Seq<char>, W)> {
    if has_key(s, k) {
        s.remove(index_of(s, k))
    } else {
        s
    }
}

/// The identifiers of `s`, in order.
pub open spec fn keys_of<W>(s: Seq<(Seq<char>, W)>) -> Seq<Seq<char>> {
    s.map_values(|e: (Seq<char>, W)| e.0)
}

/// In a sequence without repeated identifiers, the position of a present
/// identifier is the one position that holds it.
pub proof fn lemma_index_of_unique<W>(s: Seq<(Seq<char>, W)>, i: int)
    requires
        distinct_keys(s),
        0 <= i < s.len(),
    ensures
        has_key(s, s[i].0),
        index_of(s, s[i].0) == i,
{
    let k = s[i].0;
    assert(has_key(s, k));
    let j = index_of(s, k);
    assert(0 <= j < s.len() && s[j].0 == k);
}

/// A value found under an identifier is the value of some entry.
pub proof fn lemma_lookup_in<W>(s: Seq<(Seq<char>, W)>, k: Seq<char>)
    ensures
        lookup(s, k) matches Some(v) ==> exists|i: int| 0 <= i < s.len() && s[i] == (k, v),
{
    if has_key(s, k) {
        let i = index_of(s, k);
        assert(0 <= i < s.len() && s[i] == (k, s[i].1));
    }
}

/// Storing a value keeps identifiers distinct.
pub proof fn lemma_put_distinct<W>(s: Seq<(Seq<char>, W)>, k: Seq<char>, v: W)
    requires
        distinct_keys(s),
    ensures
        distinct_keys(put(s, k, v)),
        has_key(put(s, k, v), k),
        lookup(put(s, k, v), k) == Some(v),
        forall|k2: Seq<char>| k2 != k ==> lookup(#[trigger] put(s, k, v), k2) == lookup(s, k2),
        forall|k2: Seq<char>| #[trigger] has_key(put(s, k, v), k2) <==> (has_key(s, k2) || k2 == k),
{
    let r = put(s, k, v);
    let p = if has_key(s, k) { index_of(s, k) } else { s.len() as int };
    if has_key(s, k) {
        assert(0 <= p < s.len() && s[p].0 == k);
    }
    assert(r.len() == if has_key(s, k) { s.len() } else { s.len() + 1 });
    assert(r[p] == (k, v));
    assert forall|i: int| 0 <= i < r.len() && i != p implies #[trigger] r[i] == s[i] && s[i].0 != k by {
    }
    assert(distinct_keys(r));
    lemma_index_of_unique(r, p);
    assert forall|k2: Seq<char>| k2 != k implies lookup(#[trigger] put(s, k, v), k2) == lookup(s, k2) by {
        if has_key(s, k2) {
            let q = index_of(s, k2);
            assert(r[q] == s[q]);
            lemma_index_of_unique(r, q);
        }
        if has_key(r, k2) {
            let q = index_of(r, k2);
            assert(q != p);
            assert(s[q].0 == k2);
        }
    }
    assert forall|k2: Seq<char>| #[trigger] has_key(put(s, k, v), k2) <==> (has_key(s, k2) || k2 == k) by {
        if has_key(s, k2) && k2 != k {
            let q = index_of(s, k2);
            assert(r[q] == s[q]);
        }
        if has_key(r, k2) && k2 != k {
            let q = index_of(r, k2);
            assert(q != p);
            assert(s[q].0 == k2);
        }
    }
}

/// Removing an identifier keeps identifiers distinct.
pub proof fn lemma_drop_distinct<W>(s: Seq<(Seq<char>, W)>, k: Seq<char>)
    requires
        distinct_keys(s),
    ensures
        distinct_keys(drop_key(s, k)),
        !has_key(drop_key(s, k), k),
        forall|k2: Seq<char>| k2 != k ==> lookup(#[trigger] drop_key(s, k), k2) == lookup(s, k2),
        forall|k2: Seq<char>| #[trigger] has_key(drop_key(s, k), k2) <==> (has_key(s, k2) && k2 != k),
{
    let r = drop_key(s, k);
    if has_key(s, k) {
        let p = index_of(s, k);
        assert(0 <= p < s.len() && s[p].0 == k);
        assert forall|i: int| 0 <= i < r.len() implies #[trigger] r[i].0 != k by {
            if i < p {
                assert(r[i] == s[i]);
            } else {
                assert(r[i] == s[i + 1]);
            }
        }
        assert forall|i: int, j: int| 0 <= i < j < r.len() implies r[i].0 != r[j].0 by {
            let si = if i < p { i } else { i + 1 };
            let sj = if j < p { j } else { j + 1 };
            assert(r[i] == s[si]);
            assert(r[j] == s[sj]);
        }
        assert forall|k2: Seq<char>| #[trigger] has_key(drop_key(s, k), k2) <==> (has_key(s, k2) && k2 != k) by {
            if has_key(r, k2) {
                let q = index_of(r, k2);
                let sq = if q < p { q } else { q + 1 };
                assert(r[q] == s[sq]);
            }
            if has_key(s, k2) && k2 != k {
                let q = index_of(s, k2);
                assert(q != p);
                let rq = if q < p { q } else { q - 1 };
                assert(r[rq] == s[q]);
            }
        }
        assert forall|k2: Seq<char>| k2 != k implies lookup(#[trigger] drop_key(s, k), k2) == lookup(s, k2) by {
            if has_key(s, k2) {
                let q = index_of(s, k2);
                let rq = if q < p { q } else { q - 1 };
                assert(r[rq] == s[q]);
                lemma_index_of_unique(r, rq);
            }
        }
    }
}

/// A map from identifiers to values; see the module documentation.
#[derive(Debug)]
pub struct IdMap<V: DeepView> {
    entries: Vec<(String, V)>,
}

impl<V: DeepView> View for IdMap<V> {
    type V = Seq<(Seq<char>, V::V)>;

    closed spec fn view(&self) -> Seq<(Seq<char>, V::V)> {
        entries_view(self.entries@)
    }
}

/// The view of a sequence of stored entries.
pub open spec fn entries_view<V: DeepView>(e: Seq<(String, V)>) -> Seq<(Seq<char>, V::V)> {
    e.map_values(|x: (String, V)| (x.0@, x.1.deep_view()))
}

impl<V: DeepView> IdMap<V> {
    #[verifier::type_invariant]
    closed spec fn keys_are_distinct(&self) -> bool {
        distinct_keys(self@)
    }

    /// The entries, each identifier with its value, in order.
    pub closed spec fn entries_seq(&self) -> Seq<(String, V)> {
        self.entries@
    }

    /// An empty map.
    pub fn new() -> (m: Self)
        ensures
            m@ == Seq::<(Seq<char>, V::V)>::empty(),
    {
        let m = IdMap { entries: Vec::new() };
        assert(m@ =~= Seq::<(Seq<char>, V::V)>::empty());
        m
    }

    /// Number of entries.
    pub fn len(&self) -> (n: usize)
        ensures
            n == self@.len(),
    {
        self.entries.len()
    }

    /// Whether there are no entries.
    pub fn is_empty(&self) -> (b: bool)
        ensures
            b == (self@.len() == 0),
    {
        self.entries.len() == 0
    }

    /// Identifiers never repeat.
    pub fn keys_distinct(&self)
        ensures
            distinct_keys(self@),
    {
        proof {
            use_type_invariant(self);
        }
    }

    /// The position of `key`, if present.
    pub fn position(&self, key: &String) -> (r: Option<usize>)
        ensures
            match r {
                Some(i) => i < self@.len() && has_key(self@, key@) && index_of(self@, key@) == i
                    && self@[i as int].0 == key@,
                None => !has_key(self@, key@),
            },
    {
        proof {
            use_type_invariant(self);
        }
        let mut i: usize = 0;
        while i < self.entries.len()
            invariant
                i <= self.entries@.len(),
                self@.len() == self.entries@.len(),
                distinct_keys(self@),
                forall|j: int| 0 <= j < i ==> #[trigger] self@[j].0 != key@,
            decreases self.entries@.len() - i,
        {
            if self.entries[i].0 == *key {
                proof {
                    assert(self@[i as int].0 == key@);
                    lemma_index_of_unique(self@, i as int);
                }
                return Some(i);
            }
            i = i + 1;
        }
        proof {
            if has_key(self@, key@) {
                let j = index_of(self@, key@);
                assert(self@[j].0 == key@);
            }
        }
        None
    }

    /// The identifier at position `i`.
    pub fn key_at(&self, i: usize) -> (k: &String)
        requires
            i < self@.len(),
        ensures
            k@ == self@[i as int].0,
            *k == self.entries_seq()[i as int].0,
    {
        &self.entries[i].0
    }

    /// The value at position `i`.
    pub fn value_at(&self, i: usize) -> (v: &V)
        requires
            i < self@.len(),
        ensures
            v.deep_view() == self@[i as int].1,
            *v == self.entries_seq()[i as int].1,
    {
        &self.entries[i].1
    }

    /// Whether `key` is present.
    pub fn contains_key(&self, key: &str) -> (b: bool)
        ensures
            b == has_key(self@, key@),
    {
        let k = key.to_owned();
        self.position(&k).is_some()
    }

    /// The value stored under `key`, if any.
    pub fn get(&self, key: &str) -> (r: Option<&V>)
        ensures
            match r {
                Some(v) => lookup(self@, key@) == Some(v.deep_view()),
                None => lookup(self@, key@) is None,
            },
    {
        let k = key.to_owned();
        match self.position(&k) {
            Some(i) => Some(&self.entries[i].1),
            None => None,
        }
    }

    /// Store `value` under `key`, returning the value it replaces, if any.
    pub fn insert(&mut self, key: String, value: V) -> (old_value: Option<V>)
        ensures
            final(self)@ == put(old(self)@, key@, value.deep_view()),
            match old_value {
                Some(v) => lookup(old(self)@, key@) == Some(v.deep_view()),
                None => !has_key(old(self)@, key@),
            },
    {
        proof {
            use_type_invariant(&*self);
        }
        let ghost kv = key@;
        let ghost vv = value.deep_view();
        match self.position(&key) {
            Some(i) => {
                let ghost before = self@;
                proof {
                    lemma_put_distinct(before, kv, vv);
                }
                let mut entries: Vec<(String, V)> = Vec::new();
                std::mem::swap(&mut entries, &mut self.entries);
                let replaced = entries.remove(i);
                entries.insert(i, (key, value));
                assert(entries_view(entries@) =~= put(before, kv, vv));
                self.entries = entries;
                Some(replaced.1)
            },
            None => {
                let ghost before = self@;
                proof {
                    lemma_put_distinct(before, kv, vv);
                }
                let mut entries: Vec<(String, V)> = Vec::new();
                std::mem::swap(&mut entries, &mut self.entries);
                entries.push((key, value));
                assert(entries_view(entries@) =~= put(before, kv, vv));
                self.entries = entries;
                None
            },
        }
    }

    /// Remove the entry for `key`, returning its value, if any.
    pub fn remove(&mut self, key: &str) -> (old_value: Option<V>)
        ensures
            final(self)@ == drop_key(old(self)@, key@),
            match old_value {
                Some(v) => lookup(old(self)@, key@) == Some(v.deep_view()),
                None => !has_key(old(self)@, key@),
            },
    {
        proof {
            use_type_invariant(&*self);
        }
        let k = key.to_owned();
        match self.position(&k) {
            Some(i) => {
                let ghost before = self@;
                proof {
                    lemma_drop_distinct(before, k@);
                }
                let mut entries: Vec<(String, V)> = Vec::new();
                std::mem::swap(&mut entries, &mut self.entries);
                let removed = entries.remove(i);
                assert(entries_view(entries@) =~= drop_key(before, k@));
                self.entries = entries;
                Some(removed.1)
            },
            None => None,
        }
    }
}

} // verus!
