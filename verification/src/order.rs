//! Stable ordering of positions by integer keys.

use vstd::prelude::*;

verus! {

/// `sorted` with `x` placed after every element whose key is at most the key
/// of `x` and before the elements after them.
pub open spec fn insert_by_key<T>(sorted: Seq<T>, x: T, key: spec_fn(T) -> int) -> Seq<T>
    decreases sorted.len(),
{
    if sorted.len() == 0 {
        seq![x]
    } else if key(sorted.last()) <= key(x) {
        sorted.push(x)
    } else {
        insert_by_key(sorted.drop_last(), x, key).push(sorted.last())
    }
}

/// `s` sorted by ascending key; elements of equal key keep their order.
pub open spec fn sort_by_key<T>(s: Seq<T>, key: spec_fn(T) -> int) -> Seq<T>
    decreases s.len(),
{
    if s.len() == 0 {
        seq![]
    } else {
        insert_by_key(sort_by_key(s.drop_last(), key), s.last(), key)
    }
}

/// The positions `0..n`.
pub open spec fn positions(n: nat) -> Seq<usize> {
    Seq::new(n, |i: int| i as usize)
}

/// The key of a position: the number at that position of `keys`.
pub open spec fn key_at(keys: Seq<u64>) -> spec_fn(usize) -> int {
    |i: usize| keys[i as int] as int
}

/// The positions of `keys`, ordered by ascending key, equal keys in position order.
pub open spec fn stable_order_of(keys: Seq<u64>) -> Seq<usize> {
    sort_by_key(positions(keys.len()), key_at(keys))
}

proof fn lemma_insert_split<T>(t: Seq<T>, x: T, key: spec_fn(T) -> int, q: int)
    requires
        0 <= q <= t.len(),
        forall|j: int| q <= j < t.len() ==> key(#[trigger] t[j]) > key(x),
    ensures
        insert_by_key(t, x, key) == insert_by_key(t.take(q), x, key) + t.skip(q),
    decreases t.len() - q,
{
    if q == t.len() {
        assert(t.take(q) =~= t);
        assert(t.skip(q) =~= Seq::<T>::empty());
        assert(insert_by_key(t.take(q), x, key) + t.skip(q) =~= insert_by_key(t.take(q), x, key));
    } else {
        let d = t.drop_last();
        assert(key(t[t.len() - 1]) > key(x));
        lemma_insert_split(d, x, key, q);
        assert(d.take(q) =~= t.take(q));
        assert(d.skip(q).push(t.last()) =~= t.skip(q));
        assert(insert_by_key(t, x, key) == insert_by_key(d, x, key).push(t.last()));
        assert((insert_by_key(d.take(q), x, key) + d.skip(q)).push(t.last()) =~= insert_by_key(d.take(q), x, key) + d.skip(q).push(t.last()));
    }
}

/// The positions of `keys` in ascending order of key, equal keys in order of
/// position.
pub fn stable_order(keys: &Vec<u64>) -> (perm: Vec<usize>)
    ensures
        perm@ == stable_order_of(keys@),
        perm@.len() == keys@.len(),
{
    let ghost key = key_at(keys@);
    let ghost all = positions(keys@.len());
    let n = keys.len();
    let mut r: Vec<usize> = Vec::new();
    let mut i: usize = 0;
    while i < n
        invariant
            n == keys@.len(),
            key == key_at(keys@),
            all == positions(keys@.len()),
            i <= n,
            r@ == sort_by_key(all.take(i as int), key),
            r@.len() == i,
            forall|j: int| 0 <= j < r@.len() ==> #[trigger] r@[j] < n,
        decreases n - i,
    {
        let ghost t = r@;
        let mut p: usize = r.len();
        while p > 0 && keys[r[p - 1]] > keys[i]
            invariant
                n == keys@.len(),
                key == key_at(keys@),
                t == r@,
                i < n,
                p <= r@.len(),
                forall|j: int| 0 <= j < r@.len() ==> #[trigger] r@[j] < n,
                forall|j: int| p <= j < r@.len() ==> key(#[trigger] r@[j]) > key(i),
            decreases p,
        {
            p = p - 1;
        }
        proof {
            lemma_insert_split(t, i, key, p as int);
            if p > 0 {
                assert(key(t[p - 1]) <= key(i));
                assert(t.take(p as int).last() == t[p - 1]);
                assert(insert_by_key(t.take(p as int), i, key) == t.take(p as int).push(i));
            } else {
                assert(t.take(0) =~= Seq::<usize>::empty());
            }
            assert(all.take(i + 1).drop_last() =~= all.take(i as int));
            assert(all.take(i + 1).last() == i);
        }
        r.insert(p, i);
        assert(r@ =~= insert_by_key(t.take(p as int), i, key) + t.skip(p as int));
        i = i + 1;
    }
    assert(all.take(n as int) =~= all);
    r
}

} // verus!

verus! {

proof fn lemma_insert_all<T>(t: Seq<T>, x: T, key: spec_fn(T) -> int, p: spec_fn(T) -> bool)
    requires
        forall|i: int| 0 <= i < t.len() ==> p(#[trigger] t[i]),
        p(x),
    ensures
        insert_by_key(t, x, key).len() == t.len() + 1,
        forall|i: int| 0 <= i < insert_by_key(t, x, key).len() ==> p(#[trigger] insert_by_key(t, x, key)[i]),
    decreases t.len(),
{
    if t.len() > 0 && key(t.last()) > key(x) {
        let d = t.drop_last();
        assert forall|i: int| 0 <= i < d.len() implies p(#[trigger] d[i]) by {
            assert(d[i] == t[i]);
        }
        lemma_insert_all(d, x, key, p);
        let r = insert_by_key(t, x, key);
        let r0 = insert_by_key(d, x, key);
        assert forall|i: int| 0 <= i < r.len() implies p(#[trigger] r[i]) by {
            if i < r0.len() {
                assert(r[i] == r0[i]);
            } else {
                assert(r[i] == t[t.len() - 1]);
            }
        }
    } else if t.len() > 0 {
        let r = insert_by_key(t, x, key);
        assert forall|i: int| 0 <= i < r.len() implies p(#[trigger] r[i]) by {
            if i < t.len() {
                assert(r[i] == t[i]);
            }
        }
    }
}

proof fn lemma_sort_all<T>(s: Seq<T>, key: spec_fn(T) -> int, p: spec_fn(T) -> bool)
    requires
        forall|i: int| 0 <= i < s.len() ==> p(#[trigger] s[i]),
    ensures
        sort_by_key(s, key).len() == s.len(),
        forall|i: int| 0 <= i < sort_by_key(s, key).len() ==> p(#[trigger] sort_by_key(s, key)[i]),
    decreases s.len(),
{
    if s.len() > 0 {
        let d = s.drop_last();
        assert forall|i: int| 0 <= i < d.len() implies p(#[trigger] d[i]) by {
            assert(d[i] == s[i]);
        }
        lemma_sort_all(d, key, p);
        assert(p(s[s.len() - 1]));
        lemma_insert_all(sort_by_key(d, key), s.last(), key, p);
    }
}


/// Whether equal keys appear in increasing order of position in `t`.
pub open spec fn stable_in(t: Seq<usize>, key: spec_fn(usize) -> int) -> bool {
    forall|a: int, b: int| 0 <= a < b < t.len() && key(t[a]) == key(t[b]) ==> #[trigger] t[a] < #[trigger] t[b]
}

proof fn lemma_insert_stable(t: Seq<usize>, x: usize, key: spec_fn(usize) -> int)
    requires
        stable_in(t, key),
        forall|q: int| 0 <= q < t.len() ==> #[trigger] t[q] < x,
    ensures
        stable_in(insert_by_key(t, x, key), key),
    decreases t.len(),
{
    let r = insert_by_key(t, x, key);
    if t.len() == 0 {
    } else if key(t.last()) <= key(x) {
        assert forall|a: int, b: int| 0 <= a < b < r.len() && key(r[a]) == key(r[b]) implies #[trigger] r[a] < #[trigger] r[b] by {
            assert(r[a] == t[a]);
            if b < t.len() {
                assert(r[b] == t[b]);
            }
        }
    } else {
        let d = t.drop_last();
        let last = t.last();
        assert forall|a: int, b: int| 0 <= a < b < d.len() && key(d[a]) == key(d[b]) implies #[trigger] d[a] < #[trigger] d[b] by {
            assert(d[a] == t[a] && d[b] == t[b]);
        }
        assert forall|q: int| 0 <= q < d.len() implies #[trigger] d[q] < x by {
            assert(d[q] == t[q]);
        }
        lemma_insert_stable(d, x, key);
        let inner = insert_by_key(d, x, key);
        let p = |y: usize| y == x || (key(y) == key(last) ==> y < last);
        assert forall|q: int| 0 <= q < d.len() implies p(#[trigger] d[q]) by {
            assert(d[q] == t[q]);
            assert(t[t.len() - 1] == last);
            if key(t[q]) == key(last) {
                assert(t[q] < t[t.len() - 1]);
            }
        }
        lemma_insert_all(d, x, key, p);
        assert(r == inner.push(last));
        assert forall|a: int, b: int| 0 <= a < b < r.len() && key(r[a]) == key(r[b]) implies #[trigger] r[a] < #[trigger] r[b] by {
            if b < inner.len() {
                assert(r[a] == inner[a] && r[b] == inner[b]);
            } else {
                assert(r[a] == inner[a]);
                assert(p(inner[a]));
            }
        }
    }
}

proof fn lemma_sort_stable(s: Seq<usize>, key: spec_fn(usize) -> int)
    requires
        forall|a: int, b: int| 0 <= a < b < s.len() ==> #[trigger] s[a] < #[trigger] s[b],
    ensures
        stable_in(sort_by_key(s, key), key),
    decreases s.len(),
{
    if s.len() > 0 {
        let d = s.drop_last();
        assert forall|a: int, b: int| 0 <= a < b < d.len() implies #[trigger] d[a] < #[trigger] d[b] by {
            assert(d[a] == s[a] && d[b] == s[b]);
        }
        lemma_sort_stable(d, key);
        let last = s.last();
        let p = |y: usize| y < last;
        assert forall|q: int| 0 <= q < d.len() implies p(#[trigger] d[q]) by {
            assert(d[q] == s[q]);
            assert(s[q] < s[s.len() - 1]);
        }
        lemma_sort_all(d, key, p);
        let sd = sort_by_key(d, key);
        assert forall|q: int| 0 <= q < sd.len() implies #[trigger] sd[q] < last by {
            assert(p(sd[q]));
        }
        lemma_insert_stable(sd, last, key);
    }
}

/// The stable order keeps positions of equal key in increasing order.
pub proof fn lemma_stable_order_stable(keys: Seq<u64>)
    requires
        keys.len() <= usize::MAX,
    ensures
        forall|a: int, b: int|
            0 <= a < b < stable_order_of(keys).len() && keys[stable_order_of(keys)[a] as int] == keys[stable_order_of(keys)[b] as int]
                ==> #[trigger] stable_order_of(keys)[a] < #[trigger] stable_order_of(keys)[b],
{
    let ps = positions(keys.len());
    assert forall|a: int, b: int| 0 <= a < b < ps.len() implies #[trigger] ps[a] < #[trigger] ps[b] by {}
    lemma_sort_stable(ps, key_at(keys));
    let r = stable_order_of(keys);
    assert forall|a: int, b: int|
        0 <= a < b < r.len() && keys[r[a] as int] == keys[r[b] as int] implies #[trigger] r[a] < #[trigger] r[b] by {
        assert(key_at(keys)(r[a]) == keys[r[a] as int] as int);
        assert(key_at(keys)(r[b]) == keys[r[b] as int] as int);
    }
}

/// Every position in the stable order of `keys` is a position of `keys`.
pub proof fn lemma_stable_order_in_range(keys: Seq<u64>)
    ensures
        stable_order_of(keys).len() == keys.len(),
        forall|q: int| 0 <= q < stable_order_of(keys).len() ==> #[trigger] stable_order_of(keys)[q] < keys.len(),
{
    let s = positions(keys.len());
    let p = |y: usize| y < keys.len();
    assert forall|i: int| 0 <= i < s.len() implies p(#[trigger] s[i]) by {}
    lemma_sort_all(s, key_at(keys), p);
    assert forall|q: int| 0 <= q < stable_order_of(keys).len() implies #[trigger] stable_order_of(keys)[q] < keys.len() by {
        assert(p(stable_order_of(keys)[q]));
    }
}

} // verus!

verus! {

proof fn lemma_insert_multiset<T>(t: Seq<T>, x: T, key: spec_fn(T) -> int)
    ensures
        insert_by_key(t, x, key).to_multiset() =~= t.to_multiset().insert(x),
    decreases t.len(),
{
    broadcast use vstd::seq_lib::group_to_multiset_ensures;

    if t.len() == 0 {
        assert(insert_by_key(t, x, key) == t.push(x));
    } else if key(t.last()) <= key(x) {
    } else {
        let d = t.drop_last();
        lemma_insert_multiset(d, x, key);
        assert(d.push(t.last()) =~= t);
        assert(t.to_multiset() =~= d.to_multiset().insert(t.last()));
    }
}

proof fn lemma_sort_multiset<T>(s: Seq<T>, key: spec_fn(T) -> int)
    ensures
        sort_by_key(s, key).to_multiset() =~= s.to_multiset(),
    decreases s.len(),
{
    broadcast use vstd::seq_lib::group_to_multiset_ensures;

    if s.len() > 0 {
        let d = s.drop_last();
        lemma_sort_multiset(d, key);
        lemma_insert_multiset(sort_by_key(d, key), s.last(), key);
        assert(d.push(s.last()) =~= s);
    }
}

/// The stable order of `keys` lists every position of `keys` exactly once.
pub proof fn lemma_stable_order_permutation(keys: Seq<u64>)
    requires
        keys.len() <= usize::MAX,
    ensures
        stable_order_of(keys).no_duplicates(),
        forall|q: int| 0 <= q < keys.len() ==> #[trigger] stable_order_of(keys).contains(q as usize),
{
    broadcast use vstd::seq_lib::group_to_multiset_ensures;

    let p = positions(keys.len());
    let r = stable_order_of(keys);
    lemma_sort_multiset(p, key_at(keys));
    assert forall|i: int, j: int| 0 <= i < p.len() && 0 <= j < p.len() && i != j implies p[i] != p[j] by {
        assert(p[i] == i as usize && p[j] == j as usize);
    }
    assert(p.no_duplicates());
    p.lemma_multiset_has_no_duplicates();
    assert forall|x: usize| r.to_multiset().contains(x) implies r.to_multiset().count(x) == 1 by {
        assert(r.to_multiset().count(x) == p.to_multiset().count(x));
    }
    r.lemma_multiset_has_no_duplicates_conv();
    assert forall|q: int| 0 <= q < keys.len() implies #[trigger] r.contains(q as usize) by {
        assert(p[q] == q as usize);
        assert(p.contains(q as usize));
        assert(p.to_multiset().count(q as usize) > 0);
        assert(r.to_multiset().count(q as usize) > 0);
    }
}

/// The stable order of `keys` is sorted by key.
pub proof fn lemma_stable_order_sorted(keys: Seq<u64>)
    ensures
        forall|a: int, b: int|
            0 <= a <= b < stable_order_of(keys).len() ==> keys[stable_order_of(keys)[a] as int]
                <= keys[stable_order_of(keys)[b] as int],
{
    lemma_stable_order_in_range(keys);
    lemma_sort_sorted(positions(keys.len()), key_at(keys));
}

proof fn lemma_insert_sorted<T>(t: Seq<T>, x: T, key: spec_fn(T) -> int)
    requires
        forall|a: int, b: int| 0 <= a <= b < t.len() ==> key(t[a]) <= key(t[b]),
    ensures
        forall|a: int, b: int|
            0 <= a <= b < insert_by_key(t, x, key).len() ==> key(insert_by_key(t, x, key)[a]) <= key(
                insert_by_key(t, x, key)[b],
            ),
        insert_by_key(t, x, key).len() == t.len() + 1,
        forall|a: int| 0 <= a < insert_by_key(t, x, key).len() ==> key(#[trigger] insert_by_key(t, x, key)[a]) <= key(x) || (t.len() > 0 && key(insert_by_key(t, x, key)[a]) <= key(t.last())),
    decreases t.len(),
{
    if t.len() > 0 && key(t.last()) > key(x) {
        let d = t.drop_last();
        lemma_insert_sorted(d, x, key);
        let r0 = insert_by_key(d, x, key);
        let r = insert_by_key(t, x, key);
        assert forall|a: int| 0 <= a < r0.len() implies key(r0[a]) <= key(t.last()) by {
            if key(r0[a]) <= key(x) {
            } else {
                assert(d.len() > 0 && key(r0[a]) <= key(d.last()));
                assert(key(d.last()) <= key(t.last()));
            }
        }
        assert forall|a: int, b: int| 0 <= a <= b < r.len() implies key(r[a]) <= key(r[b]) by {
            if b < r0.len() {
                assert(r[a] == r0[a] && r[b] == r0[b]);
            } else if a < r0.len() {
                assert(r[a] == r0[a]);
            }
        }
    }
}

proof fn lemma_sort_sorted<T>(s: Seq<T>, key: spec_fn(T) -> int)
    ensures
        forall|a: int, b: int|
            0 <= a <= b < sort_by_key(s, key).len() ==> key(sort_by_key(s, key)[a]) <= key(sort_by_key(s, key)[b]),
    decreases s.len(),
{
    if s.len() > 0 {
        lemma_sort_sorted(s.drop_last(), key);
        lemma_insert_sorted(sort_by_key(s.drop_last(), key), s.last(), key);
    }
}

} // verus!
