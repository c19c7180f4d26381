//! Association lists: sequences of key/value pairs with distinct keys, read
//! as finite maps.

use vstd::prelude::*;

verus! {

/// No key occurs twice.
pub open spec fn keys_distinct<K, V>(s: Seq<(K, V)>) -> bool {
    forall|i: int, j: int| 0 <= i < s.len() && 0 <= j < s.len() && i != j ==> s[i].0 != s[j].0
}

/// Some pair has key `k`.
pub open spec fn has_key<K, V>(s: Seq<(K, V)>, k: K) -> bool {
    exists|i: int| 0 <= i < s.len() && s[i].0 == k
}

/// The map that sends each key to the value paired with it.
pub open spec fn assoc<K, V>(s: Seq<(K, V)>) -> Map<K, V> {
    Map::new(|k: K| has_key(s, k), |k: K| s[choose|i: int| 0 <= i < s.len() && s[i].0 == k].1)
}

/// The map `m` after inserting the pairs of `s` one after the other.
pub open spec fn insert_all<K, V>(m: Map<K, V>, s: Seq<(K, V)>) -> Map<K, V>
    decreases s.len(),
{
    if s.len() == 0 {
        m
    } else {
        insert_all(m, s.drop_last()).insert(s.last().0, s.last().1)
    }
}

pub proof fn lemma_assoc_index<K, V>(s: Seq<(K, V)>, i: int)
    requires
        keys_distinct(s),
        0 <= i < s.len(),
    ensures
        assoc(s).contains_key(s[i].0),
        assoc(s)[s[i].0] == s[i].1,
{
    assert(has_key(s, s[i].0));
    let j = choose|j: int| 0 <= j < s.len() && s[j].0 == s[i].0;
    assert(j == i);
}

pub proof fn lemma_assoc_empty<K, V>(s: Seq<(K, V)>)
    requires
        s.len() == 0,
    ensures
        assoc(s) == Map::<K, V>::empty(),
        keys_distinct(s),
{
    assert(assoc(s) =~= Map::<K, V>::empty());
}

pub proof fn lemma_assoc_push<K, V>(s: Seq<(K, V)>, k: K, v: V)
    requires
        keys_distinct(s),
        !has_key(s, k),
    ensures
        keys_distinct(s.push((k, v))),
        assoc(s.push((k, v))) == assoc(s).insert(k, v),
{
    let t = s.push((k, v));
    assert forall|x: K| #[trigger] has_key(t, x) <==> (has_key(s, x) || x == k) by {
        if has_key(s, x) {
            let i = choose|i: int| 0 <= i < s.len() && s[i].0 == x;
            assert(t[i].0 == x);
        }
        if x == k {
            assert(t[s.len() as int].0 == x);
        }
    }
    assert forall|x: K| #[trigger] assoc(t).contains_key(x) implies assoc(t)[x] == assoc(s).insert(k, v)[x] by {
        let j = choose|j: int| 0 <= j < t.len() && t[j].0 == x;
        if x == k {
            assert(j == s.len());
        } else {
            assert(j < s.len());
            assert(has_key(s, x));
            lemma_assoc_index(s, j);
        }
    }
    assert(assoc(t) =~= assoc(s).insert(k, v));
}

pub proof fn lemma_assoc_update<K, V>(s: Seq<(K, V)>, i: int, v: V)
    requires
        keys_distinct(s),
        0 <= i < s.len(),
    ensures
        keys_distinct(s.update(i, (s[i].0, v))),
        assoc(s.update(i, (s[i].0, v))) == assoc(s).insert(s[i].0, v),
{
    let k = s[i].0;
    let t = s.update(i, (k, v));
    assert forall|x: K| #[trigger] has_key(t, x) <==> has_key(s, x) by {
        if has_key(s, x) {
            let j = choose|j: int| 0 <= j < s.len() && s[j].0 == x;
            assert(t[j].0 == x);
        }
        if has_key(t, x) {
            let j = choose|j: int| 0 <= j < t.len() && t[j].0 == x;
            assert(s[j].0 == x);
        }
    }
    assert(has_key(s, k));
    assert forall|x: K| #[trigger] assoc(t).contains_key(x) implies assoc(t)[x] == assoc(s).insert(k, v)[x] by {
        let j = choose|j: int| 0 <= j < t.len() && t[j].0 == x;
        if j == i {
        } else {
            assert(s[j].0 == x);
            lemma_assoc_index(s, j);
        }
    }
    assert(assoc(t) =~= assoc(s).insert(k, v));
}

pub proof fn lemma_assoc_remove<K, V>(s: Seq<(K, V)>, i: int)
    requires
        keys_distinct(s),
        0 <= i < s.len(),
    ensures
        keys_distinct(s.remove(i)),
        assoc(s.remove(i)) == assoc(s).remove(s[i].0),
{
    let k = s[i].0;
    let t = s.remove(i);
    assert forall|a: int, b: int| 0 <= a < t.len() && 0 <= b < t.len() && a != b implies t[a].0 != t[b].0 by {
        let a2 = if a < i { a } else { a + 1 };
        let b2 = if b < i { b } else { b + 1 };
        assert(t[a] == s[a2]);
        assert(t[b] == s[b2]);
    }
    assert forall|x: K| #[trigger] has_key(t, x) <==> (has_key(s, x) && x != k) by {
        if has_key(s, x) && x != k {
            let j = choose|j: int| 0 <= j < s.len() && s[j].0 == x;
            assert(j != i);
            if j < i {
                assert(t[j].0 == x);
            } else {
                assert(t[j - 1].0 == x);
            }
        }
        if has_key(t, x) {
            let j = choose|j: int| 0 <= j < t.len() && t[j].0 == x;
            let j2 = if j < i { j } else { j + 1 };
            assert(s[j2].0 == x);
        }
    }
    assert forall|x: K| #[trigger] assoc(t).contains_key(x) implies assoc(t)[x] == assoc(s).remove(k)[x] by {
        let j = choose|j: int| 0 <= j < t.len() && t[j].0 == x;
        let j2 = if j < i { j } else { j + 1 };
        assert(s[j2] == t[j]);
        lemma_assoc_index(s, j2);
        lemma_assoc_index(t, j);
    }
    assert(assoc(t) =~= assoc(s).remove(k));
}

/// The sequences of `s`, one after the other.
pub open spec fn concat<A>(s: Seq<Seq<A>>) -> Seq<A>
    decreases s.len(),
{
    if s.len() == 0 {
        Seq::empty()
    } else {
        concat(s.drop_last()) + s.last()
    }
}

pub proof fn lemma_concat_push<A>(s: Seq<Seq<A>>, x: Seq<A>)
    ensures
        concat(s.push(x)) == concat(s) + x,
{
    assert(s.push(x).drop_last() =~= s);
}

pub proof fn lemma_concat_contains<A>(s: Seq<Seq<A>>, j: int, i: int)
    requires
        0 <= j < s.len(),
        0 <= i < s[j].len(),
    ensures
        concat(s).contains(s[j][i]),
    decreases s.len(),
{
    if j == s.len() - 1 {
        let c = concat(s.drop_last());
        assert((c + s.last())[c.len() + i] == s[j][i]);
    } else {
        lemma_concat_contains(s.drop_last(), j, i);
        let c = concat(s.drop_last());
        let k = choose|k: int| 0 <= k < c.len() && c[k] == s[j][i];
        assert((c + s.last())[k] == s[j][i]);
    }
}

/// The first `Some` that `f` gives on the elements of `s`, in order.
pub open spec fn first_some<A, B>(s: Seq<A>, f: spec_fn(A) -> Option<B>) -> Option<B>
    decreases s.len(),
{
    if s.len() == 0 {
        None
    } else {
        match first_some(s.drop_last(), f) {
            Some(b) => Some(b),
            None => f(s.last()),
        }
    }
}

/// Once found in a prefix, the first `Some` stays the first.
pub proof fn lemma_first_some_prefix<A, B>(s: Seq<A>, f: spec_fn(A) -> Option<B>, i: int)
    requires
        0 <= i <= s.len(),
        first_some(s.take(i), f) is Some,
    ensures
        first_some(s, f) == first_some(s.take(i), f),
    decreases s.len() - i,
{
    if i < s.len() {
        assert(s.take(i + 1).drop_last() =~= s.take(i));
        lemma_first_some_prefix(s, f, i + 1);
    } else {
        assert(s.take(i) =~= s);
    }
}

/// Extending a prefix with no `Some` by one element.
pub proof fn lemma_first_some_step<A, B>(s: Seq<A>, f: spec_fn(A) -> Option<B>, i: int)
    requires
        0 <= i < s.len(),
        first_some(s.take(i), f) is None,
    ensures
        first_some(s.take(i + 1), f) == f(s[i]),
{
    assert(s.take(i + 1).drop_last() =~= s.take(i));
}

/// Inserting pairs with distinct keys overrides the map with them.
pub proof fn lemma_insert_all_distinct<K, V>(m: Map<K, V>, s: Seq<(K, V)>)
    requires
        keys_distinct(s),
    ensures
        insert_all(m, s) == m.union_prefer_right(assoc(s)),
    decreases s.len(),
{
    if s.len() == 0 {
        lemma_assoc_empty(s);
        assert(m.union_prefer_right(assoc(s)) =~= m);
    } else {
        let p = s.drop_last();
        assert(keys_distinct(p));
        lemma_insert_all_distinct(m, p);
        assert(!has_key(p, s.last().0));
        lemma_assoc_push(p, s.last().0, s.last().1);
        assert(p.push((s.last().0, s.last().1)) =~= s);
        assert(insert_all(m, s) =~= m.union_prefer_right(assoc(s)));
    }
}

/// A property of every element of every part holds of every element of the
/// concatenation.
pub proof fn lemma_concat_all<A>(s: Seq<Seq<A>>, p: spec_fn(A) -> bool)
    requires
        forall|j: int, k: int| 0 <= j < s.len() && 0 <= k < s[j].len() ==> p(#[trigger] s[j][k]),
    ensures
        forall|i: int| 0 <= i < concat(s).len() ==> p(#[trigger] concat(s)[i]),
    decreases s.len(),
{
    if s.len() > 0 {
        let q = s.drop_last();
        assert forall|j: int, k: int| 0 <= j < q.len() && 0 <= k < q[j].len() implies p(#[trigger] q[j][k]) by {
            assert(q[j] == s[j]);
        }
        lemma_concat_all(q, p);
        let c = concat(q);
        assert forall|i: int| 0 <= i < concat(s).len() implies p(#[trigger] concat(s)[i]) by {
            if i < c.len() {
                assert(concat(s)[i] == c[i]);
            } else {
                assert(concat(s)[i] == s[s.len() - 1][i - c.len()]);
            }
        }
    }
}

/// The first `Some` comes from some element.
pub proof fn lemma_first_some_found<A, B>(s: Seq<A>, f: spec_fn(A) -> Option<B>)
    requires
        first_some(s, f) is Some,
    ensures
        exists|i: int| 0 <= i < s.len() && #[trigger] f(s[i]) == first_some(s, f),
    decreases s.len(),
{
    let p = s.drop_last();
    if first_some(p, f) is Some {
        lemma_first_some_found(p, f);
        let i = choose|i: int| 0 <= i < p.len() && #[trigger] f(p[i]) == first_some(p, f);
        assert(f(s[i]) == first_some(s, f));
    } else {
        assert(f(s[s.len() - 1]) == first_some(s, f));
    }
}

/// Each entry of `insert_all(m, s)` comes from `m` or from a pair of `s`.
pub proof fn lemma_insert_all_entry<K, V>(m: Map<K, V>, s: Seq<(K, V)>, k: K)
    requires
        insert_all(m, s).contains_key(k),
    ensures
        (m.contains_key(k) && insert_all(m, s)[k] == m[k]) || exists|j: int|
            0 <= j < s.len() && s[j].0 == k && #[trigger] s[j].1 == insert_all(m, s)[k],
    decreases s.len(),
{
    if s.len() > 0 {
        let p = s.drop_last();
        if s.last().0 == k {
            assert(s[s.len() - 1].1 == insert_all(m, s)[k]);
        } else {
            lemma_insert_all_entry(m, p, k);
            if !(m.contains_key(k) && insert_all(m, p)[k] == m[k]) {
                let j = choose|j: int| 0 <= j < p.len() && p[j].0 == k && #[trigger] p[j].1 == insert_all(m, p)[k];
                assert(s[j] == p[j]);
            }
        }
    }
}

/// A list with distinct keys, read as a map, has as many keys as pairs.
pub proof fn lemma_assoc_len<K, V>(s: Seq<(K, V)>)
    requires
        keys_distinct(s),
    ensures
        assoc(s).dom().finite(),
        assoc(s).dom().len() == s.len(),
    decreases s.len(),
{
    if s.len() == 0 {
        lemma_assoc_empty(s);
    } else {
        let p = s.drop_last();
        assert(keys_distinct(p));
        lemma_assoc_len(p);
        assert(!has_key(p, s.last().0)) by {
            if has_key(p, s.last().0) {
                let i = choose|i: int| 0 <= i < p.len() && p[i].0 == s.last().0;
                assert(s[i].0 == s[s.len() - 1].0);
            }
        }
        lemma_assoc_push(p, s.last().0, s.last().1);
        assert(p.push((s.last().0, s.last().1)) =~= s);
        assert(assoc(s).dom() =~= assoc(p).dom().insert(s.last().0));
    }
}

/// An element of a part is an element of the concatenation.
pub proof fn lemma_concat_has<A>(s: Seq<Seq<A>>, j: int, x: A)
    requires
        0 <= j < s.len(),
        s[j].contains(x),
    ensures
        concat(s).contains(x),
{
    let k = choose|k: int| 0 <= k < s[j].len() && s[j][k] == x;
    lemma_concat_contains(s, j, k);
}

/// An element of either side is an element of the sum.
pub proof fn lemma_add_has<A>(a: Seq<A>, b: Seq<A>, x: A)
    requires
        a.contains(x) || b.contains(x),
    ensures
        (a + b).contains(x),
{
    if a.contains(x) {
        let k = choose|k: int| 0 <= k < a.len() && a[k] == x;
        assert((a + b)[k] == x);
    } else {
        let k = choose|k: int| 0 <= k < b.len() && b[k] == x;
        assert((a + b)[a.len() + k] == x);
    }
}

/// When nothing gives `Some`, the first `Some` is `None`.
pub proof fn lemma_first_some_none<A, B>(s: Seq<A>, f: spec_fn(A) -> Option<B>)
    requires
        forall|k: int| 0 <= k < s.len() ==> f(#[trigger] s[k]) is None,
    ensures
        first_some(s, f) is None,
    decreases s.len(),
{
    if s.len() > 0 {
        let p = s.drop_last();
        assert forall|k: int| 0 <= k < p.len() implies f(#[trigger] p[k]) is None by {
            assert(p[k] == s[k]);
        }
        lemma_first_some_none(p, f);
        assert(f(s[s.len() - 1]) is None);
    }
}

/// The first `Some` is what the first element that gives one gives.
pub proof fn lemma_first_some_at<A, B>(s: Seq<A>, f: spec_fn(A) -> Option<B>, j: int)
    requires
        0 <= j < s.len(),
        forall|k: int| 0 <= k < j ==> f(#[trigger] s[k]) is None,
        f(s[j]) is Some,
    ensures
        first_some(s, f) == f(s[j]),
{
    let t = s.take(j);
    assert forall|k: int| 0 <= k < t.len() implies f(#[trigger] t[k]) is None by {
        assert(t[k] == s[k]);
    }
    lemma_first_some_none(t, f);
    lemma_first_some_step(s, f, j);
    lemma_first_some_prefix(s, f, j + 1);
}
} // verus!
