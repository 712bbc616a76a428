//! The mathematical model of a cache: the sequence of its `(key, value)`
//! pairs, from the least recently used to the most recently used.

use vstd::prelude::*;

verus! {

/// No key occurs twice.
pub open spec fn keys_unique<K, V>(s: Seq<(K, V)>) -> bool {
    forall|i: int, j: int| 0 <= i < j < s.len() ==> #[trigger] s[i].0 != #[trigger] s[j].0
}

pub open spec fn contains_key<K, V>(s: Seq<(K, V)>, k: K) -> bool {
    exists|i: int| 0 <= i < s.len() && #[trigger] s[i].0 == k
}

/// Where `k` stands in `s`; meaningful only when `contains_key(s, k)`.
pub open spec fn position_of<K, V>(s: Seq<(K, V)>, k: K) -> int {
    choose|i: int| 0 <= i < s.len() && #[trigger] s[i].0 == k
}

/// The value stored under `k`, if any.
pub open spec fn lookup<K, V>(s: Seq<(K, V)>, k: K) -> Option<V> {
    if contains_key(s, k) {
        Some(s[position_of(s, k)].1)
    } else {
        None
    }
}

/// `s` without the pair whose key is `k`.
pub open spec fn without_key<K, V>(s: Seq<(K, V)>, k: K) -> Seq<(K, V)> {
    if contains_key(s, k) {
        s.remove(position_of(s, k))
    } else {
        s
    }
}

/// A read of `k`: a present pair moves to the most recently used end.
pub open spec fn after_get<K, V>(s: Seq<(K, V)>, k: K) -> Seq<(K, V)> {
    if contains_key(s, k) {
        without_key(s, k).push(s[position_of(s, k)])
    } else {
        s
    }
}

/// A write of `k`: any earlier pair of `k` goes, the least recently used
/// pair goes when the cache is still full, and `(k, v)` becomes the most
/// recently used.
pub open spec fn after_set<K, V>(s: Seq<(K, V)>, capacity: nat, k: K, v: V) -> Seq<(K, V)> {
    let t = without_key(s, k);
    if t.len() >= capacity && t.len() > 0 {
        t.subrange(1, t.len() as int).push((k, v))
    } else {
        t.push((k, v))
    }
}

/// An explicit removal of `k`.
pub open spec fn after_drop<K, V>(s: Seq<(K, V)>, k: K) -> Seq<(K, V)> {
    without_key(s, k)
}

/// Where `k` stands in a sequence of unique keys is the one index that holds it.
pub proof fn lemma_position_of<K, V>(s: Seq<(K, V)>, k: K, i: int)
    requires
        keys_unique(s),
        0 <= i < s.len(),
        s[i].0 == k,
    ensures
        contains_key(s, k),
        position_of(s, k) == i,
        lookup(s, k) == Some(s[i].1),
{
    assert(contains_key(s, k));
}

/// The pairs left after writing each pair of `kvs` in turn, starting from `s`.
pub open spec fn set_each<K, V>(s: Seq<(K, V)>, capacity: nat, kvs: Seq<(K, V)>) -> Seq<(K, V)>
    decreases kvs.len(),
{
    if kvs.len() == 0 {
        s
    } else {
        after_set(set_each(s, capacity, kvs.drop_last()), capacity, kvs.last().0, kvs.last().1)
    }
}

proof fn lemma_without_key<K, V>(s: Seq<(K, V)>, k: K)
    requires
        keys_unique(s),
    ensures
        keys_unique(without_key(s, k)),
        !contains_key(without_key(s, k), k),
        without_key(s, k).len() == if contains_key(s, k) {
            s.len() - 1
        } else {
            s.len() as int
        },
        forall|x: K| x != k ==> #[trigger] lookup(without_key(s, k), x) == lookup(s, x),
{
    let t = without_key(s, k);
    if contains_key(s, k) {
        let p = position_of(s, k);
        assert forall|i: int, j: int| 0 <= i < j < t.len() implies #[trigger] t[i].0 != #[trigger] t[j].0 by {
            let oi = if i < p { i } else { i + 1 };
            let oj = if j < p { j } else { j + 1 };
            assert(t[i] == s[oi]);
            assert(t[j] == s[oj]);
        }
        assert(!contains_key(t, k)) by {
            if contains_key(t, k) {
                let j = choose|j: int| 0 <= j < t.len() && #[trigger] t[j].0 == k;
                let oj = if j < p { j } else { j + 1 };
                assert(t[j] == s[oj]);
            }
        }
        assert forall|x: K| x != k implies #[trigger] lookup(t, x) == lookup(s, x) by {
            if contains_key(s, x) {
                let i = position_of(s, x);
                let ti = if i < p { i } else { i - 1 };
                assert(t[ti] == s[i]);
                lemma_position_of(t, x, ti);
            } else if contains_key(t, x) {
                let j = choose|j: int| 0 <= j < t.len() && #[trigger] t[j].0 == x;
                let oj = if j < p { j } else { j + 1 };
                assert(t[j] == s[oj]);
            }
        }
    }
}

proof fn lemma_push_new<K, V>(t: Seq<(K, V)>, k: K, v: V)
    requires
        keys_unique(t),
        !contains_key(t, k),
    ensures
        keys_unique(t.push((k, v))),
        lookup(t.push((k, v)), k) == Some(v),
        forall|x: K| x != k ==> #[trigger] lookup(t.push((k, v)), x) == lookup(t, x),
{
    let u = t.push((k, v));
    assert forall|i: int, j: int| 0 <= i < j < u.len() implies #[trigger] u[i].0 != #[trigger] u[j].0 by {
        assert(u[i] == t[i]);
        if j < t.len() {
            assert(u[j] == t[j]);
        }
    }
    lemma_position_of(u, k, t.len() as int);
    assert forall|x: K| x != k implies #[trigger] lookup(u, x) == lookup(t, x) by {
        if contains_key(t, x) {
            let i = position_of(t, x);
            assert(u[i] == t[i]);
            lemma_position_of(u, x, i);
        } else if contains_key(u, x) {
            let j = choose|j: int| 0 <= j < u.len() && #[trigger] u[j].0 == x;
            assert(u[j] == t[j]);
        }
    }
}

proof fn lemma_drop_first<K, V>(t: Seq<(K, V)>)
    requires
        keys_unique(t),
        t.len() > 0,
    ensures
        keys_unique(t.subrange(1, t.len() as int)),
        lookup(t.subrange(1, t.len() as int), t[0].0) is None,
        forall|x: K| x != t[0].0 ==> #[trigger] lookup(t.subrange(1, t.len() as int), x) == lookup(t, x),
{
    assert(t.subrange(1, t.len() as int) =~= t.remove(0));
    lemma_position_of(t, t[0].0, 0);
    lemma_without_key(t, t[0].0);
}

/// Every operation keeps the keys unique and the number of pairs within the
/// capacity: a read keeps the count, a removal never raises it.
pub proof fn lemma_operations_keep_capacity<K, V>(s: Seq<(K, V)>, capacity: nat, k: K, v: V)
    requires
        keys_unique(s),
        s.len() <= capacity,
        capacity > 0,
    ensures
        keys_unique(after_set(s, capacity, k, v)),
        after_set(s, capacity, k, v).len() <= capacity,
        keys_unique(after_get(s, k)),
        after_get(s, k).len() == s.len(),
        keys_unique(after_drop(s, k)),
        after_drop(s, k).len() <= s.len(),
{
    lemma_set_shape(s, capacity, k, v);
    lemma_without_key(s, k);
    if contains_key(s, k) {
        lemma_push_new(without_key(s, k), k, s[position_of(s, k)].1);
    }
}

proof fn lemma_set_shape<K, V>(s: Seq<(K, V)>, capacity: nat, k: K, v: V)
    requires
        keys_unique(s),
        capacity > 0,
    ensures
        keys_unique(after_set(s, capacity, k, v)),
        after_set(s, capacity, k, v).len() as int <= if s.len() < capacity { s.len() as int + 1 } else { s.len() as int },
        lookup(after_set(s, capacity, k, v), k) == Some(v),
        forall|x: K|
            x != k && (#[trigger] lookup(after_set(s, capacity, k, v), x)) is Some ==> lookup(
                after_set(s, capacity, k, v),
                x,
            ) == lookup(s, x),
{
    let t = without_key(s, k);
    lemma_without_key(s, k);
    if t.len() >= capacity && t.len() > 0 {
        let t1 = t.subrange(1, t.len() as int);
        lemma_drop_first(t);
        assert(!contains_key(t1, k)) by {
            if contains_key(t1, k) {
                let j = choose|j: int| 0 <= j < t1.len() && #[trigger] t1[j].0 == k;
                assert(t1[j] == t[j + 1]);
            }
        }
        lemma_push_new(t1, k, v);
        assert forall|x: K|
            x != k && (#[trigger] lookup(after_set(s, capacity, k, v), x)) is Some implies lookup(
            after_set(s, capacity, k, v),
            x,
        ) == lookup(s, x) by {
            assert(lookup(t1.push((k, v)), x) == lookup(t1, x));
            if x == t[0].0 {
            } else {
                assert(lookup(t1, x) == lookup(t, x));
            }
        }
    } else {
        lemma_push_new(t, k, v);
    }
}

/// A write is read back: right after `set(k, v)` the cache holds `v` under `k`.
pub proof fn lemma_set_then_get<K, V>(s: Seq<(K, V)>, capacity: nat, k: K, v: V)
    requires
        keys_unique(s),
        capacity > 0,
    ensures
        lookup(after_set(s, capacity, k, v), k) == Some(v),
{
    lemma_set_shape(s, capacity, k, v);
}

/// Values change only by writes of their own key: a read of any key leaves
/// every value as it was, a removal of another key does too, and a write of
/// another key either evicts `k` or leaves its value.
pub proof fn lemma_value_kept_until_evicted<K, V>(s: Seq<(K, V)>, capacity: nat, k: K, other: K, v: V)
    requires
        keys_unique(s),
        capacity > 0,
        other != k,
    ensures
        lookup(after_get(s, other), k) == lookup(s, k),
        lookup(after_get(s, k), k) == lookup(s, k),
        lookup(after_drop(s, other), k) == lookup(s, k),
        lookup(after_set(s, capacity, other, v), k) is Some ==> lookup(
            after_set(s, capacity, other, v),
            k,
        ) == lookup(s, k),
{
    lemma_set_shape(s, capacity, other, v);
    lemma_without_key(s, other);
    lemma_without_key(s, k);
    if contains_key(s, other) {
        lemma_push_new(without_key(s, other), other, s[position_of(s, other)].1);
    }
    if contains_key(s, k) {
        lemma_push_new(without_key(s, k), k, s[position_of(s, k)].1);
    }
}

/// A read of an absent key changes nothing and finds nothing.
pub proof fn lemma_get_absent<K, V>(s: Seq<(K, V)>, k: K)
    requires
        !contains_key(s, k),
    ensures
        after_get(s, k) == s,
        lookup(s, k) is None,
{
}

/// A second write of the same key wins and leaves the count as the first
/// write left it; no other key is evicted by it.
pub proof fn lemma_overwrite<K, V>(s: Seq<(K, V)>, capacity: nat, k: K, v1: V, v2: V)
    requires
        keys_unique(s),
        s.len() <= capacity,
        capacity > 0,
    ensures
        lookup(after_set(after_set(s, capacity, k, v1), capacity, k, v2), k) == Some(v2),
        after_set(after_set(s, capacity, k, v1), capacity, k, v2).len() == after_set(
            s,
            capacity,
            k,
            v1,
        ).len(),
        forall|x: K|
            x != k ==> #[trigger] lookup(after_set(after_set(s, capacity, k, v1), capacity, k, v2), x)
                == lookup(after_set(s, capacity, k, v1), x),
{
    let s1 = after_set(s, capacity, k, v1);
    lemma_operations_keep_capacity(s, capacity, k, v1);
    lemma_set_shape(s, capacity, k, v1);
    lemma_without_key(s1, k);
    lemma_set_shape(s1, capacity, k, v2);
    let t = without_key(s1, k);
    assert(t.len() < capacity);
    lemma_push_new(t, k, v2);
}

/// Writing a key that is already stored never evicts another key, even when
/// the cache is full: every other key keeps its value.
pub proof fn lemma_overwrite_evicts_nothing<K, V>(s: Seq<(K, V)>, capacity: nat, k: K, v: V)
    requires
        keys_unique(s),
        s.len() <= capacity,
        contains_key(s, k),
    ensures
        after_set(s, capacity, k, v).len() == s.len(),
        forall|x: K| x != k ==> #[trigger] lookup(after_set(s, capacity, k, v), x) == lookup(s, x),
{
    lemma_without_key(s, k);
    lemma_push_new(without_key(s, k), k, v);
}

/// Writing pairs of distinct keys into an empty cache keeps the last
/// `capacity` of them, in the order written.
pub proof fn lemma_set_each_distinct<K, V>(capacity: nat, kvs: Seq<(K, V)>)
    requires
        keys_unique(kvs),
        capacity > 0,
    ensures
        set_each(Seq::empty(), capacity, kvs) == kvs.subrange(
            if kvs.len() > capacity {
                kvs.len() - capacity
            } else {
                0
            },
            kvs.len() as int,
        ),
    decreases kvs.len(),
{
    let n = kvs.len() as int;
    if n > 0 {
        let front = kvs.drop_last();
        assert(keys_unique(front)) by {
            assert forall|i: int, j: int| 0 <= i < j < front.len() implies #[trigger] front[i].0
                != #[trigger] front[j].0 by {
                assert(front[i] == kvs[i] && front[j] == kvs[j]);
            }
        }
        lemma_set_each_distinct(capacity, front);
        let start = if n - 1 > capacity { n - 1 - capacity } else { 0 };
        let prev = set_each(Seq::empty(), capacity, front);
        assert(prev == front.subrange(start, n - 1));
        let k = kvs.last().0;
        assert(!contains_key(prev, k)) by {
            if contains_key(prev, k) {
                let j = choose|j: int| 0 <= j < prev.len() && #[trigger] prev[j].0 == k;
                assert(prev[j] == kvs[start + j]);
            }
        }
        if prev.len() >= capacity && prev.len() > 0 {
            assert(prev.subrange(1, prev.len() as int).push(kvs.last()) =~= kvs.subrange(
                n - capacity,
                n,
            ));
        } else {
            assert(prev.push(kvs.last()) =~= kvs.subrange(start, n));
        }
    } else {
        assert(kvs.subrange(0, 0) =~= Seq::<(K, V)>::empty());
    }
}

/// With room for `capacity` pairs, writing `capacity + 1` distinct keys into
/// an empty cache evicts the first of them and keeps all the others.
pub proof fn lemma_first_written_is_evicted<K, V>(capacity: nat, kvs: Seq<(K, V)>)
    requires
        keys_unique(kvs),
        capacity > 0,
        kvs.len() == capacity + 1,
    ensures
        set_each(Seq::empty(), capacity, kvs).len() == capacity,
        lookup(set_each(Seq::empty(), capacity, kvs), kvs[0].0) is None,
        forall|i: int|
            1 <= i < kvs.len() ==> lookup(set_each(Seq::empty(), capacity, kvs), #[trigger] kvs[i].0)
                == Some(kvs[i].1),
{
    lemma_set_each_distinct(capacity, kvs);
    let r = set_each(Seq::empty(), capacity, kvs);
    assert(r == kvs.subrange(1, kvs.len() as int));
    assert(keys_unique(r)) by {
        assert forall|i: int, j: int| 0 <= i < j < r.len() implies #[trigger] r[i].0 != #[trigger] r[j].0 by {
            assert(r[i] == kvs[i + 1] && r[j] == kvs[j + 1]);
        }
    }
    assert(!contains_key(r, kvs[0].0)) by {
        if contains_key(r, kvs[0].0) {
            let j = choose|j: int| 0 <= j < r.len() && #[trigger] r[j].0 == kvs[0].0;
            assert(r[j] == kvs[j + 1]);
        }
    }
    assert forall|i: int| 1 <= i < kvs.len() implies lookup(r, #[trigger] kvs[i].0) == Some(kvs[i].1) by {
        assert(r[i - 1] == kvs[i]);
        lemma_position_of(r, kvs[i].0, i - 1);
    }
}

/// With room for `capacity` pairs holding the distinct keys of `kvs`, written
/// in order, a read of the first key followed by a write of a new key evicts
/// the second key instead of the first.
pub proof fn lemma_read_protects_from_eviction<K, V>(capacity: nat, kvs: Seq<(K, V)>, k: K, v: V)
    requires
        keys_unique(kvs),
        capacity >= 2,
        kvs.len() == capacity,
        !contains_key(kvs, k),
    ensures
        ({
            let s = set_each(Seq::empty(), capacity, kvs);
            let u = after_set(after_get(s, kvs[0].0), capacity, k, v);
            &&& lookup(u, kvs[1].0) is None
            &&& lookup(u, kvs[0].0) == Some(kvs[0].1)
            &&& lookup(u, k) == Some(v)
        }),
{
    lemma_set_each_distinct(capacity, kvs);
    let s = set_each(Seq::empty(), capacity, kvs);
    assert(s =~= kvs);
    let k0 = kvs[0].0;
    lemma_position_of(s, k0, 0);
    let t = after_get(s, k0);
    assert(without_key(s, k0) == s.remove(0));
    assert(t == s.remove(0).push(s[0]));
    lemma_operations_keep_capacity(s, capacity, k0, v);
    assert(t[0] == kvs[1]);
    assert(!contains_key(t, k)) by {
        if contains_key(t, k) {
            let j = choose|j: int| 0 <= j < t.len() && #[trigger] t[j].0 == k;
            if j < t.len() - 1 {
                assert(t[j] == kvs[j + 1]);
            } else {
                assert(t[j] == kvs[0]);
            }
        }
    }
    assert(without_key(t, k) == t);
    lemma_drop_first(t);
    let t1 = t.subrange(1, t.len() as int);
    assert(!contains_key(t1, k)) by {
        if contains_key(t1, k) {
            let j = choose|j: int| 0 <= j < t1.len() && #[trigger] t1[j].0 == k;
            assert(t1[j] == t[j + 1]);
        }
    }
    lemma_push_new(t1, k, v);
    lemma_position_of(t, k0, t.len() - 1);
    assert(kvs[1].0 != k0);
}

} // verus!
