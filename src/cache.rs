//! The cache façade: a recency-ordered entry store and a key index kept in
//! step by every public operation.

pub mod entries;
pub mod entry;
pub mod hasher;
pub mod hashmap;
pub mod recency;

use crate::cache::entries::CacheEntries;
use crate::cache::entry::{CacheKey, CacheValue};
use crate::cache::hashmap::{CacheEntryLocation, HashMap, HashMapDrop};
use crate::cache::recency::{
    after_drop,
    after_get,
    after_set,
    contains_key,
    keys_unique,
    lemma_position_of,
    lookup,
    position_of,
    without_key,
};
use vstd::prelude::*;

verus! {

/// Why a cache could not be made.
#[derive(Debug, PartialEq, Eq)]
pub enum ConfigError {
    ZeroCapacity,
    ZeroWidth,
}

/// What `Cache::get` found.
#[derive(Debug, PartialEq)]
pub enum GetResult<K, V> {
    Found { key: K, value: V },
    NotFound { key: K },
}

/// What `Cache::drop` did.
#[derive(Debug, PartialEq)]
pub enum DropResult<K> {
    Dropped { key: K },
    KeyNotFound { key: K },
}

/// The index agrees with the store: every stored key maps to the handle of
/// its entry, and the index holds no other key.
pub open spec fn index_matches<K, V>(m: Map<K, usize>, s: Seq<(K, V)>, hs: Seq<usize>) -> bool {
    &&& s.len() == hs.len()
    &&& forall|i: int|
        0 <= i < s.len() ==> m.contains_key(#[trigger] s[i].0) && m[s[i].0] == hs[i]
    &&& forall|k: K| #[trigger] m.contains_key(k) ==> contains_key(s, k)
}

proof fn lemma_index_remove<K, V>(m: Map<K, usize>, s: Seq<(K, V)>, hs: Seq<usize>, p: int)
    requires
        keys_unique(s),
        index_matches(m, s, hs),
        0 <= p < s.len(),
    ensures
        keys_unique(s.remove(p)),
        index_matches(m.remove(s[p].0), s.remove(p), hs.remove(p)),
{
    let s2 = s.remove(p);
    let m2 = m.remove(s[p].0);
    assert forall|i: int| 0 <= i < s2.len() implies m2.contains_key(#[trigger] s2[i].0)
        && m2[s2[i].0] == hs.remove(p)[i] by {
        if i < p {
            assert(s2[i] == s[i]);
        } else {
            assert(s2[i] == s[i + 1]);
        }
    }
    assert forall|k: K| #[trigger] m2.contains_key(k) implies contains_key(s2, k) by {
        let i = choose|i: int| 0 <= i < s.len() && #[trigger] s[i].0 == k;
        if i < p {
            assert(s2[i].0 == k);
        } else {
            assert(s2[i - 1].0 == k);
        }
    }
}

proof fn lemma_index_push<K, V>(m: Map<K, usize>, s: Seq<(K, V)>, hs: Seq<usize>, k: K, v: V, h: usize)
    requires
        keys_unique(s),
        index_matches(m, s, hs),
        !contains_key(s, k),
    ensures
        keys_unique(s.push((k, v))),
        index_matches(m.insert(k, h), s.push((k, v)), hs.push(h)),
{
    let s2 = s.push((k, v));
    assert forall|i: int, j: int| 0 <= i < j < s2.len() implies #[trigger] s2[i].0 != #[trigger] s2[j].0 by {
        if j == s.len() {
            assert(s[i].0 == s2[i].0);
        }
    }
    assert forall|x: K| #[trigger] m.insert(k, h).contains_key(x) implies contains_key(s2, x) by {
        if x == k {
            assert(s2[s.len() as int].0 == k);
        } else {
            let i = choose|i: int| 0 <= i < s.len() && #[trigger] s[i].0 == x;
            assert(s2[i].0 == x);
        }
    }
    assert forall|i: int| 0 <= i < s2.len() implies m.insert(k, h).contains_key(#[trigger] s2[i].0)
        && m.insert(k, h)[s2[i].0] == hs.push(h)[i] by {
        if i < s.len() {
            assert(s2[i] == s[i]);
            assert(s[i].0 != k);
        }
    }
}

/// A cache of at most `capacity` pairs that, when full, evicts the least
/// recently used pair to make room for a new key.
#[verifier::reject_recursive_types(K)]
pub struct Cache<K, V> {
    capacity: usize,
    lookup_table_capacity: usize,
    hashmap: HashMap<K>,
    entries: CacheEntries<K, V>,
}

impl<K: CacheKey, V: CacheValue> Cache<K, V> {
    /// The stored pairs, least recently used first.
    pub closed spec fn view(&self) -> Seq<(K, V)> {
        self.entries@
    }

    pub closed spec fn capacity_spec(&self) -> nat {
        self.capacity as nat
    }

    pub closed spec fn wf(&self) -> bool {
        &&& self.capacity > 0
        &&& self.entries.wf()
        &&& self.entries.capacity_spec() == self.capacity
        &&& self.hashmap.wf()
        &&& self.hashmap.width_spec() == self.lookup_table_capacity
        &&& keys_unique(self.entries@)
        &&& index_matches(self.hashmap@, self.entries@, self.entries.handles())
    }

    /// A well-formed cache holds no key twice and no more than its capacity.
    pub proof fn lemma_wf(&self)
        requires
            self.wf(),
        ensures
            keys_unique(self@),
            self@.len() <= self.capacity_spec(),
            self.capacity_spec() > 0,
    {
        self.entries.lemma_wf();
    }

    /// An empty cache of `capacity` pairs whose index has
    /// `lookup_table_capacity` buckets; both must be positive.
    pub fn empty(capacity: usize, lookup_table_capacity: usize) -> (r: Result<Cache<K, V>, ConfigError>)
        ensures
            capacity == 0 ==> r == Err::<Cache<K, V>, ConfigError>(ConfigError::ZeroCapacity),
            capacity > 0 && lookup_table_capacity == 0 ==> r == Err::<Cache<K, V>, ConfigError>(
                ConfigError::ZeroWidth,
            ),
            capacity > 0 && lookup_table_capacity > 0 ==> (r matches Ok(c) && c.wf() && c@ == Seq::<
                (K, V),
            >::empty() && c.capacity_spec() == capacity),
    {
        if capacity == 0 {
            return Err(ConfigError::ZeroCapacity);
        }
        if lookup_table_capacity == 0 {
            return Err(ConfigError::ZeroWidth);
        }
        let c = Cache {
            capacity,
            lookup_table_capacity,
            entries: CacheEntries::empty(capacity),
            hashmap: HashMap::create(lookup_table_capacity),
        };
        proof {
            assert(forall|k: K| !c.hashmap@.contains_key(k));
        }
        Ok(c)
    }

    /// The number of stored pairs.
    pub fn len(&self) -> (r: usize)
        requires
            self.wf(),
        ensures
            r == self@.len(),
    {
        self.entries.len()
    }

    /// The most pairs the cache holds.
    pub fn capacity(&self) -> (r: usize)
        requires
            self.wf(),
        ensures
            r == self.capacity_spec(),
    {
        self.capacity
    }

    /// Looks `key` up; a hit makes its pair the most recently used one.
    pub fn get(&mut self, key: K) -> (r: GetResult<K, V>)
        requires
            old(self).wf(),
        ensures
            final(self).wf(),
            final(self).capacity_spec() == old(self).capacity_spec(),
            final(self)@ == after_get(old(self)@, key),
            r == (match lookup(old(self)@, key) {
                Some(v) => GetResult::Found { key, value: v },
                None => GetResult::NotFound { key },
            }),
    {
        let ghost s = self.entries@;
        let ghost hs = self.entries.handles();
        let ghost m = self.hashmap@;
        let found = match self.hashmap.get(key.duplicate()) {
            Some(loc) => Some(loc.location),
            None => None,
        };
        match found {
            None => {
                proof {
                    if contains_key(s, key) {
                        let i = choose|i: int| 0 <= i < s.len() && #[trigger] s[i].0 == key;
                        assert(m.contains_key(s[i].0));
                    }
                }
                GetResult::NotFound { key }
            },
            Some(h) => {
                let ghost p = choose|i: int| 0 <= i < s.len() && #[trigger] s[i].0 == key;
                proof {
                    assert(m.contains_key(key));
                    assert(m[s[p].0] == hs[p]);
                    self.entries.lemma_wf();
                    lemma_position_of(s, key, p);
                }
                let value = self.entries.read(h);
                proof {
                    lemma_index_remove(m, s, hs, p);
                    assert(!contains_key(s.remove(p), key)) by {
                        if contains_key(s.remove(p), key) {
                            let j = choose|j: int| 0 <= j < s.remove(p).len() && #[trigger] s.remove(p)[j].0 == key;
                            if j < p {
                                assert(s[j].0 == key);
                            } else {
                                assert(s[j + 1].0 == key);
                            }
                        }
                    }
                    lemma_index_push(m.remove(key), s.remove(p), hs.remove(p), key, s[p].1, h);
                    assert(m.remove(key).insert(key, h) =~= m);
                }
                GetResult::Found { key, value }
            },
        }
    }

    /// Removes `key` and its pair, if present.
    pub fn drop(&mut self, key: K) -> (r: DropResult<K>)
        requires
            old(self).wf(),
        ensures
            final(self).wf(),
            final(self).capacity_spec() == old(self).capacity_spec(),
            final(self)@ == after_drop(old(self)@, key),
            r == (if contains_key(old(self)@, key) {
                DropResult::Dropped { key }
            } else {
                DropResult::KeyNotFound { key }
            }),
    {
        let ghost s = self.entries@;
        let ghost hs = self.entries.handles();
        let ghost m = self.hashmap@;
        match self.hashmap.drop(key.duplicate()) {
            HashMapDrop::KeyDropped { value: loc, .. } => {
                let ghost p = choose|i: int| 0 <= i < s.len() && #[trigger] s[i].0 == key;
                proof {
                    assert(m.contains_key(key));
                    assert(m[s[p].0] == hs[p]);
                    self.entries.lemma_wf();
                    lemma_position_of(s, key, p);
                }
                let _ = self.entries.drop(loc.location);
                proof {
                    lemma_index_remove(m, s, hs, p);
                }
                DropResult::Dropped { key }
            },
            HashMapDrop::KeyNotFound { .. } => {
                proof {
                    if contains_key(s, key) {
                        let i = choose|i: int| 0 <= i < s.len() && #[trigger] s[i].0 == key;
                        assert(m.contains_key(s[i].0));
                    }
                    assert(m.remove(key) =~= m);
                }
                DropResult::KeyNotFound { key }
            },
        }
    }

    /// Stores `value` under `key` as the most recently used pair. An earlier
    /// pair of `key` is replaced; otherwise, when the cache is full, the least
    /// recently used pair is evicted.
    pub fn set(&mut self, key: K, value: V)
        requires
            old(self).wf(),
        ensures
            final(self).wf(),
            final(self).capacity_spec() == old(self).capacity_spec(),
            final(self)@ == after_set(old(self)@, old(self).capacity_spec(), key, value),
    {
        let ghost s = self.entries@;
        let ghost hs = self.entries.handles();
        let ghost m = self.hashmap@;
        match self.hashmap.drop(key.duplicate()) {
            HashMapDrop::KeyDropped { value: loc, .. } => {
                let ghost p = choose|i: int| 0 <= i < s.len() && #[trigger] s[i].0 == key;
                proof {
                    assert(m.contains_key(key));
                    assert(m[s[p].0] == hs[p]);
                    self.entries.lemma_wf();
                    lemma_position_of(s, key, p);
                }
                let _ = self.entries.drop(loc.location);
                proof {
                    lemma_index_remove(m, s, hs, p);
                }
            },
            HashMapDrop::KeyNotFound { .. } => {
                proof {
                    if contains_key(s, key) {
                        let i = choose|i: int| 0 <= i < s.len() && #[trigger] s[i].0 == key;
                        assert(m.contains_key(s[i].0));
                    }
                    assert(m.remove(key) =~= m);
                }
            },
        }
        let ghost s1 = self.entries@;
        let ghost hs1 = self.entries.handles();
        let ghost m1 = self.hashmap@;
        proof {
            assert(s1 == without_key(s, key));
            assert(!contains_key(s1, key)) by {
                if contains_key(s1, key) {
                    let j = choose|j: int| 0 <= j < s1.len() && #[trigger] s1[j].0 == key;
                    if contains_key(s, key) {
                        let p = position_of(s, key);
                        if j < p {
                            assert(s[j].0 == key);
                        } else {
                            assert(s[j + 1].0 == key);
                        }
                    } else {
                        assert(s[j].0 == key);
                    }
                }
            }
            self.entries.lemma_wf();
        }
        let (h, evicted) = self.entries.append(key.duplicate(), value);
        match evicted {
            Some(e) => {
                let _ = self.hashmap.drop(e);
                proof {
                    lemma_index_remove(m1, s1, hs1, 0);
                    assert(s1.remove(0) =~= s1.subrange(1, s1.len() as int));
                    assert(hs1.remove(0) =~= hs1.subrange(1, hs1.len() as int));
                    assert(!contains_key(s1.remove(0), key)) by {
                        if contains_key(s1.remove(0), key) {
                            let j = choose|j: int|
                                0 <= j < s1.remove(0).len() && #[trigger] s1.remove(0)[j].0 == key;
                            assert(s1[j + 1].0 == key);
                        }
                    }
                    lemma_index_push(
                        m1.remove(s1[0].0),
                        s1.remove(0),
                        hs1.remove(0),
                        key,
                        value,
                        h,
                    );
                }
            },
            None => {
                proof {
                    lemma_index_push(m1, s1, hs1, key, value, h);
                }
            },
        }
        let _ = self.hashmap.set(key.duplicate(), CacheEntryLocation::create(key, h));
    }
}

} // verus!
