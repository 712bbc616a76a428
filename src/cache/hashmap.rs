//! The key index: a fixed number of buckets, each a list of key–handle
//! records, that maps every stored key to the handle of its entry.

use crate::cache::entry::CacheKey;
use crate::cache::hasher::Hasher;
use vstd::prelude::*;

verus! {

/// One index record: a key and the handle of its entry in the store.
#[derive(Debug, Clone, PartialEq)]
pub struct CacheEntryLocation<K> {
    pub key: K,
    pub location: usize,
}

impl<K> CacheEntryLocation<K> {
    pub fn create(key: K, location: usize) -> (r: CacheEntryLocation<K>)
        ensures
            r.key == key,
            r.location == location,
    {
        CacheEntryLocation { key, location }
    }
}

/// What `HashMap::set` did.
#[derive(Debug, PartialEq)]
pub enum HashMapSet<K> {
    KeySetAsNew { key: K, value: CacheEntryLocation<K> },
    KeyOverwritten {
        key: K,
        value: CacheEntryLocation<K>,
        overwritten: CacheEntryLocation<K>,
    },
}

/// What `HashMap::drop` did.
#[derive(Debug, PartialEq)]
pub enum HashMapDrop<K> {
    KeyDropped { key: K, value: CacheEntryLocation<K> },
    KeyNotFound { key: K },
}

/// A table of `width` buckets; a key's record lives in bucket `hash(key, width)`.
#[verifier::reject_recursive_types(K)]
pub struct HashMap<K> {
    data: Vec<Vec<CacheEntryLocation<K>>>,
    width: usize,
    map: Ghost<Map<K, usize>>,
}

impl<K: CacheKey> HashMap<K> {
    /// The handle recorded for each key.
    pub closed spec fn view(&self) -> Map<K, usize> {
        self.map@
    }

    pub closed spec fn width_spec(&self) -> nat {
        self.width as nat
    }

    closed spec fn bucket(&self, b: int) -> Seq<CacheEntryLocation<K>> {
        self.data@[b]@
    }

    closed spec fn bucket_of(&self, k: K) -> int {
        k.hash_spec(self.width) as int
    }

    pub closed spec fn wf(&self) -> bool {
        &&& self.width > 0
        &&& self.data@.len() == self.width
        &&& forall|b: int, i: int|
            0 <= b < self.width && 0 <= i < self.bucket(b).len() ==> {
                let r = #[trigger] self.bucket(b)[i];
                &&& self.bucket_of(r.key) == b
                &&& self.map@.contains_key(r.key)
                &&& self.map@[r.key] == r.location
            }
        &&& forall|b: int, i: int, j: int|
            0 <= b < self.width && 0 <= i < j < self.bucket(b).len() ==> (#[trigger] self.bucket(
                b,
            )[i]).key != (#[trigger] self.bucket(b)[j]).key
        &&& forall|k: K|
            #[trigger] self.map@.contains_key(k) ==> exists|i: int|
                0 <= i < self.bucket(self.bucket_of(k)).len() && (#[trigger] self.bucket(
                    self.bucket_of(k),
                )[i]).key == k
    }

    /// An empty index of `width` buckets.
    pub fn create(width: usize) -> (r: HashMap<K>)
        requires
            width > 0,
        ensures
            r.wf(),
            r@ == Map::<K, usize>::empty(),
            r.width_spec() == width,
    {
        let mut data: Vec<Vec<CacheEntryLocation<K>>> = Vec::new();
        let mut b: usize = 0;
        while b < width
            invariant
                b <= width,
                data@.len() == b,
                forall|c: int| 0 <= c < b ==> (#[trigger] data@[c])@.len() == 0,
            decreases width - b,
        {
            data.push(Vec::new());
            b = b + 1;
        }
        HashMap { data, width, map: Ghost(Map::empty()) }
    }

    /// The bucket a key belongs in.
    fn bucket_index(&self, key: &K) -> (b: usize)
        requires
            self.wf(),
        ensures
            b == self.bucket_of(*key),
            b < self.width,
    {
        key.hash(self.width)
    }

    /// Where `key` stands in bucket `b`, if anywhere.
    fn find_in_bucket(&self, b: usize, key: &K) -> (r: Option<usize>)
        requires
            self.wf(),
            b < self.width,
        ensures
            match r {
                Some(i) => i < self.bucket(b as int).len() && self.bucket(b as int)[i as int].key
                    == *key,
                None => forall|i: int|
                    0 <= i < self.bucket(b as int).len() ==> (#[trigger] self.bucket(
                        b as int,
                    )[i]).key != *key,
            },
    {
        let bucket = &self.data[b];
        let mut i: usize = 0;
        while i < bucket.len()
            invariant
                bucket@ == self.bucket(b as int),
                i <= bucket@.len(),
                forall|j: int| 0 <= j < i ==> (#[trigger] bucket@[j]).key != *key,
            decreases bucket@.len() - i,
        {
            if bucket[i].key.same_key(key) {
                return Some(i);
            }
            i = i + 1;
        }
        None
    }

    /// The record of `key`, if the index holds one.
    pub fn get(&self, key: K) -> (r: Option<&CacheEntryLocation<K>>)
        requires
            self.wf(),
        ensures
            match r {
                Some(loc) => self@.contains_key(key) && loc.key == key && loc.location
                    == self@[key],
                None => !self@.contains_key(key),
            },
    {
        let b = self.bucket_index(&key);
        match self.find_in_bucket(b, &key) {
            Some(i) => {
                proof {
                    assert(self.bucket(b as int)[i as int] == self.bucket(b as int)[i as int]);
                }
                Some(&self.data[b][i])
            },
            None => {
                proof {
                    if self@.contains_key(key) {
                        let i = choose|i: int|
                            0 <= i < self.bucket(self.bucket_of(key)).len() && (#[trigger] self.bucket(
                                self.bucket_of(key),
                            )[i]).key == key;
                    }
                }
                None
            },
        }
    }

    /// Records `value` for `key`, replacing any earlier record of `key` and
    /// reporting it.
    pub fn set(&mut self, key: K, value: CacheEntryLocation<K>) -> (r: HashMapSet<K>)
        requires
            old(self).wf(),
            value.key == key,
        ensures
            final(self).wf(),
            final(self).width_spec() == old(self).width_spec(),
            final(self)@ == old(self)@.insert(key, value.location),
            old(self)@.contains_key(key) ==> r == (HashMapSet::KeyOverwritten {
                key,
                value,
                overwritten: CacheEntryLocation { key, location: old(self)@[key] },
            }),
            !old(self)@.contains_key(key) ==> r == (HashMapSet::KeySetAsNew { key, value }),
    {
        let ghost old_self = *self;
        let b = self.bucket_index(&key);
        let found = self.find_in_bucket(b, &key);
        let stored = CacheEntryLocation { key: value.key.duplicate(), location: value.location };
        let mut bucket: Vec<CacheEntryLocation<K>> = Vec::new();
        self.data.set_and_swap(b, &mut bucket);
        match found {
            Some(i) => {
                let mut rec = stored;
                bucket.set_and_swap(i, &mut rec);
                self.data.set(b, bucket);
                self.map = Ghost(self.map@.insert(key, value.location));
                proof {
                    assert(self.bucket(b as int) == old_self.bucket(b as int).update(i as int, stored));
                    assert(forall|c: int| 0 <= c < self.width && c != b ==> self.bucket(c) == old_self.bucket(c));
                    self.lemma_set_keeps_wf(old_self, b as int, key, value.location);
                }
                HashMapSet::KeyOverwritten { key, value, overwritten: rec }
            },
            None => {
                bucket.push(stored);
                self.data.set(b, bucket);
                self.map = Ghost(self.map@.insert(key, value.location));
                proof {
                    assert(self.bucket(b as int) == old_self.bucket(b as int).push(stored));
                    assert(forall|c: int| 0 <= c < self.width && c != b ==> self.bucket(c) == old_self.bucket(c));
                    self.lemma_set_keeps_wf(old_self, b as int, key, value.location);
                }
                HashMapSet::KeySetAsNew { key, value }
            },
        }
    }

    /// After the record of `k` in bucket `b` was written (in place or at the
    /// end) and `k` mapped to `loc`, the index is well formed again.
    proof fn lemma_set_keeps_wf(&self, old_self: HashMap<K>, b: int, k: K, loc: usize)
        requires
            old_self.wf(),
            self.width == old_self.width,
            self.data@.len() == old_self.data@.len(),
            b == old_self.bucket_of(k),
            self.map@ == old_self.map@.insert(k, loc),
            forall|c: int| 0 <= c < self.width && c != b ==> self.bucket(c) == old_self.bucket(c),
            ({
                let nb = self.bucket(b);
                let ob = old_self.bucket(b);
                ||| exists|i: int|
                    0 <= i < ob.len() && ob[i].key == k && nb == ob.update(
                        i,
                        (CacheEntryLocation { key: k, location: loc }),
                    )
                ||| (forall|i: int| 0 <= i < ob.len() ==> (#[trigger] ob[i]).key != k) && nb
                    == ob.push((CacheEntryLocation { key: k, location: loc }))
            }),
        ensures
            self.wf(),
    {
        let nb = self.bucket(b);
        let ob = old_self.bucket(b);
        assert forall|c: int, i: int|
            0 <= c < self.width && 0 <= i < self.bucket(c).len() implies {
            let r = #[trigger] self.bucket(c)[i];
            &&& self.bucket_of(r.key) == c
            &&& self.map@.contains_key(r.key)
            &&& self.map@[r.key] == r.location
        } by {
            if c != b {
                let r = old_self.bucket(c)[i];
                assert(old_self.bucket_of(r.key) == c);
            } else if i < ob.len() && nb[i] == ob[i] {
                let r = old_self.bucket(c)[i];
                assert(old_self.bucket_of(r.key) == c);
            }
        }
        assert forall|c: int, i: int, j: int|
            0 <= c < self.width && 0 <= i < j < self.bucket(c).len() implies (#[trigger] self.bucket(
            c,
        )[i]).key != (#[trigger] self.bucket(c)[j]).key by {
            if c == b {
                assert(old_self.bucket(c)[i] == ob[i]);
                if j < ob.len() {
                    assert(old_self.bucket(c)[j] == ob[j]);
                }
            } else {
                assert(old_self.bucket(c)[i] == self.bucket(c)[i]);
                assert(old_self.bucket(c)[j] == self.bucket(c)[j]);
            }
        }
        assert forall|x: K| #[trigger] self.map@.contains_key(x) implies exists|i: int|
            0 <= i < self.bucket(self.bucket_of(x)).len() && (#[trigger] self.bucket(
                self.bucket_of(x),
            )[i]).key == x by {
            if x == k {
                if exists|i: int|
                    0 <= i < ob.len() && ob[i].key == k && nb == ob.update(
                        i,
                        (CacheEntryLocation { key: k, location: loc }),
                    ) {
                    let i = choose|i: int|
                        0 <= i < ob.len() && ob[i].key == k && nb == ob.update(
                            i,
                            (CacheEntryLocation { key: k, location: loc }),
                        );
                    assert(self.bucket(b)[i].key == k);
                    assert(0 <= i < self.bucket(self.bucket_of(x)).len() && self.bucket(
                        self.bucket_of(x),
                    )[i].key == x);
                } else {
                    assert(self.bucket(b)[ob.len() as int].key == k);
                    assert(0 <= ob.len() < self.bucket(self.bucket_of(x)).len() && self.bucket(
                        self.bucket_of(x),
                    )[ob.len() as int].key == x);
                }
            } else {
                assert(old_self.map@.contains_key(x));
                let c = old_self.bucket_of(x);
                x.lemma_hash_within(self.width);
                let i = choose|i: int|
                    0 <= i < old_self.bucket(c).len() && (#[trigger] old_self.bucket(c)[i]).key
                        == x;
                if c == b {
                    if exists|j: int|
                        0 <= j < ob.len() && ob[j].key == k && nb == ob.update(
                            j,
                            (CacheEntryLocation { key: k, location: loc }),
                        ) {
                        let j = choose|j: int|
                            0 <= j < ob.len() && ob[j].key == k && nb == ob.update(
                                j,
                                (CacheEntryLocation { key: k, location: loc }),
                            );
                        assert(i != j);
                        assert(nb[i] == ob[i]);
                    } else {
                        assert(nb[i] == ob[i]);
                    }
                }
                assert(self.bucket(c)[i].key == x);
                assert(0 <= i < self.bucket(self.bucket_of(x)).len() && self.bucket(
                    self.bucket_of(x),
                )[i].key == x);
            }
        }
    }

    /// Removes the record of `key` and hands it back, if there is one.
    pub fn drop(&mut self, key: K) -> (r: HashMapDrop<K>)
        requires
            old(self).wf(),
        ensures
            final(self).wf(),
            final(self).width_spec() == old(self).width_spec(),
            final(self)@ == old(self)@.remove(key),
            old(self)@.contains_key(key) ==> r == (HashMapDrop::KeyDropped {
                key,
                value: CacheEntryLocation { key, location: old(self)@[key] },
            }),
            !old(self)@.contains_key(key) ==> r == (HashMapDrop::KeyNotFound { key }),
    {
        let ghost old_self = *self;
        let b = self.bucket_index(&key);
        match self.find_in_bucket(b, &key) {
            None => {
                proof {
                    if self@.contains_key(key) {
                        let i = choose|i: int|
                            0 <= i < self.bucket(self.bucket_of(key)).len() && (#[trigger] self.bucket(
                                self.bucket_of(key),
                            )[i]).key == key;
                    }
                    assert(self.map@ =~= self.map@.remove(key));
                }
                HashMapDrop::KeyNotFound { key }
            },
            Some(i) => {
                let mut bucket: Vec<CacheEntryLocation<K>> = Vec::new();
                self.data.set_and_swap(b, &mut bucket);
                let rec = bucket.remove(i);
                self.data.set(b, bucket);
                self.map = Ghost(self.map@.remove(key));
                proof {
                    let ob = old_self.bucket(b as int);
                    let nb = self.bucket(b as int);
                    assert(nb == ob.remove(i as int));
                    assert(forall|c: int|
                        0 <= c < self.width && c != b ==> self.bucket(c) == old_self.bucket(c));
                    assert forall|c: int, j: int|
                        0 <= c < self.width && 0 <= j < self.bucket(c).len() implies {
                        let r = #[trigger] self.bucket(c)[j];
                        &&& self.bucket_of(r.key) == c
                        &&& self.map@.contains_key(r.key)
                        &&& self.map@[r.key] == r.location
                    } by {
                        let oj = if c == b && j >= i {
                            j + 1
                        } else {
                            j
                        };
                        assert(self.bucket(c)[j] == old_self.bucket(c)[oj]);
                        if c == b {
                            assert(old_self.bucket(c)[oj].key != key);
                        } else {
                            key.lemma_hash_within(self.width);
                        }
                    }
                    assert forall|c: int, j: int, l: int|
                        0 <= c < self.width && 0 <= j < l < self.bucket(c).len() implies (
                    #[trigger] self.bucket(c)[j]).key != (#[trigger] self.bucket(c)[l]).key by {
                        let oj = if c == b && j >= i {
                            j + 1
                        } else {
                            j
                        };
                        let ol = if c == b && l >= i {
                            l + 1
                        } else {
                            l
                        };
                        assert(self.bucket(c)[j] == old_self.bucket(c)[oj]);
                        assert(self.bucket(c)[l] == old_self.bucket(c)[ol]);
                    }
                    assert forall|x: K| #[trigger] self.map@.contains_key(x) implies exists|j: int|
                        0 <= j < self.bucket(self.bucket_of(x)).len() && (#[trigger] self.bucket(
                            self.bucket_of(x),
                        )[j]).key == x by {
                        assert(old_self.map@.contains_key(x));
                        let c = old_self.bucket_of(x);
                        x.lemma_hash_within(self.width);
                        let oj = choose|j: int|
                            0 <= j < old_self.bucket(c).len() && (#[trigger] old_self.bucket(
                                c,
                            )[j]).key == x;
                        let j = if c == b && oj > i {
                            oj - 1
                        } else {
                            oj
                        };
                        if c == b {
                            assert(oj != i);
                        }
                        assert(self.bucket(c)[j] == old_self.bucket(c)[oj]);
                        assert(0 <= j < self.bucket(self.bucket_of(x)).len() && self.bucket(
                            self.bucket_of(x),
                        )[j].key == x);
                    }
                    assert(rec == ob[i as int]);
                }
                HashMapDrop::KeyDropped { key, value: rec }
            },
        }
    }
}

} // verus!
