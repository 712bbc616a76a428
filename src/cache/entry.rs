use crate::cache::hasher::Hasher;
use vstd::prelude::*;

verus! {

/// What a cache key must offer: a bucket, an exact copy and an equality test.
pub trait CacheKey: Hasher + Sized {
    fn duplicate(&self) -> (r: Self)
        ensures
            r == *self,
    ;

    fn same_key(&self, other: &Self) -> (r: bool)
        ensures
            r == (*self == *other),
    ;
}

/// What a cached value must offer: an exact copy.
pub trait CacheValue: Sized {
    fn duplicate(&self) -> (r: Self)
        ensures
            r == *self,
    ;
}

impl CacheKey for usize {
    fn duplicate(&self) -> (r: usize) {
        *self
    }

    fn same_key(&self, other: &usize) -> (r: bool) {
        *self == *other
    }
}

impl CacheValue for usize {
    fn duplicate(&self) -> (r: usize) {
        *self
    }
}

impl CacheKey for u64 {
    fn duplicate(&self) -> (r: u64) {
        *self
    }

    fn same_key(&self, other: &u64) -> (r: bool) {
        *self == *other
    }
}

impl CacheValue for u64 {
    fn duplicate(&self) -> (r: u64) {
        *self
    }
}

/// One stored pair, with the handles of its neighbours in recency order:
/// `left` is the next older entry, `right` the next newer one.
#[derive(Debug, PartialEq)]
pub struct CacheEntry<K, V> {
    pub key: K,
    pub value: V,
    pub left: Option<usize>,
    pub right: Option<usize>,
}

impl<K, V> CacheEntry<K, V> {
    /// A detached entry, linked to nothing.
    pub fn create(key: K, value: V) -> (r: CacheEntry<K, V>)
        ensures
            r.key == key,
            r.value == value,
            r.left is None,
            r.right is None,
    {
        CacheEntry { key, value, left: None, right: None }
    }
}

} // verus!
