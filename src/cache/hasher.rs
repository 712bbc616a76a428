use vstd::prelude::*;

verus! {

/// Maps a key to one of `width` buckets.
///
/// The mapping is a function of the key and the width alone.
pub trait Hasher {
    /// The bucket that `self` falls into for a table of `width` buckets.
    spec fn hash_spec(&self, width: usize) -> nat;

    /// Every key falls into one of the `width` buckets.
    proof fn lemma_hash_within(&self, width: usize)
        requires
            width > 0,
        ensures
            self.hash_spec(width) < width,
    ;

    fn hash(&self, width: usize) -> (r: usize)
        requires
            width > 0,
        ensures
            r as nat == self.hash_spec(width),
            r < width,
    ;
}

impl Hasher for usize {
    open spec fn hash_spec(&self, width: usize) -> nat {
        (*self % width) as nat
    }

    proof fn lemma_hash_within(&self, width: usize) {
    }

    fn hash(&self, width: usize) -> (r: usize) {
        *self % width
    }
}

impl Hasher for u64 {
    open spec fn hash_spec(&self, width: usize) -> nat {
        (*self % (width as u64)) as nat
    }

    proof fn lemma_hash_within(&self, width: usize) {
    }

    fn hash(&self, width: usize) -> (r: usize) {
        (*self % (width as u64)) as usize
    }
}

} // verus!
