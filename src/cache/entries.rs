//! The entry store: an arena of entries linked in recency order, addressed
//! by stable integer handles.

use crate::cache::entry::{CacheEntry, CacheValue};
use vstd::prelude::*;

verus! {

/// What `drop` hands back: the pair and the handles of its former neighbours.
#[derive(Debug, PartialEq)]
pub struct DroppedEntry<K, V> {
    pub key: K,
    pub value: V,
    pub left_of_dropped: Option<usize>,
    pub right_of_dropped: Option<usize>,
}

/// A doubly linked recency list of at most `capacity` entries.
///
/// `first` is the least recently used entry, `last` the most recently used.
/// Freed slots are kept on a stack and reused before the arena grows.
pub struct CacheEntries<K, V> {
    slots: Vec<Option<CacheEntry<K, V>>>,
    free: Vec<usize>,
    first: Option<usize>,
    last: Option<usize>,
    len: usize,
    capacity: usize,
    order: Ghost<Seq<usize>>,
}

impl<K, V> CacheEntries<K, V> {
    /// The handles of the live entries, least recently used first.
    pub closed spec fn handles(&self) -> Seq<usize> {
        self.order@
    }

    pub closed spec fn capacity_spec(&self) -> nat {
        self.capacity as nat
    }

    /// Whether `h` addresses a live entry.
    pub closed spec fn live(&self, h: usize) -> bool {
        h < self.slots@.len() && self.slots@[h as int] is Some
    }

    closed spec fn slot(&self, h: usize) -> CacheEntry<K, V> {
        self.slots@[h as int]->Some_0
    }

    /// The handle that the next entry to be linked will get.
    pub closed spec fn next_handle(&self) -> usize {
        if self.free@.len() > 0 {
            self.free@.last()
        } else {
            self.slots@.len() as usize
        }
    }

    /// The stored pairs, least recently used first.
    pub closed spec fn view(&self) -> Seq<(K, V)> {
        self.order@.map_values(|h: usize| (self.slot(h).key, self.slot(h).value))
    }

    pub closed spec fn wf(&self) -> bool {
        let o = self.order@;
        let n = o.len();
        &&& self.len as int == n
        &&& n <= self.capacity
        &&& self.slots@.len() == n + self.free@.len()
        &&& forall|i: int| 0 <= i < n ==> #[trigger] self.live(o[i])
        &&& forall|i: int, j: int| 0 <= i < j < n ==> o[i] != o[j]
        &&& forall|h: usize| #[trigger] self.live(h) ==> o.contains(h)
        &&& forall|i: int|
            0 <= i < n ==> (#[trigger] self.slot(o[i])).left == (if i == 0 {
                None
            } else {
                Some(o[i - 1])
            })
        &&& forall|i: int|
            0 <= i < n ==> (#[trigger] self.slot(o[i])).right == (if i == n - 1 {
                None
            } else {
                Some(o[i + 1])
            })
        &&& self.first == (if n == 0 {
            None
        } else {
            Some(o[0])
        })
        &&& self.last == (if n == 0 {
            None
        } else {
            Some(o[n - 1])
        })
        &&& forall|k: int|
            0 <= k < self.free@.len() ==> #[trigger] self.free@[k] < self.slots@.len()
                && !self.live(self.free@[k])
        &&& forall|k: int, l: int| 0 <= k < l < self.free@.len() ==> self.free@[k] != self.free@[l]
    }

    /// Facts that follow from well-formedness.
    pub proof fn lemma_wf(&self)
        requires
            self.wf(),
        ensures
            self@.len() == self.handles().len(),
            self@.len() <= self.capacity_spec(),
            forall|i: int, j: int|
                0 <= i < j < self.handles().len() ==> self.handles()[i] != self.handles()[j],
            forall|i: int| 0 <= i < self.handles().len() ==> #[trigger] self.live(self.handles()[i]),
            forall|h: usize| #[trigger] self.live(h) ==> self.handles().contains(h),
            !self.live(self.next_handle()),
    {
        if self.free@.len() > 0 {
            let k = self.free@.len() - 1;
            assert(!self.live(self.free@[k]));
        }
    }

    /// An empty store that will hold at most `capacity` entries.
    pub fn empty(capacity: usize) -> (r: CacheEntries<K, V>)
        ensures
            r.wf(),
            r@ == Seq::<(K, V)>::empty(),
            r.handles() == Seq::<usize>::empty(),
            r.capacity_spec() == capacity,
    {
        let r = CacheEntries {
            slots: Vec::new(),
            free: Vec::new(),
            first: None,
            last: None,
            len: 0,
            capacity,
            order: Ghost(Seq::empty()),
        };
        assert(r@ =~= Seq::<(K, V)>::empty());
        r
    }

    /// The number of stored entries.
    pub fn len(&self) -> (r: usize)
        requires
            self.wf(),
        ensures
            r == self@.len(),
    {
        self.len
    }

    /// Sets the newer-neighbour link of the live entry `h`.
    fn set_right(&mut self, h: usize, r: Option<usize>)
        requires
            old(self).live(h),
        ensures
            final(self).slots@ == old(self).slots@.update(
                h as int,
                Some(
                    (CacheEntry {
                        key: old(self).slot(h).key,
                        value: old(self).slot(h).value,
                        left: old(self).slot(h).left,
                        right: r,
                    }),
                ),
            ),
            final(self).free == old(self).free,
            final(self).first == old(self).first,
            final(self).last == old(self).last,
            final(self).len == old(self).len,
            final(self).capacity == old(self).capacity,
            final(self).order == old(self).order,
    {
        let mut tmp: Option<CacheEntry<K, V>> = None;
        self.slots.set_and_swap(h, &mut tmp);
        match tmp {
            Some(mut e) => {
                e.right = r;
                self.slots.set(h, Some(e));
            },
            None => {},
        }
    }

    /// Sets the older-neighbour link of the live entry `h`.
    fn set_left(&mut self, h: usize, l: Option<usize>)
        requires
            old(self).live(h),
        ensures
            final(self).slots@ == old(self).slots@.update(
                h as int,
                Some(
                    (CacheEntry {
                        key: old(self).slot(h).key,
                        value: old(self).slot(h).value,
                        left: l,
                        right: old(self).slot(h).right,
                    }),
                ),
            ),
            final(self).free == old(self).free,
            final(self).first == old(self).first,
            final(self).last == old(self).last,
            final(self).len == old(self).len,
            final(self).capacity == old(self).capacity,
            final(self).order == old(self).order,
    {
        let mut tmp: Option<CacheEntry<K, V>> = None;
        self.slots.set_and_swap(h, &mut tmp);
        match tmp {
            Some(mut e) => {
                e.left = l;
                self.slots.set(h, Some(e));
            },
            None => {},
        }
    }

    /// Links a new entry for `(key, value)` as the most recently used one,
    /// in the slot that `next_handle` names.
    fn link_last(&mut self, key: K, value: V) -> (h: usize)
        requires
            old(self).wf(),
            old(self)@.len() < old(self).capacity_spec(),
        ensures
            final(self).wf(),
            h == old(self).next_handle(),
            final(self).handles() == old(self).handles().push(h),
            final(self)@ == old(self)@.push((key, value)),
            final(self).capacity_spec() == old(self).capacity_spec(),
    {
        proof {
            self.lemma_wf();
        }
        let ghost old_self = *self;
        let h: usize = match self.free.pop() {
            Some(f) => f,
            None => {
                self.slots.push(None);
                self.slots.len() - 1
            },
        };
        assert(!old_self.live(h));
        let mut entry = CacheEntry::create(key, value);
        entry.left = self.last;
        self.slots.set(h, Some(entry));
        match self.last {
            Some(l) => {
                proof {
                    assert(old_self.live(old_self.order@[old_self.order@.len() - 1]));
                }
                self.set_right(l, Some(h));
            },
            None => {
                self.first = Some(h);
            },
        }
        self.last = Some(h);
        self.len = self.len + 1;
        self.order = Ghost(self.order@.push(h));
        proof {
            let o = old_self.order@;
            let n = o.len();
            let o2 = self.order@;
            assert(forall|x: usize| x != h && #[trigger] self.live(x) ==> old_self.live(x));
            assert forall|x: usize| #[trigger] self.live(x) implies o2.contains(x) by {
                if x == h {
                    assert(o2[n as int] == x);
                } else {
                    let i = choose|i: int| 0 <= i < n && o[i] == x;
                    assert(o2[i] == x);
                }
            }
            assert forall|i: int| 0 <= i < o2.len() implies #[trigger] self.live(o2[i]) by {
                if i < n {
                    assert(old_self.live(o[i]));
                }
            }
            assert forall|i: int|
                0 <= i < o2.len() implies (#[trigger] self.slot(o2[i])).left == (if i == 0 {
                None
            } else {
                Some(o2[i - 1])
            }) by {
                if i < n {
                    assert(old_self.live(o[i]));
                    assert(old_self.slot(o[i]).left == (if i == 0 {
                        None
                    } else {
                        Some(o[i - 1])
                    }));
                }
            }
            assert forall|i: int|
                0 <= i < o2.len() implies (#[trigger] self.slot(o2[i])).right == (if i == o2.len()
                - 1 {
                None
            } else {
                Some(o2[i + 1])
            }) by {
                if i < n {
                    assert(old_self.live(o[i]));
                    assert(old_self.slot(o[i]).right == (if i == n - 1 {
                        None
                    } else {
                        Some(o[i + 1])
                    }));
                }
            }
            assert forall|k: int|
                0 <= k < self.free@.len() implies #[trigger] self.free@[k] < self.slots@.len()
                && !self.live(self.free@[k]) by {
                assert(old_self.free@[k] == self.free@[k]);
            }
            assert(self@ =~= old_self@.push((key, value))) by {
                assert forall|i: int| 0 <= i < n implies self.slot(o[i]) == old_self.slot(o[i])
                    || (i == n - 1) by {
                    assert(old_self.live(o[i]));
                }
                if n > 0 {
                    assert(old_self.live(o[n - 1]));
                }
            }
        }
        h
    }

    /// Unlinks and frees the entry at `h`, joining its neighbours.
    ///
    /// A handle that addresses no live entry changes nothing and gives `None`.
    #[verifier::rlimit(60)]
    pub fn drop(&mut self, h: usize) -> (r: Option<DroppedEntry<K, V>>)
        requires
            old(self).wf(),
        ensures
            final(self).wf(),
            final(self).capacity_spec() == old(self).capacity_spec(),
            !old(self).live(h) ==> r is None && *final(self) == *old(self),
            old(self).live(h) ==> r is Some && final(self).next_handle() == h,
            forall|p: int|
                #![trigger old(self).handles()[p]]
                0 <= p < old(self).handles().len() && old(self).handles()[p] == h ==> {
                    &&& r is Some
                    &&& r->Some_0.key == old(self)@[p].0
                    &&& r->Some_0.value == old(self)@[p].1
                    &&& r->Some_0.left_of_dropped == (if p == 0 {
                        None
                    } else {
                        Some(old(self).handles()[p - 1])
                    })
                    &&& r->Some_0.right_of_dropped == (if p == old(self).handles().len() - 1 {
                        None
                    } else {
                        Some(old(self).handles()[p + 1])
                    })
                    &&& final(self)@ == old(self)@.remove(p)
                    &&& final(self).handles() == old(self).handles().remove(p)
                },
    {
        if h >= self.slots.len() || self.slots[h].is_none() {
            return None;
        }
        let ghost old_self = *self;
        let ghost o = self.order@;
        let ghost n = o.len();
        proof {
            assert(self.live(h));
            assert(o.contains(h));
        }
        let ghost p = choose|p: int| 0 <= p < n && o[p] == h;
        proof {
            assert(self.slot(o[p]).left == (if p == 0 { None } else { Some(o[p - 1]) }));
            assert(self.slot(o[p]).right == (if p == n - 1 { None } else { Some(o[p + 1]) }));
            if p > 0 {
                assert(self.live(o[p - 1]));
            }
            if p < n - 1 {
                assert(self.live(o[p + 1]));
            }
        }
        let mut tmp: Option<CacheEntry<K, V>> = None;
        self.slots.set_and_swap(h, &mut tmp);
        let e = match tmp {
            Some(e) => e,
            None => {
                return None;
            },
        };
        let CacheEntry { key, value, left, right } = e;
        match left {
            Some(l) => {
                self.set_right(l, right);
            },
            None => {
                self.first = right;
            },
        }
        match right {
            Some(r) => {
                self.set_left(r, left);
            },
            None => {
                self.last = left;
            },
        }
        proof {
            assert(left == (if p == 0 { None } else { Some(o[p - 1]) }));
            assert(right == (if p == n - 1 { None } else { Some(o[p + 1]) }));
            assert(self.slots@.len() == old_self.slots@.len());
            assert(self.slots@[h as int] is None);
            assert forall|x: usize|
                x != h && (p == 0 || x != o[p - 1]) && (p == n - 1 || x != o[p + 1]) && x
                    < self.slots@.len() implies self.slots@[x as int] == old_self.slots@[x as int] by {}
            if p > 0 {
                assert(self.slot(o[p - 1]).left == old_self.slot(o[p - 1]).left);
                assert(self.slot(o[p - 1]).right == right);
                assert(self.live(o[p - 1]));
            }
            if p < n - 1 {
                assert(self.slot(o[p + 1]).right == old_self.slot(o[p + 1]).right);
                assert(self.slot(o[p + 1]).left == left);
                assert(self.live(o[p + 1]));
            }
        }
        self.free.push(h);
        self.len = self.len - 1;
        self.order = Ghost(self.order@.remove(p));
        proof {
            let o2 = self.order@;
            assert forall|x: usize| #[trigger] self.live(x) implies o2.contains(x) by {
                assert(old_self.live(x));
                let i = choose|i: int| 0 <= i < n && o[i] == x;
                if i < p {
                    assert(o2[i] == x);
                } else {
                    assert(o2[i - 1] == x);
                }
            }
            assert forall|i: int| 0 <= i < o2.len() implies #[trigger] self.live(o2[i]) by {
                if i < p {
                    assert(old_self.live(o[i]));
                } else {
                    assert(old_self.live(o[i + 1]));
                }
            }
            assert forall|i: int|
                0 <= i < o2.len() implies (#[trigger] self.slot(o2[i])).left == (if i == 0 {
                None
            } else {
                Some(o2[i - 1])
            }) by {
                if i < p {
                    assert(o2[i] == o[i]);
                    assert(o[i] != h);
                    if p < n - 1 {
                        assert(o[i] != o[p + 1]);
                    }
                    assert(old_self.live(o[i]));
                    if i < p - 1 {
                        assert(self.slots@[o[i] as int] == old_self.slots@[o[i] as int]);
                    }
                    assert(old_self.slot(o[i]).left == (if i == 0 {
                        None
                    } else {
                        Some(o[i - 1])
                    }));
                } else if i == p {
                    assert(o2[i] == o[i + 1]);
                    assert(o[i + 1] != h);
                } else {
                    assert(o2[i] == o[i + 1]);
                    assert(o2[i - 1] == o[i]);
                    assert(o[i + 1] != h);
                    assert(o[i + 1] != o[p + 1]);
                    if p > 0 {
                        assert(o[i + 1] != o[p - 1]);
                    }
                    assert(old_self.live(o[i + 1]));
                    assert(self.slots@[o[i + 1] as int] == old_self.slots@[o[i + 1] as int]);
                    assert(old_self.slot(o[i + 1]).left == Some(o[i]));
                }
            }
            assert forall|i: int|
                0 <= i < o2.len() implies (#[trigger] self.slot(o2[i])).right == (if i == o2.len()
                - 1 {
                None
            } else {
                Some(o2[i + 1])
            }) by {
                if i < p - 1 {
                    assert(o2[i] == o[i]);
                    assert(o2[i + 1] == o[i + 1]);
                    assert(o[i] != h);
                    assert(o[i] != o[p - 1]);
                    if p < n - 1 {
                        assert(o[i] != o[p + 1]);
                    }
                    assert(old_self.live(o[i]));
                    assert(self.slots@[o[i] as int] == old_self.slots@[o[i] as int]);
                    assert(old_self.slot(o[i]).right == Some(o[i + 1]));
                } else if i == p - 1 {
                    assert(o2[i] == o[i]);
                    assert(o[i] != h);
                    if p < n - 1 {
                        assert(o[i] != o[p + 1]);
                    }
                } else {
                    assert(o2[i] == o[i + 1]);
                    assert(o[i + 1] != h);
                    if p > 0 {
                        assert(o[i + 1] != o[p - 1]);
                    }
                    if i > p {
                        assert(o[i + 1] != o[p + 1]);
                        assert(old_self.live(o[i + 1]));
                        assert(self.slots@[o[i + 1] as int] == old_self.slots@[o[i + 1] as int]);
                    }
                    if i + 1 < n - 1 {
                        assert(o2[i + 1] == o[i + 2]);
                    }
                    assert(old_self.slot(o[i + 1]).right == (if i + 1 == n - 1 {
                        None
                    } else {
                        Some(o[i + 2])
                    }));
                }
            }
            assert forall|k: int|
                0 <= k < self.free@.len() implies #[trigger] self.free@[k] < self.slots@.len()
                && !self.live(self.free@[k]) by {
                if k < old_self.free@.len() {
                    assert(old_self.free@[k] == self.free@[k]);
                    assert(!old_self.live(old_self.free@[k]));
                }
            }
            assert forall|k: int, l: int|
                0 <= k < l < self.free@.len() implies self.free@[k] != self.free@[l] by {
                if l == old_self.free@.len() {
                    assert(!old_self.live(old_self.free@[k]));
                }
            }
            assert(self@ =~= old_self@.remove(p)) by {
                assert forall|i: int| 0 <= i < o2.len() implies self.slot(o2[i]).key == old_self.slot(
                    o2[i],
                ).key && self.slot(o2[i]).value == old_self.slot(o2[i]).value by {
                    if i < p {
                        assert(old_self.live(o[i]));
                    } else {
                        assert(old_self.live(o[i + 1]));
                    }
                }
            }
            assert forall|q: int| 0 <= q < n && o[q] == h implies q == p by {}
        }
        Some(DroppedEntry { key, value, left_of_dropped: left, right_of_dropped: right })
    }

    /// The entry at `h`, if `h` addresses a live one.
    pub fn entry(&self, h: usize) -> (r: Option<&CacheEntry<K, V>>)
        requires
            self.wf(),
        ensures
            !self.live(h) ==> r is None,
            forall|p: int|
                #![trigger self.handles()[p]]
                0 <= p < self.handles().len() && self.handles()[p] == h ==> (r matches Some(e) && e.key
                    == self@[p].0 && e.value == self@[p].1 && e.left == (if p == 0 {
                    None
                } else {
                    Some(self.handles()[p - 1])
                }) && e.right == (if p == self.handles().len() - 1 {
                    None
                } else {
                    Some(self.handles()[p + 1])
                })),
    {
        proof {
            self.lemma_wf();
        }
        if h < self.slots.len() {
            let r = self.slots[h].as_ref();
            proof {
                let o = self.handles();
                assert forall|p: int|
                    #![trigger o[p]]
                    0 <= p < o.len() && o[p] == h implies (r matches Some(e) && e.key == self@[p].0
                        && e.value == self@[p].1 && e.left == (if p == 0 {
                        None
                    } else {
                        Some(o[p - 1])
                    }) && e.right == (if p == o.len() - 1 {
                        None
                    } else {
                        Some(o[p + 1])
                    })) by {
                    assert(self.live(o[p]));
                    assert(self@[p] == (self.slot(h).key, self.slot(h).value));
                    assert(self.slot(o[p]).left == (if p == 0 {
                        None
                    } else {
                        Some(o[p - 1])
                    }));
                    assert(self.slot(o[p]).right == (if p == o.len() - 1 {
                        None
                    } else {
                        Some(o[p + 1])
                    }));
                }
            }
            r
        } else {
            proof {
                assert forall|p: int| 0 <= p < self.handles().len() implies self.handles()[p] != h by {
                    assert(self.live(self.handles()[p]));
                }
            }
            None
        }
    }

    /// The least recently used entry, if any.
    pub fn first(&self) -> (r: Option<&CacheEntry<K, V>>)
        requires
            self.wf(),
        ensures
            self@.len() == 0 ==> r is None,
            self@.len() > 0 ==> (r matches Some(e) && e.key == self@[0].0 && e.value == self@[0].1),
    {
        proof {
            self.lemma_wf();
        }
        match self.first {
            None => None,
            Some(f) => {
                proof {
                    assert(self.handles()[0] == f);
                }
                self.entry(f)
            },
        }
    }

    /// The most recently used entry, if any.
    pub fn last(&self) -> (r: Option<&CacheEntry<K, V>>)
        requires
            self.wf(),
        ensures
            self@.len() == 0 ==> r is None,
            self@.len() > 0 ==> (r matches Some(e) && e.key == self@.last().0 && e.value
                == self@.last().1),
    {
        proof {
            self.lemma_wf();
        }
        match self.last {
            None => None,
            Some(l) => {
                proof {
                    assert(self.handles()[self.handles().len() - 1] == l);
                }
                self.entry(l)
            },
        }
    }

    /// Frees the least recently used entry and gives back its key.
    pub fn reduce_by_one(&mut self) -> (r: Option<K>)
        requires
            old(self).wf(),
        ensures
            final(self).wf(),
            final(self).capacity_spec() == old(self).capacity_spec(),
            old(self)@.len() == 0 ==> r is None && final(self)@ == old(self)@ && final(self).handles()
                == old(self).handles(),
            old(self)@.len() > 0 ==> r == Some(old(self)@[0].0) && final(self)@ == old(self)@.subrange(
                1,
                old(self)@.len() as int,
            ) && final(self).handles() == old(self).handles().subrange(
                1,
                old(self).handles().len() as int,
            ),
    {
        proof {
            self.lemma_wf();
        }
        match self.first {
            None => None,
            Some(f) => {
                let ghost old_self = *self;
                let d = self.drop(f);
                proof {
                    assert(old_self.handles()[0] == f);
                    assert(old_self@.remove(0) =~= old_self@.subrange(1, old_self@.len() as int));
                    assert(old_self.handles().remove(0) =~= old_self.handles().subrange(
                        1,
                        old_self.handles().len() as int,
                    ));
                    assert(self@ =~= old_self@.subrange(1, old_self@.len() as int));
                    assert(self.handles() =~= old_self.handles().subrange(
                        1,
                        old_self.handles().len() as int,
                    ));
                }
                match d {
                    Some(d) => Some(d.key),
                    None => None,
                }
            },
        }
    }

    /// Adds `(key, value)` as the most recently used entry; when the store is
    /// full, the least recently used entry is evicted first and its key given
    /// back beside the new entry's handle.
    pub fn append(&mut self, key: K, value: V) -> (r: (usize, Option<K>))
        requires
            old(self).wf(),
            old(self).capacity_spec() > 0,
        ensures
            final(self).wf(),
            final(self).capacity_spec() == old(self).capacity_spec(),
            old(self)@.len() < old(self).capacity_spec() ==> {
                &&& r.1 is None
                &&& final(self)@ == old(self)@.push((key, value))
                &&& final(self).handles() == old(self).handles().push(r.0)
            },
            old(self)@.len() >= old(self).capacity_spec() ==> {
                &&& r.1 == Some(old(self)@[0].0)
                &&& final(self)@ == old(self)@.subrange(1, old(self)@.len() as int).push(
                    (key, value),
                )
                &&& final(self).handles() == old(self).handles().subrange(
                    1,
                    old(self).handles().len() as int,
                ).push(r.0)
            },
    {
        proof {
            self.lemma_wf();
        }
        let ghost old_self = *self;
        let evicted = if self.len >= self.capacity {
            self.reduce_by_one()
        } else {
            None
        };
        proof {
            self.lemma_wf();
            assert forall|x: usize| #[trigger] self.live(x) implies old_self.live(x) by {
                assert(self.handles().contains(x));
                let i = choose|i: int| 0 <= i < self.handles().len() && self.handles()[i] == x;
                if old_self@.len() >= old_self.capacity_spec() {
                    assert(old_self.handles()[i + 1] == x);
                } else {
                    assert(old_self.handles()[i] == x);
                }
            }
        }
        let h = self.link_last(key, value);
        (h, evicted)
    }
}

impl<K, V: CacheValue> CacheEntries<K, V> {
    /// Reads the entry at `h` and makes it the most recently used one; it
    /// keeps its handle.
    pub fn read(&mut self, h: usize) -> (r: V)
        requires
            old(self).wf(),
            old(self).live(h),
        ensures
            final(self).wf(),
            final(self).capacity_spec() == old(self).capacity_spec(),
            forall|p: int|
                #![trigger old(self).handles()[p]]
                0 <= p < old(self).handles().len() && old(self).handles()[p] == h ==> {
                    &&& r == old(self)@[p].1
                    &&& final(self)@ == old(self)@.remove(p).push(old(self)@[p])
                    &&& final(self).handles() == old(self).handles().remove(p).push(h)
                },
    {
        proof {
            self.lemma_wf();
        }
        let ghost old_self = *self;
        proof {
            assert(old_self.handles().contains(h));
        }
        let ghost p = choose|p: int| 0 <= p < old_self.handles().len() && old_self.handles()[p] == h;
        proof {
            assert(0 <= p < old_self.handles().len() && old_self.handles()[p] == h);
        }
        let od = self.drop(h);
        proof {
            assert(od is Some);
        }
        let d = od.unwrap();
        proof {
            self.lemma_wf();
            assert(self@ == old_self@.remove(p));
            assert(d.key == old_self@[p].0 && d.value == old_self@[p].1);
        }
        let value = d.value.duplicate();
        let _ = self.link_last(d.key, d.value);
        proof {
            assert forall|q: int|
                0 <= q < old_self.handles().len() && old_self.handles()[q] == h implies q == p by {}
        }
        value
    }
}

} // verus!
