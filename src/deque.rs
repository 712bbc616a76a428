//! A double-ended queue: a doubly linked list of items held in an arena and
//! linked by integer handles.

pub mod item;
pub mod iterator;

use crate::deque::item::Item;
use crate::deque::iterator::DequeIterator;
use vstd::std_specs::cmp::PartialEqSpecImpl;
use vstd::prelude::*;

verus! {

/// Whatever a deque holds must offer an exact copy and an equality test.
pub trait DequeTypeRequirements: Sized {
    fn duplicate(&self) -> (r: Self)
        ensures
            r == *self,
    ;

    fn same_value(&self, other: &Self) -> (r: bool)
        ensures
            r == (*self == *other),
    ;
}

impl DequeTypeRequirements for usize {
    fn duplicate(&self) -> (r: usize) {
        *self
    }

    fn same_value(&self, other: &usize) -> (r: bool) {
        *self == *other
    }
}

impl DequeTypeRequirements for i64 {
    fn duplicate(&self) -> (r: i64) {
        *self
    }

    fn same_value(&self, other: &i64) -> (r: bool) {
        *self == *other
    }
}

/// The items of a deque, held in an arena and linked by handles: `first` is
/// the leftmost item, `last` the rightmost.
///
/// Freed slots are kept on a stack and reused before the arena grows.
pub(crate) struct LinkedItems<T> {
    slots: Vec<Option<Item<T>>>,
    free: Vec<usize>,
    first: Option<usize>,
    last: Option<usize>,
    len: usize,
    order: Ghost<Seq<usize>>,
}

impl<T> LinkedItems<T> {
    /// The handles of the items, from left to right.
    pub(crate) closed spec fn handles(&self) -> Seq<usize> {
        self.order@
    }

    /// Whether `h` addresses a live item.
    pub(crate) closed spec fn live(&self, h: usize) -> bool {
        h < self.slots@.len() && self.slots@[h as int] is Some
    }

    closed spec fn slot(&self, h: usize) -> Item<T> {
        self.slots@[h as int]->Some_0
    }

    /// The handle that the next item to be linked will get.
    pub(crate) closed spec fn next_handle(&self) -> usize {
        if self.free@.len() > 0 {
            self.free@.last()
        } else {
            self.slots@.len() as usize
        }
    }

    /// The values, from left to right.
    pub(crate) closed spec fn view(&self) -> Seq<T> {
        self.order@.map_values(|h: usize| self.slot(h).value)
    }

    pub(crate) closed spec fn wf(&self) -> bool {
        let o = self.order@;
        let n = o.len();
        &&& self.len as int == n
        &&& self.slots@.len() == n + self.free@.len()
        &&& forall|i: int| 0 <= i < n ==> #[trigger] self.live(o[i])
        &&& forall|i: int, j: int| 0 <= i < j < n ==> o[i] != o[j]
        &&& forall|h: usize| #[trigger] self.live(h) ==> o.contains(h)
        &&& forall|i: int|
            0 <= i < n ==> (#[trigger] self.slot(o[i])).left == (if i == 0 {
                None
            } else {
                Some(o[i - 1])
            })
        &&& forall|i: int|
            0 <= i < n ==> (#[trigger] self.slot(o[i])).right == (if i == n - 1 {
                None
            } else {
                Some(o[i + 1])
            })
        &&& self.first == (if n == 0 {
            None
        } else {
            Some(o[0])
        })
        &&& self.last == (if n == 0 {
            None
        } else {
            Some(o[n - 1])
        })
        &&& forall|k: int|
            0 <= k < self.free@.len() ==> #[trigger] self.free@[k] < self.slots@.len()
                && !self.live(self.free@[k])
        &&& forall|k: int, l: int| 0 <= k < l < self.free@.len() ==> self.free@[k] != self.free@[l]
    }

    /// Facts that follow from well-formedness.
    pub(crate) proof fn lemma_wf(&self)
        requires
            self.wf(),
        ensures
            self@.len() == self.handles().len(),
            forall|i: int, j: int|
                0 <= i < j < self.handles().len() ==> self.handles()[i] != self.handles()[j],
            forall|i: int| 0 <= i < self.handles().len() ==> #[trigger] self.live(self.handles()[i]),
            forall|h: usize| #[trigger] self.live(h) ==> self.handles().contains(h),
            !self.live(self.next_handle()),
    {
        if self.free@.len() > 0 {
            let k = self.free@.len() - 1;
            assert(!self.live(self.free@[k]));
        }
    }

    /// No items.
    pub(crate) fn create() -> (r: LinkedItems<T>)
        ensures
            r.wf(),
            r@ == Seq::<T>::empty(),
            r.handles() == Seq::<usize>::empty(),
    {
        let r = LinkedItems {
            slots: Vec::new(),
            free: Vec::new(),
            first: None,
            last: None,
            len: 0,
            order: Ghost(Seq::empty()),
        };
        assert(r@ =~= Seq::<T>::empty());
        r
    }

    /// The number of items.
    pub(crate) fn len(&self) -> (r: usize)
        requires
            self.wf(),
        ensures
            r == self@.len(),
    {
        self.len
    }

    /// Sets the right-neighbour link of the live item `h`.
    fn set_right(&mut self, h: usize, r: Option<usize>)
        requires
            old(self).live(h),
        ensures
            final(self).slots@ == old(self).slots@.update(
                h as int,
                Some(
                    (Item {
                        value: old(self).slot(h).value,
                        left: old(self).slot(h).left,
                        right: r,
                    }),
                ),
            ),
            final(self).free == old(self).free,
            final(self).first == old(self).first,
            final(self).last == old(self).last,
            final(self).len == old(self).len,
            final(self).order == old(self).order,
    {
        let mut tmp: Option<Item<T>> = None;
        self.slots.set_and_swap(h, &mut tmp);
        match tmp {
            Some(mut e) => {
                e.right = r;
                self.slots.set(h, Some(e));
            },
            None => {},
        }
    }

    /// Sets the left-neighbour link of the live item `h`.
    fn set_left(&mut self, h: usize, l: Option<usize>)
        requires
            old(self).live(h),
        ensures
            final(self).slots@ == old(self).slots@.update(
                h as int,
                Some(
                    (Item {
                        value: old(self).slot(h).value,
                        left: l,
                        right: old(self).slot(h).right,
                    }),
                ),
            ),
            final(self).free == old(self).free,
            final(self).first == old(self).first,
            final(self).last == old(self).last,
            final(self).len == old(self).len,
            final(self).order == old(self).order,
    {
        let mut tmp: Option<Item<T>> = None;
        self.slots.set_and_swap(h, &mut tmp);
        match tmp {
            Some(mut e) => {
                e.left = l;
                self.slots.set(h, Some(e));
            },
            None => {},
        }
    }

    /// Adds `x` at the right end.
    pub(crate) fn push_right(&mut self, x: T)
        requires
            old(self).wf(),
            old(self)@.len() < usize::MAX,
        ensures
            final(self).wf(),
            final(self)@ == old(self)@.push(x),
    {
        proof {
            self.lemma_wf();
        }
        let ghost old_self = *self;
        let h: usize = match self.free.pop() {
            Some(f) => f,
            None => {
                self.slots.push(None);
                self.slots.len() - 1
            },
        };
        assert(!old_self.live(h));
        let mut item = Item::create(x);
        item.left = self.last;
        self.slots.set(h, Some(item));
        match self.last {
            Some(l) => {
                proof {
                    assert(old_self.live(old_self.order@[old_self.order@.len() - 1]));
                }
                self.set_right(l, Some(h));
            },
            None => {
                self.first = Some(h);
            },
        }
        self.last = Some(h);
        self.len = self.len + 1;
        self.order = Ghost(self.order@.push(h));
        proof {
            let o = old_self.order@;
            let n = o.len();
            let o2 = self.order@;
            assert(forall|x: usize| x != h && #[trigger] self.live(x) ==> old_self.live(x));
            assert forall|x: usize| #[trigger] self.live(x) implies o2.contains(x) by {
                if x == h {
                    assert(o2[n as int] == x);
                } else {
                    let i = choose|i: int| 0 <= i < n && o[i] == x;
                    assert(o2[i] == x);
                }
            }
            assert forall|i: int| 0 <= i < o2.len() implies #[trigger] self.live(o2[i]) by {
                if i < n {
                    assert(old_self.live(o[i]));
                }
            }
            assert forall|i: int|
                0 <= i < o2.len() implies (#[trigger] self.slot(o2[i])).left == (if i == 0 {
                None
            } else {
                Some(o2[i - 1])
            }) by {
                if i < n {
                    assert(old_self.live(o[i]));
                    assert(old_self.slot(o[i]).left == (if i == 0 {
                        None
                    } else {
                        Some(o[i - 1])
                    }));
                }
            }
            assert forall|i: int|
                0 <= i < o2.len() implies (#[trigger] self.slot(o2[i])).right == (if i == o2.len()
                - 1 {
                None
            } else {
                Some(o2[i + 1])
            }) by {
                if i < n {
                    assert(old_self.live(o[i]));
                    assert(old_self.slot(o[i]).right == (if i == n - 1 {
                        None
                    } else {
                        Some(o[i + 1])
                    }));
                }
            }
            assert forall|k: int|
                0 <= k < self.free@.len() implies #[trigger] self.free@[k] < self.slots@.len()
                && !self.live(self.free@[k]) by {
                assert(old_self.free@[k] == self.free@[k]);
            }
            assert(self@ =~= old_self@.push(x)) by {
                assert forall|i: int| 0 <= i < n implies self.slot(o[i]) == old_self.slot(o[i])
                    || (i == n - 1) by {
                    assert(old_self.live(o[i]));
                }
                if n > 0 {
                    assert(old_self.live(o[n - 1]));
                }
            }
        }
    }

    /// Unlinks and frees the item at `h`, joining its neighbours, and gives
    /// back its value.
    #[verifier::rlimit(60)]
    fn unlink(&mut self, h: usize) -> (r: Option<T>)
        requires
            old(self).wf(),
        ensures
            final(self).wf(),
            !old(self).live(h) ==> r is None && *final(self) == *old(self),
            forall|p: int|
                #![trigger old(self).handles()[p]]
                0 <= p < old(self).handles().len() && old(self).handles()[p] == h ==> {
                    &&& r == Some(old(self)@[p])
                    &&& final(self)@ == old(self)@.remove(p)
                    &&& final(self).handles() == old(self).handles().remove(p)
                },
    {
        proof {
            self.lemma_wf();
        }
        if h >= self.slots.len() || self.slots[h].is_none() {
            proof {
                assert forall|p: int| 0 <= p < self.handles().len() implies self.handles()[p] != h by {
                    assert(self.live(self.handles()[p]));
                }
            }
            return None;
        }
        let ghost old_self = *self;
        let ghost o = self.order@;
        let ghost n = o.len();
        proof {
            assert(self.live(h));
            assert(o.contains(h));
        }
        let ghost p = choose|p: int| 0 <= p < n && o[p] == h;
        proof {
            assert(self.slot(o[p]).left == (if p == 0 { None } else { Some(o[p - 1]) }));
            assert(self.slot(o[p]).right == (if p == n - 1 { None } else { Some(o[p + 1]) }));
            if p > 0 {
                assert(self.live(o[p - 1]));
            }
            if p < n - 1 {
                assert(self.live(o[p + 1]));
            }
        }
        let mut tmp: Option<Item<T>> = None;
        self.slots.set_and_swap(h, &mut tmp);
        let e = match tmp {
            Some(e) => e,
            None => {
                return None;
            },
        };
        let Item { left, right, value } = e;
        match left {
            Some(l) => {
                self.set_right(l, right);
            },
            None => {
                self.first = right;
            },
        }
        match right {
            Some(r) => {
                self.set_left(r, left);
            },
            None => {
                self.last = left;
            },
        }
        proof {
            assert(left == (if p == 0 { None } else { Some(o[p - 1]) }));
            assert(right == (if p == n - 1 { None } else { Some(o[p + 1]) }));
            assert(self.slots@.len() == old_self.slots@.len());
            assert(self.slots@[h as int] is None);
            assert forall|x: usize|
                x != h && (p == 0 || x != o[p - 1]) && (p == n - 1 || x != o[p + 1]) && x
                    < self.slots@.len() implies self.slots@[x as int] == old_self.slots@[x as int] by {}
            if p > 0 {
                assert(self.slot(o[p - 1]).left == old_self.slot(o[p - 1]).left);
                assert(self.slot(o[p - 1]).right == right);
                assert(self.live(o[p - 1]));
            }
            if p < n - 1 {
                assert(self.slot(o[p + 1]).right == old_self.slot(o[p + 1]).right);
                assert(self.slot(o[p + 1]).left == left);
                assert(self.live(o[p + 1]));
            }
        }
        self.free.push(h);
        self.len = self.len - 1;
        self.order = Ghost(self.order@.remove(p));
        proof {
            let o2 = self.order@;
            assert forall|x: usize| #[trigger] self.live(x) implies o2.contains(x) by {
                assert(old_self.live(x));
                let i = choose|i: int| 0 <= i < n && o[i] == x;
                if i < p {
                    assert(o2[i] == x);
                } else {
                    assert(o2[i - 1] == x);
                }
            }
            assert forall|i: int| 0 <= i < o2.len() implies #[trigger] self.live(o2[i]) by {
                if i < p {
                    assert(old_self.live(o[i]));
                } else {
                    assert(old_self.live(o[i + 1]));
                }
            }
            assert forall|i: int|
                0 <= i < o2.len() implies (#[trigger] self.slot(o2[i])).left == (if i == 0 {
                None
            } else {
                Some(o2[i - 1])
            }) by {
                if i < p {
                    assert(o2[i] == o[i]);
                    assert(o[i] != h);
                    if p < n - 1 {
                        assert(o[i] != o[p + 1]);
                    }
                    assert(old_self.live(o[i]));
                    if i < p - 1 {
                        assert(self.slots@[o[i] as int] == old_self.slots@[o[i] as int]);
                    }
                    assert(old_self.slot(o[i]).left == (if i == 0 {
                        None
                    } else {
                        Some(o[i - 1])
                    }));
                } else if i == p {
                    assert(o2[i] == o[i + 1]);
                    assert(o[i + 1] != h);
                } else {
                    assert(o2[i] == o[i + 1]);
                    assert(o2[i - 1] == o[i]);
                    assert(o[i + 1] != h);
                    assert(o[i + 1] != o[p + 1]);
                    if p > 0 {
                        assert(o[i + 1] != o[p - 1]);
                    }
                    assert(old_self.live(o[i + 1]));
                    assert(self.slots@[o[i + 1] as int] == old_self.slots@[o[i + 1] as int]);
                    assert(old_self.slot(o[i + 1]).left == Some(o[i]));
                }
            }
            assert forall|i: int|
                0 <= i < o2.len() implies (#[trigger] self.slot(o2[i])).right == (if i == o2.len()
                - 1 {
                None
            } else {
                Some(o2[i + 1])
            }) by {
                if i < p - 1 {
                    assert(o2[i] == o[i]);
                    assert(o2[i + 1] == o[i + 1]);
                    assert(o[i] != h);
                    assert(o[i] != o[p - 1]);
                    if p < n - 1 {
                        assert(o[i] != o[p + 1]);
                    }
                    assert(old_self.live(o[i]));
                    assert(self.slots@[o[i] as int] == old_self.slots@[o[i] as int]);
                    assert(old_self.slot(o[i]).right == Some(o[i + 1]));
                } else if i == p - 1 {
                    assert(o2[i] == o[i]);
                    assert(o[i] != h);
                    if p < n - 1 {
                        assert(o[i] != o[p + 1]);
                    }
                } else {
                    assert(o2[i] == o[i + 1]);
                    assert(o[i + 1] != h);
                    if p > 0 {
                        assert(o[i + 1] != o[p - 1]);
                    }
                    if i > p {
                        assert(o[i + 1] != o[p + 1]);
                        assert(old_self.live(o[i + 1]));
                        assert(self.slots@[o[i + 1] as int] == old_self.slots@[o[i + 1] as int]);
                    }
                    if i + 1 < n - 1 {
                        assert(o2[i + 1] == o[i + 2]);
                    }
                    assert(old_self.slot(o[i + 1]).right == (if i + 1 == n - 1 {
                        None
                    } else {
                        Some(o[i + 2])
                    }));
                }
            }
            assert forall|k: int|
                0 <= k < self.free@.len() implies #[trigger] self.free@[k] < self.slots@.len()
                && !self.live(self.free@[k]) by {
                if k < old_self.free@.len() {
                    assert(old_self.free@[k] == self.free@[k]);
                    assert(!old_self.live(old_self.free@[k]));
                }
            }
            assert forall|k: int, l: int|
                0 <= k < l < self.free@.len() implies self.free@[k] != self.free@[l] by {
                if l == old_self.free@.len() {
                    assert(!old_self.live(old_self.free@[k]));
                }
            }
            assert(self@ =~= old_self@.remove(p)) by {
                assert forall|i: int| 0 <= i < o2.len() implies self.slot(o2[i]).value == old_self.slot(
                    o2[i],
                ).value by {
                    if i < p {
                        assert(old_self.live(o[i]));
                    } else {
                        assert(old_self.live(o[i + 1]));
                    }
                }
            }
            assert forall|q: int| 0 <= q < n && o[q] == h implies q == p by {}
        }
        Some(value)
    }


    /// Adds `x` at the left end.
    #[verifier::rlimit(40)]
    pub(crate) fn push_left(&mut self, x: T)
        requires
            old(self).wf(),
            old(self)@.len() < usize::MAX,
        ensures
            final(self).wf(),
            final(self)@ == seq![x] + old(self)@,
    {
        proof {
            self.lemma_wf();
        }
        let ghost old_self = *self;
        let h: usize = match self.free.pop() {
            Some(f) => f,
            None => {
                self.slots.push(None);
                self.slots.len() - 1
            },
        };
        assert(!old_self.live(h));
        let mut item = Item::create(x);
        item.right = self.first;
        self.slots.set(h, Some(item));
        match self.first {
            Some(f) => {
                proof {
                    assert(old_self.live(old_self.order@[0]));
                }
                self.set_left(f, Some(h));
            },
            None => {
                self.last = Some(h);
            },
        }
        self.first = Some(h);
        self.len = self.len + 1;
        self.order = Ghost(seq![h] + self.order@);
        proof {
            let o = old_self.order@;
            let n = o.len();
            let o2 = self.order@;
            assert(forall|i: int| 0 <= i < n ==> o2[i + 1] == o[i]);
            assert(o2[0] == h);
            assert(forall|x: usize| x != h && #[trigger] self.live(x) ==> old_self.live(x));
            assert forall|x: usize| #[trigger] self.live(x) implies o2.contains(x) by {
                if x == h {
                    assert(o2[0] == x);
                } else {
                    assert(old_self.live(x));
                    let i = choose|i: int| 0 <= i < n && o[i] == x;
                    assert(o2[i + 1] == x);
                }
            }
            assert forall|i: int| 0 <= i < o2.len() implies #[trigger] self.live(o2[i]) by {
                if i > 0 {
                    assert(old_self.live(o[i - 1]));
                }
            }
            assert forall|i: int, j: int| 0 <= i < j < o2.len() implies o2[i] != o2[j] by {
                if i > 0 {
                    assert(o2[i] == o[i - 1]);
                }
                assert(o2[j] == o[j - 1]);
                assert(old_self.live(o[j - 1]));
            }
            assert forall|i: int|
                0 <= i < o2.len() implies (#[trigger] self.slot(o2[i])).left == (if i == 0 {
                None
            } else {
                Some(o2[i - 1])
            }) by {
                if i > 0 {
                    assert(old_self.live(o[i - 1]));
                    assert(old_self.slot(o[i - 1]).left == (if i - 1 == 0 {
                        None
                    } else {
                        Some(o[i - 2])
                    }));
                }
            }
            assert forall|i: int|
                0 <= i < o2.len() implies (#[trigger] self.slot(o2[i])).right == (if i == o2.len()
                - 1 {
                None
            } else {
                Some(o2[i + 1])
            }) by {
                if i > 0 {
                    assert(old_self.live(o[i - 1]));
                    assert(old_self.slot(o[i - 1]).right == (if i - 1 == n - 1 {
                        None
                    } else {
                        Some(o[i])
                    }));
                }
            }
            assert forall|k: int|
                0 <= k < self.free@.len() implies #[trigger] self.free@[k] < self.slots@.len()
                && !self.live(self.free@[k]) by {
                assert(old_self.free@[k] == self.free@[k]);
            }
            assert(self@ =~= seq![x] + old_self@) by {
                assert forall|i: int| 0 <= i < n implies self.slot(o[i]).value == old_self.slot(
                    o[i],
                ).value by {
                    assert(old_self.live(o[i]));
                }
            }
        }
    }

    /// Takes the leftmost value out.
    pub(crate) fn pop_left(&mut self) -> (r: Option<T>)
        requires
            old(self).wf(),
        ensures
            final(self).wf(),
            old(self)@.len() == 0 ==> r is None && final(self)@ == old(self)@,
            old(self)@.len() > 0 ==> r == Some(old(self)@[0]) && final(self)@ == old(self)@.drop_first(),
    {
        proof {
            self.lemma_wf();
        }
        match self.first {
            None => None,
            Some(f) => {
                let ghost old_self = *self;
                proof {
                    assert(old_self.handles()[0] == f);
                }
                let r = self.unlink(f);
                proof {
                    assert(old_self@.remove(0) =~= old_self@.drop_first());
                }
                r
            },
        }
    }

    /// Takes the rightmost value out.
    pub(crate) fn pop_right(&mut self) -> (r: Option<T>)
        requires
            old(self).wf(),
        ensures
            final(self).wf(),
            old(self)@.len() == 0 ==> r is None && final(self)@ == old(self)@,
            old(self)@.len() > 0 ==> r == Some(old(self)@.last()) && final(self)@ == old(
                self,
            )@.drop_last(),
    {
        proof {
            self.lemma_wf();
        }
        match self.last {
            None => None,
            Some(l) => {
                let ghost old_self = *self;
                let ghost n = old_self.handles().len() - 1;
                proof {
                    assert(old_self.handles()[n] == l);
                }
                let r = self.unlink(l);
                proof {
                    assert(old_self@.remove(n) =~= old_self@.drop_last());
                }
                r
            },
        }
    }

    /// The leftmost item, if any.
    pub(crate) fn first(&self) -> (r: Option<&Item<T>>)
        requires
            self.wf(),
        ensures
            self@.len() == 0 ==> r is None,
            self@.len() > 0 ==> (r matches Some(it) && it.value == self@[0] && it.left is None && (
            it.right is None <==> self@.len() == 1)),
    {
        proof {
            self.lemma_wf();
        }
        match self.first {
            None => None,
            Some(f) => {
                proof {
                    assert(self.live(self.handles()[0]));
                }
                self.slots[f].as_ref()
            },
        }
    }

    /// The rightmost item, if any.
    pub(crate) fn last(&self) -> (r: Option<&Item<T>>)
        requires
            self.wf(),
        ensures
            self@.len() == 0 ==> r is None,
            self@.len() > 0 ==> (r matches Some(it) && it.value == self@.last() && it.right is None
                && (it.left is None <==> self@.len() == 1)),
    {
        proof {
            self.lemma_wf();
        }
        match self.last {
            None => None,
            Some(l) => {
                proof {
                    assert(self.live(self.handles()[self.handles().len() - 1]));
                }
                self.slots[l].as_ref()
            },
        }
    }

    /// The item at the live handle `h`.
    pub(crate) fn item(&self, h: usize) -> (r: &Item<T>)
        requires
            self.wf(),
            self.handles().contains(h),
        ensures
            forall|p: int|
                #![trigger self.handles()[p]]
                0 <= p < self.handles().len() && self.handles()[p] == h ==> {
                    &&& r.value == self@[p]
                    &&& r.right == (if p == self.handles().len() - 1 {
                        None
                    } else {
                        Some(self.handles()[p + 1])
                    })
                },
    {
        proof {
            self.lemma_wf();
            let p = choose|p: int| 0 <= p < self.handles().len() && self.handles()[p] == h;
            assert(self.live(self.handles()[p]));
        }
        self.slots[h].as_ref().unwrap()
    }
}

/// A double-ended queue of values.
pub struct Deque<T> {
    links: LinkedItems<T>,
}

impl<T> Deque<T> {
    #[verifier::type_invariant]
    spec fn inv(&self) -> bool {
        self.links.wf()
    }

    /// The values, from left to right.
    pub closed spec fn view(&self) -> Seq<T> {
        self.links@
    }

    /// An empty deque.
    pub fn create() -> (r: Deque<T>)
        ensures
            r@ == Seq::<T>::empty(),
    {
        Deque { links: LinkedItems::create() }
    }

    /// The number of values.
    pub fn len(&self) -> (r: usize)
        ensures
            r == self@.len(),
    {
        proof {
            use_type_invariant(self);
        }
        self.links.len()
    }

    /// Adds `x` at the left end.
    pub fn push_left(&mut self, x: T)
        requires
            old(self)@.len() < usize::MAX,
        ensures
            final(self)@ == seq![x] + old(self)@,
    {
        proof {
            use_type_invariant(&*self);
        }
        let mut links = LinkedItems::create();
        std::mem::swap(&mut links, &mut self.links);
        links.push_left(x);
        self.links = links;
    }

    /// Adds `x` at the right end.
    pub fn push_right(&mut self, x: T)
        requires
            old(self)@.len() < usize::MAX,
        ensures
            final(self)@ == old(self)@.push(x),
    {
        proof {
            use_type_invariant(&*self);
        }
        let mut links = LinkedItems::create();
        std::mem::swap(&mut links, &mut self.links);
        links.push_right(x);
        self.links = links;
    }

    /// Takes the leftmost value out.
    pub fn pop_left(&mut self) -> (r: Option<T>)
        ensures
            old(self)@.len() == 0 ==> r is None && final(self)@ == old(self)@,
            old(self)@.len() > 0 ==> r == Some(old(self)@[0]) && final(self)@ == old(self)@.drop_first(),
    {
        proof {
            use_type_invariant(&*self);
        }
        let mut links = LinkedItems::create();
        std::mem::swap(&mut links, &mut self.links);
        let r = links.pop_left();
        self.links = links;
        r
    }

    /// Takes the rightmost value out.
    pub fn pop_right(&mut self) -> (r: Option<T>)
        ensures
            old(self)@.len() == 0 ==> r is None && final(self)@ == old(self)@,
            old(self)@.len() > 0 ==> r == Some(old(self)@.last()) && final(self)@ == old(
                self,
            )@.drop_last(),
    {
        proof {
            use_type_invariant(&*self);
        }
        let mut links = LinkedItems::create();
        std::mem::swap(&mut links, &mut self.links);
        let r = links.pop_right();
        self.links = links;
        r
    }

    /// The leftmost item, if any.
    pub fn first(&self) -> (r: Option<&Item<T>>)
        ensures
            self@.len() == 0 ==> r is None,
            self@.len() > 0 ==> (r matches Some(it) && it.value == self@[0] && it.left is None && (
            it.right is None <==> self@.len() == 1)),
    {
        proof {
            use_type_invariant(self);
        }
        self.links.first()
    }

    /// The rightmost item, if any.
    pub fn last(&self) -> (r: Option<&Item<T>>)
        ensures
            self@.len() == 0 ==> r is None,
            self@.len() > 0 ==> (r matches Some(it) && it.value == self@.last() && it.right is None
                && (it.left is None <==> self@.len() == 1)),
    {
        proof {
            use_type_invariant(self);
        }
        self.links.last()
    }

    /// A cursor over the items, from the left end.
    pub fn into_iter(&self) -> (r: DequeIterator<'_, T>)
        ensures
            r.wf(),
            r.items() == self@,
            r.position() == 0,
    {
        proof {
            use_type_invariant(self);
        }
        DequeIterator::start(self)
    }
}

impl<T: DequeTypeRequirements> PartialEq for Deque<T> {
    /// Two deques are equal when they hold equal values in the same order.
    fn eq(&self, other: &Self) -> (r: bool) {
        proof {
            use_type_invariant(self);
            use_type_invariant(other);
        }
        if self.len() != other.len() {
            return false;
        }
        let n = self.len();
        let mut a = self.into_iter();
        let mut b = other.into_iter();
        let mut i: usize = 0;
        while i < n
            invariant
                n == self@.len(),
                n == other@.len(),
                a.wf(),
                b.wf(),
                a.items() == self@,
                b.items() == other@,
                a.position() == i,
                b.position() == i,
                i <= n,
                forall|j: int| 0 <= j < i ==> self@[j] == other@[j],
            decreases n - i,
        {
            let x = a.next();
            let y = b.next();
            match (x, y) {
                (Some(x), Some(y)) => {
                    if !x.value().same_value(y.value()) {
                        return false;
                    }
                },
                _ => {
                    return false;
                },
            }
            i = i + 1;
        }
        proof {
            assert(self@ =~= other@);
        }
        true
    }
}

impl<T: DequeTypeRequirements> PartialEqSpecImpl for Deque<T> {
    open spec fn obeys_eq_spec() -> bool {
        true
    }

    open spec fn eq_spec(&self, other: &Deque<T>) -> bool {
        self@ == other@
    }
}

impl<T: DequeTypeRequirements> Clone for Deque<T> {
    /// A deque of copies of the values, in the same order.
    fn clone(&self) -> (r: Self)
        ensures
            r@ == self@,
    {
        let mut cloned = Deque::create();
        let mut it = self.into_iter();
        let n = self.len();
        let mut i: usize = 0;
        while i < n
            invariant
                n == self@.len(),
                it.wf(),
                it.items() == self@,
                it.position() == i,
                i <= n,
                cloned@ == self@.subrange(0, i as int),
            decreases n - i,
        {
            match it.next() {
                Some(item) => {
                    cloned.push_right(item.value().duplicate());
                },
                None => {},
            }
            i = i + 1;
        }
        proof {
            assert(self@.subrange(0, n as int) =~= self@);
        }
        cloned
    }
}

} // verus!
