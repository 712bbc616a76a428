//! A growable array of integers that grows its storage one slot at a time.

use vstd::prelude::*;

verus! {

/// A dynamic array of `usize` values.
pub struct MyVector {
    data: Vec<usize>,
    capacity: usize,
}

impl MyVector {
    /// The stored values, in order.
    pub closed spec fn view(&self) -> Seq<usize> {
        self.data@
    }

    /// The number of slots reserved.
    pub closed spec fn capacity_spec(&self) -> nat {
        self.capacity as nat
    }

    pub closed spec fn wf(&self) -> bool {
        self.data@.len() <= self.capacity
    }

    pub fn new() -> (r: MyVector)
        ensures
            r.wf(),
            r@ == Seq::<usize>::empty(),
            r.capacity_spec() == 0,
    {
        MyVector { data: Vec::new(), capacity: 0 }
    }

    pub fn len(&self) -> (r: usize)
        ensures
            r == self@.len(),
    {
        self.data.len()
    }

    /// Whether `index` addresses a stored value.
    pub fn has(&self, index: usize) -> (r: bool)
        ensures
            r == (index < self@.len()),
    {
        index < self.data.len()
    }

    pub fn get(&self, index: usize) -> (r: &usize)
        requires
            index < self@.len(),
        ensures
            *r == self@[index as int],
    {
        &self.data[index]
    }

    /// The first value that `predicate` accepts, if any.
    pub fn find<F: Fn(&usize) -> bool>(&self, predicate: F) -> (r: Option<&usize>)
        requires
            forall|i: int| 0 <= i < self@.len() ==> predicate.requires((&self@[i],)),
        ensures
            match r {
                Some(v) => exists|i: int|
                    0 <= i < self@.len() && *v == self@[i] && predicate.ensures((&self@[i],), true)
                        && forall|j: int|
                        0 <= j < i ==> predicate.ensures((&self@[j],), false),
                None => forall|i: int|
                    0 <= i < self@.len() ==> predicate.ensures((&self@[i],), false),
            },
    {
        let mut n: usize = 0;
        while n < self.data.len()
            invariant
                n <= self@.len(),
                forall|i: int| 0 <= i < self@.len() ==> predicate.requires((&self@[i],)),
                forall|j: int| 0 <= j < n ==> predicate.ensures((&self@[j],), false),
            decreases self@.len() - n,
        {
            let v = self.get(n);
            if predicate(v) {
                return Some(v);
            }
            n = n + 1;
        }
        None
    }

    /// Moves the values into fresh storage of `new_capacity` slots.
    fn resize(&mut self, new_capacity: usize)
        requires
            old(self).wf(),
            new_capacity >= old(self)@.len(),
        ensures
            final(self).wf(),
            final(self)@ == old(self)@,
            final(self).capacity_spec() == new_capacity,
    {
        let mut moved: Vec<usize> = Vec::with_capacity(new_capacity);
        let mut i: usize = 0;
        while i < self.data.len()
            invariant
                i <= self@.len(),
                moved@ == self@.subrange(0, i as int),
            decreases self@.len() - i,
        {
            moved.push(self.data[i]);
            i = i + 1;
        }
        proof {
            assert(moved@ =~= self@);
        }
        self.data = moved;
        self.capacity = new_capacity;
    }

    /// Appends `element`, growing the storage by one slot when it is full.
    pub fn add(&mut self, element: usize)
        requires
            old(self).wf(),
            old(self)@.len() < usize::MAX,
        ensures
            final(self).wf(),
            final(self)@ == old(self)@.push(element),
    {
        if self.data.len() >= self.capacity {
            self.resize(self.capacity + 1);
        }
        self.data.push(element);
    }

    /// Removes the value at `index`, shifting the later values down; the
    /// storage keeps its size.
    pub fn drop(&mut self, index: usize)
        requires
            old(self).wf(),
            index < old(self)@.len(),
        ensures
            final(self).wf(),
            final(self)@ == old(self)@.remove(index as int),
            final(self).capacity_spec() == old(self).capacity_spec(),
    {
        let _ = self.data.remove(index);
    }

    /// A cursor over the values, from the first.
    pub fn into_iter(&self) -> (r: MyVectorIteratorState<'_>)
        ensures
            r.vec == self,
            r.current == 0,
    {
        MyVectorIteratorState { vec: self, current: 0 }
    }
}

/// A cursor over a `MyVector`.
pub struct MyVectorIteratorState<'a> {
    pub vec: &'a MyVector,
    pub current: usize,
}

impl<'a> MyVectorIteratorState<'a> {
    /// The value under the cursor, moving the cursor on; `None` past the end.
    pub fn next(&mut self) -> (r: Option<&'a usize>)
        ensures
            final(self).vec == old(self).vec,
            old(self).current < old(self).vec@.len() ==> r == Some(&old(self).vec@[old(self).current as int])
                && final(self).current == old(self).current + 1,
            old(self).current >= old(self).vec@.len() ==> r is None && final(self).current == old(self).current,
    {
        if self.current < self.vec.len() {
            let i = self.current;
            self.current = self.current + 1;
            Some(self.vec.get(i))
        } else {
            None
        }
    }
}

} // verus!
