use crate::deque::item::Item;
use crate::deque::Deque;
use vstd::prelude::*;

verus! {

/// A cursor that walks a deque from left to right.
pub struct DequeIterator<'a, T> {
    deque: &'a Deque<T>,
    current: Option<usize>,
    pos: Ghost<int>,
}

impl<'a, T> DequeIterator<'a, T> {
    /// The values walked over.
    pub closed spec fn items(&self) -> Seq<T> {
        self.deque@
    }

    /// How many items the cursor has passed.
    pub closed spec fn position(&self) -> int {
        self.pos@
    }

    pub closed spec fn wf(&self) -> bool {
        &&& self.deque.links.wf()
        &&& 0 <= self.pos@ <= self.deque@.len()
        &&& self.deque@.len() == self.deque.links.handles().len()
        &&& self.current == if self.pos@ < self.deque@.len() {
            Some(self.deque.links.handles()[self.pos@])
        } else {
            None
        }
    }

    pub(super) fn start(deque: &'a Deque<T>) -> (r: DequeIterator<'a, T>)
        requires
            deque.links.wf(),
        ensures
            r.wf(),
            r.items() == deque@,
            r.position() == 0,
    {
        proof {
            deque.links.lemma_wf();
        }
        DequeIterator { deque, current: deque.links.first, pos: Ghost(0) }
    }

    /// The item under the cursor, moving the cursor on; `None` past the end.
    pub fn next(&mut self) -> (r: Option<&'a Item<T>>)
        requires
            old(self).wf(),
        ensures
            final(self).wf(),
            final(self).items() == old(self).items(),
            old(self).position() < old(self).items().len() ==> (r matches Some(it) && it.value
                == old(self).items()[old(self).position()] && final(self).position() == old(
                self,
            ).position() + 1),
            old(self).position() >= old(self).items().len() ==> r is None && final(self).position()
                == old(self).position(),
    {
        match self.current {
            None => None,
            Some(h) => {
                let ghost p = self.pos@;
                proof {
                    assert(self.deque.links.handles()[p] == h);
                }
                let it = self.deque.links.item(h);
                self.current = it.right;
                self.pos = Ghost(p + 1);
                Some(it)
            },
        }
    }
}

} // verus!
