use crate::deque::DequeTypeRequirements;
use vstd::prelude::*;

verus! {

/// One item of a deque: its value and the handles of its neighbours.
#[derive(Debug, PartialEq)]
pub struct Item<T> {
    pub left: Option<usize>,
    pub right: Option<usize>,
    pub value: T,
}

impl<T> Item<T> {
    /// A detached item, linked to nothing.
    pub(crate) fn create(value: T) -> (r: Item<T>)
        ensures
            r.value == value,
            r.left is None,
            r.right is None,
    {
        Item { left: None, right: None, value }
    }

    pub fn value(&self) -> (r: &T)
        ensures
            *r == self.value,
    {
        &self.value
    }

    /// The handle of the item to the left, if any.
    pub fn left(&self) -> (r: Option<usize>)
        ensures
            r == self.left,
    {
        self.left
    }

    /// The handle of the item to the right, if any.
    pub fn right(&self) -> (r: Option<usize>)
        ensures
            r == self.right,
    {
        self.right
    }
}

impl<T: DequeTypeRequirements> Item<T> {
    /// Whether two items hold equal values.
    pub fn equal_values(&self, other: &Self) -> (r: bool)
        ensures
            r == (self.value == other.value),
    {
        self.value.same_value(&other.value)
    }
}

} // verus!
