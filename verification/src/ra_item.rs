//! Leaf values for the reactive aggregator: a value that may be absent, so
//! empty leaves act as the identity of the wrapped operator.
use vstd::prelude::*;

verus! {

use crate::monoid::Monoid;

/// The operator on optional values: absent operands drop out.
#[derive(Clone, Copy, PartialEq, Eq, Structural, Debug)]
pub struct Combine;

/// An optional window value; `None` stands for an empty leaf.
#[derive(Clone, Copy, PartialEq, Eq, Structural, Debug)]
pub struct Item<V> {
    pub value: Option<V>,
}

impl<V: Monoid> Item<V> {
    /// Which value this leaf holds, if any.
    pub open spec fn view(self) -> Option<V> {
        self.value
    }

    pub fn new(value: Option<V>) -> (r: Item<V>)
        ensures
            r@ == value,
    {
        Item { value }
    }

    /// The held value, or the operator's identity for an empty leaf.
    pub fn get_value(&self) -> (r: V)
        ensures
            r == (match self@ {
                Some(v) => v,
                None => V::id(),
            }),
    {
        match self.value {
            Some(v) => v,
            None => V::identity(),
        }
    }
}

impl<V: Monoid> Monoid for Item<V> {
    open spec fn id() -> Item<V> {
        Item { value: None }
    }

    open spec fn op(a: Item<V>, b: Item<V>) -> Item<V> {
        match (a.value, b.value) {
            (Some(x), Some(y)) => Item { value: Some(V::op(x, y)) },
            (Some(x), None) => Item { value: Some(x) },
            (None, Some(y)) => Item { value: Some(y) },
            (None, None) => Item { value: None },
        }
    }

    proof fn op_id(a: Item<V>) {
    }

    proof fn op_assoc(a: Item<V>, b: Item<V>, c: Item<V>) {
        match (a.value, b.value, c.value) {
            (Some(x), Some(y), Some(z)) => {
                V::op_assoc(x, y, z);
            },
            _ => {},
        }
    }

    fn identity() -> (r: Item<V>) {
        Item { value: None }
    }

    fn combine(&self, other: &Item<V>) -> (r: Item<V>) {
        match (self.value, other.value) {
            (Some(x), Some(y)) => Item { value: Some(x.combine(&y)) },
            (Some(x), None) => Item { value: Some(x) },
            (None, Some(y)) => Item { value: Some(y) },
            (None, None) => Item { value: None },
        }
    }
}

} // verus!
