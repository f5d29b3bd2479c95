//! The interface of a flat aggregate tree: a complete binary tree of partial
//! aggregates over a fixed block of leaves.
use vstd::prelude::*;

verus! {

use crate::monoid::{Monoid, fold};

/// A power of two: the leaf counts at which a flat array is a perfect
/// binary tree.
pub open spec fn is_pow2(w: nat) -> bool
    decreases w,
{
    if w == 0 {
        false
    } else if w == 1 {
        true
    } else {
        w % 2 == 0 && is_pow2(w / 2)
    }
}

/// A fixed-capacity aggregate tree over a monoid.
pub trait FAT<V: Monoid>: Sized {
    /// How many leaves the tree holds.
    spec fn cap(self) -> nat;

    /// The stored leaf values, in slot order.
    spec fn leaves(self) -> Seq<V>;

    /// The tree's structural soundness, established by the constructors and
    /// kept by every operation.
    spec fn wf(self) -> bool;

    /// Whether every cached internal aggregate agrees with the leaves below
    /// it; leaf writes break it until the parents are recomputed.
    spec fn sound(self) -> bool;

    /// A sound shape stores exactly one leaf value per slot.
    proof fn leaves_len(self)
        requires
            self.wf(),
        ensures
            self.leaves().len() == self.cap(),
    ;

    /// A sound shape is a perfect tree: its leaf count is a power of two.
    proof fn cap_pow2(self)
        requires
            self.wf(),
        ensures
            is_pow2(self.cap()),
            1 <= self.cap() <= usize::MAX / 4,
    ;

    /// Builds a tree holding the given values as its first leaves and the
    /// identity everywhere else.
    fn new(values: &[V]) -> (s: Self)
        requires
            values@.len() <= usize::MAX / 8,
        ensures
            s.wf(),
            s.sound(),
            s.cap() >= values@.len(),
            s.leaves().len() == s.cap(),
            forall|j: int| 0 <= j < values@.len() ==> s.leaves()[j] == values@[j],
            forall|j: int| values@.len() <= j < s.cap() ==> s.leaves()[j] == V::id(),
    ;

    /// Builds an empty tree of the given capacity.
    fn with_capacity(capacity: usize) -> (s: Self)
        requires
            1 <= capacity <= usize::MAX / 4,
            is_pow2(capacity as nat),
        ensures
            s.wf(),
            s.sound(),
            s.cap() == capacity,
            s.leaves() == Seq::new(capacity as nat, |j: int| V::id()),
    ;

    /// Overwrites a batch of leaves, a later duplicate winning, and
    /// recomputes the aggregates above each.
    fn update(&mut self, batch: &[(usize, V)])
        requires
            old(self).wf(),
            old(self).sound(),
            forall|i: int| 0 <= i < batch@.len() ==> (#[trigger] batch@[i]).0 < old(self).cap(),
        ensures
            final(self).wf(),
            final(self).sound(),
            final(self).cap() == old(self).cap(),
            final(self).leaves() == apply_batch(old(self).leaves(), batch@),
    ;

    /// Overwrites a contiguous run of leaves starting at the first, leaving
    /// the aggregates above them stale.
    fn update_ordered(&mut self, values: &[V])
        requires
            old(self).wf(),
            values@.len() <= old(self).cap(),
        ensures
            final(self).wf(),
            final(self).cap() == old(self).cap(),
            final(self).leaves().len() == old(self).leaves().len(),
            forall|j: int| 0 <= j < values@.len() ==> final(self).leaves()[j] == values@[j],
            forall|j: int|
                values@.len() <= j < final(self).cap() ==> final(self).leaves()[j] == old(
                    self,
                ).leaves()[j],
    ;

    /// Recomputes every internal aggregate bottom-up.
    fn update_parents(&mut self)
        requires
            old(self).wf(),
        ensures
            final(self).wf(),
            final(self).sound(),
            final(self).cap() == old(self).cap(),
            final(self).leaves() == old(self).leaves(),
    ;

    /// The aggregate of all leaves, in slot order.
    fn aggregate(&self) -> (r: V)
        requires
            self.wf(),
            self.sound(),
        ensures
            r == fold(self.leaves()),
    ;

    /// The aggregate of the leaves up to and including leaf `i`.
    fn prefix(&self, i: usize) -> (r: V)
        requires
            self.wf(),
            self.sound(),
            i < self.cap(),
        ensures
            r == fold(self.leaves().subrange(0, i + 1)),
    ;

    /// The aggregate of the leaves from leaf `i` on.
    fn suffix(&self, i: usize) -> (r: V)
        requires
            self.wf(),
            self.sound(),
            i < self.cap(),
        ensures
            r == fold(self.leaves().subrange(i as int, self.cap() as int)),
    ;
}

/// The leaves after a batch of indexed writes, a later write winning.
pub open spec fn apply_batch<V>(l: Seq<V>, batch: Seq<(usize, V)>) -> Seq<V>
    decreases batch.len(),
{
    if batch.len() == 0 {
        l
    } else {
        apply_batch(l, batch.drop_last()).update(batch.last().0 as int, batch.last().1)
    }
}

} // verus!
