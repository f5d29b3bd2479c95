//! Sliding-window aggregation: maintain a window of values under insertion
//! and eviction, and answer the combined value of the window under a binary
//! associative operator with identity.
use vstd::prelude::*;

pub mod daba;
pub mod fat;
pub mod fiba;
pub mod flat_fat;
pub mod foa;
pub mod monoid;
pub mod ra;
pub mod ra_item;
pub mod rfs;
pub mod slide_side;
pub mod soe;
pub mod stack;
pub mod two_stacks;

verus! {

use crate::monoid::{Monoid, fold};

/// A first-in-first-out aggregation window over a monoid: values enter at the
/// back, leave at the front, and `query` combines all resident values in
/// arrival order.
pub trait Window<V: Monoid>: Sized {
    /// The resident values, oldest first.
    spec fn contents(self) -> Seq<V>;

    fn new() -> (w: Self)
        ensures
            w.contents() == Seq::<V>::empty(),
    ;

    fn insert(&mut self, v: V)
        ensures
            final(self).contents() == old(self).contents().push(v),
    ;

    fn evict(&mut self)
        ensures
            final(self).contents() == (if old(self).contents().len() == 0 {
                old(self).contents()
            } else {
                old(self).contents().drop_first()
            }),
    ;

    fn query(&self) -> (r: V)
        ensures
            r == fold(self.contents()),
    ;
}

/// A time-keyed aggregation window over a monoid: entries carry a totally
/// ordered time, eviction names the time to drop, and `query` combines all
/// resident values in time order.
pub trait TimeWindow<V: Monoid>: Sized {
    /// The resident entries as time-sorted (time, value) pairs.
    spec fn contents(self) -> Seq<(i64, V)>;

    fn new() -> (w: Self)
        ensures
            w.contents() == Seq::<(i64, V)>::empty(),
    ;

    fn insert(&mut self, t: i64, v: V)
        ensures
            final(self).contents() == crate::fiba::insert_entry(old(self).contents(), t, v),
    ;

    fn evict(&mut self, t: i64)
        ensures
            final(self).contents() == crate::fiba::remove_entry(old(self).contents(), t),
    ;

    fn query(&self) -> (r: V)
        ensures
            r == fold(crate::fiba::vals_of(self.contents())),
    ;

    fn range_query(&self, range: core::ops::Range<i64>) -> (r: V)
        ensures
            r == fold(
                crate::fiba::vals_of(
                    crate::fiba::range_filter(self.contents(), range.start, range.end),
                ),
            ),
    ;
}

/// A multi-query window: one stream of values feeding several concurrent
/// count-based ranges, each with its own running aggregate over the most
/// recent values.
pub trait MultiWindow<V: Monoid>: Sized {
    /// The structure's soundness, established by `new` and kept by `insert`.
    spec fn wf(self) -> bool;

    /// Every value inserted so far, in arrival order.
    spec fn stream(self) -> Seq<V>;

    /// How many queries the window serves: one per input range.
    spec fn queries_len(self) -> nat;

    /// How many recent values query `i` spans.
    spec fn width(self, i: int) -> int;

    fn new(ranges: &[core::ops::Range<i32>]) -> (w: Self)
        ensures
            w.wf(),
            w.stream() == Seq::<V>::empty(),
            w.queries_len() == ranges@.len(),
            forall|i: int|
                0 <= i < ranges@.len() ==> #[trigger] w.width(i)
                    == crate::slide_side::range_width(ranges@[i]),
    ;

    fn insert(&mut self, v: V)
        requires
            old(self).wf(),
        ensures
            final(self).wf(),
            final(self).stream() == old(self).stream().push(v),
            final(self).queries_len() == old(self).queries_len(),
            forall|i: int|
                0 <= i < old(self).queries_len() ==> #[trigger] final(self).width(i) == old(
                    self,
                ).width(i),
    ;
}

/// A persistent first-in-first-out window: insertion and eviction return the
/// successor window and leave the receiver usable.
pub trait FunctionalWindow<V: Monoid>: Sized {
    /// The structure's soundness, established by `new` and kept by the
    /// successor windows.
    spec fn wf(self) -> bool;

    /// The resident values, oldest first.
    spec fn contents(self) -> Seq<V>;

    fn new() -> (w: Self)
        ensures
            w.wf(),
            w.contents() == Seq::<V>::empty(),
    ;

    fn insert(&self, v: V) -> (w: Self)
        requires
            self.wf(),
        ensures
            w.wf(),
            w.contents() == self.contents().push(v),
    ;

    fn evict(&self) -> (w: Self)
        requires
            self.wf(),
        ensures
            w.wf(),
            w.contents() == (if self.contents().len() == 0 {
                self.contents()
            } else {
                self.contents().drop_first()
            }),
    ;

    fn query(&self) -> (r: V)
        requires
            self.wf(),
        ensures
            r == fold(self.contents()),
    ;
}

} // verus!
