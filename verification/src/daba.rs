//! De-Amortized Banker's Aggregator: one value sequence and one parallel
//! aggregate sequence, partitioned by four cursors into front-front,
//! front-left, front-right, accumulator and back segments, each slot caching
//! the fold of a stated span of values. After each operation one `fixup`
//! step rebalances the partition, so no operation ever pays for a whole
//! recomputation, and the window query is the cached front aggregate
//! combined with the cached back aggregate.
use vstd::prelude::*;

verus! {

use std::collections::VecDeque;
use crate::monoid::{Monoid, fold, lemma_fold_app, lemma_fold_first, lemma_fold_push};

/// The fold of the values in slots `[from, to)`.
pub open spec fn seg_fold<V: Monoid>(v: Seq<V>, from: int, to: int) -> V {
    fold(v.subrange(from, to))
}

proof fn lemma_seg_empty<V: Monoid>(v: Seq<V>, p: int)
    requires
        0 <= p <= v.len(),
    ensures
        seg_fold(v, p, p) == V::id(),
{
    assert(v.subrange(p, p) =~= Seq::<V>::empty());
}

proof fn lemma_seg_app<V: Monoid>(v: Seq<V>, a: int, b: int, c: int)
    requires
        0 <= a <= b <= c <= v.len(),
    ensures
        seg_fold(v, a, c) == V::op(seg_fold(v, a, b), seg_fold(v, b, c)),
{
    assert(v.subrange(a, b) + v.subrange(b, c) =~= v.subrange(a, c));
    lemma_fold_app::<V>(v.subrange(a, b), v.subrange(b, c));
}

proof fn lemma_seg_first<V: Monoid>(v: Seq<V>, p: int, q: int)
    requires
        0 <= p < q <= v.len(),
    ensures
        seg_fold(v, p, q) == V::op(v[p], seg_fold(v, p + 1, q)),
{
    lemma_fold_first::<V>(v.subrange(p, q));
    assert(v.subrange(p, q)[0] == v[p]);
    assert(v.subrange(p, q).drop_first() =~= v.subrange(p + 1, q));
}

proof fn lemma_seg_push<V: Monoid>(v: Seq<V>, x: V, a: int, b: int)
    requires
        0 <= a <= b <= v.len(),
    ensures
        seg_fold(v.push(x), a, b) == seg_fold(v, a, b),
{
    assert(v.push(x).subrange(a, b) =~= v.subrange(a, b));
}

proof fn lemma_seg_shift<V: Monoid>(v: Seq<V>, a: int, b: int)
    requires
        1 <= a <= b <= v.len(),
    ensures
        seg_fold(v.drop_first(), a - 1, b - 1) == seg_fold(v, a, b),
{
    assert(v.drop_first().subrange(a - 1, b - 1) =~= v.subrange(a, b));
}

pub struct DABA<V: Monoid> {
    vals: VecDeque<V>,
    aggs: VecDeque<V>,
    l: usize,
    r: usize,
    a: usize,
    b: usize,
}

impl<V: Monoid> DABA<V> {
    /// The five cached-aggregate disciplines of the segments, over the slots
    /// `[0, l)` and `[a, b)` (suffix folds to the end of the front), `[l, r)`
    /// (suffix folds to the front-left's end), `[r, a)` and `[b, len)`
    /// (prefix folds from the segment's start).
    pub closed spec fn segs(self) -> bool {
        let v = self.vals@;
        let g = self.aggs@;
        &&& (forall|p: int|
            0 <= p < self.l || self.a <= p < self.b ==> #[trigger] g[p] == seg_fold(
                v,
                p,
                self.b as int,
            ))
        &&& (forall|p: int|
            self.l <= p < self.r ==> #[trigger] g[p] == seg_fold(v, p, self.r as int))
        &&& (forall|p: int|
            self.r <= p < self.a ==> #[trigger] g[p] == seg_fold(v, self.r as int, p + 1))
        &&& (forall|p: int|
            self.b <= p < v.len() ==> #[trigger] g[p] == seg_fold(v, self.b as int, p + 1))
    }

    /// Cursor ordering, the equal lengths of front-left and front-right, the
    /// length balance that de-amortizes the rotation, and the segment
    /// aggregate disciplines.
    pub closed spec fn wf(self) -> bool {
        let n = self.vals@.len() as int;
        &&& self.vals@.len() == self.aggs@.len()
        &&& self.l <= self.r <= self.a <= self.b <= self.vals@.len()
        &&& self.r - self.l == self.a - self.r
        &&& (n > 0 ==> n + 1 == self.b + self.l)
        &&& self.segs()
    }

    /// The resident values, oldest first.
    pub closed spec fn contents(self) -> Seq<V> {
        self.vals@
    }

    pub fn new() -> (w: DABA<V>)
        ensures
            w.wf(),
            w.contents() == Seq::<V>::empty(),
    {
        DABA { vals: VecDeque::new(), aggs: VecDeque::new(), l: 0, r: 0, a: 0, b: 0 }
    }

    fn agg_f(&self) -> (x: V)
        requires
            self.wf(),
        ensures
            x == seg_fold(self.vals@, 0, self.b as int),
    {
        if self.aggs.len() == 0 {
            proof {
                lemma_seg_empty::<V>(self.vals@, 0);
            }
            V::identity()
        } else {
            proof {
                assert(self.l >= 1);
            }
            self.aggs[0]
        }
    }

    fn agg_b(&self) -> (x: V)
        requires
            self.wf(),
        ensures
            x == seg_fold(self.vals@, self.b as int, self.vals@.len() as int),
    {
        if self.b == self.aggs.len() || self.aggs.len() == 0 {
            proof {
                lemma_seg_empty::<V>(self.vals@, self.b as int);
            }
            V::identity()
        } else {
            self.aggs[self.aggs.len() - 1]
        }
    }

    fn agg_l(&self) -> (x: V)
        requires
            self.vals@.len() == self.aggs@.len(),
            self.l <= self.r <= self.a <= self.b <= self.vals@.len(),
            self.segs(),
        ensures
            x == seg_fold(self.vals@, self.l as int, self.r as int),
    {
        if self.l == self.r {
            proof {
                lemma_seg_empty::<V>(self.vals@, self.l as int);
            }
            V::identity()
        } else {
            self.aggs[self.l]
        }
    }

    fn agg_r(&self) -> (x: V)
        requires
            self.vals@.len() == self.aggs@.len(),
            self.l <= self.r <= self.a <= self.b <= self.vals@.len(),
            self.segs(),
        ensures
            x == seg_fold(self.vals@, self.r as int, self.a as int),
    {
        if self.r == self.a {
            proof {
                lemma_seg_empty::<V>(self.vals@, self.r as int);
            }
            V::identity()
        } else {
            self.aggs[self.a - 1]
        }
    }

    fn agg_a(&self) -> (x: V)
        requires
            self.vals@.len() == self.aggs@.len(),
            self.l <= self.r <= self.a <= self.b <= self.vals@.len(),
            self.segs(),
        ensures
            x == seg_fold(self.vals@, self.a as int, self.b as int),
    {
        if self.a == self.b {
            proof {
                lemma_seg_empty::<V>(self.vals@, self.a as int);
            }
            V::identity()
        } else {
            self.aggs[self.a]
        }
    }

    /// Overwrite one cached aggregate slot.
    fn set_agg(&mut self, i: usize, x: V)
        requires
            i < old(self).aggs@.len(),
        ensures
            final(self).vals@ == old(self).vals@,
            final(self).aggs@ == old(self).aggs@.update(i as int, x),
            final(self).l == old(self).l,
            final(self).r == old(self).r,
            final(self).a == old(self).a,
            final(self).b == old(self).b,
    {
        let e = self.aggs.remove(i).unwrap();
        self.aggs.insert(i, x);
        proof {
            assert(self.aggs@ =~= old(self).aggs@.update(i as int, x));
        }
    }

    /// One de-amortized rebalancing step: normalize a freshly emptied front,
    /// reinterpret an exhausted front as front-left and front-right, advance
    /// past an empty front-left, or shrink front-left and front-right by one
    /// element each.
    #[verifier::rlimit(100)]
    fn fixup(&mut self)
        requires
            old(self).vals@.len() == old(self).aggs@.len(),
            old(self).l <= old(self).r <= old(self).a <= old(self).b <= old(self).vals@.len(),
            old(self).r - old(self).l == old(self).a - old(self).r,
            old(self).vals@.len() > 0 ==> old(self).vals@.len() == old(self).b + old(self).l
                || old(self).b == 0,
            old(self).b == 0 ==> old(self).vals@.len() <= 1,
            old(self).segs(),
        ensures
            final(self).wf(),
            final(self).contents() == old(self).contents(),
    {
        let ghost v = self.vals@;
        let n = self.aggs.len();
        if self.b == 0 {
            // the front was emptied; at most one value remains, and its
            // cached back aggregate doubles as its front aggregate
            self.l = n;
            self.r = n;
            self.a = n;
            self.b = n;
            proof {
                if n == 1 {
                    assert(self.aggs@[0] == seg_fold(v, 0, 1));
                }
            }
        } else {
            if self.l == self.b {
                // the front is exhausted: relabel it front-left and the back
                // front-right; the length balance makes the two halves equal
                self.l = 0;
                self.a = n;
                self.b = n;
                proof {
                    assert(n == 2 * self.r);
                }
            }
            if self.l == self.r {
                // front-left empty forces front-right empty; move all three
                // cursors past the accumulator's first slot, whose cached
                // suffix fold already reaches the front's end
                proof {
                    assert(self.a == self.l);
                    assert(self.a < self.b);
                }
                self.a = self.a + 1;
                self.r = self.r + 1;
                self.l = self.l + 1;
            } else {
                // shrink: the first front-left slot learns the suffix fold
                // to the front's end, the last front-right slot joins the
                // accumulator
                let x = self.agg_l().combine(&self.agg_r()).combine(&self.agg_a());
                proof {
                    lemma_seg_app::<V>(v, self.l as int, self.r as int, self.a as int);
                    lemma_seg_app::<V>(v, self.l as int, self.a as int, self.b as int);
                }
                let li = self.l;
                self.set_agg(li, x);
                self.l = self.l + 1;
                proof {
                    assert(self.a > self.r);
                }
                let y = self.vals[self.a - 1].combine(&self.agg_a());
                proof {
                    lemma_seg_first::<V>(v, self.a - 1, self.b as int);
                }
                let ai = self.a - 1;
                self.set_agg(ai, y);
                self.a = self.a - 1;
            }
        }
    }

    /// Append a value: its running back aggregate joins the cache, then one
    /// rebalance step runs.
    pub fn push(&mut self, v: V)
        requires
            old(self).wf(),
        ensures
            final(self).wf(),
            final(self).contents() == old(self).contents().push(v),
    {
        let ghost ov = self.vals@;
        let ghost n = self.vals@.len() as int;
        let x = self.agg_b().combine(&v);
        self.aggs.push_back(x);
        self.vals.push_back(v);
        proof {
            lemma_fold_push::<V>(ov.subrange(old(self).b as int, n), v);
            assert(self.vals@.subrange(old(self).b as int, n + 1) =~= ov.subrange(
                old(self).b as int,
                n,
            ).push(v));
            assert(self.aggs@[n] == seg_fold(self.vals@, self.b as int, n + 1));
            assert forall|p: int, q: int|
                0 <= p <= q <= n implies #[trigger] seg_fold(self.vals@, p, q) == seg_fold(
                ov,
                p,
                q,
            ) by {
                lemma_seg_push::<V>(ov, v, p, q);
            }
            assert(self.segs());
        }
        self.fixup();
    }

    /// Drop the oldest value and shift every cursor down, then rebalance;
    /// the length balance keeps every cursor at least one while the window
    /// is nonempty.
    pub fn pop(&mut self)
        requires
            old(self).wf(),
        ensures
            final(self).wf(),
            final(self).contents() == (if old(self).contents().len() == 0 {
                old(self).contents()
            } else {
                old(self).contents().drop_first()
            }),
    {
        if self.vals.len() > 0 {
            let ghost ov = self.vals@;
            let ghost og = self.aggs@;
            proof {
                assert(self.l >= 1);
            }
            self.vals.pop_front();
            self.aggs.pop_front();
            self.l = self.l - 1;
            self.r = self.r - 1;
            self.a = self.a - 1;
            self.b = self.b - 1;
            proof {
                assert(self.vals@ =~= ov.drop_first());
                assert(self.aggs@ =~= og.drop_first());
                assert forall|p: int| 0 <= p < self.aggs@.len() implies self.aggs@[p] == og[p
                    + 1] by {
                    assert(og.drop_first()[p] == og[p + 1]);
                }
                assert forall|p: int|
                    0 <= p < self.l || self.a <= p < self.b implies #[trigger] self.aggs@[p]
                    == seg_fold(self.vals@, p, self.b as int) by {
                    assert(self.aggs@[p] == og[p + 1]);
                    assert(og[p + 1] == seg_fold(ov, p + 1, old(self).b as int));
                    lemma_seg_shift::<V>(ov, p + 1, old(self).b as int);
                }
                assert forall|p: int|
                    self.l <= p < self.r implies #[trigger] self.aggs@[p] == seg_fold(
                    self.vals@,
                    p,
                    self.r as int,
                ) by {
                    assert(self.aggs@[p] == og[p + 1]);
                    assert(og[p + 1] == seg_fold(ov, p + 1, old(self).r as int));
                    lemma_seg_shift::<V>(ov, p + 1, old(self).r as int);
                }
                assert forall|p: int|
                    self.r <= p < self.a implies #[trigger] self.aggs@[p] == seg_fold(
                    self.vals@,
                    self.r as int,
                    p + 1,
                ) by {
                    assert(self.aggs@[p] == og[p + 1]);
                    assert(og[p + 1] == seg_fold(ov, old(self).r as int, p + 2));
                    lemma_seg_shift::<V>(ov, old(self).r as int, p + 2);
                }
                assert forall|p: int|
                    self.b <= p < self.vals@.len() implies #[trigger] self.aggs@[p] == seg_fold(
                    self.vals@,
                    self.b as int,
                    p + 1,
                ) by {
                    assert(self.aggs@[p] == og[p + 1]);
                    assert(og[p + 1] == seg_fold(ov, old(self).b as int, p + 2));
                    lemma_seg_shift::<V>(ov, old(self).b as int, p + 2);
                }
                assert(self.segs());
            }
            self.fixup();
        }
    }

    /// The cached front aggregate combined with the cached back aggregate:
    /// the fold of every resident value in arrival order.
    pub fn query(&self) -> (r: V)
        requires
            self.wf(),
        ensures
            r == fold(self.contents()),
    {
        let r = self.agg_f().combine(&self.agg_b());
        proof {
            let n = self.vals@.len() as int;
            lemma_seg_app::<V>(self.vals@, 0, self.b as int, n);
            assert(self.vals@.subrange(0, n) =~= self.vals@);
        }
        r
    }
}

} // verus!
