//! Reactive Aggregator: a ring of live leaves inside a flat aggregate tree,
//! doubling and halving the capacity as the window grows and shrinks; the
//! query combines a suffix and a prefix when the ring wraps.
use vstd::prelude::*;

verus! {

use crate::fat::{FAT, apply_batch, is_pow2};
use crate::flat_fat::FlatFAT;
use crate::monoid::{Monoid, fold, lemma_fold_subrange_app};

pub struct RA<V: Monoid> {
    fat: FlatFAT<V>,
    size: usize,
    front: usize,
    back: usize,
}

/// A span of identity leaves folds to the identity.
proof fn lemma_fold_ids<V: Monoid>(s: Seq<V>)
    requires
        forall|j: int| 0 <= j < s.len() ==> s[j] == V::id(),
    ensures
        fold(s) == V::id(),
    decreases s.len(),
{
    if s.len() > 0 {
        lemma_fold_ids(s.drop_last());
        V::op_id(V::id());
    }
}

impl<V: Monoid> RA<V> {
    /// Whether ring slot `j` holds a live value.
    spec fn live(self, j: int) -> bool {
        (self.front <= j < self.front + self.size) || (0 <= j + self.fat.cap() < self.front
            + self.size)
    }

    /// Ring soundness up to fullness: the tree is sound, the cursors stay
    /// inside it, the tail cursor sits `size` past the head modulo the
    /// capacity, and every dead leaf holds the identity.
    spec fn wf_full(self) -> bool {
        &&& self.fat.wf()
        &&& self.fat.sound()
        &&& self.fat.cap() <= usize::MAX / 4
        &&& self.size <= self.fat.cap()
        &&& self.front < self.fat.cap()
        &&& self.back < self.fat.cap()
        &&& (self.front + self.size < self.fat.cap() ==> self.back == self.front + self.size)
        &&& (self.front + self.size >= self.fat.cap() ==> self.back + self.fat.cap()
            == self.front + self.size)
        &&& (forall|j: int|
            0 <= j < self.fat.cap() && !self.live(j) ==> self.fat.leaves()[j] == V::id())
    }

    /// Ring soundness with at least one free slot, so the tail cursor's
    /// leaf is always dead.
    pub closed spec fn wf(self) -> bool {
        &&& self.wf_full()
        &&& self.size < self.fat.cap()
    }

    /// The live values in window order: oldest first, wrapping past the end
    /// of the leaf block.
    pub closed spec fn contents(self) -> Seq<V> {
        let c = self.fat.cap() as int;
        if self.front + self.size <= c {
            self.fat.leaves().subrange(self.front as int, self.front + self.size)
        } else {
            self.fat.leaves().subrange(self.front as int, c) + self.fat.leaves().subrange(
                0,
                self.front + self.size - c,
            )
        }
    }

    pub fn new() -> (w: RA<V>)
        ensures
            w.wf(),
            w.contents() == Seq::<V>::empty(),
    {
        let w = RA { fat: FlatFAT::with_capacity(1), size: 0, front: 0, back: 0 };
        proof {
            assert(w.contents() =~= Seq::<V>::empty());
        }
        w
    }

    pub fn with_capacity(capacity: usize) -> (w: RA<V>)
        requires
            1 <= capacity <= usize::MAX / 4,
        ensures
            w.wf(),
            w.contents() == Seq::<V>::empty(),
    {
        let mut cap: usize = 1;
        while cap < capacity && cap <= usize::MAX / 8
            invariant
                1 <= cap <= usize::MAX / 4,
                is_pow2(cap as nat),
                capacity <= usize::MAX / 4,
            decreases 2 * capacity - cap,
        {
            cap = cap * 2;
        }
        let w = RA { fat: FlatFAT::with_capacity(cap), size: 0, front: 0, back: 0 };
        proof {
            assert(w.contents() =~= Seq::<V>::empty());
        }
        w
    }

    /// Copy the live leaves, in window order, into a fresh tree of the given
    /// capacity and recompute its aggregates in one sweep.
    fn resize(&mut self, capacity: usize)
        requires
            old(self).wf_full(),
            1 <= capacity <= usize::MAX / 4,
            is_pow2(capacity as nat),
            old(self).size < capacity,
        ensures
            final(self).wf(),
            final(self).contents() == old(self).contents(),
    {
        proof {
            self.fat.leaves_len();
        }
        let cap = self.fat.capacity();
        let live = if self.front > self.back || self.size == cap {
            proof {
                assert(self.front + self.size >= self.fat.cap()) by {
                    if self.front + self.size < self.fat.cap() {
                        assert(self.back == self.front + self.size);
                    }
                }
            }
            let mut hi = self.fat.leaves_range(self.front, cap);
            let mut lo = self.fat.leaves_range(0, self.back);
            hi.append(&mut lo);
            proof {
                assert(hi@ =~= old(self).contents());
            }
            hi
        } else {
            proof {
                assert(self.front + self.size <= self.fat.cap()) by {
                    if self.front + self.size > self.fat.cap() {
                        assert(self.back + self.fat.cap() == self.front + self.size);
                        assert(self.back > self.front);
                        assert(self.back < self.fat.cap());
                        assert(false);
                    }
                }
                assert(self.back == self.front + self.size) by {
                    if self.front + self.size == self.fat.cap() {
                        assert(self.back == 0 || self.back + self.fat.cap() == self.front
                            + self.size);
                        assert(self.size < self.fat.cap());
                        assert(self.back + self.fat.cap() == self.front + self.size);
                        assert(self.back == self.front);
                        assert(self.size == self.fat.cap());
                        assert(false);
                    }
                }
            }
            let r = self.fat.leaves_range(self.front, self.back);
            proof {
                assert(r@ =~= old(self).contents());
            }
            r
        };
        proof {
            assert(live@.len() == old(self).size as int);
        }
        let mut fat = FlatFAT::with_capacity(capacity);
        proof {
            fat.leaves_len();
        }
        fat.update_ordered(live.as_slice());
        fat.update_parents();
        let size = self.size;
        let w = RA { fat, size, front: 0, back: size };
        proof {
            assert forall|j: int| 0 <= j < w.fat.cap() && !w.live(j) implies w.fat.leaves()[j]
                == V::id() by {
                assert(j >= size);
                assert(w.fat.leaves()[j] == Seq::new(capacity as nat, |k: int| V::id())[j]);
            }
            assert(w.contents() =~= live@);
        }
        *self = w;
    }

    /// Write the new value at the tail of the ring, growing the tree when
    /// three quarters of it are live. The window must stay far enough from
    /// the address-space limit for the tree to double.
    pub fn push(&mut self, v: V)
        requires
            old(self).wf(),
            old(self).contents().len() < usize::MAX / 16,
        ensures
            final(self).wf(),
            final(self).contents() == old(self).contents().push(v),
    {
        proof {
            self.fat.leaves_len();
        }
        let ghost olv = self.fat.leaves();
        let ghost c = self.fat.cap() as int;
        let mut batch: Vec<(usize, V)> = Vec::new();
        batch.push((self.back, v));
        let mut fat = FlatFAT::with_capacity(1);
        std::mem::swap(&mut fat, &mut self.fat);
        fat.update(batch.as_slice());
        std::mem::swap(&mut fat, &mut self.fat);
        proof {
            assert(self.fat.leaves() == apply_batch(olv, batch@));
            assert(batch@.drop_last() =~= Seq::<(usize, V)>::empty());
            assert(apply_batch(olv, batch@.drop_last()) == olv);
            assert(batch@.last() == (old(self).back, v));
            assert(apply_batch(olv, batch@) == apply_batch(olv, batch@.drop_last()).update(
                batch@.last().0 as int,
                batch@.last().1,
            ));
            assert(self.fat.leaves() == olv.update(old(self).back as int, v));
            self.fat.leaves_len();
        }
        self.size = self.size + 1;
        let cap = self.fat.capacity();
        self.back = (self.back + 1) % cap;
        proof {
            let fr = old(self).front as int;
            let sz = old(self).size as int;
            let bk = old(self).back as int;
            let lv = self.fat.leaves();
            if bk + 1 < c {
                assert((bk + 1) % c == bk + 1) by (nonlinear_arith)
                    requires
                        0 <= bk + 1 < c,
                ;
                assert(self.back == bk + 1);
            } else {
                assert(bk + 1 == c);
                assert(c % c == 0) by (nonlinear_arith)
                    requires
                        c >= 1,
                ;
                assert(self.back == 0);
            }
            assert forall|j: int| 0 <= j < c && !self.live(j) implies lv[j] == V::id() by {
                assert(!old(self).live(j));
                assert(j != bk);
            }
            if fr + sz < c {
                assert(bk == fr + sz);
                if fr + sz + 1 < c {
                    assert(self.back == bk + 1);
                } else {
                    assert(bk + 1 == c);
                    assert(self.back == 0);
                }
                assert(self.contents() =~= old(self).contents().push(v));
            } else {
                assert(bk + c == fr + sz);
                assert(bk < fr);
                assert(bk + 1 < c);
                assert(self.back == bk + 1);
                assert(old(self).contents() == olv.subrange(fr, c) + olv.subrange(0, bk));
                assert(lv.subrange(fr, c) =~= olv.subrange(fr, c));
                assert(lv.subrange(0, bk + 1) =~= olv.subrange(0, bk).push(v));
                assert(self.contents() =~= old(self).contents().push(v));
            }
        }
        if self.size > 3 * cap / 4 {
            proof {
                assert(self.fat.cap() <= usize::MAX / 8) by {
                    assert(3 * c / 4 < self.size);
                    assert(self.size <= usize::MAX / 16 + 1);
                }
            }
            proof {
                let cn = self.fat.cap();
                self.fat.cap_pow2();
                assert(is_pow2(2 * cn)) by {
                    assert(2 * cn != 0 && 2 * cn != 1);
                    assert((2 * cn) % 2 == 0);
                    assert((2 * cn) / 2 == cn);
                }
                assert((cap * 2) as nat == 2 * cn);
            }
            self.resize(cap * 2);
        } else {
            proof {
                assert(4 * self.size <= 3 * c + 3);
                assert(self.size < self.fat.cap());
            }
        }
    }

    /// Blank the oldest leaf, shrinking the tree when only a quarter of it
    /// remains live.
    pub fn pop(&mut self)
        requires
            old(self).wf(),
        ensures
            final(self).wf(),
            final(self).contents() == (if old(self).contents().len() == 0 {
                old(self).contents()
            } else {
                old(self).contents().drop_first()
            }),
    {
        if self.size == 0 {
            proof {
                self.fat.leaves_len();
                assert(self.contents() =~= Seq::<V>::empty());
            }
            return ;
        }
        proof {
            self.fat.leaves_len();
        }
        let ghost olv = self.fat.leaves();
        let ghost c = self.fat.cap() as int;
        let mut batch: Vec<(usize, V)> = Vec::new();
        batch.push((self.front, V::identity()));
        let mut fat = FlatFAT::with_capacity(1);
        std::mem::swap(&mut fat, &mut self.fat);
        fat.update(batch.as_slice());
        std::mem::swap(&mut fat, &mut self.fat);
        proof {
            assert(self.fat.leaves() == apply_batch(olv, batch@));
            assert(batch@.drop_last() =~= Seq::<(usize, V)>::empty());
            assert(apply_batch(olv, batch@.drop_last()) == olv);
            assert(batch@.last() == (old(self).front, V::id()));
            assert(apply_batch(olv, batch@) == apply_batch(olv, batch@.drop_last()).update(
                batch@.last().0 as int,
                batch@.last().1,
            ));
            assert(self.fat.leaves() == olv.update(old(self).front as int, V::id()));
            self.fat.leaves_len();
        }
        self.size = self.size - 1;
        let cap = self.fat.capacity();
        self.front = (self.front + 1) % cap;
        proof {
            let fr = old(self).front as int;
            let sz = old(self).size as int;
            let bk = old(self).back as int;
            let lv = self.fat.leaves();
            if fr + 1 < c {
                assert((fr + 1) % c == fr + 1) by (nonlinear_arith)
                    requires
                        0 <= fr + 1 < c,
                ;
                assert(self.front == fr + 1);
            } else {
                assert(fr + 1 == c);
                assert(c % c == 0) by (nonlinear_arith)
                    requires
                        c >= 1,
                ;
                assert(self.front == 0);
            }
            assert forall|j: int| 0 <= j < c && !self.live(j) implies lv[j] == V::id() by {
                if j != fr {
                    assert(!old(self).live(j));
                }
            }
            if fr + 1 < c {
                assert(self.front == fr + 1);
            } else {
                assert(fr + 1 == c);
                assert(self.front == 0);
            }
            if fr + sz <= c {
                assert(bk + c == fr + sz || bk == fr + sz);
                assert(old(self).contents() == olv.subrange(fr, fr + sz));
                assert(self.contents() =~= old(self).contents().drop_first());
            } else {
                assert(bk + c == fr + sz);
                assert(old(self).contents() == olv.subrange(fr, c) + olv.subrange(0, bk));
                if fr + 1 < c {
                    assert(lv.subrange(fr + 1, c) =~= olv.subrange(fr, c).drop_first());
                    assert(lv.subrange(0, bk) =~= olv.subrange(0, bk));
                    assert(self.contents() =~= old(self).contents().drop_first());
                } else {
                    assert(self.front == 0);
                    assert(self.contents() == lv.subrange(0, sz - 1));
                    assert(lv.subrange(0, bk) =~= olv.subrange(0, bk));
                    assert(self.contents() =~= old(self).contents().drop_first());
                }
            }
        }
        if self.size <= cap / 4 && cap >= 2 {
            proof {
                let cn = self.fat.cap();
                self.fat.cap_pow2();
                assert(cn >= 2);
                assert(cn % 2 == 0 && is_pow2(cn / 2));
                assert((cap / 2) as nat == cn / 2);
            }
            self.resize(cap / 2);
        }
    }

    /// The aggregate of the live values in window order: the whole tree, or
    /// a suffix joined to a prefix when the ring wraps.
    pub fn query(&self) -> (r: V)
        requires
            self.wf(),
        ensures
            r == fold(self.contents()),
    {
        let ghost lv = self.fat.leaves();
        let ghost c = self.fat.cap() as int;
        if self.front > self.back {
            proof {
                assert(self.front + self.size >= c);
            }
            let r = self.fat.suffix(self.front).combine(&self.fat.prefix(self.back));
            proof {
                self.fat.leaves_len();
                let wrap = self.front + self.size - c;
                assert(wrap == self.back as int);
                lemma_fold_subrange_app::<V>(lv, 0, wrap, self.back + 1);
                assert forall|k: int|
                    0 <= k < lv.subrange(wrap, self.back + 1).len() implies #[trigger] lv.subrange(
                    wrap,
                    self.back + 1,
                )[k] == V::id() by {
                    assert(lv.subrange(wrap, self.back + 1)[k] == lv[wrap + k]);
                    assert(!self.live(wrap + k));
                }
                lemma_fold_ids::<V>(lv.subrange(wrap, self.back + 1));
                V::op_id(fold(lv.subrange(0, wrap)));
                crate::monoid::lemma_fold_app::<V>(
                    lv.subrange(self.front as int, c),
                    lv.subrange(0, wrap),
                );
                assert(lv.subrange(self.front as int, c) + lv.subrange(0, wrap)
                    =~= self.contents());
            }
            r
        } else {
            proof {
                assert(self.front + self.size <= c) by {
                    if self.front + self.size > c {
                        assert(self.back + c == self.front + self.size);
                        assert(self.back > self.front);
                        assert(false);
                    }
                }
            }
            let r = self.fat.aggregate();
            proof {
                self.fat.leaves_len();
                let hi = self.front + self.size;
                lemma_fold_subrange_app::<V>(lv, 0, self.front as int, c);
                lemma_fold_subrange_app::<V>(lv, self.front as int, hi as int, c);
                assert forall|k: int|
                    0 <= k < lv.subrange(0, self.front as int).len() implies #[trigger] lv.subrange(
                    0,
                    self.front as int,
                )[k] == V::id() by {
                    assert(lv.subrange(0, self.front as int)[k] == lv[k]);
                    assert(!self.live(k));
                }
                assert forall|k: int|
                    0 <= k < lv.subrange(hi as int, c).len() implies #[trigger] lv.subrange(
                    hi as int,
                    c,
                )[k] == V::id() by {
                    assert(lv.subrange(hi as int, c)[k] == lv[hi + k]);
                    assert(!self.live(hi + k));
                }
                lemma_fold_ids::<V>(lv.subrange(0, self.front as int));
                lemma_fold_ids::<V>(lv.subrange(hi as int, c));
                V::op_id(fold(lv.subrange(self.front as int, hi as int)));
                assert(lv.subrange(0, c) =~= lv);
                assert(self.contents() == lv.subrange(self.front as int, hi as int));
            }
            r
        }
    }
}

} // verus!
