//! Recalculate-From-Scratch: the baseline window that stores every value and
//! folds the whole window on each query.
use vstd::prelude::*;

verus! {

use std::collections::VecDeque;
use crate::Window;
use crate::monoid::{Monoid, fold, lemma_fold_push};

pub struct RFS<V: Monoid> {
    stack: VecDeque<V>,
}

impl<V: Monoid> Window<V> for RFS<V> {
    closed spec fn contents(self) -> Seq<V> {
        self.stack@
    }

    fn new() -> (w: RFS<V>) {
        RFS { stack: VecDeque::new() }
    }

    fn insert(&mut self, v: V) {
        self.stack.push_back(v);
    }

    fn evict(&mut self) {
        self.stack.pop_front();
        proof {
            if old(self).stack@.len() > 0 {
                assert(final(self).stack@ =~= old(self).stack@.drop_first());
            }
        }
    }

    fn query(&self) -> (r: V) {
        let mut acc = V::identity();
        let mut i: usize = 0;
        proof {
            assert(self.stack@.take(0) =~= Seq::<V>::empty());
        }
        while i < self.stack.len()
            invariant
                i <= self.stack@.len(),
                acc == fold(self.stack@.take(i as int)),
            decreases self.stack@.len() - i,
        {
            let ghost pre = self.stack@.take(i as int);
            acc = acc.combine(&self.stack[i]);
            proof {
                lemma_fold_push::<V>(pre, self.stack@[i as int]);
                assert(self.stack@.take(i + 1) =~= pre.push(self.stack@[i as int]));
            }
            i = i + 1;
        }
        proof {
            assert(self.stack@.take(self.stack@.len() as int) =~= self.stack@);
        }
        acc
    }
}

} // verus!
