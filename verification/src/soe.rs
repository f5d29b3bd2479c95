//! Subtract-On-Evict: stores the values and a running aggregate; eviction
//! combines the inverse of the departing value into the aggregate, which is
//! sound because the operator here is a commutative group.
use vstd::prelude::*;

verus! {

use std::collections::VecDeque;
use crate::Window;
use crate::monoid::{Monoid, Group, fold, lemma_fold_push, lemma_fold_first};

pub struct SOE<V: Group> {
    stack: VecDeque<V>,
    agg: V,
}

impl<V: Group> SOE<V> {
    #[verifier::type_invariant]
    spec fn inv(self) -> bool {
        self.agg == fold(self.stack@)
    }
}

impl<V: Group> Window<V> for SOE<V> {
    closed spec fn contents(self) -> Seq<V> {
        self.stack@
    }

    fn new() -> (w: SOE<V>) {
        SOE { stack: VecDeque::new(), agg: V::identity() }
    }

    fn insert(&mut self, v: V) {
        proof {
            use_type_invariant(&*self);
        }
        let mut tmp = SOE { stack: VecDeque::new(), agg: V::identity() };
        std::mem::swap(&mut tmp, self);
        let SOE { mut stack, agg } = tmp;
        let agg = agg.combine(&v);
        stack.push_back(v);
        proof {
            lemma_fold_push::<V>(old(self).stack@, v);
        }
        *self = SOE { stack, agg };
    }

    fn evict(&mut self) {
        proof {
            use_type_invariant(&*self);
        }
        let mut tmp = SOE { stack: VecDeque::new(), agg: V::identity() };
        std::mem::swap(&mut tmp, self);
        let SOE { mut stack, agg } = tmp;
        let mut agg = agg;
        if let Some(top) = stack.pop_front() {
            agg = agg.combine(&top.inverse());
            proof {
                let s = old(self).stack@;
                let f = s[0];
                let rest = s.drop_first();
                lemma_fold_first::<V>(s);
                // (f ⊕ fold(rest)) ⊕ f⁻¹  ==  fold(rest)
                V::op_assoc(f, fold(rest), V::inv(f));
                V::op_comm(fold(rest), V::inv(f));
                V::op_assoc(f, V::inv(f), fold(rest));
                V::op_inv(f);
                V::op_id(fold(rest));
                assert(stack@ =~= rest);
            }
        }
        *self = SOE { stack, agg };
    }

    fn query(&self) -> (r: V) {
        proof {
            use_type_invariant(&*self);
        }
        self.agg
    }
}

} // verus!
