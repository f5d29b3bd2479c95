//! Two-Stacks: a FIFO monoid aggregator built from two stacks whose entries
//! cache the aggregate of everything below them; popping from an empty front
//! stack drains the back stack, reversing it while rebuilding the caches.
use vstd::prelude::*;

verus! {

use crate::Window;
use crate::monoid::{Monoid, fold, lemma_fold_push, lemma_fold_first, lemma_fold_singleton, lemma_fold_app};

struct Item<V> {
    agg: V,
    val: V,
}

/// The values stored in a stack, bottom first.
spec fn vals<V: Monoid>(s: Seq<Item<V>>) -> Seq<V> {
    s.map_values(|it: Item<V>| it.val)
}

/// Front-stack cache discipline: each entry's `agg` is its own value combined
/// with the aggregate of the entry below it.
spec fn front_ok<V: Monoid>(s: Seq<Item<V>>) -> bool {
    forall|i: int|
        0 <= i < s.len() ==> s[i].agg == V::op(
            s[i].val,
            if i == 0 {
                V::id()
            } else {
                s[i - 1].agg
            },
        )
}

/// Back-stack cache discipline: each entry's `agg` is the aggregate of the
/// entry below it combined with its own value.
spec fn back_ok<V: Monoid>(s: Seq<Item<V>>) -> bool {
    forall|i: int|
        0 <= i < s.len() ==> s[i].agg == V::op(
            if i == 0 {
                V::id()
            } else {
                s[i - 1].agg
            },
            s[i].val,
        )
}

/// In a back stack the top cache is the fold of the stored values.
proof fn lemma_back_agg<V: Monoid>(s: Seq<Item<V>>)
    requires
        back_ok::<V>(s),
        s.len() > 0,
    ensures
        s.last().agg == fold(vals(s)),
    decreases s.len(),
{
    if s.len() == 1 {
        lemma_fold_singleton::<V>(s[0].val);
        V::op_id(s[0].val);
        assert(vals(s) =~= seq![s[0].val]);
    } else {
        lemma_back_agg::<V>(s.drop_last());
        assert(vals(s).drop_last() =~= vals(s.drop_last()));
        assert(vals(s).last() == s.last().val);
    }
}

/// In a front stack the top cache is the fold of the stored values in
/// reverse order, i.e. in arrival order of the window.
proof fn lemma_front_agg<V: Monoid>(s: Seq<Item<V>>)
    requires
        front_ok::<V>(s),
        s.len() > 0,
    ensures
        s.last().agg == fold(vals(s).reverse()),
    decreases s.len(),
{
    let rev = vals(s).reverse();
    if s.len() == 1 {
        lemma_fold_singleton::<V>(s[0].val);
        V::op_id(s[0].val);
        assert(rev =~= seq![s[0].val]);
    } else {
        lemma_front_agg::<V>(s.drop_last());
        assert(rev[0] == s.last().val);
        assert(rev.drop_first() =~= vals(s.drop_last()).reverse());
        lemma_fold_first::<V>(rev);
    }
}

pub struct TwoStacks<V: Monoid> {
    front: Vec<Item<V>>,
    back: Vec<Item<V>>,
}

impl<V: Monoid> TwoStacks<V> {
    #[verifier::type_invariant]
    spec fn inv(self) -> bool {
        front_ok::<V>(self.front@) && back_ok::<V>(self.back@)
    }

    fn agg(stack: &Vec<Item<V>>) -> (r: V)
        ensures
            r == (if stack@.len() == 0 {
                V::id()
            } else {
                stack@.last().agg
            }),
    {
        if stack.len() > 0 {
            stack[stack.len() - 1].agg
        } else {
            V::identity()
        }
    }
}

impl<V: Monoid> Window<V> for TwoStacks<V> {
    closed spec fn contents(self) -> Seq<V> {
        vals(self.front@).reverse() + vals(self.back@)
    }

    fn new() -> (w: TwoStacks<V>) {
        let w = TwoStacks { front: Vec::new(), back: Vec::new() };
        proof {
            assert(w.contents() =~= Seq::<V>::empty());
        }
        w
    }

    fn insert(&mut self, v: V) {
        proof {
            use_type_invariant(&*self);
        }
        let mut tmp = TwoStacks { front: Vec::new(), back: Vec::new() };
        std::mem::swap(&mut tmp, self);
        let TwoStacks { front, mut back } = tmp;
        let agg = Self::agg(&back).combine(&v);
        back.push(Item { agg, val: v });
        proof {
            if old(self).back@.len() > 0 {
                lemma_back_agg::<V>(old(self).back@);
            } else {
                V::op_id(v);
            }
            assert(vals(back@) =~= vals(old(self).back@).push(v));
            lemma_fold_push::<V>(vals(old(self).back@), v);
            assert(back_ok::<V>(back@));
        }
        *self = TwoStacks { front, back };
        proof {
            assert(self.contents() =~= old(self).contents().push(v));
        }
    }

    fn evict(&mut self) {
        proof {
            use_type_invariant(&*self);
        }
        let mut tmp = TwoStacks { front: Vec::new(), back: Vec::new() };
        std::mem::swap(&mut tmp, self);
        let TwoStacks { mut front, mut back } = tmp;
        let ghost all = vals(front@).reverse() + vals(back@);
        if front.len() == 0 {
            proof {
                assert(vals(back@) + vals(front@).reverse() =~= all);
            }
            // Drain the back stack into the front stack, reversing the order
            // and rebuilding the cached aggregates in front orientation.
            while back.len() > 0
                invariant
                    front_ok::<V>(front@),
                    back_ok::<V>(back@),
                    vals(back@) + vals(front@).reverse() =~= all,
                decreases back@.len(),
            {
                let top = back.pop().unwrap();
                let agg = top.val.combine(&Self::agg(&front));
                proof {
                    if front@.len() > 0 {
                        lemma_front_agg::<V>(front@);
                    } else {
                        V::op_id(top.val);
                        assert(vals(front@).reverse() =~= Seq::<V>::empty());
                    }
                }
                let ghost prev_front = front@;
                front.push(Item { agg, val: top.val });
                proof {
                    lemma_fold_first::<V>(vals(front@).reverse());
                    assert(vals(front@).reverse()[0] == top.val);
                    assert(vals(front@).reverse().drop_first() =~= vals(prev_front).reverse());
                    assert(front_ok::<V>(front@));
                    assert(vals(back@) + vals(front@).reverse() =~= all);
                }
            }
            proof {
                assert(vals(front@).reverse() + vals(back@) =~= all);
            }
        }
        let ghost pre = front@;
        front.pop();
        *self = TwoStacks { front, back };
        proof {
            if all.len() == 0 {
                assert(pre.len() == 0);
                assert(self.contents() =~= old(self).contents());
            } else {
                assert(pre.len() > 0);
                assert(front@ == pre.drop_last());
                assert(vals(pre).reverse().drop_first() =~= vals(pre.drop_last()).reverse());
                assert(self.contents() =~= old(self).contents().drop_first());
            }
        }
    }

    fn query(&self) -> (r: V) {
        proof {
            use_type_invariant(&*self);
        }
        let r = Self::agg(&self.front).combine(&Self::agg(&self.back));
        proof {
            let f = vals(self.front@).reverse();
            let b = vals(self.back@);
            if self.front@.len() > 0 {
                lemma_front_agg::<V>(self.front@);
            } else {
                assert(f =~= Seq::<V>::empty());
            }
            if self.back@.len() > 0 {
                lemma_back_agg::<V>(self.back@);
            }
            lemma_fold_app::<V>(f, b);
        }
        r
    }
}


} // verus!
