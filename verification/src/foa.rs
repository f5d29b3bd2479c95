//! Functional Okasaki Aggregator: three persistent lists whose elements
//! carry cumulative aggregates of their own list direction; a rotation
//! rebuilds the front from the back incrementally, one credit charged to
//! each operation, and the window query combines the two head caches.
use vstd::prelude::*;

verus! {

use crate::FunctionalWindow;
use crate::monoid::{Monoid, fold, lemma_fold_app, lemma_fold_first, lemma_fold_push};
use crate::stack::List;

/// One stored value with the cumulative aggregate of its list direction.
#[derive(Clone, Copy)]
pub struct Elem<V> {
    val: V,
    agg: V,
}

/// The values a list stores, head first.
spec fn vals<V: Monoid>(l: List<Elem<V>>) -> Seq<V> {
    l@.map_values(|e: Elem<V>| e.val)
}

/// The head's cached aggregate; the identity for an empty list.
spec fn head_agg<V: Monoid>(l: Seq<Elem<V>>) -> V {
    if l.len() == 0 {
        V::id()
    } else {
        l[0].agg
    }
}

/// Front-direction discipline: every cache is its value combined with the
/// cache below, so the head cache folds the list's values in order.
spec fn front_ok<V: Monoid>(l: Seq<Elem<V>>) -> bool
    decreases l.len(),
{
    l.len() == 0 || (l[0].agg == V::op(l[0].val, head_agg(l.drop_first())) && front_ok(
        l.drop_first(),
    ))
}

/// Back-direction discipline: every cache is the cache below combined with
/// its value, so the head cache folds the values in reverse order.
spec fn back_ok<V: Monoid>(l: Seq<Elem<V>>) -> bool
    decreases l.len(),
{
    l.len() == 0 || (l[0].agg == V::op(head_agg(l.drop_first()), l[0].val) && back_ok(
        l.drop_first(),
    ))
}

proof fn lemma_front_head<V: Monoid>(l: Seq<Elem<V>>)
    requires
        front_ok(l),
    ensures
        head_agg(l) == fold(l.map_values(|e: Elem<V>| e.val)),
    decreases l.len(),
{
    let vs = l.map_values(|e: Elem<V>| e.val);
    if l.len() == 0 {
        assert(vs =~= Seq::<V>::empty());
    } else {
        lemma_front_head(l.drop_first());
        assert(l.drop_first().map_values(|e: Elem<V>| e.val) =~= vs.drop_first());
        lemma_fold_first::<V>(vs);
        assert(vs[0] == l[0].val);
    }
}

proof fn lemma_back_head<V: Monoid>(l: Seq<Elem<V>>)
    requires
        back_ok(l),
    ensures
        head_agg(l) == fold(l.map_values(|e: Elem<V>| e.val).reverse()),
    decreases l.len(),
{
    let vs = l.map_values(|e: Elem<V>| e.val);
    if l.len() == 0 {
        assert(vs.reverse() =~= Seq::<V>::empty());
    } else {
        lemma_back_head(l.drop_first());
        assert(l.drop_first().map_values(|e: Elem<V>| e.val) =~= vs.drop_first());
        assert(vs.reverse() =~= vs.drop_first().reverse().push(vs[0]));
        lemma_fold_push::<V>(vs.drop_first().reverse(), vs[0]);
    }
}

pub struct FOA<V: Monoid> {
    front: List<Elem<V>>,
    next: List<Elem<V>>,
    back: List<Elem<V>>,
}

impl<V: Monoid> FOA<V> {
    fn agg(list: &List<Elem<V>>) -> (r: V)
        ensures
            r == head_agg(list@),
    {
        match list.head() {
            Some(e) => e.agg,
            None => V::identity(),
        }
    }

    /// The incremental rotation: prepend the reversed second list to the
    /// first, rebuilding every front-direction cache along the way.
    fn rot(front: List<Elem<V>>, n: List<Elem<V>>, acc: List<Elem<V>>) -> (r: List<Elem<V>>)
        requires
            n@.len() == front@.len() + 1,
            front_ok(front@),
            back_ok(n@),
            front_ok(acc@),
        ensures
            front_ok(r@),
            vals(r) == vals(front) + vals(n).reverse() + vals(acc),
        decreases front@.len(),
    {
        let e = n.head().unwrap();
        let a = e.val.combine(&Self::agg(&acc));
        let acc2 = acc.cons(Elem { val: e.val, agg: a });
        proof {
            assert(acc2@.drop_first() =~= acc@);
            assert(front_ok(acc2@));
        }
        if front.is_empty() {
            proof {
                assert(n@.len() == 1);
                assert(vals(n)[0] == e.val);
                assert(vals(acc2) =~= seq![e.val] + vals(acc));
                assert(vals(n).reverse() =~= seq![e.val]);
                assert(vals(acc2) =~= vals(front) + vals(n).reverse() + vals(acc));
            }
            acc2
        } else {
            let h = front.head().unwrap();
            let ft = front.tail();
            let nt = n.tail();
            proof {
                assert(ft@ =~= front@.drop_first());
                assert(nt@ =~= n@.drop_first());
                assert(front_ok(ft@));
                assert(back_ok(nt@));
            }
            let rest = Self::rot(ft, nt, acc2);
            let ra = h.val.combine(&Self::agg(&rest));
            let r = rest.cons(Elem { val: h.val, agg: ra });
            proof {
                assert(r@.drop_first() =~= rest@);
                assert(front_ok(r@));
                assert(vals(ft) =~= vals(front).drop_first());
                assert(vals(nt) =~= vals(n).drop_first());
                assert(vals(n)[0] == e.val);
                assert(vals(front)[0] == h.val);
                assert(vals(acc2) =~= seq![e.val] + vals(acc));
                assert(vals(n).reverse() =~= vals(n).drop_first().reverse().push(vals(n)[0]));
                assert(vals(r) =~= seq![h.val] + vals(rest));
                assert(vals(r) =~= vals(front) + vals(n).reverse() + vals(acc));
            }
            r
        }
    }

    /// Restore the queue discipline: rotate when the amortization credit is
    /// spent, otherwise consume one credit.
    fn makeq(&self) -> (w: FOA<V>)
        requires
            front_ok(self.front@),
            back_ok(self.back@),
            self.next@.len() + self.back@.len() == self.front@.len() + 1,
        ensures
            w.wf(),
            w.contents() == self.contents(),
    {
        if self.next.is_empty() {
            let acc0: List<Elem<V>> = List::empty();
            proof {
                assert(vals(acc0) =~= Seq::<V>::empty());
            }
            let front = Self::rot(self.front.clone_list(), self.back.clone_list(), acc0);
            proof {
                assert(vals(front) =~= vals(self.front) + vals(self.back).reverse());
            }
            let w = FOA { next: front.clone_list(), front, back: List::empty() };
            proof {
                assert(w.contents() =~= self.contents());
            }
            w
        } else {
            let w = FOA {
                front: self.front.clone_list(),
                next: self.next.tail(),
                back: self.back.clone_list(),
            };
            w
        }
    }
}

impl<V: Monoid> FunctionalWindow<V> for FOA<V> {
    /// Both caches disciplined, and one rotation credit left per resident
    /// value of the back list.
    closed spec fn wf(self) -> bool {
        &&& front_ok(self.front@)
        &&& back_ok(self.back@)
        &&& self.next@.len() + self.back@.len() == self.front@.len()
    }

    /// The values of the front list, then the back list's values in reverse:
    /// oldest first.
    closed spec fn contents(self) -> Seq<V> {
        vals(self.front) + vals(self.back).reverse()
    }

    fn new() -> (w: FOA<V>) {
        let w = FOA { front: List::empty(), next: List::empty(), back: List::empty() };
        proof {
            assert(w.contents() =~= Seq::<V>::empty());
        }
        w
    }

    /// The successor window with `v` appended.
    fn insert(&self, v: V) -> (w: FOA<V>) {
        let a = Self::agg(&self.back).combine(&v);
        let mid = FOA {
            front: self.front.clone_list(),
            next: self.next.clone_list(),
            back: self.back.cons(Elem { val: v, agg: a }),
        };
        proof {
            assert(mid.back@.drop_first() =~= self.back@);
            assert(back_ok(mid.back@));
            assert(vals(mid.back) =~= seq![v] + vals(self.back));
            assert(vals(mid.back).reverse() =~= vals(self.back).reverse().push(v));
            assert(mid.contents() =~= self.contents().push(v));
        }
        mid.makeq()
    }

    /// The successor window with the oldest value dropped; the empty window
    /// is its own successor.
    fn evict(&self) -> (w: FOA<V>) {
        if self.front.is_empty() {
            proof {
                assert(self.back@.len() == 0);
                assert(self.contents() =~= Seq::<V>::empty());
            }
            let w = FOA { front: List::empty(), next: List::empty(), back: List::empty() };
            proof {
                assert(w.contents() =~= Seq::<V>::empty());
            }
            w
        } else {
            let mid = FOA {
                front: self.front.tail(),
                next: self.next.clone_list(),
                back: self.back.clone_list(),
            };
            proof {
                assert(front_ok(mid.front@));
                assert(vals(mid.front) =~= vals(self.front).drop_first());
                assert(mid.contents() =~= self.contents().drop_first());
            }
            mid.makeq()
        }
    }

    /// The two head caches combined: the fold of the window in arrival
    /// order.
    fn query(&self) -> (r: V) {
        let r = Self::agg(&self.front).combine(&Self::agg(&self.back));
        proof {
            lemma_front_head(self.front@);
            lemma_back_head(self.back@);
            lemma_fold_app::<V>(vals(self.front), vals(self.back).reverse());
        }
        r
    }
}

} // verus!
