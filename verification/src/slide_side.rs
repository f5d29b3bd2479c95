//! SlideSide: one stream of values feeding several count-based query ranges
//! at once, over a shared ring of the last `window_size` values with prefix
//! and suffix aggregate arrays; a query not aligned to the ring start
//! subtracts the unwanted prefix with the group inverse.
//!
//! The stream is cut into blocks of `window_size` values. The `back` array
//! caches, for each prefix of the current block, the fold of that prefix in
//! reverse order; when a block completes, the `front` array is rebuilt with
//! the reversed folds of the finished block's suffixes. Each query's
//! aggregate then comes from one or two cached entries, and equals the fold
//! of the last width-many inserted values.
use vstd::prelude::*;

verus! {

use crate::MultiWindow;
use crate::monoid::{Monoid, Commutative, Group, fold, lemma_fold_app, lemma_fold_first, lemma_fold_push};

/// How many values a count range spans.
pub fn window_size(range: &core::ops::Range<i32>) -> (r: usize)
    requires
        range.start <= range.end,
        range.end - range.start <= i32::MAX,
    ensures
        r == range.end - range.start,
{
    (range.end - range.start) as usize
}

/// The width a query keeps for a requested range: its span, or zero for a
/// malformed range.
pub open spec fn range_width(r: core::ops::Range<i32>) -> int {
    if r.start <= r.end && r.end - r.start <= i32::MAX {
        r.end - r.start
    } else {
        0
    }
}

/// The last `w` values of a stream, all of it when fewer have arrived.
pub open spec fn recent<V>(s: Seq<V>, w: int) -> Seq<V> {
    if s.len() <= w {
        s
    } else {
        s.skip(s.len() - w)
    }
}

/// The fold of a sequence taken newest first.
pub open spec fn revfold<V: Monoid>(s: Seq<V>) -> V {
    fold(s.reverse())
}

/// Reversed folds split against the order of the parts.
proof fn lemma_rev_concat<V: Monoid>(x: Seq<V>, y: Seq<V>)
    ensures
        revfold(x + y) == V::op(revfold(y), revfold(x)),
{
    assert((x + y).reverse() =~= y.reverse() + x.reverse());
    lemma_fold_app::<V>(y.reverse(), x.reverse());
}

/// Extending a span by one newest value combines it on the left.
proof fn lemma_rev_push<V: Monoid>(p: Seq<V>, v: V)
    ensures
        revfold(p.push(v)) == V::op(v, revfold(p)),
{
    assert(p.push(v).reverse() =~= seq![v] + p.reverse());
    lemma_fold_first::<V>(seq![v] + p.reverse());
    assert((seq![v] + p.reverse())[0] == v);
    assert((seq![v] + p.reverse()).drop_first() =~= p.reverse());
}

/// Extending a span by one oldest value combines it on the right.
proof fn lemma_rev_unshift<V: Monoid>(s: Seq<V>, v: V)
    ensures
        revfold(seq![v] + s) == V::op(revfold(s), v),
{
    assert((seq![v] + s).reverse() =~= s.reverse().push(v));
    lemma_fold_push::<V>(s.reverse(), v);
}

/// Under a commutative operator the reversed fold is the fold.
proof fn lemma_fold_reverse<V: Commutative>(s: Seq<V>)
    ensures
        fold(s.reverse()) == fold(s),
    decreases s.len(),
{
    if s.len() > 0 {
        let d = s.drop_last();
        lemma_fold_reverse(d);
        assert(s.reverse() =~= seq![s.last()] + d.reverse());
        lemma_fold_first::<V>(s.reverse());
        assert(s.reverse()[0] == s.last());
        assert(s.reverse().drop_first() =~= d.reverse());
        V::op_comm(s.last(), fold(d));
    }
}

pub struct SlideSide<V: Group> {
    front: Vec<V>,
    back: Vec<V>,
    elems: Vec<V>,
    queries: Vec<(i32, i32)>,
    aggs: Vec<V>,
    cur_pos: usize,
    window_size: usize,
    hist: Ghost<Seq<V>>,
    blocks: Ghost<int>,
}

impl<V: Group> SlideSide<V> {
    /// The first stream position of the current block.
    spec fn s0(self) -> int {
        self.blocks@ * self.window_size
    }

    /// The cached-aggregate disciplines: `back` holds the reversed folds of
    /// the current block's prefixes (of the finished block right after a
    /// wrap), `front` the reversed folds of the previous block's suffixes
    /// once the current block has started, and `elems` the ring of the most
    /// recent values, identity-filled before the first block completes.
    spec fn caches_ok(self) -> bool {
        let ws = self.window_size as int;
        let cp = self.cur_pos as int;
        let h = self.hist@;
        let s0 = self.s0();
        &&& self.back@[0] == V::id()
        &&& self.front@[0] == V::id()
        &&& (cp >= 1 ==> forall|p: int|
            0 <= p <= cp ==> #[trigger] self.back@[p] == revfold(h.subrange(s0, s0 + p)))
        &&& (cp == 0 && self.blocks@ >= 1 ==> forall|p: int|
            0 <= p <= ws ==> #[trigger] self.back@[p] == revfold(h.subrange(s0 - ws, s0 - ws + p)))
        &&& (cp >= 1 && self.blocks@ >= 1 ==> forall|i: int|
            0 <= i <= ws ==> #[trigger] self.front@[i] == revfold(h.subrange(s0 - i, s0)))
        &&& (self.blocks@ == 0 ==> forall|i: int|
            0 <= i <= ws ==> #[trigger] self.front@[i] == V::id())
        &&& (forall|p: int|
            0 <= p < cp ==> #[trigger] self.elems@[p] == h[s0 + p])
        &&& (self.blocks@ >= 1 ==> forall|p: int|
            cp <= p < ws ==> #[trigger] self.elems@[p] == h[s0 - ws + p])
        &&& (self.blocks@ == 0 ==> forall|p: int|
            cp <= p < ws ==> #[trigger] self.elems@[p] == V::id())
    }
}

impl<V: Group> MultiWindow<V> for SlideSide<V> {
    closed spec fn wf(self) -> bool {
        let ws = self.window_size as int;
        &&& 1 <= self.window_size <= i32::MAX
        &&& self.front@.len() == ws + 1
        &&& self.back@.len() == ws + 1
        &&& self.elems@.len() == ws
        &&& self.aggs@.len() == self.queries@.len()
        &&& self.cur_pos < self.window_size
        &&& self.blocks@ >= 0
        &&& self.hist@.len() == self.blocks@ * ws + self.cur_pos
        &&& (forall|i: int|
            0 <= i < self.queries@.len() ==> 0 <= (#[trigger] self.queries@[i]).1
                - self.queries@[i].0 <= ws)
        &&& self.caches_ok()
        &&& (forall|i: int|
            0 <= i < self.queries@.len() ==> #[trigger] self.aggs@[i] == fold(
                recent(self.hist@, self.queries@[i].1 - self.queries@[i].0),
            ))
    }

    closed spec fn stream(self) -> Seq<V> {
        self.hist@
    }

    closed spec fn queries_len(self) -> nat {
        self.queries@.len()
    }

    closed spec fn width(self, i: int) -> int {
        self.queries@[i].1 - self.queries@[i].0
    }

    /// The widest range fixes the ring size; each input range keeps its
    /// slot, a malformed one clamped to width zero, so the aggregate array
    /// matches the input order.
    fn new(ranges: &[core::ops::Range<i32>]) -> (w: SlideSide<V>) {
        let mut window_sz: usize = 1;
        let mut queries: Vec<(i32, i32)> = Vec::new();
        let mut aggs: Vec<V> = Vec::new();
        let mut i: usize = 0;
        while i < ranges.len()
            invariant
                1 <= window_sz <= i32::MAX,
                i <= ranges@.len(),
                aggs@.len() == queries@.len(),
                queries@.len() == i,
                forall|j: int|
                    0 <= j < i ==> 0 <= (#[trigger] queries@[j]).1 - queries@[j].0 <= window_sz,
                forall|j: int|
                    0 <= j < i ==> (#[trigger] queries@[j]).1 - queries@[j].0 == range_width(
                        ranges@[j],
                    ),
                forall|j: int| 0 <= j < i ==> #[trigger] aggs@[j] == V::id(),
            decreases ranges@.len() - i,
        {
            let rg = &ranges[i];
            if rg.start <= rg.end && (rg.end as i64) - (rg.start as i64) <= (i32::MAX as i64) {
                let w = window_size(rg);
                if w > window_sz {
                    window_sz = w;
                }
                queries.push((rg.start, rg.end));
            } else {
                queries.push((rg.start, rg.start));
            }
            aggs.push(V::identity());
            i = i + 1;
        }
        let mut front: Vec<V> = Vec::new();
        let mut back: Vec<V> = Vec::new();
        let mut elems: Vec<V> = Vec::new();
        let mut k: usize = 0;
        while k < window_sz
            invariant
                k <= window_sz,
                front@.len() == k,
                back@.len() == k,
                elems@.len() == k,
                forall|j: int| 0 <= j < k ==> #[trigger] front@[j] == V::id(),
                forall|j: int| 0 <= j < k ==> #[trigger] back@[j] == V::id(),
                forall|j: int| 0 <= j < k ==> #[trigger] elems@[j] == V::id(),
            decreases window_sz - k,
        {
            front.push(V::identity());
            back.push(V::identity());
            elems.push(V::identity());
            k = k + 1;
        }
        front.push(V::identity());
        back.push(V::identity());
        let w = SlideSide {
            front,
            back,
            elems,
            queries,
            aggs,
            cur_pos: 0,
            window_size: window_sz,
            hist: Ghost(Seq::empty()),
            blocks: Ghost(0int),
        };
        proof {
            assert forall|j: int| 0 <= j < w.queries@.len() implies #[trigger] w.aggs@[j] == fold(
                recent(w.hist@, w.queries@[j].1 - w.queries@[j].0),
            ) by {
                assert(recent(w.hist@, w.queries@[j].1 - w.queries@[j].0) =~= Seq::<V>::empty());
            }
        }
        w
    }

    /// Append a value: rebuild the prefix cache when a new block starts,
    /// extend the suffix cache, and refresh each query's aggregate from the
    /// two cached bounds, subtracting with the inverse when the span does
    /// not start at the block boundary.
    #[verifier::rlimit(100)]
    fn insert(&mut self, v: V) {
        let ghost ws = self.window_size as int;
        let ghost h0 = self.hist@;
        let ghost b0 = self.blocks@;
        let ws_e = self.window_size;
        if self.cur_pos == 0 {
            // a block boundary: the finished block sits whole in the ring;
            // cache the reversed folds of its suffixes
            let ghost s0 = self.s0();
            let mut i: usize = 0;
            while i < ws_e
                invariant
                    self.window_size == ws_e,
                    self.wf(),
                    self.cur_pos == 0,
                    self.queries@ == old(self).queries@,
                    self.hist@ == h0,
                    self.blocks@ == b0,
                    s0 == self.s0(),
                    ws == ws_e as int,
                    i <= ws_e,
                    b0 >= 1 ==> forall|k: int|
                        0 <= k <= i ==> #[trigger] self.front@[k] == revfold(
                            h0.subrange(s0 - k, s0),
                        ),
                    b0 == 0 ==> forall|k: int|
                        0 <= k <= ws ==> #[trigger] self.front@[k] == V::id(),
                decreases ws_e - i,
            {
                let ghost fpre = self.front@;
                let x = self.front[i].combine(&self.elems[ws_e - 1 - i]);
                Self::set_at(&mut self.front, i + 1, x);
                proof {
                    assert(self.front@ == fpre.update(i + 1, x));
                    if b0 >= 1 {
                        assert(s0 >= ws) by (nonlinear_arith)
                            requires
                                s0 == b0 * ws,
                                b0 >= 1,
                                ws >= 1,
                        ;
                        assert(self.elems@[ws - 1 - i] == h0[s0 - 1 - i]);
                        assert(h0.subrange(s0 - i - 1, s0) =~= seq![h0[s0 - 1 - i]] + h0.subrange(
                            s0 - i,
                            s0,
                        ));
                        lemma_rev_unshift::<V>(h0.subrange(s0 - i, s0), h0[s0 - 1 - i]);
                        assert(x == revfold(h0.subrange(s0 - (i + 1), s0)));
                        assert forall|k: int| 0 <= k <= i + 1 implies #[trigger] self.front@[k]
                            == revfold(h0.subrange(s0 - k, s0)) by {
                            if k <= i {
                                assert(self.front@[k] == fpre[k]);
                            }
                        }
                    } else {
                        assert(self.elems@[ws - 1 - i] == V::id());
                        V::op_id(self.front@[i as int]);
                        V::op_id(V::id());
                        assert forall|k: int| 0 <= k <= ws implies #[trigger] self.front@[k]
                            == V::id() by {
                            if k != i + 1 {
                                assert(self.front@[k] == fpre[k]);
                            }
                        }
                    }
                    assert(self.wf()) by {
                        assert(self.front@[0] == fpre[0]);
                        assert(self.caches_ok());
                    }
                }
                i = i + 1;
            }
        }
        let ghost fr = self.front@;
        let cp = self.cur_pos;
        let ghost s0 = self.s0();
        // store the value in the ring and extend the current block's cache
        Self::set_at(&mut self.elems, cp, v);
        let x = self.elems[cp].combine(&self.back[cp]);
        Self::set_at(&mut self.back, cp + 1, x);
        proof {
            self.hist@ = h0.push(v);
            if cp >= 1 {
                assert(self.back@[cp as int] == revfold(h0.subrange(s0, s0 + cp)));
            } else {
                assert(self.back@[0] == V::id());
                assert(revfold(h0.subrange(s0, s0)) == V::id()) by {
                    assert(h0.subrange(s0, s0) =~= Seq::<V>::empty());
                    assert(Seq::<V>::empty().reverse() =~= Seq::<V>::empty());
                }
            }
            assert(self.hist@.subrange(s0, s0 + cp) =~= h0.subrange(s0, s0 + cp));
            assert(self.hist@.subrange(s0, s0 + cp + 1) =~= h0.subrange(s0, s0 + cp).push(v));
            lemma_rev_push::<V>(h0.subrange(s0, s0 + cp), v);
            assert(x == revfold(self.hist@.subrange(s0, s0 + cp + 1)));
        }
        self.cur_pos = self.cur_pos + 1;
        if self.cur_pos == ws_e {
            self.cur_pos = 0;
            proof {
                self.blocks@ = self.blocks@ + 1;
            }
        }
        proof {
            let h = self.hist@;
            let cp2 = self.cur_pos as int;
            let b2 = self.blocks@;
            let s2 = self.s0();
            assert(h.len() == b2 * ws + cp2) by (nonlinear_arith)
                requires
                    h.len() == h0.len() + 1,
                    h0.len() == b0 * ws + cp,
                    cp2 == (if cp + 1 == ws {
                        0int
                    } else {
                        cp + 1
                    }),
                    b2 == (if cp + 1 == ws {
                        b0 + 1
                    } else {
                        b0
                    }),
                    s2 == b2 * ws,
                    s0 == b0 * ws,
            ;
            assert(s2 == (if cp + 1 == ws as int {
                s0 + ws
            } else {
                s0
            })) by (nonlinear_arith)
                requires
                    s2 == b2 * ws,
                    s0 == b0 * ws,
                    b2 == (if cp + 1 == ws {
                        b0 + 1
                    } else {
                        b0
                    }),
            ;
            // the cache disciplines hold in the new state
            assert forall|p: int| 0 <= p < cp2 implies #[trigger] self.elems@[p] == h[s2 + p] by {
                if p < cp {
                    assert(self.elems@[p] == h0[s0 + p]);
                } else {
                    assert(p == cp);
                }
            }
            if b2 >= 1 {
                assert forall|p: int| cp2 <= p < ws implies #[trigger] self.elems@[p] == h[s2 - ws
                    + p] by {
                    if cp + 1 == ws {
                        assert(s2 - ws == s0);
                        if p < cp {
                            assert(self.elems@[p] == h0[s0 + p]);
                            assert(h[s0 + p] == h0[s0 + p]);
                        } else {
                            assert(p == cp);
                            assert(self.elems@[p] == v);
                            assert(h[s0 + cp] == v);
                        }
                    } else {
                        assert(p != cp);
                        assert(b0 >= 1 && b2 == b0 && s2 == s0);
                        assert(self.elems@[p] == old(self).elems@[p]);
                        assert(old(self).elems@[p] == h0[s0 - ws + p]);
                        assert(s0 >= ws) by (nonlinear_arith)
                            requires
                                s0 == b0 * ws,
                                b0 >= 1,
                                ws >= 1,
                        ;
                        assert(h[s0 - ws + p] == h0[s0 - ws + p]);
                    }
                }
            }
            if cp2 >= 1 {
                assert forall|p: int| 0 <= p <= cp2 implies #[trigger] self.back@[p] == revfold(
                    h.subrange(s2, s2 + p),
                ) by {
                    if p == 0 {
                        assert(h.subrange(s2, s2) =~= Seq::<V>::empty());
                        assert(Seq::<V>::empty().reverse() =~= Seq::<V>::empty());
                    } else if p <= cp {
                        assert(self.back@[p] == revfold(h0.subrange(s0, s0 + p)));
                        assert(h.subrange(s2, s2 + p) =~= h0.subrange(s0, s0 + p));
                    } else {
                        assert(p == cp + 1);
                    }
                }
            } else {
                assert forall|p: int| 0 <= p <= ws implies #[trigger] self.back@[p] == revfold(
                    h.subrange(s2 - ws, s2 - ws + p),
                ) by {
                    if p == 0 {
                        assert(h.subrange(s2 - ws, s2 - ws) =~= Seq::<V>::empty());
                        assert(Seq::<V>::empty().reverse() =~= Seq::<V>::empty());
                    } else if p <= cp {
                        assert(self.back@[p] == revfold(h0.subrange(s0, s0 + p)));
                        assert(h.subrange(s2 - ws, s2 - ws + p) =~= h0.subrange(s0, s0 + p));
                    } else {
                        assert(p == cp + 1);
                        assert(h.subrange(s2 - ws, s2 - ws + p) =~= h.subrange(s0, s0 + cp + 1));
                    }
                }
            }
            if cp2 >= 1 && b2 >= 1 {
                assert forall|k: int| 0 <= k <= ws implies #[trigger] self.front@[k] == revfold(
                    h.subrange(s2 - k, s2),
                ) by {
                    assert(cp + 1 != ws as int);
                    assert(b0 >= 1);
                    assert(s0 >= ws) by (nonlinear_arith)
                        requires
                            s0 == b0 * ws,
                            b0 >= 1,
                            ws >= 1,
                    ;
                    if cp == 0 {
                        assert(self.front@[k] == fr[k]);
                        assert(fr[k] == revfold(h0.subrange(s0 - k, s0)));
                    } else {
                        assert(self.front@[k] == revfold(h0.subrange(s0 - k, s0)));
                    }
                    assert(h.subrange(s2 - k, s2) =~= h0.subrange(s0 - k, s0));
                }
            }
        }
        // refresh every query's aggregate from the cached bounds
        let ghost hnew = self.hist@;
        let mut i: usize = 0;
        while i < self.queries.len()
            invariant
                self.window_size == ws_e,
                ws == ws_e as int,
                1 <= self.window_size <= i32::MAX,
                self.front@.len() == ws + 1,
                self.back@.len() == ws + 1,
                self.elems@.len() == ws,
                self.aggs@.len() == self.queries@.len(),
                self.cur_pos < self.window_size,
                self.blocks@ >= 0,
                self.queries@ == old(self).queries@,
                self.hist@ == hnew,
                hnew == old(self).hist@.push(v),
                hnew.len() >= 1,
                self.hist@.len() == self.blocks@ * ws + self.cur_pos,
                forall|j: int|
                    0 <= j < self.queries@.len() ==> 0 <= (#[trigger] self.queries@[j]).1
                        - self.queries@[j].0 <= ws,
                self.caches_ok(),
                i <= self.queries@.len(),
                forall|j: int|
                    0 <= j < i ==> #[trigger] self.aggs@[j] == fold(
                        recent(hnew, self.queries@[j].1 - self.queries@[j].0),
                    ),
            decreases self.queries@.len() - i,
        {
            let (qs, qe) = self.queries[i];
            let cur = (qe - qs) as usize;
            let mut end_ptr = self.cur_pos;
            if end_ptr == 0 {
                end_ptr = ws_e;
            }
            let ghost n = hnew.len() as int;
            let ghost base = n - end_ptr;
            proof {
                lemma_slide_bounds(*self, end_ptr as int, base);
            }
            let agg = if end_ptr >= cur {
                let start_ptr = end_ptr - cur;
                if start_ptr == 0 {
                    let r = self.back[end_ptr];
                    proof {
                        assert(r == revfold(hnew.subrange(base, n)));
                        assert(recent(hnew, cur as int) =~= hnew.subrange(base, n));
                    }
                    r
                } else {
                    let r = self.back[end_ptr].combine(&self.back[start_ptr].inverse());
                    proof {
                        let xs = hnew.subrange(base, base + start_ptr);
                        let ys = hnew.subrange(base + start_ptr, n);
                        assert(hnew.subrange(base, n) =~= xs + ys);
                        lemma_rev_concat::<V>(xs, ys);
                        assert(self.back@[end_ptr as int] == V::op(revfold(ys), revfold(xs)));
                        assert(self.back@[start_ptr as int] == revfold(xs));
                        V::op_assoc(revfold(ys), revfold(xs), V::inv(revfold(xs)));
                        V::op_inv(revfold(xs));
                        V::op_id(revfold(ys));
                        assert(r == revfold(ys));
                        assert(recent(hnew, cur as int) =~= ys);
                    }
                    r
                }
            } else {
                let start_ptr = end_ptr + ws_e - cur;
                let r = self.back[end_ptr].combine(&self.front[ws_e - start_ptr]);
                proof {
                    let cp2 = self.cur_pos as int;
                    let s2 = self.s0();
                    assert(cp2 >= 1);
                    assert(end_ptr == cp2);
                    assert(base == s2);
                    let take = cur - end_ptr;
                    assert(ws - start_ptr == take);
                    let ys = hnew.subrange(s2, n);
                    assert(self.back@[end_ptr as int] == revfold(ys));
                    if self.blocks@ >= 1 {
                        assert(s2 >= ws) by (nonlinear_arith)
                            requires
                                s2 == self.blocks@ * ws,
                                self.blocks@ >= 1,
                                ws >= 1,
                        ;
                        assert(n == s2 + cp2);
                        assert(n > cur);
                        let xs = hnew.subrange(s2 - take, s2);
                        assert(self.front@[take] == revfold(xs));
                        assert(n - cur == s2 - take);
                        assert(recent(hnew, cur as int) =~= xs + ys);
                        lemma_rev_concat::<V>(xs, ys);
                        assert(r == revfold(recent(hnew, cur as int)));
                    } else {
                        assert(s2 == 0) by (nonlinear_arith)
                            requires
                                s2 == self.blocks@ * ws,
                                self.blocks@ == 0,
                        ;
                        assert(self.front@[take] == V::id());
                        V::op_id(revfold(ys));
                        assert(hnew.subrange(0, n) =~= hnew);
                        assert(n < cur);
                        assert(recent(hnew, cur as int) == hnew);
                        assert(r == revfold(recent(hnew, cur as int)));
                    }
                }
                r
            };
            proof {
                lemma_fold_reverse::<V>(recent(hnew, cur as int));
                assert(agg == fold(recent(hnew, cur as int)));
            }
            Self::set_at(&mut self.aggs, i, agg);
            i = i + 1;
        }
    }
}

/// The unified cache view at the query point: whichever block the `back`
/// array describes, its entries are the reversed folds of the stream span
/// ending now.
proof fn lemma_slide_bounds<V: Group>(s: SlideSide<V>, end: int, base: int)
    requires
        1 <= s.window_size <= i32::MAX,
        s.back@.len() == s.window_size + 1,
        s.cur_pos < s.window_size,
        s.blocks@ >= 0,
        s.hist@.len() == s.blocks@ * s.window_size + s.cur_pos,
        s.hist@.len() >= 1,
        s.caches_ok(),
        end == (if s.cur_pos == 0 {
            s.window_size as int
        } else {
            s.cur_pos as int
        }),
        base == s.hist@.len() - end,
    ensures
        1 <= end <= s.window_size,
        base >= 0,
        s.cur_pos == 0 ==> s.blocks@ >= 1 && base == s.s0() - s.window_size,
        s.cur_pos >= 1 ==> base == s.s0(),
        forall|p: int|
            0 <= p <= end ==> #[trigger] s.back@[p] == revfold(s.hist@.subrange(base, base + p)),
{
    let ws = s.window_size as int;
    if s.cur_pos == 0 {
        assert(s.blocks@ >= 1) by (nonlinear_arith)
            requires
                s.hist@.len() == s.blocks@ * ws + s.cur_pos,
                s.hist@.len() >= 1,
                s.cur_pos == 0,
                ws >= 1,
                s.blocks@ >= 0,
        ;
        assert(base == s.s0() - ws);
    } else {
        assert(base == s.s0());
    }
    assert(base >= 0) by (nonlinear_arith)
        requires
            base == (if s.cur_pos == 0 {
                s.s0() - ws
            } else {
                s.s0()
            }),
            s.s0() == s.blocks@ * ws,
            s.cur_pos == 0 ==> s.blocks@ >= 1,
            s.blocks@ >= 0,
            ws >= 1,
    ;
}

impl<V: Group> SlideSide<V> {
    /// The current aggregate of query `i`: the fold, in arrival order, of
    /// the last width-many inserted values — all of them while fewer have
    /// arrived, the ring's identity padding standing in for the rest.
    pub fn agg(&self, i: usize) -> (r: V)
        requires
            self.wf(),
            i < self.queries_len(),
        ensures
            r == fold(recent(self.stream(), self.width(i as int))),
    {
        self.aggs[i]
    }

    fn set_at(v: &mut Vec<V>, i: usize, x: V)
        requires
            i < old(v)@.len(),
        ensures
            final(v)@ == old(v)@.update(i as int, x),
    {
        v.set(i, x);
    }
}

} // verus!
