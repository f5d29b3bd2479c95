//! The flat aggregate tree: a complete binary tree kept in one array, the
//! root at index zero and the leaves in the upper half.
use vstd::prelude::*;

verus! {

use crate::fat::{FAT, apply_batch, is_pow2};
use crate::monoid::{Monoid, fold, lemma_fold_singleton, lemma_fold_subrange_app};

/// A perfect binary tree over `capacity` leaves, stored flat: node `i` has
/// children `2i+1` and `2i+2`, and leaf `j` sits at `j + capacity - 1`.
pub struct FlatFAT<V: Monoid> {
    tree: Vec<V>,
    capacity: usize,
}

/// Every internal node caches its two children combined.
spec fn parents_ok<V: Monoid>(t: Seq<V>) -> bool {
    forall|j: int|
        0 <= j && 2 * j + 2 < t.len() ==> #[trigger] t[j] == V::op(t[2 * j + 1], t[2 * j + 2])
}

/// Between two powers of two the smaller divides the larger, with room to
/// double below it.
proof fn lemma_pow2_le(w: nat, c: nat)
    requires
        is_pow2(w),
        is_pow2(c),
        w < c,
    ensures
        2 * w <= c,
    decreases w,
{
    if w == 1 {
        assert(c % 2 == 0);
    } else {
        lemma_pow2_le(w / 2, c / 2);
    }
}

proof fn lemma_pow2_div(w: nat, c: nat)
    requires
        is_pow2(w),
        is_pow2(c),
        w <= c,
    ensures
        c % w == 0,
    decreases w,
{
    if w == 1 {
    } else {
        lemma_pow2_div(w / 2, c / 2);
        let k = (c / 2) / (w / 2);
        assert(c / 2 == (w / 2) * k) by (nonlinear_arith)
            requires
                (c / 2) % (w / 2) == 0,
                w / 2 >= 1,
                k == (c / 2) / (w / 2),
        ;
        assert(c == w * k) by (nonlinear_arith)
            requires
                c / 2 == (w / 2) * k,
                c % 2 == 0,
                w % 2 == 0,
        ;
        assert(c % w == 0) by (nonlinear_arith)
            requires
                c == w * k,
                w >= 1,
                k >= 0,
        ;
    }
}

/// An odd multiple of a power of two equals a power of two only trivially.
proof fn lemma_pow2_quot(q: nat, a: nat, b: nat)
    requires
        is_pow2(a),
        is_pow2(b),
        q * a == b,
        q % 2 == 1,
    ensures
        q == 1,
    decreases a,
{
    if a == 1 {
        assert(q == b) by (nonlinear_arith)
            requires
                q * a == b,
                a == 1,
        ;
        if b > 1 {
            assert(b % 2 == 0);
        }
    } else {
        assert(b >= a) by (nonlinear_arith)
            requires
                q * a == b,
                q >= 1,
                a >= 1,
        ;
        assert(b % 2 == 0);
        assert(q * (a / 2) == b / 2) by (nonlinear_arith)
            requires
                q * a == b,
                a % 2 == 0,
                b % 2 == 0,
        ;
        lemma_pow2_quot(q, a / 2, b / 2);
    }
}

/// The aggregate a node should cache: its own slot at the leaf level, its
/// children's combination above it.
spec fn node_fold<V: Monoid>(t: Seq<V>, j: int) -> V
    decreases t.len() - j,
{
    if 0 <= j && 2 * j + 2 < t.len() {
        V::op(node_fold(t, 2 * j + 1), node_fold(t, 2 * j + 2))
    } else if 0 <= j < t.len() {
        t[j]
    } else {
        V::id()
    }
}

/// Under the parent discipline every cached slot is its node's aggregate.
proof fn lemma_nf_at<V: Monoid>(t: Seq<V>, j: int)
    requires
        parents_ok(t),
        0 <= j < t.len(),
    ensures
        t[j] == node_fold(t, j),
    decreases t.len() - j,
{
    if 2 * j + 2 < t.len() {
        lemma_nf_at(t, 2 * j + 1);
        lemma_nf_at(t, 2 * j + 2);
    }
}

/// In a perfect tree, the node whose index satisfies `j·w == c − w + lo`
/// aggregates exactly the `w` leaf slots starting at `lo`.
proof fn lemma_nf_span<V: Monoid>(t: Seq<V>, c: int, j: int, lo: int, w: int)
    requires
        t.len() == 2 * c - 1,
        c >= 1,
        w >= 1,
        is_pow2(w as nat),
        0 <= lo,
        lo + w <= c,
        j * w == c - w + lo,
    ensures
        node_fold(t, j) == fold(t.subrange(c - 1 + lo, c - 1 + lo + w)),
    decreases w,
{
    if w == 1 {
        assert(j * w == j) by (nonlinear_arith)
            requires
                w == 1,
        ;
        assert(j == c - 1 + lo);
        assert(0 <= j < t.len());
        assert(2 * j + 2 >= t.len());
        assert(node_fold(t, j) == t[j]);
        assert(2 * j + 2 >= t.len());
        assert(t.subrange(c - 1 + lo, c + lo) =~= seq![t[j]]);
        lemma_fold_singleton::<V>(t[j]);
    } else {
        let h = w / 2;
        assert(w == 2 * h && h >= 1) by {
            assert(is_pow2(w as nat));
        }
        assert((2 * j + 1) * h == c - h + lo) by (nonlinear_arith)
            requires
                j * w == c - w + lo,
                w == 2 * h,
        ;
        assert((2 * j + 2) * h == c - h + (lo + h)) by (nonlinear_arith)
            requires
                j * w == c - w + lo,
                w == 2 * h,
        ;
        assert(j >= 0) by (nonlinear_arith)
            requires
                j * w == c - w + lo,
                w >= 1,
                lo >= 0,
                lo + w <= c,
        ;
        assert((2 * j + 2) * w <= 4 * c - 2 * w) by (nonlinear_arith)
            requires
                j * w == c - w + lo,
                lo + w <= c,
        ;
        assert(2 * j + 2 <= 2 * c - 2) by (nonlinear_arith)
            requires
                (2 * j + 2) * w <= 4 * c - 2 * w,
                w >= 2,
                j >= 0,
                c >= 1,
        ;
        assert(2 * j + 2 < t.len());
        lemma_nf_span::<V>(t, c, 2 * j + 1, lo, h);
        lemma_nf_span::<V>(t, c, 2 * j + 2, lo + h, h);
        lemma_fold_subrange_app::<V>(t, c - 1 + lo, c - 1 + lo + h, c - 1 + lo + w);
    }
}


/// One step up the climb: from a non-root node's span relation to its
/// parent's, with the sibling span and every bound the loop carries.
proof fn climb_step(c: int, node: int, p: int, lo: int, w: int)
    requires
        c >= 1,
        is_pow2(c as nat),
        1 <= node < 2 * c - 1,
        p == (node - 1) / 2,
        w >= 1,
        is_pow2(w as nat),
        0 <= lo,
        lo + w <= c,
        node * w == c - w + lo,
        (node + 2) * w <= 2 * c,
    ensures
        node == 2 * p + 1 || node == 2 * p + 2,
        node == 2 * p + 2 ==> lo - w >= 0 && p * (2 * w) == c - 2 * w + (lo - w) && (p + 2) * (2
            * w) <= 2 * c && lo - w + 2 * w <= c && (2 * p + 1) * w == c - w + (lo - w),
        node == 2 * p + 1 ==> p * (2 * w) == c - 2 * w + lo && (p + 2) * (2 * w) <= 2 * c && lo
            + 2 * w <= c && (2 * p + 2) * w == c - w + (lo + w) && 2 * p + 2 < 2 * c - 1,
        is_pow2((2 * w) as nat),
{
    assert(node == 2 * p + 1 || node == 2 * p + 2);
    assert(w <= c);
    lemma_pow2_div(w as nat, c as nat);
    if node == 2 * p + 2 {
        assert((2 * p + 1) * w == c - w + (lo - w)) by (nonlinear_arith)
            requires
                node * w == c - w + lo,
                node == 2 * p + 2,
        ;
        assert(p * (2 * w) == c - 2 * w + (lo - w)) by (nonlinear_arith)
            requires
                node * w == c - w + lo,
                node == 2 * p + 2,
        ;
        // a right child never starts at the left edge, so its parent's span
        // stays inside the leaf block
        let q = c / w;
        assert(c == w * q) by (nonlinear_arith)
            requires
                c % w == 0,
                w >= 1,
                q == c / w,
        ;
        assert(lo == w * (node + 1 - q)) by (nonlinear_arith)
            requires
                node * w == c - w + lo,
                c == w * q,
        ;
        assert(lo % w == 0) by (nonlinear_arith)
            requires
                lo == w * (node + 1 - q),
                w >= 1,
                lo >= 0,
        ;
        if lo == 0 {
            assert((node + 1) * w == c) by (nonlinear_arith)
                requires
                    node * w == c - w + lo,
                    lo == 0,
            ;
            assert((node + 1) % 2 == 1);
            lemma_pow2_quot((node + 1) as nat, w as nat, c as nat);
            assert(node == 0);
            assert(false);
        }
        assert(lo >= w) by (nonlinear_arith)
            requires
                lo % w == 0,
                lo > 0,
                w >= 1,
        ;
        assert((p + 2) * (2 * w) == (node + 2) * w) by (nonlinear_arith)
            requires
                node == 2 * p + 2,
        ;
        assert(lo - w + 2 * w == lo + w <= c);
    } else {
        assert(p * (2 * w) == c - 2 * w + lo) by (nonlinear_arith)
            requires
                node * w == c - w + lo,
                node == 2 * p + 1,
        ;
        assert((2 * p + 2) * w == c - w + (lo + w)) by (nonlinear_arith)
            requires
                node * w == c - w + lo,
                node == 2 * p + 1,
        ;
        // a left child's index relation cannot reach the bound exactly, and
        // multiples of `w` below `2c` leave room for one more `w`
        if (node + 2) * w == 2 * c {
            assert((node + 2) % 2 == 1);
            assert(is_pow2((2 * c) as nat));
            lemma_pow2_quot((node + 2) as nat, w as nat, (2 * c) as nat);
            assert(node + 2 == 1);
            assert(false);
        }
        let q2 = c / w;
        assert(c == w * q2) by (nonlinear_arith)
            requires
                c % w == 0,
                w >= 1,
                q2 == c / w,
        ;
        let d = 2 * q2 - (node + 2);
        assert(2 * c - (node + 2) * w == w * d) by (nonlinear_arith)
            requires
                c == w * q2,
                d == 2 * q2 - (node + 2),
        ;
        assert(d >= 1) by (nonlinear_arith)
            requires
                w * d > 0,
                w >= 1,
        ;
        assert(2 * c - (node + 2) * w >= w) by (nonlinear_arith)
            requires
                2 * c - (node + 2) * w == w * d,
                d >= 1,
                w >= 1,
        ;
        assert((p + 2) * (2 * w) == (node + 3) * w) by (nonlinear_arith)
            requires
                node == 2 * p + 1,
        ;
        assert((node + 3) * w == (node + 2) * w + w) by (nonlinear_arith);
        assert(lo + 2 * w <= c) by (nonlinear_arith)
            requires
                p * (2 * w) == c - 2 * w + lo,
                (p + 2) * (2 * w) <= 2 * c,
        ;
        assert(2 * p + 2 < 2 * c - 1) by (nonlinear_arith)
            requires
                (2 * p + 2) * w == c - w + (lo + w),
                lo + 2 * w <= c,
                w >= 1,
                c >= 1,
                lo >= 0,
        ;
    }
    assert(is_pow2((2 * w) as nat)) by {
        assert((2 * w) as nat % 2 == 0);
        assert((2 * w) as nat / 2 == w as nat);
    }
}

/// Whether `q` lies on the chain from `i` up to the root.
spec fn on_path(q: int, i: int) -> bool
    decreases i,
{
    q == i || (i > 0 && on_path(q, (i - 1) / 2))
}

impl<V: Monoid> FlatFAT<V> {
    /// How many leaves the tree holds.
    pub fn capacity(&self) -> (r: usize)
        requires
            self.wf(),
        ensures
            r == self.cap(),
            r >= 1,
    {
        self.capacity
    }

    /// The leaf values of the given slot range.
    pub fn leaves_range(&self, from: usize, to: usize) -> (r: Vec<V>)
        requires
            self.wf(),
            from <= to <= self.cap(),
        ensures
            r@ == self.leaves().subrange(from as int, to as int),
    {
        let mut r: Vec<V> = Vec::new();
        let mut i = from;
        while i < to
            invariant
                self.wf(),
                from <= i <= to <= self.capacity,
                self.tree@.len() == 2 * self.capacity - 1,
                r@ == self.leaves().subrange(from as int, i as int),
            decreases to - i,
        {
            r.push(self.tree[self.capacity - 1 + i]);
            proof {
                assert(self.leaves().subrange(from as int, i + 1) =~= self.leaves().subrange(
                    from as int,
                    i as int,
                ).push(self.leaves()[i as int]));
            }
            i = i + 1;
        }
        r
    }

    /// Recomputes the aggregates on the path from the parent of `node` up
    /// to the root, restoring the parent discipline broken at `node`.
    fn update_path(&mut self, node: usize)
        requires
            old(self).wf(),
            node < old(self).tree@.len(),
            2 * node + 2 >= old(self).tree@.len(),
            forall|q: int|
                0 <= q && 2 * q + 2 < old(self).tree@.len() && !on_path(q, node as int)
                    ==> #[trigger] old(self).tree@[q] == V::op(
                    old(self).tree@[2 * q + 1],
                    old(self).tree@[2 * q + 2],
                ),
        ensures
            final(self).wf(),
            final(self).sound(),
            final(self).cap() == old(self).cap(),
            final(self).leaves() == old(self).leaves(),
    {
        let mut i = node;
        while i != 0
            invariant
                self.wf(),
                self.capacity == old(self).capacity,
                i < self.tree@.len(),
                self.tree@.len() == old(self).tree@.len(),
                self.leaves() == old(self).leaves(),
                forall|q: int|
                    0 <= q && 2 * q + 2 < self.tree@.len() && !on_path(q, i as int)
                        ==> #[trigger] self.tree@[q] == V::op(
                        self.tree@[2 * q + 1],
                        self.tree@[2 * q + 2],
                    ),
                2 * i + 2 >= self.tree@.len() || self.tree@[i as int] == V::op(
                    self.tree@[2 * i + 1],
                    self.tree@[2 * i + 2],
                ),
            decreases i,
        {
            let ghost pre = self.tree@;
            let p = (i - 1) / 2;
            proof {
                assert(2 * p + 1 < self.tree@.len());
            }
            if 2 * p + 2 < self.tree.len() {
                let a = self.tree[2 * p + 1].combine(&self.tree[2 * p + 2]);
                self.tree.set(p, a);
            }
            proof {
                assert(self.leaves() =~= old(self).leaves()) by {
                    assert(p < self.capacity - 1);
                    assert(self.tree@.skip(self.capacity - 1) =~= pre.skip(self.capacity - 1));
                }
                assert forall|q: int|
                    0 <= q && 2 * q + 2 < self.tree@.len() && !on_path(q, p as int)
                        implies #[trigger] self.tree@[q] == V::op(
                    self.tree@[2 * q + 1],
                    self.tree@[2 * q + 2],
                ) by {
                    assert(q != p);
                    if 2 * q + 1 == p || 2 * q + 2 == p {
                        assert(p >= 1);
                        assert((p - 1) / 2 == q);
                        assert(on_path(q, q));
                        assert(on_path(q, p as int));
                        assert(false);
                    }
                    assert(self.tree@[2 * q + 1] == pre[2 * q + 1]);
                    assert(self.tree@[2 * q + 2] == pre[2 * q + 2]);
                    if q == i as int {
                        assert(2 * q + 1 > q);
                        assert(pre[q] == V::op(pre[2 * q + 1], pre[2 * q + 2]));
                        assert(self.tree@[q] == pre[q]);
                    } else {
                        assert(!on_path(q, i as int));
                        assert(self.tree@[q] == pre[q]);
                    }
                }
            }
            i = p;
        }
        proof {
            assert forall|q: int|
                0 <= q && 2 * q + 2 < self.tree@.len() implies #[trigger] self.tree@[q] == V::op(
                self.tree@[2 * q + 1],
                self.tree@[2 * q + 2],
            ) by {
                if on_path(q, 0) {
                    assert(q == 0);
                }
            }
        }
    }
}

impl<V: Monoid> FAT<V> for FlatFAT<V> {
    closed spec fn cap(self) -> nat {
        self.capacity as nat
    }

    closed spec fn leaves(self) -> Seq<V> {
        self.tree@.skip(self.capacity - 1)
    }

    closed spec fn wf(self) -> bool {
        &&& 1 <= self.capacity <= usize::MAX / 4
        &&& is_pow2(self.capacity as nat)
        &&& self.tree@.len() == 2 * self.capacity - 1
    }

    closed spec fn sound(self) -> bool {
        parents_ok(self.tree@)
    }

    proof fn leaves_len(self) {
    }

    proof fn cap_pow2(self) {
    }

    fn new(values: &[V]) -> (s: FlatFAT<V>) {
        let mut capacity: usize = 1;
        while capacity < values.len()
            invariant
                1 <= capacity <= usize::MAX / 4,
                is_pow2(capacity as nat),
                values@.len() <= usize::MAX / 8,
            decreases 2 * values@.len() - capacity,
        {
            capacity = capacity * 2;
        }
        let mut s = Self::with_capacity(capacity);
        s.update_ordered(values);
        s.update_parents();
        s
    }

    fn with_capacity(capacity: usize) -> (s: FlatFAT<V>) {
        let mut tree: Vec<V> = Vec::new();
        let mut i: usize = 0;
        while i < 2 * capacity - 1
            invariant
                1 <= capacity <= usize::MAX / 4,
                i <= 2 * capacity - 1,
                tree@.len() == i,
                forall|j: int| 0 <= j < i ==> tree@[j] == V::id(),
            decreases 2 * capacity - 1 - i,
        {
            tree.push(V::identity());
            i = i + 1;
        }
        let s = FlatFAT { tree, capacity };
        proof {
            assert forall|j: int|
                0 <= j && 2 * j + 2 < s.tree@.len() implies #[trigger] s.tree@[j] == V::op(
                s.tree@[2 * j + 1],
                s.tree@[2 * j + 2],
            ) by {
                V::op_id(V::id());
            }
            assert(s.leaves() =~= Seq::new(capacity as nat, |j: int| V::id()));
        }
        s
    }

    fn update(&mut self, batch: &[(usize, V)]) {
        let mut k: usize = 0;
        while k < batch.len()
            invariant
                self.wf(),
                self.sound(),
                self.capacity == old(self).capacity,
                forall|i: int| 0 <= i < batch@.len() ==> (#[trigger] batch@[i]).0 < self.cap(),
                k <= batch@.len(),
                self.leaves() == apply_batch(old(self).leaves(), batch@.take(k as int)),
            decreases batch@.len() - k,
        {
            let ghost pre = self.tree@;
            let (idx, val) = batch[k];
            let leaf = idx + self.capacity - 1;
            self.tree.set(leaf, val);
            proof {
                assert(self.leaves() =~= apply_batch(
                    old(self).leaves(),
                    batch@.take(k as int),
                ).update(idx as int, val));
                assert(batch@.take(k + 1).drop_last() =~= batch@.take(k as int));
                assert(batch@.take(k + 1).last() == batch@[k as int]);
                assert(2 * leaf + 2 >= self.tree@.len());
                assert forall|q: int|
                    0 <= q && 2 * q + 2 < self.tree@.len() && !on_path(q, leaf as int)
                        implies #[trigger] self.tree@[q] == V::op(
                    self.tree@[2 * q + 1],
                    self.tree@[2 * q + 2],
                ) by {
                    assert(q != leaf);
                    if 2 * q + 1 == leaf || 2 * q + 2 == leaf {
                        assert(leaf >= 1);
                        assert((leaf as int - 1) / 2 == q);
                        assert(on_path(q, q));
                        assert(on_path(q, leaf as int));
                        assert(false);
                    }
                    assert(self.tree@[q] == pre[q]);
                    assert(self.tree@[2 * q + 1] == pre[2 * q + 1]);
                    assert(self.tree@[2 * q + 2] == pre[2 * q + 2]);
                }
            }
            self.update_path(leaf);
            k = k + 1;
        }
        proof {
            assert(batch@.take(batch@.len() as int) =~= batch@);
        }
    }

    fn update_ordered(&mut self, values: &[V]) {
        let mut k: usize = 0;
        while k < values.len()
            invariant
                self.wf(),
                self.capacity == old(self).capacity,
                values@.len() <= self.cap(),
                k <= values@.len(),
                forall|j: int| 0 <= j < k ==> self.leaves()[j] == values@[j],
                forall|j: int|
                    k <= j < self.cap() ==> self.leaves()[j] == old(self).leaves()[j],
            decreases values@.len() - k,
        {
            let leaf = k + self.capacity - 1;
            self.tree.set(leaf, values[k]);
            k = k + 1;
        }
    }

    fn update_parents(&mut self) {
        let ghost lv = self.leaves();
        let mut p = self.capacity - 1;
        while p > 0
            invariant
                self.wf(),
                self.capacity == old(self).capacity,
                p <= self.capacity - 1,
                self.leaves() == old(self).leaves(),
                forall|q: int|
                    p <= q && 2 * q + 2 < self.tree@.len() ==> #[trigger] self.tree@[q] == V::op(
                        self.tree@[2 * q + 1],
                        self.tree@[2 * q + 2],
                    ),
            decreases p,
        {
            let ghost pre = self.tree@;
            p = p - 1;
            if 2 * p + 2 < self.tree.len() {
                let a = self.tree[2 * p + 1].combine(&self.tree[2 * p + 2]);
                self.tree.set(p, a);
            }
            proof {
                assert(self.leaves() =~= old(self).leaves()) by {
                    assert(self.tree@.skip(self.capacity - 1) =~= pre.skip(self.capacity - 1));
                }
                assert forall|q: int|
                    p <= q && 2 * q + 2 < self.tree@.len() implies #[trigger] self.tree@[q]
                    == V::op(self.tree@[2 * q + 1], self.tree@[2 * q + 2]) by {
                    if q > p {
                        assert(self.tree@[q] == pre[q]);
                        assert(2 * q + 1 > p && 2 * q + 2 > p);
                        assert(self.tree@[2 * q + 1] == pre[2 * q + 1]);
                        assert(self.tree@[2 * q + 2] == pre[2 * q + 2]);
                    } else {
                        assert(2 * q + 1 > p && 2 * q + 2 > p);
                    }
                }
            }
        }
    }

    fn aggregate(&self) -> (r: V) {
        proof {
            let t = self.tree@;
            let c = self.capacity as int;
            lemma_nf_at::<V>(t, 0);
            lemma_nf_span::<V>(t, c, 0, 0, c);
            assert(t.subrange(c - 1, 2 * c - 1) =~= self.leaves());
        }
        self.tree[0]
    }

    fn prefix(&self, i: usize) -> (r: V) {
        let ghost t = self.tree@;
        let ghost c = self.capacity as int;
        let mut node = i + self.capacity - 1;
        let mut agg = self.tree[node];
        let ghost lo = i as int;
        let ghost w = 1int;
        proof {
            assert(t.subrange(c - 1 + lo, c + lo) =~= seq![t[node as int]]);
            lemma_fold_singleton::<V>(t[node as int]);
            assert(self.leaves().subrange(lo, i + 1) =~= t.subrange(c - 1 + lo, c + lo));
        }
        while node != 0
            invariant
                self.wf(),
                self.sound(),
                t == self.tree@,
                c == self.capacity as int,
                i < self.capacity,
                node < t.len(),
                w >= 1,
                is_pow2(w as nat),
                0 <= lo,
                lo + w <= c,
                lo <= i < lo + w,
                node * w == c - w + lo,
                (node + 2) * w <= 2 * c,
                agg == fold(self.leaves().subrange(lo, i + 1)),
            decreases node,
        {
            let p = (node - 1) / 2;
            proof {
                climb_step(c, node as int, p as int, lo, w);
            }
            if node == 2 * p + 2 {
                proof {
                    lemma_nf_span::<V>(t, c, 2 * p + 1, lo - w, w);
                    lemma_nf_at::<V>(t, 2 * p + 1);
                    assert(t.subrange(c - 1 + lo - w, c - 1 + lo) =~= self.leaves().subrange(
                        lo - w,
                        lo,
                    ));
                    lemma_fold_subrange_app::<V>(self.leaves(), lo - w, lo, i + 1);
                }
                agg = self.tree[2 * p + 1].combine(&agg);
                proof {
                    lo = lo - w;
                }
            }
            proof {
                w = 2 * w;
            }
            node = p;
        }
        proof {
            assert(0 * w == 0) by (nonlinear_arith);
            assert(lo == w - c);
            assert(lo == 0);
            assert(self.leaves().subrange(0, i + 1) == self.leaves().subrange(lo, i + 1));
        }
        agg
    }

    fn suffix(&self, i: usize) -> (r: V) {
        let ghost t = self.tree@;
        let ghost c = self.capacity as int;
        let mut node = i + self.capacity - 1;
        let mut agg = self.tree[node];
        let ghost lo = i as int;
        let ghost w = 1int;
        proof {
            assert(t.subrange(c - 1 + lo, c + lo) =~= seq![t[node as int]]);
            lemma_fold_singleton::<V>(t[node as int]);
            assert(self.leaves().subrange(i as int, lo + w) =~= t.subrange(c - 1 + lo, c + lo));
        }
        while node != 0
            invariant
                self.wf(),
                self.sound(),
                t == self.tree@,
                c == self.capacity as int,
                i < self.capacity,
                node < t.len(),
                w >= 1,
                is_pow2(w as nat),
                0 <= lo,
                lo + w <= c,
                lo <= i < lo + w,
                node * w == c - w + lo,
                (node + 2) * w <= 2 * c,
                agg == fold(self.leaves().subrange(i as int, lo + w)),
            decreases node,
        {
            let p = (node - 1) / 2;
            proof {
                climb_step(c, node as int, p as int, lo, w);
            }
            if node == 2 * p + 1 {
                proof {
                    assert(2 * p + 2 < t.len());
                    lemma_nf_span::<V>(t, c, 2 * p + 2, lo + w, w);
                    lemma_nf_at::<V>(t, 2 * p + 2);
                    assert(t.subrange(c - 1 + lo + w, c - 1 + lo + 2 * w) =~= self.leaves()
                        .subrange(lo + w, lo + 2 * w));
                    lemma_fold_subrange_app::<V>(self.leaves(), i as int, lo + w, lo + 2 * w);
                }
                agg = agg.combine(&self.tree[2 * p + 2]);
            } else {
                proof {
                    lo = lo - w;
                }
            }
            proof {
                w = 2 * w;
            }
            node = p;
        }
        proof {
            assert(0 * w == 0) by (nonlinear_arith);
            assert(lo == 0);
            assert(lo + w == c);
        }
        agg
    }
}

} // verus!
