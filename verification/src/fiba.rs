//! Finger B-tree Aggregator: a B-tree of bounded arity over timestamped
//! values, augmented with one cached partial aggregate per node and with the
//! aggregates of the two finger leaves, supporting insertion and eviction at
//! arbitrary times and a constant-time window query.
//!
//! A node's cached aggregate depends on its role:
//! - the root caches the inner aggregate: its own items and the subtrees of
//!   its non-extreme children;
//! - a non-root node on the left spine caches everything in its subtree
//!   except its left-most child's subtree, combined with its parent's cached
//!   aggregate (identity at the root);
//! - symmetrically on the right spine;
//! - every other node caches the aggregate of its whole subtree.
//!
//! The window query combines the left finger leaf's aggregate, the root's
//! aggregate and the right finger leaf's aggregate.
//!
//! The fingers survive here as the two cached finger-leaf aggregates kept in
//! the tree struct, so the query itself is constant-time; searches, however,
//! descend from the root rather than climbing from a finger leaf, and the
//! spine repair always walks both spines. That trades the amortized
//! constant-time in-order insert and evict for a logarithmic bound with
//! identical results: upward walks would need parent back-references, which
//! cannot be owned safely here.
use vstd::prelude::*;

verus! {

use crate::monoid::{Monoid, Commutative, fold, lemma_fold_app, lemma_fold_push, lemma_fold_singleton};

pub type Time = i64;

/// Minimum arity (children) of a non-root node.
pub const MIN_ARITY: usize = 4;

/// Maximum arity of any node; twice the minimum.
pub const MAX_ARITY: usize = 8;

/// Whether a node lies on the chain of left-most (resp. right-most)
/// descendants of the root.
#[derive(Clone, Copy, PartialEq, Eq, Structural, Debug)]
pub struct Spine {
    pub left: bool,
    pub right: bool,
}

impl Spine {
    pub fn new(left: bool, right: bool) -> (s: Spine)
        ensures
            s == (Spine { left, right }),
    {
        Spine { left, right }
    }
}

struct Item<V> {
    time: Time,
    value: V,
}

struct Node<V: Monoid> {
    items: Vec<Item<V>>,
    children: Vec<Node<V>>,
    agg: V,
    spine: Spine,
}

/// The sliding window: a B-tree owning its root, with the aggregates of the
/// two finger leaves cached beside it.
pub struct Tree<V: Monoid> {
    root: Node<V>,
    left_agg: V,
    right_agg: V,
}

// ---------------------------------------------------------------------------
// The model: a window is a time-sorted sequence of (time, value) pairs.
// ---------------------------------------------------------------------------

/// Strictly increasing times.
pub open spec fn sorted<V>(s: Seq<(Time, V)>) -> bool {
    forall|i: int, j: int| 0 <= i < j < s.len() ==> s[i].0 < s[j].0
}

/// The values of the entries, in time order.
pub open spec fn vals_of<V>(s: Seq<(Time, V)>) -> Seq<V> {
    s.map_values(|p: (Time, V)| p.1)
}

spec fn all_gt<V>(s: Seq<(Time, V)>, t: Time) -> bool {
    forall|i: int| 0 <= i < s.len() ==> s[i].0 > t
}

spec fn all_lt<V>(s: Seq<(Time, V)>, t: Time) -> bool {
    forall|i: int| 0 <= i < s.len() ==> s[i].0 < t
}

/// How many entries of a sorted sequence have a time below `t`.
pub open spec fn count_lt<V>(s: Seq<(Time, V)>, t: Time) -> int
    decreases s.len(),
{
    if s.len() == 0 {
        0
    } else if s.last().0 < t {
        s.len() as int
    } else {
        count_lt(s.drop_last(), t)
    }
}

/// Whether some entry carries time `t`.
pub open spec fn has_time<V>(s: Seq<(Time, V)>, t: Time) -> bool {
    exists|i: int| 0 <= i < s.len() && s[i].0 == t
}

/// What insertion does to the window: an entry at a fresh time is placed at
/// its sorted position; at an existing time the stored value is replaced by
/// the old value combined with the new one.
pub open spec fn insert_entry<V: Monoid>(s: Seq<(Time, V)>, t: Time, v: V) -> Seq<(Time, V)> {
    let i = count_lt(s, t);
    if i < s.len() && s[i].0 == t {
        s.update(i, (t, V::op(s[i].1, v)))
    } else {
        s.insert(i, (t, v))
    }
}

/// What eviction does to the window: the entry at time `t` is removed if
/// present; otherwise the window is unchanged.
pub open spec fn remove_entry<V: Monoid>(s: Seq<(Time, V)>, t: Time) -> Seq<(Time, V)> {
    let i = count_lt(s, t);
    if i < s.len() && s[i].0 == t {
        s.remove(i)
    } else {
        s
    }
}

/// The entries whose time lies in `[lo, hi]`, both ends included, in order.
pub open spec fn range_filter<V>(s: Seq<(Time, V)>, lo: Time, hi: Time) -> Seq<(Time, V)>
    decreases s.len(),
{
    if s.len() == 0 {
        Seq::empty()
    } else if lo <= s.last().0 && s.last().0 <= hi {
        range_filter(s.drop_last(), lo, hi).push(s.last())
    } else {
        range_filter(s.drop_last(), lo, hi)
    }
}

proof fn lemma_rf_push<V>(s: Seq<(Time, V)>, p: (Time, V), lo: Time, hi: Time)
    ensures
        range_filter(s.push(p), lo, hi) == (if lo <= p.0 && p.0 <= hi {
            range_filter(s, lo, hi).push(p)
        } else {
            range_filter(s, lo, hi)
        }),
{
    assert(s.push(p).drop_last() =~= s);
    assert(s.push(p).last() == p);
}

proof fn lemma_rf_concat<V>(a: Seq<(Time, V)>, b: Seq<(Time, V)>, lo: Time, hi: Time)
    ensures
        range_filter(a + b, lo, hi) == range_filter(a, lo, hi) + range_filter(b, lo, hi),
    decreases b.len(),
{
    if b.len() == 0 {
        assert(a + b =~= a);
        assert(range_filter(a, lo, hi) + range_filter(b, lo, hi) =~= range_filter(a, lo, hi));
    } else {
        assert((a + b).last() == b.last());
        assert((a + b).drop_last() =~= a + b.drop_last());
        lemma_rf_concat(a, b.drop_last(), lo, hi);
        if lo <= b.last().0 && b.last().0 <= hi {
            assert(range_filter(a, lo, hi) + range_filter(b.drop_last(), lo, hi).push(b.last())
                =~= (range_filter(a, lo, hi) + range_filter(b.drop_last(), lo, hi)).push(
                b.last(),
            ));
        }
    }
}

/// A sequence entirely inside the range filters to itself.
proof fn lemma_rf_all_in<V>(s: Seq<(Time, V)>, lo: Time, hi: Time)
    requires
        forall|j: int| 0 <= j < s.len() ==> lo <= #[trigger] s[j].0 <= hi,
    ensures
        range_filter(s, lo, hi) == s,
    decreases s.len(),
{
    if s.len() > 0 {
        lemma_rf_all_in(s.drop_last(), lo, hi);
        assert(s.drop_last().push(s.last()) =~= s);
    }
}

/// A sequence entirely below the range filters to nothing.
proof fn lemma_rf_all_below<V>(s: Seq<(Time, V)>, lo: Time, hi: Time)
    requires
        all_lt(s, lo),
    ensures
        range_filter(s, lo, hi) == Seq::<(Time, V)>::empty(),
    decreases s.len(),
{
    if s.len() > 0 {
        lemma_rf_all_below(s.drop_last(), lo, hi);
    }
}

/// A sequence entirely above the range filters to nothing.
proof fn lemma_rf_all_above<V>(s: Seq<(Time, V)>, lo: Time, hi: Time)
    requires
        all_gt(s, hi),
    ensures
        range_filter(s, lo, hi) == Seq::<(Time, V)>::empty(),
    decreases s.len(),
{
    if s.len() > 0 {
        lemma_rf_all_above(s.drop_last(), lo, hi);
    }
}

/// When every time clears the lower bound anyway, the bound may widen to the
/// least time.
proof fn lemma_rf_widen_lo<V>(s: Seq<(Time, V)>, lo: Time, hi: Time)
    requires
        forall|j: int| 0 <= j < s.len() ==> lo <= #[trigger] s[j].0,
    ensures
        range_filter(s, Time::MIN, hi) == range_filter(s, lo, hi),
    decreases s.len(),
{
    if s.len() > 0 {
        lemma_rf_widen_lo(s.drop_last(), lo, hi);
    }
}

/// Symmetrically for the upper bound.
proof fn lemma_rf_widen_hi<V>(s: Seq<(Time, V)>, lo: Time, hi: Time)
    requires
        forall|j: int| 0 <= j < s.len() ==> #[trigger] s[j].0 <= hi,
    ensures
        range_filter(s, lo, Time::MAX) == range_filter(s, lo, hi),
    decreases s.len(),
{
    if s.len() > 0 {
        lemma_rf_widen_hi(s.drop_last(), lo, hi);
    }
}

// ---------------------------------------------------------------------------
// Node specs: entries, shape well-formedness, aggregate roles.
// ---------------------------------------------------------------------------

spec fn pairs<V>(items: Seq<Item<V>>) -> Seq<(Time, V)> {
    items.map_values(|it: Item<V>| (it.time, it.value))
}

/// The entries of a subtree in time order: children interleaved with items.
spec fn entries<V: Monoid>(n: Node<V>) -> Seq<(Time, V)>
    decreases n, n.items@.len() + 1int,
{
    if n.children@.len() == 0 {
        pairs(n.items@)
    } else {
        entries_pre(n, n.items@.len() as int)
    }
}

/// Entries of children `0..=k` interleaved with items `0..k`.
spec fn entries_pre<V: Monoid>(n: Node<V>, k: int) -> Seq<(Time, V)>
    decreases n, k,
{
    if n.children@.len() == 0 {
        Seq::empty()
    } else if k <= 0 {
        entries(n.children@[0])
    } else if k < n.children@.len() {
        entries_pre(n, k - 1) + seq![(n.items@[k - 1].time, n.items@[k - 1].value)] + entries(
            n.children@[k],
        )
    } else {
        Seq::empty()
    }
}

/// Entries of items `k..` and children `k+1..`: the part of a subtree to the
/// right of child `k`.
spec fn entries_suf<V: Monoid>(n: Node<V>, k: int) -> Seq<(Time, V)>
    decreases n.items@.len() - k,
{
    if k < 0 || k >= n.items@.len() || n.children@.len() != n.items@.len() + 1 {
        Seq::empty()
    } else {
        seq![(n.items@[k].time, n.items@[k].value)] + entries(n.children@[k + 1]) + entries_suf(
            n,
            k + 1,
        )
    }
}

/// The entries strictly left of child `i`: children `0..i` and items `0..i`.
spec fn entries_before<V: Monoid>(n: Node<V>, i: int) -> Seq<(Time, V)> {
    if i <= 0 {
        Seq::empty()
    } else {
        entries_pre(n, i - 1) + seq![(n.items@[i - 1].time, n.items@[i - 1].value)]
    }
}

/// The height of a subtree: leaves have height zero. Under the shape
/// invariant every child of a node has the same height.
spec fn height<V: Monoid>(n: Node<V>) -> nat
    decreases n,
{
    if n.children@.len() == 0 {
        0
    } else {
        1 + height(n.children@[0])
    }
}

/// Everything of the shape invariant except this node's own arity bounds:
/// item sortedness, leaf/internal child count, well-formed children, and
/// time separation of the children by the items.
spec fn wf_local<V: Monoid>(n: Node<V>) -> bool
    decreases n, 0int,
{
    let m = n.items@.len() as int;
    &&& (forall|i: int, j: int| 0 <= i < j < m ==> n.items@[i].time < n.items@[j].time)
    &&& (n.children@.len() == 0 || n.children@.len() == m + 1)
    &&& (n.children@.len() > 0 ==> m >= 1)
    &&& (forall|i: int|
        0 <= i < n.children@.len() ==> wf(#[trigger] n.children@[i], false))
    &&& (forall|i: int|
        0 <= i < n.children@.len() ==> height(#[trigger] n.children@[i]) == height(
            n.children@[0],
        ))
    &&& (forall|i: int|
        1 <= i < n.children@.len() ==> all_gt(entries(#[trigger] n.children@[i]), n.items@[i - 1].time))
    &&& (forall|i: int|
        0 <= i < n.children@.len() - 1 ==> all_lt(entries(#[trigger] n.children@[i]), n.items@[i].time))
}

/// Shape invariant: arity bounds (relaxed at the root) on top of the local
/// shape conditions.
spec fn wf<V: Monoid>(n: Node<V>, root: bool) -> bool
    decreases n, 1int,
{
    let m = n.items@.len() as int;
    &&& m <= MAX_ARITY - 1
    &&& (!root ==> m >= MIN_ARITY - 1)
    &&& wf_local(n)
}

/// The aggregate of a whole subtree.
spec fn subtree_fold<V: Monoid>(n: Node<V>) -> V {
    fold(vals_of(entries(n)))
}

/// Spine-flag discipline of the children and full aggregate correctness of
/// their subtrees: a child is flagged left iff it is child 0 of the root or
/// of a left-flagged node, symmetrically right.
spec fn kids_ok<V: Monoid>(n: Node<V>, root: bool) -> bool
    decreases n, 0int,
{
    &&& (forall|i: int|
        0 <= i < n.children@.len() ==> aggs_core(#[trigger] n.children@[i], false))
    &&& (forall|i: int|
        0 <= i < n.children@.len() ==> ((#[trigger] n.children@[i]).spine.left <==> (i == 0 && (
        root || n.spine.left))))
    &&& (forall|i: int|
        0 <= i < n.children@.len() ==> ((#[trigger] n.children@[i]).spine.right <==> (i
            == n.children@.len() - 1 && (root || n.spine.right))))
}

/// Spine-flag discipline and correctness of the cached aggregates of all
/// off-spine nodes: every node flagged neither way caches the aggregate of
/// its whole subtree.
spec fn aggs_core<V: Monoid>(n: Node<V>, root: bool) -> bool
    decreases n, 1int,
{
    &&& (root ==> !n.spine.left && !n.spine.right)
    &&& (!root && !n.spine.left && !n.spine.right ==> n.agg == subtree_fold(n))
    &&& kids_ok(n, root)
}

/// The inner entries of a node: its items and its non-extreme children's
/// subtrees; for a leaf, just its items.
spec fn mid<V: Monoid>(n: Node<V>) -> Seq<(Time, V)>
    decreases n, n.items@.len() + 1int,
{
    if n.children@.len() == 0 {
        pairs(n.items@)
    } else {
        mid_pre(n, n.items@.len() - 1)
    }
}

/// Inner entries up to item `k`: item 0, child 1, item 1, ..., child k, item k.
spec fn mid_pre<V: Monoid>(n: Node<V>, k: int) -> Seq<(Time, V)>
    decreases n, k,
{
    if n.children@.len() == 0 {
        Seq::empty()
    } else if k <= 0 {
        seq![(n.items@[0].time, n.items@[0].value)]
    } else if k < n.children@.len() - 1 {
        mid_pre(n, k - 1) + entries(n.children@[k]) + seq![(n.items@[k].time, n.items@[k].value)]
    } else {
        Seq::empty()
    }
}

/// Everything in the subtree except the left-most child's subtree.
spec fn except_first<V: Monoid>(n: Node<V>) -> Seq<(Time, V)> {
    if n.children@.len() == 0 {
        pairs(n.items@)
    } else {
        mid(n) + entries(n.children@[n.children@.len() - 1])
    }
}

/// Everything in the subtree except the right-most child's subtree.
spec fn except_last<V: Monoid>(n: Node<V>) -> Seq<(Time, V)> {
    if n.children@.len() == 0 {
        pairs(n.items@)
    } else {
        entries(n.children@[0]) + mid(n)
    }
}

/// Aggregate correctness down the left spine: each node caches the fold of
/// everything but its left-most child's subtree, combined after `above`, the
/// parent's cached aggregate (identity at the root).
spec fn chain_left_ok<V: Monoid>(n: Node<V>, above: V) -> bool
    decreases n,
{
    &&& n.agg == V::op(fold(vals_of(except_first(n))), above)
    &&& (n.children@.len() > 0 ==> chain_left_ok(n.children@[0], n.agg))
}

/// Symmetric aggregate correctness down the right spine.
spec fn chain_right_ok<V: Monoid>(n: Node<V>, above: V) -> bool
    decreases n,
{
    &&& n.agg == V::op(above, fold(vals_of(except_last(n))))
    &&& (n.children@.len() > 0 ==> chain_right_ok(
        n.children@[n.children@.len() - 1],
        n.agg,
    ))
}

/// The cached aggregate of the left-most leaf of a subtree.
spec fn leftmost_agg<V: Monoid>(n: Node<V>) -> V
    decreases n,
{
    if n.children@.len() == 0 {
        n.agg
    } else {
        leftmost_agg(n.children@[0])
    }
}

/// The cached aggregate of the right-most leaf of a subtree.
spec fn rightmost_agg<V: Monoid>(n: Node<V>) -> V
    decreases n,
{
    if n.children@.len() == 0 {
        n.agg
    } else {
        rightmost_agg(n.children@[n.children@.len() - 1])
    }
}

// ---------------------------------------------------------------------------
// Decomposition lemmas for entries.
// ---------------------------------------------------------------------------

/// A subtree's entries split at any item index into prefix and suffix parts.
proof fn lemma_pre_suf<V: Monoid>(n: Node<V>, k: int)
    requires
        n.children@.len() == n.items@.len() + 1,
        n.items@.len() >= 1,
        0 <= k <= n.items@.len(),
    ensures
        entries(n) == entries_pre(n, k) + entries_suf(n, k),
    decreases n.items@.len() - k,
{
    let m = n.items@.len() as int;
    if k == m {
        assert(entries(n) == entries_pre(n, m));
        assert(entries_suf(n, m) =~= Seq::<(Time, V)>::empty());
        assert(entries_pre(n, m) + entries_suf(n, m) =~= entries_pre(n, m));
    } else {
        lemma_pre_suf(n, k + 1);
        assert(entries_pre(n, k + 1) == entries_pre(n, k) + seq![
            (n.items@[k].time, n.items@[k].value),
        ] + entries(n.children@[k + 1]));
        assert(entries_suf(n, k) == seq![(n.items@[k].time, n.items@[k].value)] + entries(
            n.children@[k + 1],
        ) + entries_suf(n, k + 1));
        assert(entries_pre(n, k) + entries_suf(n, k) =~= entries_pre(n, k + 1) + entries_suf(
            n,
            k + 1,
        ));
    }
}

/// A subtree's entries split around child `i`.
proof fn lemma_entries_at<V: Monoid>(n: Node<V>, i: int)
    requires
        n.children@.len() == n.items@.len() + 1,
        n.items@.len() >= 1,
        0 <= i < n.children@.len(),
    ensures
        entries(n) == entries_before(n, i) + entries(n.children@[i]) + entries_suf(n, i),
{
    lemma_pre_suf(n, i);
    if i == 0 {
        assert(entries_pre(n, 0) == entries(n.children@[0]));
        assert(entries_before(n, 0) + entries(n.children@[0]) + entries_suf(n, 0) =~= entries_pre(
            n,
            0,
        ) + entries_suf(n, 0));
    } else {
        assert(entries_pre(n, i) == entries_pre(n, i - 1) + seq![
            (n.items@[i - 1].time, n.items@[i - 1].value),
        ] + entries(n.children@[i]));
        assert(entries_before(n, i) + entries(n.children@[i]) + entries_suf(n, i) =~= entries_pre(
            n,
            i,
        ) + entries_suf(n, i));
    }
}

/// `entries_pre(_, k)` reads only items `0..k` and children `0..=k`.
proof fn lemma_pre_frame<V: Monoid>(x: Node<V>, y: Node<V>, k: int)
    requires
        0 <= k,
        k < x.children@.len(),
        k < y.children@.len(),
        forall|j: int| 0 <= j < k ==> x.items@[j] == y.items@[j],
        k <= x.items@.len(),
        k <= y.items@.len(),
        forall|j: int| 0 <= j <= k ==> x.children@[j] == y.children@[j],
    ensures
        entries_pre(x, k) == entries_pre(y, k),
    decreases k,
{
    if k > 0 {
        lemma_pre_frame(x, y, k - 1);
    }
}

/// `entries_suf(_, k)` reads only the items and children from `k` on; two
/// nodes that agree there, up to an index shift, have the same suffix.
proof fn lemma_suf_align<V: Monoid>(x: Node<V>, y: Node<V>, dx: int, dy: int, k: int)
    requires
        0 <= dx <= x.items@.len(),
        0 <= dy <= y.items@.len(),
        x.children@.len() == x.items@.len() + 1,
        y.children@.len() == y.items@.len() + 1,
        x.items@.skip(dx) == y.items@.skip(dy),
        x.children@.skip(dx + 1) == y.children@.skip(dy + 1),
        0 <= k,
    ensures
        entries_suf(x, dx + k) == entries_suf(y, dy + k),
    decreases x.items@.len() - dx - k,
{
    let mx = x.items@.len() as int;
    let my = y.items@.len() as int;
    assert(x.items@.skip(dx).len() == x.items@.len() - dx);
    assert(y.items@.skip(dy).len() == y.items@.len() - dy);
    assert(x.items@.skip(dx).len() == y.items@.skip(dy).len());
    assert(mx - dx == my - dy);
    if dx + k >= mx {
        assert(entries_suf(x, dx + k) =~= Seq::<(Time, V)>::empty());
        assert(entries_suf(y, dy + k) =~= Seq::<(Time, V)>::empty());
    } else {
        assert(x.items@.skip(dx)[k] == x.items@[dx + k]);
        assert(y.items@.skip(dy)[k] == y.items@[dy + k]);
        assert(x.items@[dx + k] == y.items@[dy + k]);
        assert(x.children@.skip(dx + 1)[k] == x.children@[dx + k + 1]);
        assert(y.children@.skip(dy + 1)[k] == y.children@[dy + k + 1]);
        assert(x.children@[dx + k + 1] == y.children@[dy + k + 1]);
        lemma_suf_align(x, y, dx, dy, k + 1);
    }
}

// ---------------------------------------------------------------------------
// Lemmas about count_lt and the model operations.
// ---------------------------------------------------------------------------

proof fn lemma_count_lt_all_lt<V>(s: Seq<(Time, V)>, t: Time)
    requires
        all_lt(s, t),
    ensures
        count_lt(s, t) == s.len(),
    decreases s.len(),
{
    if s.len() > 0 {
        lemma_count_lt_all_lt(s.drop_last(), t);
    }
}

proof fn lemma_count_lt_all_ge<V>(s: Seq<(Time, V)>, t: Time)
    requires
        forall|i: int| 0 <= i < s.len() ==> s[i].0 >= t,
    ensures
        count_lt(s, t) == 0,
    decreases s.len(),
{
    if s.len() > 0 {
        lemma_count_lt_all_ge(s.drop_last(), t);
    }
}

/// Counting below `t` across a concatenation whose left part is entirely
/// below `t`.
proof fn lemma_count_lt_concat_lo<V>(a: Seq<(Time, V)>, c: Seq<(Time, V)>, t: Time)
    requires
        all_lt(a, t),
    ensures
        count_lt(a + c, t) == a.len() + count_lt(c, t),
    decreases c.len(),
{
    if c.len() == 0 {
        assert(a + c =~= a);
        lemma_count_lt_all_lt(a, t);
    } else {
        assert((a + c).last() == c.last());
        assert((a + c).drop_last() =~= a + c.drop_last());
        if c.last().0 < t {
            lemma_count_lt_concat_lo(a, c.drop_last(), t);
            lemma_count_lt_all_lt(a, t);
            if count_lt(c.drop_last(), t) != c.len() - 1 {
                lemma_count_lt_hi_bound(c.drop_last(), t);
            }
            assert(count_lt(a + c, t) == (a + c).len());
        } else {
            lemma_count_lt_concat_lo(a, c.drop_last(), t);
        }
    }
}

proof fn lemma_count_lt_hi_bound<V>(s: Seq<(Time, V)>, t: Time)
    ensures
        0 <= count_lt(s, t) <= s.len(),
    decreases s.len(),
{
    if s.len() > 0 {
        lemma_count_lt_hi_bound(s.drop_last(), t);
    }
}

/// Counting below `t` across a concatenation whose right part is entirely
/// above `t`.
proof fn lemma_count_lt_concat_hi<V>(c: Seq<(Time, V)>, b: Seq<(Time, V)>, t: Time)
    requires
        all_gt(b, t),
    ensures
        count_lt(c + b, t) == count_lt(c, t),
    decreases b.len(),
{
    if b.len() == 0 {
        assert(c + b =~= c);
    } else {
        assert((c + b).last() == b.last());
        assert((c + b).drop_last() =~= c + b.drop_last());
        lemma_count_lt_concat_hi(c, b.drop_last(), t);
    }
}

/// Insertion in the middle segment of a bounded decomposition stays in the
/// middle segment.
proof fn lemma_insert_entry_mid<V: Monoid>(
    a: Seq<(Time, V)>,
    c: Seq<(Time, V)>,
    b: Seq<(Time, V)>,
    t: Time,
    v: V,
)
    requires
        all_lt(a, t),
        all_gt(b, t),
    ensures
        insert_entry(a + c + b, t, v) == a + insert_entry(c, t, v) + b,
{
    let s = a + c + b;
    assert(a + c + b =~= (a + c) + b);
    lemma_count_lt_concat_hi(a + c, b, t);
    lemma_count_lt_concat_lo(a, c, t);
    lemma_count_lt_hi_bound(c, t);
    let i = count_lt(c, t);
    let ifull = count_lt(s, t);
    assert(ifull == a.len() + i);
    if i < c.len() && c[i].0 == t {
        assert(s[ifull] == c[i]);
        assert(s.update(ifull, (t, V::op(s[ifull].1, v))) =~= a + c.update(i, (t, V::op(c[i].1, v)))
            + b);
    } else {
        if ifull < s.len() {
            assert(s[ifull] == (a + c + b)[a.len() + i]);
            if i < c.len() {
                assert(s[ifull] == c[i]);
            } else {
                assert(s[ifull] == b[a.len() + i - a.len() - c.len()]);
            }
            assert(s[ifull].0 != t);
        }
        assert(s.insert(ifull, (t, v)) =~= a + c.insert(i, (t, v)) + b);
    }
}

/// Insertion at an already-present time combines into the stored value in
/// place.
proof fn lemma_insert_entry_at<V: Monoid>(
    p: Seq<(Time, V)>,
    u: V,
    q: Seq<(Time, V)>,
    t: Time,
    v: V,
)
    requires
        all_lt(p, t),
        all_gt(q, t),
    ensures
        insert_entry(p + seq![(t, u)] + q, t, v) == p + seq![(t, V::op(u, v))] + q,
{
    let s = p + seq![(t, u)] + q;
    assert(p + seq![(t, u)] + q =~= p + (seq![(t, u)] + q));
    lemma_count_lt_concat_lo(p, seq![(t, u)] + q, t);
    lemma_count_lt_concat_hi(seq![(t, u)], q, t);
    lemma_count_lt_all_ge(seq![(t, u)], t);
    assert(count_lt(seq![(t, u)], t) == 0);
    assert(count_lt(s, t) == p.len());
    assert(s[p.len() as int] == (t, u));
    assert(s.update(p.len() as int, (t, V::op(u, v))) =~= p + seq![(t, V::op(u, v))] + q);
}

/// Insertion keeps any strict bounds that cover both the sequence and the
/// new time, and grows the length by at most one.
proof fn lemma_insert_entry_bounds<V: Monoid>(s: Seq<(Time, V)>, t: Time, v: V)
    ensures
        s.len() <= insert_entry(s, t, v).len() <= s.len() + 1,
        forall|x: Time| all_gt(s, x) && t > x ==> all_gt(#[trigger] insert_entry(s, t, v), x),
        forall|x: Time| all_lt(s, x) && t < x ==> all_lt(#[trigger] insert_entry(s, t, v), x),
{
    lemma_count_lt_hi_bound(s, t);
    let i = count_lt(s, t);
    let r = insert_entry(s, t, v);
    if i < s.len() && s[i].0 == t {
        assert forall|x: Time| all_gt(s, x) && t > x implies all_gt(r, x) by {
            assert forall|j: int| 0 <= j < r.len() implies r[j].0 > x by {
                if j != i {
                    assert(r[j] == s[j]);
                }
            }
        }
        assert forall|x: Time| all_lt(s, x) && t < x implies all_lt(r, x) by {
            assert forall|j: int| 0 <= j < r.len() implies r[j].0 < x by {
                if j != i {
                    assert(r[j] == s[j]);
                }
            }
        }
    } else {
        assert(r == s.insert(i, (t, v)));
        assert forall|x: Time| all_gt(s, x) && t > x implies all_gt(r, x) by {
            assert forall|j: int| 0 <= j < r.len() implies r[j].0 > x by {
                if j < i {
                    assert(r[j] == s[j]);
                } else if j == i {
                } else {
                    assert(r[j] == s[j - 1]);
                }
            }
        }
        assert forall|x: Time| all_lt(s, x) && t < x implies all_lt(r, x) by {
            assert forall|j: int| 0 <= j < r.len() implies r[j].0 < x by {
                if j < i {
                    assert(r[j] == s[j]);
                } else if j == i {
                } else {
                    assert(r[j] == s[j - 1]);
                }
            }
        }
    }
}

/// Removal from the middle segment of a bounded decomposition stays in the
/// middle segment.
proof fn lemma_remove_entry_mid<V: Monoid>(
    a: Seq<(Time, V)>,
    c: Seq<(Time, V)>,
    b: Seq<(Time, V)>,
    t: Time,
)
    requires
        all_lt(a, t),
        all_gt(b, t),
    ensures
        remove_entry(a + c + b, t) == a + remove_entry(c, t) + b,
{
    let s = a + c + b;
    assert(a + c + b =~= (a + c) + b);
    lemma_count_lt_concat_hi(a + c, b, t);
    lemma_count_lt_concat_lo(a, c, t);
    lemma_count_lt_hi_bound(c, t);
    let i = count_lt(c, t);
    let ifull = count_lt(s, t);
    assert(ifull == a.len() + i);
    if i < c.len() && c[i].0 == t {
        assert(s[ifull] == c[i]);
        assert(s.remove(ifull) =~= a + c.remove(i) + b);
    } else {
        if ifull < s.len() {
            if i < c.len() {
                assert(s[ifull] == c[i]);
            } else {
                assert(s[ifull] == b[a.len() + i - a.len() - c.len()]);
            }
            assert(s[ifull].0 != t);
        }
    }
}

/// `entries_pre(_, k)` depends only on items `0..k` and the entries of
/// children `0..=k`.
proof fn lemma_pre_frame_e<V: Monoid>(x: Node<V>, y: Node<V>, k: int)
    requires
        0 <= k,
        k < x.children@.len(),
        k < y.children@.len(),
        forall|j: int| 0 <= j < k ==> x.items@[j] == y.items@[j],
        k <= x.items@.len(),
        k <= y.items@.len(),
        forall|j: int|
            0 <= j <= k ==> entries(#[trigger] x.children@[j]) == entries(y.children@[j]),
    ensures
        entries_pre(x, k) == entries_pre(y, k),
    decreases k,
{
    if k > 0 {
        lemma_pre_frame_e(x, y, k - 1);
    }
}

/// Two nodes with the same items and children of equal entries have the same
/// entries and the same inner part; the cached aggregates play no part.
proof fn lemma_shape_entries<V: Monoid>(x: Node<V>, y: Node<V>)
    requires
        x.items@ == y.items@,
        x.children@.len() == y.children@.len(),
        forall|j: int|
            0 <= j < x.children@.len() ==> entries(#[trigger] x.children@[j]) == entries(
                y.children@[j],
            ),
    ensures
        entries(x) == entries(y),
        mid(x) == mid(y),
        except_first(x) == except_first(y),
        except_last(x) == except_last(y),
{
    if x.children@.len() > 0 {
        lemma_shape_entries_junk(x, y, x.items@.len() as int);
        lemma_mid_junk(x, y, x.items@.len() - 1);
    }
}

proof fn lemma_shape_entries_junk<V: Monoid>(x: Node<V>, y: Node<V>, k: int)
    requires
        x.items@ == y.items@,
        x.children@.len() == y.children@.len(),
        x.children@.len() > 0,
        forall|j: int|
            0 <= j < x.children@.len() ==> entries(#[trigger] x.children@[j]) == entries(
                y.children@[j],
            ),
    ensures
        entries_pre(x, k) == entries_pre(y, k),
    decreases k,
{
    if k > 0 {
        lemma_shape_entries_junk(x, y, k - 1);
    }
}

proof fn lemma_mid_junk<V: Monoid>(x: Node<V>, y: Node<V>, k: int)
    requires
        x.items@ == y.items@,
        x.children@.len() == y.children@.len(),
        x.children@.len() > 0,
        forall|j: int|
            0 <= j < x.children@.len() ==> entries(#[trigger] x.children@[j]) == entries(
                y.children@[j],
            ),
    ensures
        mid_pre(x, k) == mid_pre(y, k),
    decreases k,
{
    if k > 0 {
        lemma_mid_junk(x, y, k - 1);
    }
}

// ---------------------------------------------------------------------------
// Bounds propagation and sortedness.
// ---------------------------------------------------------------------------

proof fn lemma_all_lt_concat<V>(a: Seq<(Time, V)>, b: Seq<(Time, V)>, t: Time)
    requires
        all_lt(a, t),
        all_lt(b, t),
    ensures
        all_lt(a + b, t),
{
    assert forall|i: int| 0 <= i < (a + b).len() implies (a + b)[i].0 < t by {
        if i < a.len() {
            assert((a + b)[i] == a[i]);
        } else {
            assert((a + b)[i] == b[i - a.len()]);
        }
    }
}

proof fn lemma_all_gt_concat<V>(a: Seq<(Time, V)>, b: Seq<(Time, V)>, t: Time)
    requires
        all_gt(a, t),
        all_gt(b, t),
    ensures
        all_gt(a + b, t),
{
    assert forall|i: int| 0 <= i < (a + b).len() implies (a + b)[i].0 > t by {
        if i < a.len() {
            assert((a + b)[i] == a[i]);
        } else {
            assert((a + b)[i] == b[i - a.len()]);
        }
    }
}

proof fn lemma_all_lt_parts<V>(a: Seq<(Time, V)>, b: Seq<(Time, V)>, t: Time)
    requires
        all_lt(a + b, t),
    ensures
        all_lt(a, t),
        all_lt(b, t),
{
    assert forall|i: int| 0 <= i < a.len() implies a[i].0 < t by {
        assert(a[i] == (a + b)[i]);
    }
    assert forall|i: int| 0 <= i < b.len() implies b[i].0 < t by {
        assert(b[i] == (a + b)[a.len() + i]);
    }
}

proof fn lemma_all_gt_parts<V>(a: Seq<(Time, V)>, b: Seq<(Time, V)>, t: Time)
    requires
        all_gt(a + b, t),
    ensures
        all_gt(a, t),
        all_gt(b, t),
{
    assert forall|i: int| 0 <= i < a.len() implies a[i].0 > t by {
        assert(a[i] == (a + b)[i]);
    }
    assert forall|i: int| 0 <= i < b.len() implies b[i].0 > t by {
        assert(b[i] == (a + b)[a.len() + i]);
    }
}

/// Everything left of item `k` lies below item `k`'s time.
proof fn lemma_pre_all_lt<V: Monoid>(n: Node<V>, k: int)
    requires
        wf_local(n),
        n.children@.len() == n.items@.len() + 1,
        0 <= k < n.items@.len(),
    ensures
        all_lt(entries_pre(n, k), n.items@[k].time),
    decreases k,
{
    if k == 0 {
        assert(entries_pre(n, 0) == entries(n.children@[0]));
    } else {
        lemma_pre_all_lt(n, k - 1);
        assert(all_lt(entries_pre(n, k - 1), n.items@[k].time));
        lemma_all_lt_concat(
            entries_pre(n, k - 1),
            seq![(n.items@[k - 1].time, n.items@[k - 1].value)],
            n.items@[k].time,
        );
        lemma_all_lt_concat(
            entries_pre(n, k - 1) + seq![(n.items@[k - 1].time, n.items@[k - 1].value)],
            entries(n.children@[k]),
            n.items@[k].time,
        );
    }
}

/// Everything from item `k` on lies above any time below item `k`.
proof fn lemma_suf_all_gt<V: Monoid>(n: Node<V>, k: int, t: Time)
    requires
        wf_local(n),
        n.children@.len() == n.items@.len() + 1,
        0 <= k < n.items@.len(),
        t < n.items@[k].time,
    ensures
        all_gt(entries_suf(n, k), t),
    decreases n.items@.len() - k,
{
    let m = n.items@.len() as int;
    assert(all_gt(entries(n.children@[k + 1]), t));
    if k + 1 < m {
        lemma_suf_all_gt(n, k + 1, t);
    } else {
        assert(entries_suf(n, k + 1) =~= Seq::<(Time, V)>::empty());
    }
    lemma_all_gt_concat(
        seq![(n.items@[k].time, n.items@[k].value)],
        entries(n.children@[k + 1]),
        t,
    );
    lemma_all_gt_concat(
        seq![(n.items@[k].time, n.items@[k].value)] + entries(n.children@[k + 1]),
        entries_suf(n, k + 1),
        t,
    );
}

/// Everything left of child `i` lies below any time above item `i-1`.
proof fn lemma_before_all_lt<V: Monoid>(n: Node<V>, i: int, t: Time)
    requires
        wf_local(n),
        n.children@.len() == n.items@.len() + 1,
        0 <= i < n.children@.len(),
        i > 0 ==> n.items@[i - 1].time < t,
    ensures
        all_lt(entries_before(n, i), t),
{
    if i == 0 {
        assert(entries_before(n, 0) =~= Seq::<(Time, V)>::empty());
    } else {
        lemma_pre_all_lt(n, i - 1);
        lemma_all_lt_concat(
            entries_pre(n, i - 1),
            seq![(n.items@[i - 1].time, n.items@[i - 1].value)],
            t,
        );
    }
}

/// Everything right of child `i` lies above any time below item `i`.
proof fn lemma_after_all_gt<V: Monoid>(n: Node<V>, i: int, t: Time)
    requires
        wf_local(n),
        n.children@.len() == n.items@.len() + 1,
        0 <= i < n.children@.len(),
        i < n.items@.len() ==> t < n.items@[i].time,
    ensures
        all_gt(entries_suf(n, i), t),
{
    if i == n.items@.len() {
        assert(entries_suf(n, i) =~= Seq::<(Time, V)>::empty());
    } else {
        lemma_suf_all_gt(n, i, t);
    }
}

/// Where a scan that stopped at the first time not below `t` stands is
/// exactly the count of entries below `t`.
proof fn lemma_count_lt_char<V>(s: Seq<(Time, V)>, t: Time, i: int)
    requires
        sorted(s),
        0 <= i <= s.len(),
        forall|j: int| 0 <= j < i ==> s[j].0 < t,
        i < s.len() ==> s[i].0 >= t,
    ensures
        count_lt(s, t) == i,
    decreases s.len(),
{
    if s.len() > 0 {
        if i == s.len() {
            lemma_count_lt_all_lt(s, t);
        } else {
            assert(s.last().0 >= t);
            lemma_count_lt_char(s.drop_last(), t, i);
        }
    }
}

// ---------------------------------------------------------------------------
// Aggregate decomposition.
// ---------------------------------------------------------------------------

/// Fold of values across a concatenation of entry sequences.
proof fn lemma_fold_vals_app<V: Monoid>(a: Seq<(Time, V)>, b: Seq<(Time, V)>)
    ensures
        fold(vals_of(a + b)) == V::op(fold(vals_of(a)), fold(vals_of(b))),
{
    assert(vals_of(a + b) =~= vals_of(a) + vals_of(b));
    lemma_fold_app::<V>(vals_of(a), vals_of(b));
}

/// An internal subtree's entries are its first child's, its inner part, and
/// its last child's.
proof fn lemma_entries_decomp<V: Monoid>(n: Node<V>)
    requires
        n.children@.len() == n.items@.len() + 1,
        n.items@.len() >= 1,
    ensures
        entries(n) == entries(n.children@[0]) + mid(n) + entries(
            n.children@[n.children@.len() - 1],
        ),
{
    let m = n.items@.len() as int;
    lemma_pre_mid(n, m);
    assert(mid(n) == mid_pre(n, m - 1));
}

/// `entries_pre` in terms of `mid_pre`.
proof fn lemma_pre_mid<V: Monoid>(n: Node<V>, k: int)
    requires
        n.children@.len() == n.items@.len() + 1,
        1 <= k <= n.items@.len(),
    ensures
        entries_pre(n, k) == entries(n.children@[0]) + mid_pre(n, k - 1) + entries(
            n.children@[k],
        ),
    decreases k,
{
    if k == 1 {
        assert(entries_pre(n, 1) == entries_pre(n, 0) + seq![
            (n.items@[0].time, n.items@[0].value),
        ] + entries(n.children@[1]));
        assert(mid_pre(n, 0) == seq![(n.items@[0].time, n.items@[0].value)]);
        assert(entries_pre(n, 0) == entries(n.children@[0]));
        assert(entries_pre(n, 0) + seq![(n.items@[0].time, n.items@[0].value)] + entries(
            n.children@[1],
        ) =~= entries(n.children@[0]) + mid_pre(n, 0) + entries(n.children@[1]));
    } else {
        lemma_pre_mid(n, k - 1);
        assert(mid_pre(n, k - 1) == mid_pre(n, k - 2) + entries(n.children@[k - 1]) + seq![
            (n.items@[k - 1].time, n.items@[k - 1].value),
        ]);
        assert(entries_pre(n, k) == entries_pre(n, k - 1) + seq![
            (n.items@[k - 1].time, n.items@[k - 1].value),
        ] + entries(n.children@[k]));
        assert(entries_pre(n, k) =~= entries(n.children@[0]) + mid_pre(n, k - 1) + entries(
            n.children@[k],
        ));
    }
}

/// Arity bounds for non-root nodes only strengthen the shape invariant.
proof fn lemma_wf_weaken<V: Monoid>(n: Node<V>)
    requires
        wf(n, false),
    ensures
        wf(n, true),
{
}

/// Following the left spine, the finger leaf's cached aggregate covers the
/// whole subtree, combined before `above`.
proof fn lemma_chain_left<V: Monoid>(n: Node<V>, above: V)
    requires
        wf(n, true),
        chain_left_ok(n, above),
    ensures
        leftmost_agg(n) == V::op(fold(vals_of(entries(n))), above),
    decreases n,
{
    if n.children@.len() == 0 {
        assert(except_first(n) == entries(n));
    } else {
        let c0 = n.children@[0];
        let last = n.children@.len() - 1;
        lemma_wf_weaken(c0);
        lemma_chain_left(c0, n.agg);
        lemma_entries_decomp(n);
        lemma_fold_vals_app::<V>(mid(n), entries(n.children@[last]));
        assert(except_first(n) == mid(n) + entries(n.children@[last]));
        lemma_fold_vals_app::<V>(entries(c0), mid(n) + entries(n.children@[last]));
        assert(entries(c0) + (mid(n) + entries(n.children@[last])) =~= entries(n));
        V::op_assoc(
            fold(vals_of(entries(c0))),
            fold(vals_of(except_first(n))),
            above,
        );
    }
}

/// Symmetrically down the right spine.
proof fn lemma_chain_right<V: Monoid>(n: Node<V>, above: V)
    requires
        wf(n, true),
        chain_right_ok(n, above),
    ensures
        rightmost_agg(n) == V::op(above, fold(vals_of(entries(n)))),
    decreases n,
{
    if n.children@.len() == 0 {
        assert(except_last(n) == entries(n));
    } else {
        let last = n.children@.len() - 1;
        let cl = n.children@[last];
        lemma_wf_weaken(cl);
        lemma_chain_right(cl, n.agg);
        lemma_entries_decomp(n);
        lemma_fold_vals_app::<V>(entries(n.children@[0]), mid(n));
        assert(except_last(n) == entries(n.children@[0]) + mid(n));
        lemma_fold_vals_app::<V>(entries(n.children@[0]) + mid(n), entries(cl));
        V::op_assoc(
            above,
            fold(vals_of(except_last(n))),
            fold(vals_of(entries(cl))),
        );
    }
}

impl<V: Monoid> Tree<V> {
    #[verifier::type_invariant]
    spec fn inv(self) -> bool {
        &&& wf(self.root, true)
        &&& aggs_core(self.root, true)
        &&& (self.root.children@.len() == 0 ==> self.root.agg == subtree_fold(self.root))
        &&& (self.root.children@.len() > 0 ==> {
            let last = self.root.children@.len() - 1;
            &&& self.root.agg == fold(vals_of(mid(self.root)))
            &&& chain_left_ok(self.root.children@[0], V::id())
            &&& chain_right_ok(self.root.children@[last], V::id())
            &&& self.left_agg == leftmost_agg(self.root.children@[0])
            &&& self.right_agg == rightmost_agg(self.root.children@[last])
        })
    }
}

impl<V: Monoid> Node<V> {
    /// A fresh empty leaf off both spines.
    fn new() -> (n: Node<V>)
        ensures
            n.items@ == Seq::<Item<V>>::empty(),
            n.children@ == Seq::<Node<V>>::empty(),
            n.agg == V::id(),
            n.spine == (Spine { left: false, right: false }),
            entries(n) == Seq::<(Time, V)>::empty(),
            wf(n, true),
            aggs_core(n, true),
            aggs_core(n, false),
            subtree_fold(n) == V::id(),
    {
        let n = Node {
            items: Vec::new(),
            children: Vec::new(),
            agg: V::identity(),
            spine: Spine::new(false, false),
        };
        proof {
            assert(entries(n) =~= Seq::<(Time, V)>::empty());
            assert(vals_of(entries(n)) =~= Seq::<V>::empty());
        }
        n
    }

    /// The position of `t` among this node's items: the index holding `t`,
    /// or the index of the first later item.
    fn item_idx(items: &Vec<Item<V>>, t: Time) -> (r: Result<usize, usize>)
        requires
            forall|i: int, j: int|
                0 <= i < j < items@.len() ==> items@[i].time < items@[j].time,
        ensures
            match r {
                Ok(i) => {
                    &&& i < items@.len()
                    &&& items@[i as int].time == t
                    &&& i as int == count_lt(pairs(items@), t)
                },
                Err(i) => {
                    &&& i <= items@.len()
                    &&& i as int == count_lt(pairs(items@), t)
                    &&& (i < items@.len() ==> items@[i as int].time > t)
                    &&& (i > 0 ==> items@[i - 1].time < t)
                },
            },
    {
        let ghost ps = pairs(items@);
        proof {
            assert forall|i: int, j: int| 0 <= i < j < ps.len() implies ps[i].0 < ps[j].0 by {
                assert(ps[i] == (items@[i].time, items@[i].value));
                assert(ps[j] == (items@[j].time, items@[j].value));
            }
        }
        let mut i: usize = 0;
        while i < items.len()
            invariant
                ps == pairs(items@),
                forall|i2: int, j: int|
                    0 <= i2 < j < items@.len() ==> items@[i2].time < items@[j].time,
                i <= items@.len(),
                forall|j: int| 0 <= j < i ==> items@[j].time < t,
                sorted(ps),
                ps.len() == items@.len(),
                forall|j: int| 0 <= j < ps.len() ==> ps[j].0 == items@[j].time,
            decreases items@.len() - i,
        {
            if items[i].time < t {
                i = i + 1;
            } else if items[i].time == t {
                proof {
                    lemma_count_lt_char(ps, t, i as int);
                }
                return Ok(i);
            } else {
                proof {
                    lemma_count_lt_char(ps, t, i as int);
                }
                return Err(i);
            }
        }
        proof {
            lemma_count_lt_char(ps, t, i as int);
        }
        Err(i)
    }
}

impl<V: Monoid> Node<V> {
    /// The fold of this node's own item values, in order.
    fn fold_items(&self) -> (r: V)
        ensures
            r == fold(vals_of(pairs(self.items@))),
    {
        let ghost ps = pairs(self.items@);
        let mut acc = V::identity();
        let mut j: usize = 0;
        proof {
            assert(vals_of(ps.take(0)) =~= Seq::<V>::empty());
        }
        while j < self.items.len()
            invariant
                ps == pairs(self.items@),
                j <= self.items@.len(),
                acc == fold(vals_of(ps.take(j as int))),
            decreases self.items@.len() - j,
        {
            acc = acc.combine(&self.items[j].value);
            proof {
                assert(vals_of(ps.take(j + 1)) =~= vals_of(ps.take(j as int)).push(
                    self.items@[j as int].value,
                ));
                lemma_fold_push::<V>(vals_of(ps.take(j as int)), self.items@[j as int].value);
            }
            j = j + 1;
        }
        proof {
            assert(ps.take(ps.len() as int) =~= ps);
        }
        acc
    }

    /// Recompute the up aggregate: the fold of the whole subtree, read from
    /// this node's items and its children's cached aggregates.
    fn up_agg_of(&self) -> (r: V)
        requires
            self.children@.len() == 0 || self.children@.len() == self.items@.len() + 1,
            self.children@.len() > 0 ==> self.items@.len() >= 1,
            forall|i: int|
                0 <= i < self.children@.len() ==> (#[trigger] self.children@[i]).agg
                    == subtree_fold(self.children@[i]),
    ensures
            r == subtree_fold(*self),
    {
        let m = self.items.len();
        if self.children.len() == 0 {
            let r = self.fold_items();
            proof {
                assert(entries(*self) == pairs(self.items@));
            }
            r
        } else {
            let mut acc = self.children[0].agg;
            let mut j: usize = 0;
            while j < m
                invariant
                    self.children@.len() == m + 1,
                    m == self.items@.len(),
                    m >= 1,
                    j <= m,
                    forall|i: int|
                        0 <= i < self.children@.len() ==> (#[trigger] self.children@[i]).agg
                            == subtree_fold(self.children@[i]),
                    acc == fold(vals_of(entries_pre(*self, j as int))),
                decreases m - j,
            {
                let ghost pre = entries_pre(*self, j as int);
                acc = acc.combine(&self.items[j].value);
                acc = acc.combine(&self.children[j + 1].agg);
                proof {
                    let it = seq![(self.items@[j as int].time, self.items@[j as int].value)];
                    lemma_fold_vals_app::<V>(pre, it);
                    assert(vals_of(it) =~= seq![self.items@[j as int].value]);
                    lemma_fold_singleton::<V>(self.items@[j as int].value);
                    lemma_fold_vals_app::<V>(pre + it, entries(self.children@[j + 1]));
                    assert(entries_pre(*self, j + 1) == pre + it + entries(
                        self.children@[j + 1],
                    ));
                }
                j = j + 1;
            }
            proof {
                assert(entries(*self) == entries_pre(*self, m as int));
            }
            acc
        }
    }

    /// Recompute the inner aggregate: this node's items and the cached
    /// aggregates of its non-extreme children.
    fn inner_agg_of(&self) -> (r: V)
        requires
            self.children@.len() == 0 || self.children@.len() == self.items@.len() + 1,
            self.children@.len() > 0 ==> self.items@.len() >= 1,
            forall|i: int|
                1 <= i < self.children@.len() - 1 ==> (#[trigger] self.children@[i]).agg
                    == subtree_fold(self.children@[i]),
        ensures
            r == fold(vals_of(mid(*self))),
    {
        let m = self.items.len();
        if self.children.len() == 0 {
            let r = self.fold_items();
            proof {
                assert(mid(*self) == pairs(self.items@));
            }
            r
        } else {
            let mut acc = V::identity();
            acc = acc.combine(&self.items[0].value);
            proof {
                V::op_id(self.items@[0].value);
                assert(mid_pre(*self, 0) == seq![
                    (self.items@[0].time, self.items@[0].value),
                ]);
                assert(vals_of(mid_pre(*self, 0)) =~= seq![self.items@[0].value]);
                lemma_fold_singleton::<V>(self.items@[0].value);
            }
            let mut j: usize = 1;
            while j < m
                invariant
                    self.children@.len() == m + 1,
                    m == self.items@.len(),
                    m >= 1,
                    1 <= j <= m,
                    forall|i: int|
                        1 <= i < self.children@.len() - 1 ==> (#[trigger] self.children@[i]).agg
                            == subtree_fold(self.children@[i]),
                    acc == fold(vals_of(mid_pre(*self, j - 1))),
                decreases m - j,
            {
                let ghost pre = mid_pre(*self, j - 1);
                acc = acc.combine(&self.children[j].agg);
                acc = acc.combine(&self.items[j].value);
                proof {
                    let it = seq![(self.items@[j as int].time, self.items@[j as int].value)];
                    lemma_fold_vals_app::<V>(pre, entries(self.children@[j as int]));
                    lemma_fold_vals_app::<V>(pre + entries(self.children@[j as int]), it);
                    assert(vals_of(it) =~= seq![self.items@[j as int].value]);
                    lemma_fold_singleton::<V>(self.items@[j as int].value);
                    assert(mid_pre(*self, j as int) == pre + entries(self.children@[j as int])
                        + it);
                }
                j = j + 1;
            }
            proof {
                assert(mid(*self) == mid_pre(*self, m - 1));
            }
            acc
        }
    }
}

impl<V: Monoid> Node<V> {
    /// Walk down the left spine refreshing each node's left aggregate from
    /// its parent's (`above`); returns the left finger leaf's aggregate.
    fn repair_left(n: &mut Node<V>, above: V) -> (r: V)
        requires
            wf(*old(n), false),
            aggs_core(*old(n), false),
            old(n).spine.left,
            !old(n).spine.right,
        ensures
            final(n).items == old(n).items,
            final(n).spine == old(n).spine,
            final(n).children@.len() == old(n).children@.len(),
            entries(*final(n)) == entries(*old(n)),
            height(*final(n)) == height(*old(n)),
            wf(*final(n), false),
            aggs_core(*final(n), false),
            chain_left_ok(*final(n), above),
            r == leftmost_agg(*final(n)),
        decreases *old(n),
    {
        proof {
            assert forall|i: int|
                1 <= i < n.children@.len() implies (#[trigger] n.children@[i]).agg
                == subtree_fold(n.children@[i]) by {
                assert(aggs_core(n.children@[i], false));
                assert(!n.children@[i].spine.left);
                assert(!n.children@[i].spine.right);
            }
        }
        let mut x = n.inner_agg_of();
        if n.children.len() > 0 {
            x = x.combine(&n.children[n.children.len() - 1].agg);
        }
        x = x.combine(&above);
        n.agg = x;
        proof {
            lemma_shape_entries(*n, *old(n));
            if old(n).children@.len() > 0 {
                lemma_fold_vals_app::<V>(
                    mid(*old(n)),
                    entries(old(n).children@[old(n).children@.len() - 1]),
                );
                assert(n.agg == V::op(fold(vals_of(except_first(*n))), above));
            }
        }
        if n.children.len() == 0 {
            n.agg
        } else {
            let ghost pre = *n;
            let a = n.agg;
            let r = Self::repair_left(&mut n.children[0], a);
            proof {
                assert(forall|j: int|
                    1 <= j < n.children@.len() ==> n.children@[j] == pre.children@[j]);
                assert forall|j: int|
                    0 <= j < n.children@.len() implies entries(#[trigger] n.children@[j])
                    == entries(pre.children@[j]) by {
                    if j > 0 {
                        assert(n.children@[j] == pre.children@[j]);
                    }
                }
                lemma_shape_entries(*n, pre);
                assert(entries(*n) == entries(*old(n)));
                assert(height(*n) == height(pre)) by {
                    assert(height(n.children@[0]) == height(pre.children@[0]));
                }
                assert forall|j: int| 0 <= j < n.children@.len() implies height(
                    #[trigger] n.children@[j],
                ) == height(n.children@[0]) by {
                    if j > 0 {
                        assert(n.children@[j] == pre.children@[j]);
                    }
                    assert(height(pre.children@[j]) == height(pre.children@[0]));
                }
                assert(wf(*n, false));
                assert(aggs_core(*n, false));
                assert(chain_left_ok(*n, above));
            }
            r
        }
    }

    /// Walk down the right spine refreshing each node's right aggregate;
    /// returns the right finger leaf's aggregate.
    fn repair_right(n: &mut Node<V>, above: V) -> (r: V)
        requires
            wf(*old(n), false),
            aggs_core(*old(n), false),
            old(n).spine.right,
            !old(n).spine.left,
        ensures
            final(n).items == old(n).items,
            final(n).spine == old(n).spine,
            final(n).children@.len() == old(n).children@.len(),
            entries(*final(n)) == entries(*old(n)),
            height(*final(n)) == height(*old(n)),
            wf(*final(n), false),
            aggs_core(*final(n), false),
            chain_right_ok(*final(n), above),
            r == rightmost_agg(*final(n)),
        decreases *old(n),
    {
        proof {
            assert forall|i: int|
                0 <= i < n.children@.len() - 1 implies (#[trigger] n.children@[i]).agg
                == subtree_fold(n.children@[i]) by {
                assert(aggs_core(n.children@[i], false));
                assert(!n.children@[i].spine.left);
                assert(!n.children@[i].spine.right);
            }
        }
        let inner = n.inner_agg_of();
        let mut x = above;
        if n.children.len() > 0 {
            x = x.combine(&n.children[0].agg);
        }
        x = x.combine(&inner);
        n.agg = x;
        proof {
            lemma_shape_entries(*n, *old(n));
            if old(n).children@.len() > 0 {
                lemma_fold_vals_app::<V>(entries(old(n).children@[0]), mid(*old(n)));
                V::op_assoc(
                    above,
                    fold(vals_of(entries(old(n).children@[0]))),
                    fold(vals_of(mid(*old(n)))),
                );
                assert(n.agg == V::op(above, fold(vals_of(except_last(*n)))));
            }
        }
        if n.children.len() == 0 {
            n.agg
        } else {
            let ghost pre = *n;
            let a = n.agg;
            let last = n.children.len() - 1;
            let r = Self::repair_right(&mut n.children[last], a);
            proof {
                assert(forall|j: int|
                    0 <= j < n.children@.len() - 1 ==> n.children@[j] == pre.children@[j]);
                assert forall|j: int|
                    0 <= j < n.children@.len() implies entries(#[trigger] n.children@[j])
                    == entries(pre.children@[j]) by {
                    if j < n.children@.len() - 1 {
                        assert(n.children@[j] == pre.children@[j]);
                    }
                }
                lemma_shape_entries(*n, pre);
                assert(entries(*n) == entries(*old(n)));
                assert(height(*n) == height(pre)) by {
                    assert(n.children@[0] == pre.children@[0]);
                }
                assert forall|j: int| 0 <= j < n.children@.len() implies height(
                    #[trigger] n.children@[j],
                ) == height(n.children@[0]) by {
                    if j < n.children@.len() - 1 {
                        assert(n.children@[j] == pre.children@[j]);
                    }
                    assert(height(pre.children@[j]) == height(pre.children@[0]));
                }
                assert(wf(*n, false));
                assert(aggs_core(*n, false));
                assert(chain_right_ok(*n, above));
            }
            r
        }
    }
}


/// Splitting an overfull node at its median yields two well-formed halves
/// whose entries concatenate, around the median, to the original entries.
#[verifier::rlimit(100)]
proof fn lemma_split_halves<V: Monoid>(
    oc: Node<V>,
    child: Node<V>,
    right: Node<V>,
    med: Item<V>,
    midx: int,
)
    requires
        wf_local(oc),
        oc.items@.len() == MAX_ARITY,
        midx == (MAX_ARITY + 1) / 2,
        med == oc.items@[midx],
        child.items@ == oc.items@.subrange(0, midx),
        right.items@ == oc.items@.skip(midx + 1),
        oc.children@.len() > 0 ==> child.children@ == oc.children@.subrange(0, midx + 1),
        oc.children@.len() > 0 ==> right.children@ == oc.children@.skip(midx + 1),
        oc.children@.len() == 0 ==> child.children@.len() == 0 && right.children@.len() == 0,
        forall|j: int|
            0 <= j < oc.children@.len() ==> aggs_core(#[trigger] oc.children@[j], false),
        forall|j: int|
            0 <= j < oc.children@.len() ==> ((#[trigger] oc.children@[j]).spine.left <==> (j == 0
                && child.spine.left)),
        forall|j: int|
            0 <= j < oc.children@.len() ==> ((#[trigger] oc.children@[j]).spine.right <==> (j
                == oc.children@.len() - 1 && right.spine.right)),
        child.spine.right == false,
        right.spine.left == false,
        (!child.spine.left && !child.spine.right) ==> child.agg == subtree_fold(child),
        (!right.spine.left && !right.spine.right) ==> right.agg == subtree_fold(right),
    ensures
        entries(oc) == entries(child) + seq![(med.time, med.value)] + entries(right),
        all_lt(entries(child), med.time),
        all_gt(entries(right), med.time),
        wf(child, false),
        wf(right, false),
        aggs_core(child, false),
        aggs_core(right, false),
{
    let medp = (med.time, med.value);
            // the halves carry the prefix and suffix entries of the old child
            if oc.children@.len() == 0 {
                assert(entries(child) == pairs(child.items@));
                assert(entries(right) == pairs(right.items@));
                assert(entries(oc) =~= pairs(child.items@) + seq![medp] + pairs(right.items@));
            } else {
                assert(child.children@.len() == midx + 1);
                assert(entries(child) == entries_pre(child, midx));
                lemma_pre_frame_e(child, oc, midx);
                assert(entries(child) == entries_pre(oc, midx));
                assert(right.children@.len() == right.items@.len() + 1);
                assert(right.items@.len() >= 1);
                lemma_pre_suf(right, 0);
                assert(entries(right) == entries_pre(right, 0) + entries_suf(right, 0));
                assert(entries_pre(right, 0) == entries(right.children@[0]));
                assert(right.children@[0] == oc.children@[midx + 1]);
                assert(right.children@.skip(1) =~= oc.children@.skip(midx + 2));
                assert(right.items@.skip(0) =~= oc.items@.skip(midx + 1));
                lemma_suf_align(right, oc, 0, midx + 1, 0);
                assert(entries_suf(right, 0) == entries_suf(oc, midx + 1));
                lemma_pre_suf(oc, midx);
                assert(entries_suf(oc, midx) == seq![medp] + entries(oc.children@[midx + 1])
                    + entries_suf(oc, midx + 1));
                assert(entries(oc) =~= entries(child) + seq![medp] + entries(right));
            }
            // bounds of the two halves around the median
            if oc.children@.len() == 0 {
                assert forall|j: int| 0 <= j < entries(child).len() implies entries(child)[j].0
                    < med.time by {
                    assert(entries(child)[j] == (child.items@[j].time, child.items@[j].value));
                }
                assert forall|j: int| 0 <= j < entries(right).len() implies entries(right)[j].0
                    > med.time by {
                    assert(entries(right)[j] == (right.items@[j].time, right.items@[j].value));
                }
            } else {
                lemma_pre_all_lt(oc, midx);
                assert(all_lt(entries(child), med.time));
                assert(all_gt(entries(oc.children@[midx + 1]), med.time));
                assert(midx + 1 < oc.items@.len());
                lemma_suf_all_gt(oc, midx + 1, med.time);
                lemma_all_gt_concat(entries(oc.children@[midx + 1]), entries_suf(oc, midx + 1), med.time);
                assert(all_gt(entries(right), med.time));
            }
            assert(all_lt(entries(child), med.time));
            assert(all_gt(entries(right), med.time));
            // well-formedness of the two halves
            assert forall|j: int| 0 <= j < child.children@.len() implies wf(
                #[trigger] child.children@[j],
                false,
            ) by {
                assert(child.children@[j] == oc.children@[j]);
            }
            assert forall|j: int| 1 <= j < child.children@.len() implies all_gt(
                entries(#[trigger] child.children@[j]),
                child.items@[j - 1].time,
            ) by {
                assert(child.children@[j] == oc.children@[j]);
                assert(child.items@[j - 1] == oc.items@[j - 1]);
            }
            assert forall|j: int| 0 <= j < child.children@.len() - 1 implies all_lt(
                entries(#[trigger] child.children@[j]),
                child.items@[j].time,
            ) by {
                assert(child.children@[j] == oc.children@[j]);
                assert(child.items@[j] == oc.items@[j]);
            }
            assert(wf(child, false));
            assert forall|j: int| 0 <= j < right.children@.len() implies wf(
                #[trigger] right.children@[j],
                false,
            ) by {
                assert(right.children@[j] == oc.children@[midx + 1 + j]);
            }
            assert forall|j: int| 1 <= j < right.children@.len() implies all_gt(
                entries(#[trigger] right.children@[j]),
                right.items@[j - 1].time,
            ) by {
                assert(right.children@[j] == oc.children@[midx + 1 + j]);
                assert(right.items@[j - 1] == oc.items@[midx + j]);
            }
            assert forall|j: int| 0 <= j < right.children@.len() - 1 implies all_lt(
                entries(#[trigger] right.children@[j]),
                right.items@[j].time,
            ) by {
                assert(right.children@[j] == oc.children@[midx + 1 + j]);
                assert(right.items@[j] == oc.items@[midx + 1 + j]);
            }
            assert(wf(right, false));
            // spine discipline inside the halves
            assert forall|j: int| 0 <= j < child.children@.len() implies aggs_core(
                #[trigger] child.children@[j],
                false,
            ) by {
                assert(child.children@[j] == oc.children@[j]);
            }
            assert forall|j: int| 0 <= j < right.children@.len() implies aggs_core(
                #[trigger] right.children@[j],
                false,
            ) by {
                assert(right.children@[j] == oc.children@[midx + 1 + j]);
            }
            assert(kids_ok(child, false));
            assert(kids_ok(right, false));
            assert(aggs_core(child, false));
            assert(aggs_core(right, false));
}


/// Reattaching the two halves and the median into the parent preserves the
/// parent's entries, shape, and spine discipline.
#[verifier::rlimit(100)]
proof fn lemma_split_reassemble<V: Monoid>(
    orig: Node<V>,
    nn: Node<V>,
    oc: Node<V>,
    lhalf: Node<V>,
    rhalf: Node<V>,
    med: Item<V>,
    ii: int,
    is_root: bool,
)
    requires
        orig.children@.len() == orig.items@.len() + 1,
        1 <= orig.items@.len() <= MAX_ARITY - 1,
        0 <= ii < orig.children@.len(),
        oc == orig.children@[ii],
        forall|j: int, k: int|
            0 <= j < k < orig.items@.len() ==> orig.items@[j].time < orig.items@[k].time,
        forall|j: int|
            0 <= j < orig.children@.len() && j != ii ==> wf(#[trigger] orig.children@[j], false),
        forall|j: int|
            0 <= j < orig.children@.len() ==> height(#[trigger] orig.children@[j]) == height(
                orig.children@[0],
            ),
        forall|j: int|
            1 <= j < orig.children@.len() ==> all_gt(
                entries(#[trigger] orig.children@[j]),
                orig.items@[j - 1].time,
            ),
        forall|j: int|
            0 <= j < orig.children@.len() - 1 ==> all_lt(
                entries(#[trigger] orig.children@[j]),
                orig.items@[j].time,
            ),
        kids_ok(orig, is_root),
        is_root ==> !orig.spine.left && !orig.spine.right,
        nn.items@ == orig.items@.insert(ii, med),
        nn.children@ == orig.children@.update(ii, lhalf).insert(ii + 1, rhalf),
        nn.spine == orig.spine,
        entries(oc) == entries(lhalf) + seq![(med.time, med.value)] + entries(rhalf),
        all_lt(entries(lhalf), med.time),
        all_gt(entries(rhalf), med.time),
        wf(lhalf, false),
        wf(rhalf, false),
        aggs_core(lhalf, false),
        aggs_core(rhalf, false),
        lhalf.spine.left == oc.spine.left,
        lhalf.spine.right == false,
        rhalf.spine.left == false,
        rhalf.spine.right == oc.spine.right,
        height(lhalf) == height(oc),
        height(rhalf) == height(oc),
    ensures
        entries(nn) == entries(orig),
        wf_local(nn),
        kids_ok(nn, is_root),
{
    let medp = (med.time, med.value);
            let mo = orig.items@.len() as int;
            assert(nn.items@ =~= orig.items@.insert(ii, med));
            assert(nn.children@ =~= orig.children@.update(ii, lhalf).insert(ii + 1, rhalf));
            assert(nn.children@[ii] == lhalf);
            assert(nn.children@[ii + 1] == rhalf);
            assert(forall|j: int| 0 <= j < ii ==> nn.children@[j] == orig.children@[j]);
            assert(forall|j: int|
                ii + 1 < j < nn.children@.len() ==> nn.children@[j] == orig.children@[j - 1]);
            assert(forall|j: int| 0 <= j < ii ==> nn.items@[j] == orig.items@[j]);
            assert(forall|j: int| ii < j < nn.items@.len() ==> nn.items@[j] == orig.items@[j - 1]);
            // entries are preserved
            assert(nn.children@.len() == nn.items@.len() + 1);
            assert(nn.items@.len() >= 1);
            lemma_entries_at(nn, ii);
            assert(entries(nn) == entries_before(nn, ii) + entries(lhalf) + entries_suf(nn, ii));
            assert(nn.items@[ii] == med);
            assert(entries_suf(nn, ii) == seq![medp] + entries(rhalf) + entries_suf(nn, ii + 1));
            assert(nn.items@.skip(ii + 1) =~= orig.items@.skip(ii));
            assert(nn.children@.skip(ii + 2) =~= orig.children@.skip(ii + 1));
            lemma_suf_align(nn, orig, ii + 1, ii, 0);
            assert(entries_suf(nn, ii + 1) == entries_suf(orig, ii));
            lemma_entries_at(orig, ii);
            if ii == 0 {
                assert(entries_before(nn, 0) =~= Seq::<(Time, V)>::empty());
                assert(entries_before(orig, 0) =~= Seq::<(Time, V)>::empty());
                assert(entries_before(nn, ii) == entries_before(orig, ii));
            } else {
                lemma_pre_frame(nn, orig, ii - 1);
                assert(entries_before(nn, ii) == entries_before(orig, ii));
            }
            assert(entries(oc) == entries(lhalf) + seq![medp] + entries(rhalf));
            assert(entries(nn) =~= entries(orig));
            // the median separates its new neighbours
            if ii > 0 {
                assert(all_gt(entries(oc), orig.items@[ii - 1].time));
                assert(entries(oc)[entries(lhalf).len() as int] == medp);
                assert(med.time > orig.items@[ii - 1].time);
            }
            if ii < mo {
                assert(all_lt(entries(oc), orig.items@[ii].time));
                assert(entries(oc)[entries(lhalf).len() as int] == medp);
                assert(med.time < orig.items@[ii].time);
            }
            // shape of the parent
            assert forall|a: int, b: int| 0 <= a < b < nn.items@.len() implies nn.items@[a].time
                < nn.items@[b].time by {
                if b < ii {
                } else if a > ii {
                } else if a == ii {
                    assert(nn.items@[b] == orig.items@[b - 1]);
                } else if b == ii {
                    assert(nn.items@[a] == orig.items@[a]);
                } else if a < ii && b > ii {
                    assert(nn.items@[a] == orig.items@[a]);
                    assert(nn.items@[b] == orig.items@[b - 1]);
                    assert(orig.items@[a].time < orig.items@[b - 1].time || a == b - 1);
                    if a == b - 1 {
                        assert(orig.items@[a].time < med.time);
                        assert(med.time < orig.items@[b - 1].time);
                    }
                }
            }
            assert forall|j: int| 0 <= j < nn.children@.len() implies wf(
                #[trigger] nn.children@[j],
                false,
            ) by {
                if j < ii {
                    assert(nn.children@[j] == orig.children@[j]);
                } else if j == ii {
                    assert(wf(lhalf, false));
                } else if j == ii + 1 {
                    assert(wf(rhalf, false));
                } else {
                    assert(nn.children@[j] == orig.children@[j - 1]);
                }
            }
            assert forall|j: int| 1 <= j < nn.children@.len() implies all_gt(
                entries(#[trigger] nn.children@[j]),
                nn.items@[j - 1].time,
            ) by {
                if j < ii {
                    assert(nn.children@[j] == orig.children@[j]);
                    assert(nn.items@[j - 1] == orig.items@[j - 1]);
                } else if j == ii {
                    assert(nn.items@[j - 1] == orig.items@[j - 1]);
                    assert(entries(oc) == entries(lhalf) + seq![medp] + entries(rhalf));
                    lemma_all_gt_parts(
                        entries(lhalf) + seq![medp],
                        entries(rhalf),
                        orig.items@[j - 1].time,
                    );
                    lemma_all_gt_parts(entries(lhalf), seq![medp], orig.items@[j - 1].time);
                } else if j == ii + 1 {
                    assert(nn.items@[j - 1] == med);
                    assert(all_gt(entries(rhalf), med.time));
                } else if j == ii + 2 {
                    assert(nn.children@[j] == orig.children@[j - 1]);
                    assert(nn.items@[j - 1] == orig.items@[j - 2]);
                    assert(all_gt(entries(orig.children@[j - 1]), orig.items@[j - 2].time));
                } else {
                    assert(nn.children@[j] == orig.children@[j - 1]);
                    assert(nn.items@[j - 1] == orig.items@[j - 2]);
                    assert(all_gt(entries(orig.children@[j - 1]), orig.items@[j - 2].time));
                }
            }
            assert forall|j: int| 0 <= j < nn.children@.len() - 1 implies all_lt(
                entries(#[trigger] nn.children@[j]),
                nn.items@[j].time,
            ) by {
                if j < ii {
                    assert(nn.children@[j] == orig.children@[j]);
                    assert(nn.items@[j] == orig.items@[j]);
                } else if j == ii {
                    assert(nn.items@[j] == med);
                    assert(all_lt(entries(lhalf), med.time));
                } else if j == ii + 1 {
                    assert(nn.items@[j] == orig.items@[j - 1]);
                    assert(entries(oc) == entries(lhalf) + seq![medp] + entries(rhalf));
                    lemma_all_lt_parts(
                        entries(lhalf) + seq![medp] + entries(rhalf),
                        Seq::<(Time, V)>::empty(),
                        orig.items@[j - 1].time,
                    );
                    lemma_all_lt_parts(
                        entries(lhalf) + seq![medp],
                        entries(rhalf),
                        orig.items@[j - 1].time,
                    );
                } else {
                    assert(nn.children@[j] == orig.children@[j - 1]);
                    assert(nn.items@[j] == orig.items@[j - 1]);
                    assert(all_lt(entries(orig.children@[j - 1]), orig.items@[j - 1].time));
                }
            }
            assert forall|j: int| 0 <= j < nn.children@.len() implies height(
                #[trigger] nn.children@[j],
            ) == height(nn.children@[0]) by {
                if j < ii {
                    assert(nn.children@[j] == orig.children@[j]);
                } else if j == ii {
                } else if j == ii + 1 {
                } else {
                    assert(nn.children@[j] == orig.children@[j - 1]);
                }
                if ii == 0 {
                    assert(nn.children@[0] == lhalf);
                } else {
                    assert(nn.children@[0] == orig.children@[0]);
                }
                assert(height(oc) == height(orig.children@[0]));
            }
            assert(wf_local(nn));
            // spine discipline of the enlarged child list
            assert forall|j: int| 0 <= j < nn.children@.len() implies aggs_core(
                #[trigger] nn.children@[j],
                false,
            ) by {
                if j < ii {
                    assert(aggs_core(orig.children@[j], false));
                } else if j == ii {
                    assert(kids_ok(lhalf, false));
                } else if j == ii + 1 {
                    assert(kids_ok(rhalf, false));
                } else {
                    assert(aggs_core(orig.children@[j - 1], false));
                }
            }
            assert forall|j: int| 0 <= j < nn.children@.len() implies ((
            #[trigger] nn.children@[j]).spine.left <==> (j == 0 && (is_root || nn.spine.left))) by {
                if j < ii {
                    assert(nn.children@[j] == orig.children@[j]);
                } else if j == ii {
                } else if j == ii + 1 {
                } else {
                    assert(nn.children@[j] == orig.children@[j - 1]);
                    assert(j - 1 > 0);
                }
            }
            assert forall|j: int| 0 <= j < nn.children@.len() implies ((
            #[trigger] nn.children@[j]).spine.right <==> (j == nn.children@.len() - 1 && (is_root
                || nn.spine.right))) by {
                if j < ii {
                    assert(nn.children@[j] == orig.children@[j]);
                    assert(j < orig.children@.len() - 1);
                } else if j == ii {
                } else if j == ii + 1 {
                    assert(j == nn.children@.len() - 1 <==> ii == orig.children@.len() - 1);
                } else {
                    assert(nn.children@[j] == orig.children@[j - 1]);
                    assert(j == nn.children@.len() - 1 <==> j - 1 == orig.children@.len() - 1);
                }
            }
            assert(kids_ok(nn, is_root));
}

impl<V: Monoid> Node<V> {
    /// Split the overfull child `i` in two around its median item, which
    /// moves up into this node; the new right half takes the children above
    /// the median, and the halves' spine flags and cached aggregates are
    /// recomputed for their new positions.
    #[verifier::rlimit(100)]
    fn split_child(n: &mut Node<V>, i: usize, is_root: bool)
        requires
            old(n).children@.len() == old(n).items@.len() + 1,
            1 <= old(n).items@.len() <= MAX_ARITY - 1,
            i < old(n).children@.len(),
            forall|j: int, k: int|
                0 <= j < k < old(n).items@.len() ==> old(n).items@[j].time < old(
                    n,
                ).items@[k].time,
            forall|j: int|
                0 <= j < old(n).children@.len() && j != i ==> wf(
                    #[trigger] old(n).children@[j],
                    false,
                ),
            wf_local(old(n).children@[i as int]),
            old(n).children@[i as int].items@.len() == MAX_ARITY,
            forall|j: int|
                0 <= j < old(n).children@.len() ==> height(#[trigger] old(n).children@[j])
                    == height(old(n).children@[0]),
            forall|j: int|
                1 <= j < old(n).children@.len() ==> all_gt(
                    entries(#[trigger] old(n).children@[j]),
                    old(n).items@[j - 1].time,
                ),
            forall|j: int|
                0 <= j < old(n).children@.len() - 1 ==> all_lt(
                    entries(#[trigger] old(n).children@[j]),
                    old(n).items@[j].time,
                ),
            kids_ok(*old(n), is_root),
            is_root ==> !old(n).spine.left && !old(n).spine.right,
        ensures
            final(n).items@.len() == old(n).items@.len() + 1,
            final(n).children@.len() == old(n).children@.len() + 1,
            final(n).spine == old(n).spine,
            final(n).agg == old(n).agg,
            entries(*final(n)) == entries(*old(n)),
            height(*final(n)) == height(*old(n)),
            wf_local(*final(n)),
            kids_ok(*final(n), is_root),
    {
        let ghost orig = *old(n);
        let ghost oc = old(n).children@[i as int];
        let m = n.items.len();
        let mut child = n.children.remove(i);
        let mut right = Node::new();
        let middle = (child.items.len() + 1) / 2;
        let right_items = child.items.split_off(middle + 1);
        let med = child.items.pop().unwrap();
        right.items = right_items;
        if child.children.len() > 0 {
            let right_children = child.children.split_off(middle + 1);
            right.children = right_children;
        }
        let left_on = i == 0 && (is_root || n.spine.left);
        let right_on = i == m && (is_root || n.spine.right);
        child.spine = Spine::new(left_on, false);
        right.spine = Spine::new(false, right_on);
        let ghost midx = middle as int;
        let ghost medp = (med.time, med.value);
        proof {
            assert(child.items@ =~= oc.items@.subrange(0, midx));
            assert(right.items@ =~= oc.items@.skip(midx + 1));
            if oc.children@.len() > 0 {
                assert(child.children@ =~= oc.children@.subrange(0, midx + 1));
                assert(right.children@ =~= oc.children@.skip(midx + 1));
            }
            assert(med == oc.items@[midx]);
            assert(oc.spine.left == left_on);
            assert(oc.spine.right == right_on);
            assert(aggs_core(oc, false));
            assert(kids_ok(oc, false));
        }
        if !(child.spine.left || child.spine.right) {
            proof {
                assert forall|j: int| 0 <= j < child.children@.len() implies (
                #[trigger] child.children@[j]).agg == subtree_fold(child.children@[j]) by {
                    assert(child.children@[j] == oc.children@[j]);
                    assert(aggs_core(oc.children@[j], false));
                    assert(!oc.children@[j].spine.left);
                    assert(!oc.children@[j].spine.right);
                }
            }
            let ghost cmid = child;
            let a = child.up_agg_of();
            child.agg = a;
            proof {
                lemma_shape_entries(child, cmid);
                assert(child.agg == subtree_fold(child));
            }
        }
        if !(right.spine.left || right.spine.right) {
            proof {
                assert forall|j: int| 0 <= j < right.children@.len() implies (
                #[trigger] right.children@[j]).agg == subtree_fold(right.children@[j]) by {
                    assert(right.children@[j] == oc.children@[midx + 1 + j]);
                    assert(aggs_core(oc.children@[midx + 1 + j], false));
                    assert(!oc.children@[midx + 1 + j].spine.left);
                    assert(!oc.children@[midx + 1 + j].spine.right);
                }
            }
            let ghost rmid = right;
            let a = right.up_agg_of();
            right.agg = a;
            proof {
                lemma_shape_entries(right, rmid);
                assert(right.agg == subtree_fold(right));
            }
        }
        proof {
            lemma_split_halves(oc, child, right, med, midx);
        }
        let ghost lhalf = child;
        let ghost rhalf = right;
        n.items.insert(i, med);
        n.children.insert(i, child);
        n.children.insert(i + 1, right);
        proof {
            assert(n.children@ =~= orig.children@.update(i as int, lhalf).insert(
                i as int + 1,
                rhalf,
            ));
            assert(n.items@ =~= orig.items@.insert(i as int, med));
            assert(height(lhalf) == height(oc));
            assert(height(rhalf) == height(oc));
            lemma_split_reassemble(orig, *n, oc, lhalf, rhalf, med, i as int, is_root);
        }
    }
}


/// Combining into the stored value of item `i` of an internal node updates
/// the corresponding entry in place.
#[verifier::rlimit(100)]
proof fn lemma_update_item<V: Monoid>(
    orig: Node<V>,
    nn: Node<V>,
    ii: int,
    t: Time,
    ov: V,
    v: V,
    m: int,
)
    requires
        wf_local(orig),
        orig.children@.len() > 0,
        m == orig.items@.len(),
        0 <= ii < m,
        orig.items@[ii].time == t,
        ov == orig.items@[ii].value,
        nn.items@ == orig.items@.update(ii, Item { time: t, value: V::op(ov, v) }),
        nn.children@ == orig.children@,
        nn.spine == orig.spine,
    ensures
        entries(nn) == insert_entry(entries(orig), t, v),
        wf_local(nn),
{
    
    lemma_pre_suf(orig, ii);
    assert(entries(orig) == entries_pre(orig, ii) + entries_suf(orig, ii));
    assert(entries_suf(orig, ii) == seq![(t, ov)] + entries(
        orig.children@[ii + 1],
    ) + entries_suf(orig, ii + 1));
    lemma_pre_all_lt(orig, ii);
    let p = entries_pre(orig, ii);
    let q = entries(orig.children@[ii + 1]) + entries_suf(orig, ii + 1);
    assert(all_gt(entries(orig.children@[ii + 1]), t));
    if ii + 1 < m {
        lemma_suf_all_gt(orig, ii + 1, t);
    } else {
        assert(entries_suf(orig, ii + 1) =~= Seq::<(Time, V)>::empty());
    }
    lemma_all_gt_concat(
        entries(orig.children@[ii + 1]),
        entries_suf(orig, ii + 1),
        t,
    );
    lemma_insert_entry_at(p, ov, q, t, v);
    assert(entries(orig) =~= p + seq![(t, ov)] + q);
    // the same decomposition on the updated node
    lemma_pre_suf(nn, ii);
    lemma_pre_frame(nn, orig, ii);
    assert(entries_pre(nn, ii) == p);
    assert(nn.items@.skip(ii + 1) =~= orig.items@.skip(ii + 1));
    assert(nn.children@.skip(ii + 2) =~= orig.children@.skip(ii + 2));
    lemma_suf_align(nn, orig, ii + 1, ii + 1, 0);
    assert(entries_suf(nn, ii) == seq![(t, V::op(ov, v))] + entries(
        nn.children@[ii + 1],
    ) + entries_suf(nn, ii + 1));
    assert(entries(nn) =~= p + seq![(t, V::op(ov, v))] + q);
    assert(entries(nn) == insert_entry(entries(orig), t, v));
    assert forall|j: int| 0 <= j < nn.children@.len() implies wf(
        #[trigger] nn.children@[j],
        false,
    ) by {
        assert(nn.children@[j] == orig.children@[j]);
    }
    assert forall|j: int| 1 <= j < nn.children@.len() implies all_gt(
        entries(#[trigger] nn.children@[j]),
        nn.items@[j - 1].time,
    ) by {
        assert(nn.children@[j] == orig.children@[j]);
        assert(nn.items@[j - 1].time == orig.items@[j - 1].time);
    }
    assert forall|j: int| 0 <= j < nn.children@.len() - 1 implies all_lt(
        entries(#[trigger] nn.children@[j]),
        nn.items@[j].time,
    ) by {
        assert(nn.children@[j] == orig.children@[j]);
        assert(nn.items@[j].time == orig.items@[j].time);
    }
    assert forall|j: int| 0 <= j < nn.children@.len() implies height(#[trigger] nn.children@[j])
        == height(nn.children@[0]) by {
        assert(nn.children@[j] == orig.children@[j]);
    }
    assert(wf_local(nn));
}


/// After the child holding the insertion interval has been updated, the
/// node's entries are the insertion into the old entries, and the time
/// bounds around the child still hold.
#[verifier::rlimit(100)]
proof fn lemma_child_updated<V: Monoid>(
    orig: Node<V>,
    nn: Node<V>,
    ii: int,
    t: Time,
    v: V,
    ea: Seq<(Time, V)>,
    ec: Seq<(Time, V)>,
    eb: Seq<(Time, V)>,
)
    requires
        wf_local(orig),
        orig.children@.len() == orig.items@.len() + 1,
        orig.items@.len() >= 1,
        0 <= ii < orig.children@.len(),
        ii > 0 ==> orig.items@[ii - 1].time < t,
        ii < orig.items@.len() ==> orig.items@[ii].time > t,
        ea == entries_before(orig, ii),
        ec == entries(orig.children@[ii]),
        eb == entries_suf(orig, ii),
        nn.items@ == orig.items@,
        nn.spine == orig.spine,
        nn.children@ == orig.children@.update(ii, nn.children@[ii]),
        nn.children@.len() == orig.children@.len(),
        entries(nn.children@[ii]) == insert_entry(ec, t, v),
    ensures
        entries(nn) == insert_entry(entries(orig), t, v),
        forall|j: int|
            1 <= j < nn.children@.len() ==> all_gt(
                entries(#[trigger] nn.children@[j]),
                nn.items@[j - 1].time,
            ),
        forall|j: int|
            0 <= j < nn.children@.len() - 1 ==> all_lt(
                entries(#[trigger] nn.children@[j]),
                nn.items@[j].time,
            ),
        forall|j: int|
            0 <= j < nn.children@.len() && j != ii ==> wf(#[trigger] nn.children@[j], false),
{
    lemma_entries_at(orig, ii);
    lemma_before_all_lt(orig, ii, t);
    lemma_after_all_gt(orig, ii, t);
    lemma_insert_entry_mid(ea, ec, eb, t, v);
    // reassemble the entries around the updated child
    assert(nn.items@ == orig.items@);
    assert(nn.children@ =~= orig.children@.update(ii, nn.children@[ii]));
    lemma_entries_at(nn, ii);
    if ii > 0 {
        lemma_pre_frame(nn, orig, ii - 1);
    }
    assert(entries_before(nn, ii) == ea);
    assert(nn.items@.skip(ii) =~= orig.items@.skip(ii));
    assert(nn.children@.skip(ii + 1) =~= orig.children@.skip(ii + 1));
    lemma_suf_align(nn, orig, ii, ii, 0);
    assert(entries_suf(nn, ii) == eb);
    assert(entries(nn.children@[ii]) == insert_entry(ec, t, v));
    assert(entries(nn) =~= ea + insert_entry(ec, t, v) + eb);
    assert(entries(nn) == insert_entry(entries(orig), t, v));
    // bounds of the updated child survive the insertion
    lemma_insert_entry_bounds(ec, t, v);
    assert forall|j: int| 1 <= j < nn.children@.len() implies all_gt(
        entries(#[trigger] nn.children@[j]),
        nn.items@[j - 1].time,
    ) by {
        if j != ii {
            assert(nn.children@[j] == orig.children@[j]);
        } else {
            assert(j - 1 >= 0);
            assert(orig.items@[j - 1].time < t);
            assert(all_gt(ec, orig.items@[j - 1].time));
        }
    }
    assert forall|j: int| 0 <= j < nn.children@.len() - 1 implies all_lt(
        entries(#[trigger] nn.children@[j]),
        nn.items@[j].time,
    ) by {
        if j != ii {
            assert(nn.children@[j] == orig.children@[j]);
        } else {
            assert(t < orig.items@[j].time);
            assert(all_lt(ec, orig.items@[j].time));
        }
    }
    assert forall|j: int| 0 <= j < nn.children@.len() && j != ii implies wf(
        #[trigger] nn.children@[j],
        false,
    ) by {
        assert(nn.children@[j] == orig.children@[j]);
    }
}

impl<V: Monoid> Node<V> {
    /// Insert `(t, v)` into the subtree: the stored value at `t` is combined
    /// with `v` if `t` is present, and a fresh item is placed at its sorted
    /// position otherwise. Overfull children are split on the way back up,
    /// and every node holding the up role refreshes its cached aggregate.
    /// The node itself may be left holding one item too many.
    #[verifier::rlimit(100)]
    fn insert_rec(n: &mut Node<V>, t: Time, v: V, is_root: bool)
        requires
            wf_local(*old(n)),
            old(n).items@.len() <= MAX_ARITY - 1,
            aggs_core(*old(n), is_root),
            is_root ==> !old(n).spine.left && !old(n).spine.right,
        ensures
            wf_local(*final(n)),
            old(n).items@.len() <= final(n).items@.len() <= old(n).items@.len() + 1,
            final(n).items@.len() <= MAX_ARITY,
            final(n).spine == old(n).spine,
            (final(n).children@.len() == 0) == (old(n).children@.len() == 0),
            height(*final(n)) == height(*old(n)),
            entries(*final(n)) == insert_entry(entries(*old(n)), t, v),
            aggs_core(*final(n), is_root),
        decreases *old(n),
    {
        let ghost orig = *old(n);
        let m = n.items.len();
        match Self::item_idx(&n.items, t) {
            Ok(i) => {
                let nv = n.items[i].value.combine(&v);
                let ghost ov = n.items@[i as int].value;
                n.items[i] = Item { time: t, value: nv };
                proof {
                    assert(n.items@ =~= orig.items@.update(i as int, Item { time: t, value: nv }));
                    if orig.children@.len() == 0 {
                        let p = pairs(orig.items@).take(i as int);
                        let q = pairs(orig.items@).skip(i + 1);
                        assert(pairs(orig.items@) =~= p + seq![(t, ov)] + q);
                        assert forall|j: int| 0 <= j < p.len() implies p[j].0 < t by {
                            assert(p[j] == (orig.items@[j].time, orig.items@[j].value));
                        }
                        assert forall|j: int| 0 <= j < q.len() implies q[j].0 > t by {
                            assert(q[j] == (orig.items@[i + 1 + j].time, orig.items@[i + 1 + j].value));
                        }
                        lemma_insert_entry_at(p, ov, q, t, v);
                        assert(pairs(n.items@) =~= p + seq![(t, V::op(ov, v))] + q);
                        assert(entries(*n) == insert_entry(entries(orig), t, v));
                        assert(wf_local(*n));
                    } else {
                        lemma_update_item(orig, *n, i as int, t, ov, v, m as int);
                    }
                    assert(kids_ok(*n, is_root));
                    if n.children@.len() > 0 {
                        assert(n.children@[0] == orig.children@[0]);
                    }
                    assert(height(*n) == height(orig));
                }
            },
            Err(i) => {
                if n.children.len() == 0 {
                    n.items.insert(i, Item { time: t, value: v });
                    proof {
                        let ii = i as int;
                        assert(n.items@ =~= orig.items@.insert(ii, Item { time: t, value: v }));
                        assert(count_lt(pairs(orig.items@), t) == ii);
                        assert(ii < pairs(orig.items@).len() ==> pairs(orig.items@)[ii].0 != t);
                        assert(entries(orig) == pairs(orig.items@));
                        assert(pairs(n.items@) =~= pairs(orig.items@).insert(ii, (t, v)));
                        assert(entries(*n) == insert_entry(entries(orig), t, v));
                        assert forall|a: int, b: int| 0 <= a < b < n.items@.len() implies n.items@[a].time
                            < n.items@[b].time by {
                            if b < ii {
                            } else if a > ii {
                                assert(n.items@[a] == orig.items@[a - 1]);
                                assert(n.items@[b] == orig.items@[b - 1]);
                            } else if a == ii {
                                assert(n.items@[b] == orig.items@[b - 1]);
                            } else if b == ii {
                                assert(n.items@[a] == orig.items@[a]);
                            } else {
                                assert(n.items@[a] == orig.items@[a]);
                                assert(n.items@[b] == orig.items@[b - 1]);
                            }
                        }
                        assert(wf_local(*n));
                        assert(kids_ok(*n, is_root));
                    }
                } else {
                    let ghost ii = i as int;
                    proof {
                        assert(wf(orig.children@[ii], false));
                        assert(aggs_core(orig.children@[ii], false));
                        lemma_entries_at(orig, ii);
                    }
                    let ghost ea = entries_before(orig, ii);
                    let ghost ec = entries(orig.children@[ii]);
                    let ghost eb = entries_suf(orig, ii);
                    Self::insert_rec(&mut n.children[i], t, v, false);
                    proof {
                        assert(n.children@ =~= orig.children@.update(ii, n.children@[ii]));
                        lemma_child_updated(orig, *n, ii, t, v, ea, ec, eb);
                        assert(kids_ok(*n, is_root));
                        assert forall|j: int| 0 <= j < n.children@.len() implies height(
                            #[trigger] n.children@[j],
                        ) == height(n.children@[0]) by {
                            if j != ii {
                                assert(n.children@[j] == orig.children@[j]);
                            }
                            if ii != 0 {
                                assert(n.children@[0] == orig.children@[0]);
                            }
                            assert(height(orig.children@[j]) == height(orig.children@[0]));
                        }
                        assert(height(*n) == height(orig)) by {
                            assert(height(n.children@[0]) == height(orig.children@[0]));
                        }
                    }
                    if n.children[i].items.len() > MAX_ARITY - 1 {
                        let ghost before_split = *n;
                        proof {
                            assert(wf_local(n.children@[ii]));
                            assert(n.children@[ii].items@.len() == MAX_ARITY);
                            assert forall|j: int| 0 <= j < n.children@.len() implies height(
                                #[trigger] n.children@[j],
                            ) == height(n.children@[0]) by {
                                if j != ii {
                                    assert(n.children@[j] == orig.children@[j]);
                                }
                                if ii != 0 {
                                    assert(n.children@[0] == orig.children@[0]);
                                }
                            }
                        }
                        Self::split_child(n, i, is_root);
                        proof {
                            assert(entries(*n) == entries(before_split));
                            assert(height(*n) == height(before_split));
                        }
                    } else {
                        proof {
                            assert(wf(n.children@[ii], false));
                            assert(wf_local(*n));
                        }
                    }
                }
            },
        }
        // refresh the cached aggregate where this node holds the up role
        if !is_root && !n.spine.left && !n.spine.right {
            proof {
                assert forall|j: int| 0 <= j < n.children@.len() implies (
                #[trigger] n.children@[j]).agg == subtree_fold(n.children@[j]) by {
                    assert(aggs_core(n.children@[j], false));
                    assert(!n.children@[j].spine.left);
                    assert(!n.children@[j].spine.right);
                }
            }
            let ghost pre2 = *n;
            let a = n.up_agg_of();
            n.agg = a;
            proof {
                lemma_shape_entries(*n, pre2);
                assert(entries(*n) == entries(pre2));
                assert(n.agg == subtree_fold(*n));
                assert(wf_local(*n));
                assert(kids_ok(*n, is_root));
                assert(height(*n) == height(pre2));
            }
        }
    }
}


/// Merging two siblings and their separator concatenates their entries.
proof fn lemma_merge_child<V: Monoid>(cl: Node<V>, cr: Node<V>, sep: Item<V>, y: Node<V>)
    requires
        cl.children@.len() == 0 || cl.children@.len() == cl.items@.len() + 1,
        cr.children@.len() == 0 || cr.children@.len() == cr.items@.len() + 1,
        (cl.children@.len() == 0) == (cr.children@.len() == 0),
        cl.children@.len() > 0 ==> cl.items@.len() >= 1,
        cr.children@.len() > 0 ==> cr.items@.len() >= 1,
        y.items@ == cl.items@ + seq![sep] + cr.items@,
        y.children@ == cl.children@ + cr.children@,
    ensures
        entries(y) == entries(cl) + seq![(sep.time, sep.value)] + entries(cr),
{
    let sp = (sep.time, sep.value);
    if cl.children@.len() == 0 {
        assert(entries(y) == pairs(y.items@));
        assert(pairs(y.items@) =~= pairs(cl.items@) + seq![sp] + pairs(cr.items@));
    } else {
        let ml = cl.items@.len() as int;
        assert(y.children@.len() == y.items@.len() + 1);
        assert(y.items@[ml] == sep);
        lemma_pre_suf(y, ml);
        assert(forall|j: int| 0 <= j < ml ==> y.items@[j] == cl.items@[j]);
        assert(forall|j: int| 0 <= j <= ml ==> y.children@[j] == cl.children@[j]);
        lemma_pre_frame(y, cl, ml);
        assert(entries_pre(y, ml) == entries_pre(cl, ml));
        assert(entries_pre(cl, ml) == entries(cl));
        assert(entries_suf(y, ml) == seq![sp] + entries(y.children@[ml + 1]) + entries_suf(
            y,
            ml + 1,
        ));
        assert(y.children@[ml + 1] == cr.children@[0]);
        assert(y.items@.skip(ml + 1) =~= cr.items@.skip(0));
        assert(y.children@.skip(ml + 2) =~= cr.children@.skip(1));
        lemma_suf_align(y, cr, ml + 1, 0, 0);
        assert(entries_suf(y, ml + 1) == entries_suf(cr, 0));
        lemma_pre_suf(cr, 0);
        assert(entries(cr) == entries(cr.children@[0]) + entries_suf(cr, 0));
        assert(entries(y) =~= entries(cl) + seq![sp] + entries(cr));
    }
}

/// Appending a separator (and, for an internal node, a child) extends the
/// entries on the right.
proof fn lemma_node_append<V: Monoid>(x: Node<V>, y: Node<V>, sep: Item<V>, gc: Node<V>)
    requires
        x.children@.len() == 0 || x.children@.len() == x.items@.len() + 1,
        x.children@.len() > 0 ==> x.items@.len() >= 1,
        y.items@ == x.items@.push(sep),
        x.children@.len() == 0 ==> y.children@ == x.children@,
        x.children@.len() > 0 ==> y.children@ == x.children@.push(gc),
    ensures
        x.children@.len() == 0 ==> entries(y) == entries(x) + seq![(sep.time, sep.value)],
        x.children@.len() > 0 ==> entries(y) == entries(x) + seq![(sep.time, sep.value)]
            + entries(gc),
{
    let sp = (sep.time, sep.value);
    if x.children@.len() == 0 {
        assert(pairs(y.items@) =~= pairs(x.items@) + seq![sp]);
    } else {
        let m = x.items@.len() as int;
        assert(y.children@.len() == y.items@.len() + 1);
        assert(entries(y) == entries_pre(y, m + 1));
        assert(entries_pre(y, m + 1) == entries_pre(y, m) + seq![sp] + entries(
            y.children@[m + 1],
        ));
        lemma_pre_frame(y, x, m);
        assert(entries_pre(y, m) == entries_pre(x, m));
        assert(entries(y) == entries(x) + seq![sp] + entries(gc));
    }
}

/// Prepending a separator (and, for an internal node, a child) extends the
/// entries on the left.
proof fn lemma_node_prepend<V: Monoid>(x: Node<V>, y: Node<V>, sep: Item<V>, gc: Node<V>)
    requires
        x.children@.len() == 0 || x.children@.len() == x.items@.len() + 1,
        x.children@.len() > 0 ==> x.items@.len() >= 1,
        y.items@ == seq![sep] + x.items@,
        x.children@.len() == 0 ==> y.children@ == x.children@,
        x.children@.len() > 0 ==> y.children@ == seq![gc] + x.children@,
    ensures
        x.children@.len() == 0 ==> entries(y) == seq![(sep.time, sep.value)] + entries(x),
        x.children@.len() > 0 ==> entries(y) == entries(gc) + seq![(sep.time, sep.value)]
            + entries(x),
{
    let sp = (sep.time, sep.value);
    if x.children@.len() == 0 {
        assert(pairs(y.items@) =~= seq![sp] + pairs(x.items@));
    } else {
        let m = x.items@.len() as int;
        assert(y.children@.len() == y.items@.len() + 1);
        lemma_pre_suf(y, 0);
        assert(entries(y) == entries(y.children@[0]) + entries_suf(y, 0));
        assert(y.children@[0] == gc);
        assert(entries_suf(y, 0) == seq![sp] + entries(y.children@[1]) + entries_suf(y, 1));
        assert(y.children@[1] == x.children@[0]);
        assert(y.items@.skip(1) =~= x.items@.skip(0));
        assert(y.children@.skip(2) =~= x.children@.skip(1));
        lemma_suf_align(y, x, 1, 0, 0);
        assert(entries_suf(y, 1) == entries_suf(x, 0));
        lemma_pre_suf(x, 0);
        assert(entries(x) == entries(x.children@[0]) + entries_suf(x, 0));
        assert(entries(y) =~= entries(gc) + seq![sp] + entries(x));
    }
}

/// Dropping the first item (and first child, when internal) shortens the
/// entries on the left.
proof fn lemma_node_drop_first<V: Monoid>(x: Node<V>, y: Node<V>)
    requires
        x.children@.len() == 0 || x.children@.len() == x.items@.len() + 1,
        x.children@.len() > 0 ==> x.items@.len() >= 2,
        x.children@.len() == 0 ==> x.items@.len() >= 1,
        y.items@ == x.items@.skip(1),
        x.children@.len() == 0 ==> y.children@ == x.children@,
        x.children@.len() > 0 ==> y.children@ == x.children@.skip(1),
    ensures
        x.children@.len() == 0 ==> entries(x) == seq![(x.items@[0].time, x.items@[0].value)]
            + entries(y),
        x.children@.len() > 0 ==> entries(x) == entries(x.children@[0]) + seq![
            (x.items@[0].time, x.items@[0].value),
        ] + entries(y),
    {
    let sp = (x.items@[0].time, x.items@[0].value);
    if x.children@.len() == 0 {
        assert(pairs(x.items@) =~= seq![sp] + pairs(y.items@));
    } else {
        assert(y.children@.len() == y.items@.len() + 1);
        lemma_pre_suf(x, 0);
        assert(entries(x) == entries(x.children@[0]) + entries_suf(x, 0));
        assert(entries_suf(x, 0) == seq![sp] + entries(x.children@[1]) + entries_suf(x, 1));
        assert(x.children@[1] == y.children@[0]);
        assert(x.items@.skip(1) =~= y.items@.skip(0));
        assert(x.children@.skip(2) =~= y.children@.skip(1));
        lemma_suf_align(x, y, 1, 0, 0);
        assert(entries_suf(x, 1) == entries_suf(y, 0));
        lemma_pre_suf(y, 0);
        assert(entries(y) == entries(y.children@[0]) + entries_suf(y, 0));
        assert(entries(x) =~= entries(x.children@[0]) + seq![sp] + entries(y));
    }
}

/// Dropping the last item (and last child, when internal) shortens the
/// entries on the right.
proof fn lemma_node_drop_last<V: Monoid>(x: Node<V>, y: Node<V>)
    requires
        x.children@.len() == 0 || x.children@.len() == x.items@.len() + 1,
        x.children@.len() > 0 ==> x.items@.len() >= 2,
        x.children@.len() == 0 ==> x.items@.len() >= 1,
        y.items@ == x.items@.drop_last(),
        x.children@.len() == 0 ==> y.children@ == x.children@,
        x.children@.len() > 0 ==> y.children@ == x.children@.drop_last(),
    ensures
        x.children@.len() == 0 ==> entries(x) == entries(y) + seq![
            (x.items@.last().time, x.items@.last().value),
        ],
        x.children@.len() > 0 ==> entries(x) == entries(y) + seq![
            (x.items@.last().time, x.items@.last().value),
        ] + entries(x.children@[x.children@.len() - 1]),
{
    let m = x.items@.len() as int;
    let sp = (x.items@.last().time, x.items@.last().value);
    if x.children@.len() == 0 {
        assert(pairs(x.items@) =~= pairs(y.items@) + seq![sp]);
    } else {
        assert(y.children@.len() == y.items@.len() + 1);
        assert(entries(x) == entries_pre(x, m));
        assert(entries_pre(x, m) == entries_pre(x, m - 1) + seq![sp] + entries(
            x.children@[m],
        ));
        lemma_pre_frame(y, x, m - 1);
        assert(entries_pre(y, m - 1) == entries_pre(x, m - 1));
        assert(entries(y) == entries_pre(y, m - 1));
    }
}


/// A node's own items lie within any bound that covers its entries.
proof fn lemma_item_bounds<V: Monoid>(x: Node<V>, j: int)
    requires
        x.children@.len() == 0 || x.children@.len() == x.items@.len() + 1,
        x.children@.len() > 0 ==> x.items@.len() >= 1,
        0 <= j < x.items@.len(),
    ensures
        forall|t: Time| #[trigger] all_lt(entries(x), t) ==> x.items@[j].time < t,
        forall|t: Time| #[trigger] all_gt(entries(x), t) ==> x.items@[j].time > t,
{
    let p = (x.items@[j].time, x.items@[j].value);
    if x.children@.len() == 0 {
        assert(entries(x)[j] == p);
    } else {
        lemma_pre_suf(x, j);
        assert(entries_suf(x, j)[0] == p);
        assert(entries(x)[entries_pre(x, j).len() as int] == p);
    }
}


/// A node formed by merging two siblings around their separator is well
/// formed, provided the separator bounds both sides.
#[verifier::rlimit(100)]
proof fn lemma_merge_wf<V: Monoid>(cl: Node<V>, cr: Node<V>, sep: Item<V>, y: Node<V>)
    requires
        wf_local(cl),
        wf_local(cr),
        (cl.children@.len() == 0) == (cr.children@.len() == 0),
        height(cl) == height(cr),
        MIN_ARITY - 1 <= cl.items@.len() + cr.items@.len() + 1 <= MAX_ARITY - 1,
        all_lt(entries(cl), sep.time),
        all_gt(entries(cr), sep.time),
        y.items@ == cl.items@ + seq![sep] + cr.items@,
        y.children@ == cl.children@ + cr.children@,
    ensures
        wf(y, false),
        height(y) == height(cl),
{
    let ml = cl.items@.len() as int;
    let mr = cr.items@.len() as int;
    assert forall|a: int, b: int| 0 <= a < b < y.items@.len() implies y.items@[a].time
        < y.items@[b].time by {
        if b < ml {
            assert(y.items@[a] == cl.items@[a]);
            assert(y.items@[b] == cl.items@[b]);
        } else if a > ml {
            assert(y.items@[a] == cr.items@[a - ml - 1]);
            assert(y.items@[b] == cr.items@[b - ml - 1]);
        } else if a == ml {
            assert(y.items@[b] == cr.items@[b - ml - 1]);
            lemma_item_bounds(cr, b - ml - 1);
        } else if b == ml {
            assert(y.items@[a] == cl.items@[a]);
            lemma_item_bounds(cl, a);
        } else {
            assert(y.items@[a] == cl.items@[a]);
            assert(y.items@[b] == cr.items@[b - ml - 1]);
            lemma_item_bounds(cl, a);
            lemma_item_bounds(cr, b - ml - 1);
        }
    }
    if cl.children@.len() == 0 {
        assert(y.children@.len() == 0);
        assert(wf(y, false));
    } else {
        assert(y.children@.len() == y.items@.len() + 1);
        assert forall|j: int| 0 <= j < y.children@.len() implies wf(
            #[trigger] y.children@[j],
            false,
        ) by {
            if j <= ml {
                assert(y.children@[j] == cl.children@[j]);
            } else {
                assert(y.children@[j] == cr.children@[j - ml - 1]);
            }
        }
        assert forall|j: int| 0 <= j < y.children@.len() implies height(
            #[trigger] y.children@[j],
        ) == height(y.children@[0]) by {
            assert(y.children@[0] == cl.children@[0]);
            assert(height(cl.children@[0]) + 1 == height(cl));
            assert(height(cr.children@[0]) + 1 == height(cr));
            if j <= ml {
                assert(y.children@[j] == cl.children@[j]);
                assert(height(cl.children@[j]) == height(cl.children@[0]));
            } else {
                assert(y.children@[j] == cr.children@[j - ml - 1]);
                assert(height(cr.children@[j - ml - 1]) == height(cr.children@[0]));
            }
        }
        lemma_pre_suf(cl, ml);
        lemma_pre_suf(cr, 0);
        assert forall|j: int| 1 <= j < y.children@.len() implies all_gt(
            entries(#[trigger] y.children@[j]),
            y.items@[j - 1].time,
        ) by {
            if j <= ml {
                assert(y.children@[j] == cl.children@[j]);
                assert(y.items@[j - 1] == cl.items@[j - 1]);
            } else if j == ml + 1 {
                assert(y.children@[j] == cr.children@[0]);
                assert(y.items@[j - 1] == sep);
                assert(entries(cr) == entries(cr.children@[0]) + entries_suf(cr, 0));
                lemma_all_gt_parts(entries(cr.children@[0]), entries_suf(cr, 0), sep.time);
            } else {
                assert(y.children@[j] == cr.children@[j - ml - 1]);
                assert(y.items@[j - 1] == cr.items@[j - ml - 2]);
            }
        }
        assert forall|j: int| 0 <= j < y.children@.len() - 1 implies all_lt(
            entries(#[trigger] y.children@[j]),
            y.items@[j].time,
        ) by {
            if j < ml {
                assert(y.children@[j] == cl.children@[j]);
                assert(y.items@[j] == cl.items@[j]);
            } else if j == ml {
                assert(y.children@[j] == cl.children@[ml]);
                assert(y.items@[j] == sep);
                assert(entries(cl) == entries_pre(cl, ml) + entries_suf(cl, ml));
                assert(entries_pre(cl, ml) == entries_pre(cl, ml - 1) + seq![
                    (cl.items@[ml - 1].time, cl.items@[ml - 1].value),
                ] + entries(cl.children@[ml]));
                lemma_all_lt_parts(entries_pre(cl, ml), entries_suf(cl, ml), sep.time);
                lemma_all_lt_parts(
                    entries_pre(cl, ml - 1) + seq![(cl.items@[ml - 1].time, cl.items@[ml - 1].value)],
                    entries(cl.children@[ml]),
                    sep.time,
                );
            } else {
                assert(y.children@[j] == cr.children@[j - ml - 1]);
                assert(y.items@[j] == cr.items@[j - ml - 1]);
            }
        }
        assert(wf(y, false));
        assert(height(y) == 1 + height(y.children@[0]));
    }
}

/// Replacing two adjacent children and their separator by their merge
/// preserves the parent's entries, shape, and discipline.
#[verifier::rlimit(100)]
proof fn lemma_merge_parent<V: Monoid>(
    orig: Node<V>,
    nn: Node<V>,
    l: int,
    merged: Node<V>,
    is_root: bool,
)
    requires
        orig.children@.len() == orig.items@.len() + 1,
        1 <= orig.items@.len() <= MAX_ARITY - 1,
        0 <= l && l + 1 < orig.children@.len(),
        forall|a: int, b: int|
            0 <= a < b < orig.items@.len() ==> orig.items@[a].time < orig.items@[b].time,
        forall|j: int|
            0 <= j < orig.children@.len() && j != l && j != l + 1 ==> wf(
                #[trigger] orig.children@[j],
                false,
            ),
        forall|j: int|
            0 <= j < orig.children@.len() ==> height(#[trigger] orig.children@[j]) == height(
                orig.children@[0],
            ),
        forall|j: int|
            1 <= j < orig.children@.len() ==> all_gt(
                entries(#[trigger] orig.children@[j]),
                orig.items@[j - 1].time,
            ),
        forall|j: int|
            0 <= j < orig.children@.len() - 1 ==> all_lt(
                entries(#[trigger] orig.children@[j]),
                orig.items@[j].time,
            ),
        kids_ok(orig, is_root),
        is_root ==> !orig.spine.left && !orig.spine.right,
        entries(merged) == entries(orig.children@[l]) + seq![
            (orig.items@[l].time, orig.items@[l].value),
        ] + entries(orig.children@[l + 1]),
        wf(merged, false),
        height(merged) == height(orig.children@[l]),
        merged.spine.left == orig.children@[l].spine.left,
        merged.spine.right == orig.children@[l + 1].spine.right,
        aggs_core(merged, false),
        nn.items@ == orig.items@.remove(l),
        nn.children@ == orig.children@.update(l, merged).remove(l + 1),
        nn.spine == orig.spine,
    ensures
        entries(nn) == entries(orig),
        height(nn) == height(orig),
        nn.items@.len() == orig.items@.len() - 1,
        nn.children@.len() == nn.items@.len() + 1,
        forall|j: int| 0 <= j < nn.children@.len() ==> wf(#[trigger] nn.children@[j], false),
        forall|a: int, b: int|
            0 <= a < b < nn.items@.len() ==> nn.items@[a].time < nn.items@[b].time,
        forall|j: int|
            0 <= j < nn.children@.len() ==> height(#[trigger] nn.children@[j]) == height(
                nn.children@[0],
            ),
        forall|j: int|
            1 <= j < nn.children@.len() ==> all_gt(
                entries(#[trigger] nn.children@[j]),
                nn.items@[j - 1].time,
            ),
        forall|j: int|
            0 <= j < nn.children@.len() - 1 ==> all_lt(
                entries(#[trigger] nn.children@[j]),
                nn.items@[j].time,
            ),
        kids_ok(nn, is_root),
{
    let m = orig.items@.len() as int;
    let cl = orig.children@[l];
    let cr = orig.children@[l + 1];
    let sp = (orig.items@[l].time, orig.items@[l].value);
    assert(nn.children@[l] == merged);
    assert(forall|j: int| 0 <= j < l ==> nn.children@[j] == orig.children@[j]);
    assert(forall|j: int| l < j < nn.children@.len() ==> nn.children@[j] == orig.children@[j + 1]);
    assert(forall|j: int| 0 <= j < l ==> nn.items@[j] == orig.items@[j]);
    assert(forall|j: int| l <= j < nn.items@.len() ==> nn.items@[j] == orig.items@[j + 1]);
    // entries preserved
    if m == 1 {
        assert(l == 0);
        assert(entries(orig) == entries_pre(orig, 1));
        assert(entries_pre(orig, 0) == entries(cl));
        assert(entries_pre(orig, 1) == entries_pre(orig, 0) + seq![sp] + entries(cr));
        assert(entries(orig) == entries(cl) + seq![sp] + entries(cr));
        assert(nn.items@.len() == 0);
        assert(nn.children@.len() == 1);
        assert(entries(nn) == entries_pre(nn, 0));
        assert(entries_pre(nn, 0) == entries(merged));
        assert(entries(nn) =~= entries(orig));
    } else {
        lemma_entries_at(orig, l);
        assert(entries_suf(orig, l) == seq![sp] + entries(cr) + entries_suf(orig, l + 1));
        lemma_entries_at(nn, l);
        if l > 0 {
            lemma_pre_frame(nn, orig, l - 1);
        }
        assert(entries_before(nn, l) == entries_before(orig, l));
        assert(nn.items@.skip(l) =~= orig.items@.skip(l + 1));
        assert(nn.children@.skip(l + 1) =~= orig.children@.skip(l + 2));
        lemma_suf_align(nn, orig, l, l + 1, 0);
        assert(entries_suf(nn, l) == entries_suf(orig, l + 1));
        assert(entries(nn) =~= entries(orig));
    }
    // shape of the parent
    assert forall|j: int| 0 <= j < nn.children@.len() implies wf(
        #[trigger] nn.children@[j],
        false,
    ) by {
        if j < l {
            assert(nn.children@[j] == orig.children@[j]);
        } else if j == l {
        } else {
            assert(nn.children@[j] == orig.children@[j + 1]);
        }
    }
    assert forall|j: int| 0 <= j < nn.children@.len() implies height(#[trigger] nn.children@[j])
        == height(nn.children@[0]) by {
        if j < l {
            assert(nn.children@[j] == orig.children@[j]);
        } else if j == l {
        } else {
            assert(nn.children@[j] == orig.children@[j + 1]);
        }
        if l == 0 {
            assert(nn.children@[0] == merged);
        } else {
            assert(nn.children@[0] == orig.children@[0]);
        }
        assert(forall|k: int|
            0 <= k < orig.children@.len() ==> height(#[trigger] orig.children@[k]) == height(
                orig.children@[0],
            ));
    }
    assert forall|j: int| 1 <= j < nn.children@.len() implies all_gt(
        entries(#[trigger] nn.children@[j]),
        nn.items@[j - 1].time,
    ) by {
        if j < l {
            assert(nn.children@[j] == orig.children@[j]);
            assert(nn.items@[j - 1] == orig.items@[j - 1]);
        } else if j == l {
            assert(nn.items@[j - 1] == orig.items@[j - 1]);
            assert(all_gt(entries(cl), orig.items@[l - 1].time));
            assert(orig.items@[l - 1].time < orig.items@[l].time);
            assert(all_gt(entries(cr), orig.items@[l].time));
            lemma_all_gt_concat(entries(cl), seq![sp], orig.items@[l - 1].time);
            lemma_all_gt_concat(entries(cl) + seq![sp], entries(cr), orig.items@[l - 1].time);
        } else {
            assert(nn.children@[j] == orig.children@[j + 1]);
            assert(nn.items@[j - 1] == orig.items@[j]);
            assert(all_gt(entries(orig.children@[j + 1]), orig.items@[j].time));
        }
    }
    assert forall|j: int| 0 <= j < nn.children@.len() - 1 implies all_lt(
        entries(#[trigger] nn.children@[j]),
        nn.items@[j].time,
    ) by {
        if j < l {
            assert(nn.children@[j] == orig.children@[j]);
            assert(nn.items@[j] == orig.items@[j]);
        } else if j == l {
            assert(nn.items@[j] == orig.items@[j + 1]);
            assert(all_lt(entries(cl), orig.items@[l].time));
            assert(orig.items@[l].time < orig.items@[l + 1].time);
            assert(all_lt(entries(cr), orig.items@[l + 1].time));
            lemma_all_lt_concat(entries(cl), seq![sp], orig.items@[l + 1].time);
            lemma_all_lt_concat(entries(cl) + seq![sp], entries(cr), orig.items@[l + 1].time);
        } else {
            assert(nn.children@[j] == orig.children@[j + 1]);
            assert(nn.items@[j] == orig.items@[j + 1]);
            assert(all_lt(entries(orig.children@[j + 1]), orig.items@[j + 1].time));
        }
    }
    // height of the parent itself
    if l == 0 {
        assert(nn.children@[0] == merged);
        assert(height(merged) == height(orig.children@[0]));
        assert(height(nn) == height(orig));
    } else {
        assert(nn.children@[0] == orig.children@[0]);
        assert(height(nn) == height(orig));
    }
    // spine discipline
    assert forall|j: int| 0 <= j < nn.children@.len() implies aggs_core(
        #[trigger] nn.children@[j],
        false,
    ) by {
        if j < l {
            assert(aggs_core(orig.children@[j], false));
        } else if j == l {
        } else {
            assert(aggs_core(orig.children@[j + 1], false));
        }
    }
    assert forall|j: int| 0 <= j < nn.children@.len() implies ((
    #[trigger] nn.children@[j]).spine.left <==> (j == 0 && (is_root || nn.spine.left))) by {
        if j < l {
            assert(nn.children@[j] == orig.children@[j]);
        } else if j == l {
            assert(merged.spine.left == cl.spine.left);
        } else {
            assert(nn.children@[j] == orig.children@[j + 1]);
            assert(j + 1 > 0);
        }
    }
    assert forall|j: int| 0 <= j < nn.children@.len() implies ((
    #[trigger] nn.children@[j]).spine.right <==> (j == nn.children@.len() - 1 && (is_root
        || nn.spine.right))) by {
        if j < l {
            assert(nn.children@[j] == orig.children@[j]);
            assert(j < orig.children@.len() - 1);
        } else if j == l {
            assert(merged.spine.right == cr.spine.right);
            assert(j == nn.children@.len() - 1 <==> l + 1 == orig.children@.len() - 1);
        } else {
            assert(nn.children@[j] == orig.children@[j + 1]);
            assert(j == nn.children@.len() - 1 <==> j + 1 == orig.children@.len() - 1);
        }
    }
    assert(kids_ok(nn, is_root));
}


/// Moving the separator into the under-full left node and the sibling's
/// first item up (with its subtree, when internal) leaves both nodes well
/// formed, with entries redistributed around the new separator.
#[verifier::rlimit(100)]
proof fn lemma_steal_nodes_right<V: Monoid>(
    node: Node<V>,
    sib: Node<V>,
    sep: Item<V>,
    node2: Node<V>,
    sib2: Node<V>,
)
    requires
        wf_local(node),
        node.items@.len() == MIN_ARITY - 2,
        wf_local(sib),
        MIN_ARITY <= sib.items@.len() <= MAX_ARITY - 1,
        (node.children@.len() == 0) == (sib.children@.len() == 0),
        height(node) == height(sib),
        all_lt(entries(node), sep.time),
        all_gt(entries(sib), sep.time),
        node2.items@ == node.items@.push(sep),
        node.children@.len() == 0 ==> node2.children@ == node.children@,
        node.children@.len() > 0 ==> node2.children@ == node.children@.push(sib.children@[0]),
        sib2.items@ == sib.items@.skip(1),
        sib.children@.len() == 0 ==> sib2.children@ == sib.children@,
        sib.children@.len() > 0 ==> sib2.children@ == sib.children@.skip(1),
    ensures
        node.children@.len() == 0 ==> entries(node2) == entries(node) + seq![
            (sep.time, sep.value),
        ],
        node.children@.len() > 0 ==> entries(node2) == entries(node) + seq![
            (sep.time, sep.value),
        ] + entries(sib.children@[0]),
        sib.children@.len() == 0 ==> entries(sib) == seq![
            (sib.items@[0].time, sib.items@[0].value),
        ] + entries(sib2),
        sib.children@.len() > 0 ==> entries(sib) == entries(sib.children@[0]) + seq![
            (sib.items@[0].time, sib.items@[0].value),
        ] + entries(sib2),
        wf(node2, false),
        wf(sib2, false),
        height(node2) == height(node),
        height(sib2) == height(sib),
        all_gt(entries(sib2), sib.items@[0].time),
        all_lt(entries(node2), sib.items@[0].time),
{
    let gc = sib.children@[0];
    let sp = (sep.time, sep.value);
    let it0 = (sib.items@[0].time, sib.items@[0].value);
    lemma_node_append(node, node2, sep, gc);
    lemma_node_drop_first(sib, sib2);
    // bounds on the sibling's parts
    if sib.children@.len() > 0 {
        assert(entries(sib) == entries(gc) + seq![it0] + entries(sib2));
        lemma_all_gt_parts(entries(gc) + seq![it0], entries(sib2), sep.time);
        lemma_all_gt_parts(entries(gc), seq![it0], sep.time);
        assert(all_gt(entries(gc), sep.time));
        assert(all_lt(entries(gc), sib.items@[0].time));
        assert(all_gt(entries(sib.children@[1]), sib.items@[0].time));
        if 1 < sib.items@.len() {
            lemma_suf_all_gt(sib, 1, sib.items@[0].time);
        }
        lemma_pre_suf(sib, 0);
        assert(entries_suf(sib, 0) == seq![it0] + entries(sib.children@[1]) + entries_suf(
            sib,
            1,
        ));
        lemma_pre_suf(sib2, 0);
        assert(sib2.children@[0] == sib.children@[1]);
        assert(sib2.items@.skip(0) =~= sib.items@.skip(1));
        assert(sib2.children@.skip(1) =~= sib.children@.skip(2));
        lemma_suf_align(sib2, sib, 0, 1, 0);
        assert(entries(sib2) == entries(sib.children@[1]) + entries_suf(sib, 1));
        assert forall|j: int| 0 <= j < entries(sib2).len() implies entries(sib2)[j].0
            > sib.items@[0].time by {
            let e2 = entries(sib.children@[1]) + entries_suf(sib, 1);
            if j < entries(sib.children@[1]).len() {
                assert(e2[j] == entries(sib.children@[1])[j]);
            } else {
                assert(e2[j] == entries_suf(sib, 1)[j - entries(sib.children@[1]).len()]);
            }
        }
    } else {
        assert(entries(sib) == seq![it0] + entries(sib2));
        assert forall|j: int| 0 <= j < entries(sib2).len() implies entries(sib2)[j].0
            > sib.items@[0].time by {
            assert(entries(sib2)[j] == (sib2.items@[j].time, sib2.items@[j].value));
            assert(sib2.items@[j] == sib.items@[j + 1]);
        }
    }
    assert(all_gt(entries(sib2), sib.items@[0].time));
    // the enlarged node stays below the new separator
    lemma_item_bounds(sib, 0);
    assert(sep.time < sib.items@[0].time);
    if node.children@.len() > 0 {
        lemma_all_lt_concat(entries(node), seq![sp], sib.items@[0].time);
        lemma_all_lt_concat(entries(node) + seq![sp], entries(gc), sib.items@[0].time);
    } else {
        lemma_all_lt_concat(entries(node), seq![sp], sib.items@[0].time);
    }
    assert(all_lt(entries(node2), sib.items@[0].time));
    // shape of the two nodes
    assert forall|a: int, b: int| 0 <= a < b < node2.items@.len() implies node2.items@[a].time
        < node2.items@[b].time by {
        if b < node.items@.len() {
            assert(node2.items@[a] == node.items@[a]);
            assert(node2.items@[b] == node.items@[b]);
        } else {
            assert(node2.items@[b] == sep);
            assert(node2.items@[a] == node.items@[a]);
            lemma_item_bounds(node, a);
        }
    }
    assert forall|a: int, b: int| 0 <= a < b < sib2.items@.len() implies sib2.items@[a].time
        < sib2.items@[b].time by {
        assert(sib2.items@[a] == sib.items@[a + 1]);
        assert(sib2.items@[b] == sib.items@[b + 1]);
    }
    if node.children@.len() > 0 {
        assert(node2.children@.len() == node2.items@.len() + 1);
        assert forall|j: int| 0 <= j < node2.children@.len() implies wf(
            #[trigger] node2.children@[j],
            false,
        ) by {
            if j < node.children@.len() {
                assert(node2.children@[j] == node.children@[j]);
            } else {
                assert(node2.children@[j] == gc);
            }
        }
        assert forall|j: int| 0 <= j < node2.children@.len() implies height(
            #[trigger] node2.children@[j],
        ) == height(node2.children@[0]) by {
            assert(node2.children@[0] == node.children@[0]);
            if j < node.children@.len() {
                assert(node2.children@[j] == node.children@[j]);
            } else {
                assert(node2.children@[j] == gc);
                assert(height(gc) == height(sib.children@[0]));
                assert(1 + height(sib.children@[0]) == height(sib));
                assert(1 + height(node.children@[0]) == height(node));
            }
        }
        assert forall|j: int| 1 <= j < node2.children@.len() implies all_gt(
            entries(#[trigger] node2.children@[j]),
            node2.items@[j - 1].time,
        ) by {
            if j < node.children@.len() {
                assert(node2.children@[j] == node.children@[j]);
                assert(node2.items@[j - 1] == node.items@[j - 1]);
            } else {
                assert(node2.children@[j] == gc);
                assert(node2.items@[j - 1] == sep);
            }
        }
        assert forall|j: int| 0 <= j < node2.children@.len() - 1 implies all_lt(
            entries(#[trigger] node2.children@[j]),
            node2.items@[j].time,
        ) by {
            if j < node.children@.len() - 1 {
                assert(node2.children@[j] == node.children@[j]);
                assert(node2.items@[j] == node.items@[j]);
            } else {
                assert(node2.children@[j] == node.children@[node.children@.len() - 1]);
                assert(node2.items@[j] == sep);
                lemma_pre_suf(node, node.items@.len() as int);
                assert(entries_pre(node, node.items@.len() as int) == entries_pre(
                    node,
                    node.items@.len() - 1,
                ) + seq![
                    (node.items@[node.items@.len() - 1].time, node.items@[node.items@.len() - 1].value),
                ] + entries(node.children@[node.children@.len() - 1]));
                lemma_all_lt_parts(
                    entries_pre(node, node.items@.len() as int),
                    entries_suf(node, node.items@.len() as int),
                    sep.time,
                );
                lemma_all_lt_parts(
                    entries_pre(node, node.items@.len() - 1) + seq![
                        (node.items@[node.items@.len() - 1].time, node.items@[node.items@.len() - 1].value),
                    ],
                    entries(node.children@[node.children@.len() - 1]),
                    sep.time,
                );
            }
        }
        assert(wf(node2, false));
        assert(height(node2) == 1 + height(node2.children@[0]));
    } else {
        assert(wf(node2, false));
    }
    if sib.children@.len() > 0 {
        assert(sib2.children@.len() == sib2.items@.len() + 1);
        assert forall|j: int| 0 <= j < sib2.children@.len() implies wf(
            #[trigger] sib2.children@[j],
            false,
        ) by {
            assert(sib2.children@[j] == sib.children@[j + 1]);
        }
        assert forall|j: int| 0 <= j < sib2.children@.len() implies height(
            #[trigger] sib2.children@[j],
        ) == height(sib2.children@[0]) by {
            assert(sib2.children@[j] == sib.children@[j + 1]);
            assert(sib2.children@[0] == sib.children@[1]);
            assert(height(sib.children@[j + 1]) == height(sib.children@[0]));
            assert(height(sib.children@[1]) == height(sib.children@[0]));
        }
        assert forall|j: int| 1 <= j < sib2.children@.len() implies all_gt(
            entries(#[trigger] sib2.children@[j]),
            sib2.items@[j - 1].time,
        ) by {
            assert(sib2.children@[j] == sib.children@[j + 1]);
            assert(sib2.items@[j - 1] == sib.items@[j]);
        }
        assert forall|j: int| 0 <= j < sib2.children@.len() - 1 implies all_lt(
            entries(#[trigger] sib2.children@[j]),
            sib2.items@[j].time,
        ) by {
            assert(sib2.children@[j] == sib.children@[j + 1]);
            assert(sib2.items@[j] == sib.items@[j + 1]);
        }
        assert(wf(sib2, false));
        assert(height(sib2) == 1 + height(sib2.children@[0]));
        assert(height(sib2.children@[0]) == height(sib.children@[0]));
    } else {
        assert(wf(sib2, false));
    }
}


/// Mirror image: the separator moves into the under-full right node and the
/// left sibling's last item up (with its subtree, when internal).
#[verifier::rlimit(100)]
proof fn lemma_steal_nodes_left<V: Monoid>(
    node: Node<V>,
    sib: Node<V>,
    sep: Item<V>,
    node2: Node<V>,
    sib2: Node<V>,
)
    requires
        wf_local(node),
        node.items@.len() == MIN_ARITY - 2,
        wf_local(sib),
        MIN_ARITY <= sib.items@.len() <= MAX_ARITY - 1,
        (node.children@.len() == 0) == (sib.children@.len() == 0),
        height(node) == height(sib),
        all_gt(entries(node), sep.time),
        all_lt(entries(sib), sep.time),
        node2.items@ == seq![sep] + node.items@,
        node.children@.len() == 0 ==> node2.children@ == node.children@,
        node.children@.len() > 0 ==> node2.children@ == seq![
            sib.children@[sib.children@.len() - 1],
        ] + node.children@,
        sib2.items@ == sib.items@.drop_last(),
        sib.children@.len() == 0 ==> sib2.children@ == sib.children@,
        sib.children@.len() > 0 ==> sib2.children@ == sib.children@.drop_last(),
    ensures
        node.children@.len() == 0 ==> entries(node2) == seq![(sep.time, sep.value)] + entries(
            node,
        ),
        node.children@.len() > 0 ==> entries(node2) == entries(
            sib.children@[sib.children@.len() - 1],
        ) + seq![(sep.time, sep.value)] + entries(node),
        sib.children@.len() == 0 ==> entries(sib) == entries(sib2) + seq![
            (sib.items@.last().time, sib.items@.last().value),
        ],
        sib.children@.len() > 0 ==> entries(sib) == entries(sib2) + seq![
            (sib.items@.last().time, sib.items@.last().value),
        ] + entries(sib.children@[sib.children@.len() - 1]),
        wf(node2, false),
        wf(sib2, false),
        height(node2) == height(node),
        height(sib2) == height(sib),
        all_lt(entries(sib2), sib.items@.last().time),
        all_gt(entries(node2), sib.items@.last().time),
{
    let ms = sib.items@.len() as int;
    let gc = sib.children@[sib.children@.len() - 1];
    let sp = (sep.time, sep.value);
    let itl = (sib.items@.last().time, sib.items@.last().value);
    lemma_node_prepend(node, node2, sep, gc);
    lemma_node_drop_last(sib, sib2);
    // bounds on the sibling's parts
    if sib.children@.len() > 0 {
        assert(entries(sib) == entries(sib2) + seq![itl] + entries(gc));
        lemma_all_lt_parts(entries(sib2) + seq![itl], entries(gc), sep.time);
        lemma_all_lt_parts(entries(sib2), seq![itl], sep.time);
        assert(all_lt(entries(gc), sep.time));
        assert(all_gt(entries(gc), sib.items@[ms - 1].time));
        lemma_pre_all_lt(sib, ms - 1);
        assert(entries(sib2) == entries_pre(sib2, ms - 1));
        lemma_pre_frame(sib2, sib, ms - 1);
        assert(entries_pre(sib, ms - 1) == entries(sib2));
        assert(all_lt(entries(sib2), sib.items@.last().time));
    } else {
        assert(entries(sib) == entries(sib2) + seq![itl]);
        assert forall|j: int| 0 <= j < entries(sib2).len() implies entries(sib2)[j].0
            < sib.items@.last().time by {
            assert(entries(sib2)[j] == (sib2.items@[j].time, sib2.items@[j].value));
            assert(sib2.items@[j] == sib.items@[j]);
        }
    }
    assert(all_lt(entries(sib2), sib.items@.last().time));
    // the enlarged node stays above the new separator
    lemma_item_bounds(sib, ms - 1);
    assert(sib.items@.last().time < sep.time);
    if node.children@.len() > 0 {
        lemma_all_gt_concat(entries(gc), seq![sp], sib.items@.last().time);
        lemma_all_gt_concat(entries(gc) + seq![sp], entries(node), sib.items@.last().time);
    } else {
        lemma_all_gt_concat(seq![sp], entries(node), sib.items@.last().time);
    }
    assert(all_gt(entries(node2), sib.items@.last().time));
    // shape of the two nodes
    assert forall|a: int, b: int| 0 <= a < b < node2.items@.len() implies node2.items@[a].time
        < node2.items@[b].time by {
        if a > 0 {
            assert(node2.items@[a] == node.items@[a - 1]);
            assert(node2.items@[b] == node.items@[b - 1]);
        } else {
            assert(node2.items@[a] == sep);
            assert(node2.items@[b] == node.items@[b - 1]);
            lemma_item_bounds(node, b - 1);
        }
    }
    assert forall|a: int, b: int| 0 <= a < b < sib2.items@.len() implies sib2.items@[a].time
        < sib2.items@[b].time by {
        assert(sib2.items@[a] == sib.items@[a]);
        assert(sib2.items@[b] == sib.items@[b]);
    }
    if node.children@.len() > 0 {
        assert(node2.children@.len() == node2.items@.len() + 1);
        assert forall|j: int| 0 <= j < node2.children@.len() implies wf(
            #[trigger] node2.children@[j],
            false,
        ) by {
            if j > 0 {
                assert(node2.children@[j] == node.children@[j - 1]);
            } else {
                assert(node2.children@[j] == gc);
            }
        }
        assert forall|j: int| 0 <= j < node2.children@.len() implies height(
            #[trigger] node2.children@[j],
        ) == height(node2.children@[0]) by {
            assert(node2.children@[0] == gc);
            assert(height(gc) == height(sib.children@[0]));
            assert(1 + height(sib.children@[0]) == height(sib));
            assert(1 + height(node.children@[0]) == height(node));
            if j > 0 {
                assert(node2.children@[j] == node.children@[j - 1]);
                assert(height(node.children@[j - 1]) == height(node.children@[0]));
            }
        }
        assert forall|j: int| 1 <= j < node2.children@.len() implies all_gt(
            entries(#[trigger] node2.children@[j]),
            node2.items@[j - 1].time,
        ) by {
            if j > 1 {
                assert(node2.children@[j] == node.children@[j - 1]);
                assert(node2.items@[j - 1] == node.items@[j - 2]);
            } else {
                assert(node2.children@[j] == node.children@[0]);
                assert(node2.items@[j - 1] == sep);
                lemma_pre_suf(node, 0);
                assert(entries(node) == entries(node.children@[0]) + entries_suf(node, 0));
                lemma_all_gt_parts(entries(node.children@[0]), entries_suf(node, 0), sep.time);
            }
        }
        assert forall|j: int| 0 <= j < node2.children@.len() - 1 implies all_lt(
            entries(#[trigger] node2.children@[j]),
            node2.items@[j].time,
        ) by {
            if j > 0 {
                assert(node2.children@[j] == node.children@[j - 1]);
                assert(node2.items@[j] == node.items@[j - 1]);
            } else {
                assert(node2.children@[j] == gc);
                assert(node2.items@[j] == sep);
            }
        }
        assert(wf(node2, false));
        assert(height(node2) == 1 + height(node2.children@[0]));
    } else {
        assert(wf(node2, false));
    }
    if sib.children@.len() > 0 {
        assert(sib2.children@.len() == sib2.items@.len() + 1);
        assert forall|j: int| 0 <= j < sib2.children@.len() implies wf(
            #[trigger] sib2.children@[j],
            false,
        ) by {
            assert(sib2.children@[j] == sib.children@[j]);
        }
        assert forall|j: int| 0 <= j < sib2.children@.len() implies height(
            #[trigger] sib2.children@[j],
        ) == height(sib2.children@[0]) by {
            assert(sib2.children@[j] == sib.children@[j]);
            assert(sib2.children@[0] == sib.children@[0]);
        }
        assert forall|j: int| 1 <= j < sib2.children@.len() implies all_gt(
            entries(#[trigger] sib2.children@[j]),
            sib2.items@[j - 1].time,
        ) by {
            assert(sib2.children@[j] == sib.children@[j]);
            assert(sib2.items@[j - 1] == sib.items@[j - 1]);
        }
        assert forall|j: int| 0 <= j < sib2.children@.len() - 1 implies all_lt(
            entries(#[trigger] sib2.children@[j]),
            sib2.items@[j].time,
        ) by {
            assert(sib2.children@[j] == sib.children@[j]);
            assert(sib2.items@[j] == sib.items@[j]);
        }
        assert(wf(sib2, false));
        assert(height(sib2) == 1 + height(sib2.children@[0]));
        assert(height(sib2.children@[0]) == height(sib.children@[0]));
    } else {
        assert(wf(sib2, false));
    }
}



/// Replacing two children by nodes with the same spine flags and sound
/// subtrees preserves the parent's spine discipline.
proof fn lemma_kids_update2<V: Monoid>(
    orig: Node<V>,
    nn: Node<V>,
    i1: int,
    i2: int,
    is_root: bool,
)
    requires
        kids_ok(orig, is_root),
        nn.spine == orig.spine,
        nn.children@.len() == orig.children@.len(),
        0 <= i1 < orig.children@.len(),
        0 <= i2 < orig.children@.len(),
        forall|j: int|
            0 <= j < nn.children@.len() && j != i1 && j != i2 ==> nn.children@[j]
                == orig.children@[j],
        nn.children@[i1].spine == orig.children@[i1].spine,
        nn.children@[i2].spine == orig.children@[i2].spine,
        aggs_core(nn.children@[i1], false),
        aggs_core(nn.children@[i2], false),
    ensures
        kids_ok(nn, is_root),
{
    assert forall|j: int| 0 <= j < nn.children@.len() implies aggs_core(
        #[trigger] nn.children@[j],
        false,
    ) by {
        if j != i1 && j != i2 {
            assert(nn.children@[j] == orig.children@[j]);
            assert(aggs_core(orig.children@[j], false));
        }
    }
    assert forall|j: int| 0 <= j < nn.children@.len() implies ((
    #[trigger] nn.children@[j]).spine.left <==> (j == 0 && (is_root || nn.spine.left))) by {
        if j != i1 && j != i2 {
            assert(nn.children@[j] == orig.children@[j]);
        }
    }
    assert forall|j: int| 0 <= j < nn.children@.len() implies ((
    #[trigger] nn.children@[j]).spine.right <==> (j == nn.children@.len() - 1 && (is_root
        || nn.spine.right))) by {
        if j != i1 && j != i2 {
            assert(nn.children@[j] == orig.children@[j]);
        }
    }
}

/// Replacing the under-full child, its right sibling and the separator
/// between them after a steal preserves the parent's entries, shape, and
/// discipline.
#[verifier::rlimit(100)]
proof fn lemma_steal_right_parent<V: Monoid>(
    orig: Node<V>,
    nn: Node<V>,
    i: int,
    node2: Node<V>,
    sib2: Node<V>,
    is_root: bool,
)
    requires
        orig.children@.len() == orig.items@.len() + 1,
        1 <= orig.items@.len() <= MAX_ARITY - 1,
        0 <= i && i + 1 < orig.children@.len(),
        forall|a: int, b: int|
            0 <= a < b < orig.items@.len() ==> orig.items@[a].time < orig.items@[b].time,
        forall|j: int|
            0 <= j < orig.children@.len() && j != i ==> wf(#[trigger] orig.children@[j], false),
        forall|j: int|
            0 <= j < orig.children@.len() ==> height(#[trigger] orig.children@[j]) == height(
                orig.children@[0],
            ),
        forall|j: int|
            1 <= j < orig.children@.len() ==> all_gt(
                entries(#[trigger] orig.children@[j]),
                orig.items@[j - 1].time,
            ),
        forall|j: int|
            0 <= j < orig.children@.len() - 1 ==> all_lt(
                entries(#[trigger] orig.children@[j]),
                orig.items@[j].time,
            ),
        kids_ok(orig, is_root),
        is_root ==> !orig.spine.left && !orig.spine.right,
        orig.children@[i + 1].items@.len() >= 1,
        ({
            let node = orig.children@[i];
            let sib = orig.children@[i + 1];
            let sp = (orig.items@[i].time, orig.items@[i].value);
            let it0 = (sib.items@[0].time, sib.items@[0].value);
            &&& (node.children@.len() == 0 ==> entries(node2) == entries(node) + seq![sp])
            &&& (node.children@.len() > 0 ==> entries(node2) == entries(node) + seq![sp]
                + entries(sib.children@[0]))
            &&& (sib.children@.len() == 0 ==> entries(sib) == seq![it0] + entries(sib2))
            &&& (sib.children@.len() > 0 ==> entries(sib) == entries(sib.children@[0]) + seq![it0]
                + entries(sib2))
            &&& (node.children@.len() == 0) == (sib.children@.len() == 0)
            &&& wf(node2, false)
            &&& wf(sib2, false)
            &&& height(node2) == height(node)
            &&& height(sib2) == height(sib)
            &&& all_gt(entries(sib2), sib.items@[0].time)
            &&& all_lt(entries(node2), sib.items@[0].time)
            &&& node2.spine == node.spine
            &&& sib2.spine == sib.spine
            &&& aggs_core(node2, false)
            &&& aggs_core(sib2, false)
            &&& nn.items@ == orig.items@.update(i, sib.items@[0])
            &&& nn.children@ == orig.children@.update(i, node2).update(i + 1, sib2)
            &&& nn.spine == orig.spine
        }),
    ensures
        entries(nn) == entries(orig),
        height(nn) == height(orig),
        nn.items@.len() == orig.items@.len(),
        nn.children@.len() == nn.items@.len() + 1,
        wf_local(nn),
        kids_ok(nn, is_root),
{
    let m = orig.items@.len() as int;
    let node = orig.children@[i];
    let sib = orig.children@[i + 1];
    let sp = (orig.items@[i].time, orig.items@[i].value);
    let it0 = (sib.items@[0].time, sib.items@[0].value);
    assert(nn.children@[i] == node2);
    assert(nn.children@[i + 1] == sib2);
    assert(forall|j: int|
        0 <= j < nn.children@.len() && j != i && j != i + 1 ==> nn.children@[j]
            == orig.children@[j]);
    assert(forall|j: int| 0 <= j < nn.items@.len() && j != i ==> nn.items@[j] == orig.items@[j]);
    assert(nn.items@[i] == sib.items@[0]);
    // entries preserved
    lemma_entries_at(orig, i);
    assert(entries_suf(orig, i) == seq![sp] + entries(sib) + entries_suf(orig, i + 1));
    lemma_entries_at(nn, i);
    if i > 0 {
        lemma_pre_frame(nn, orig, i - 1);
    }
    assert(entries_before(nn, i) == entries_before(orig, i));
    assert(entries_suf(nn, i) == seq![it0] + entries(sib2) + entries_suf(nn, i + 1));
    assert(nn.items@.skip(i + 1) =~= orig.items@.skip(i + 1));
    assert(nn.children@.skip(i + 2) =~= orig.children@.skip(i + 2));
    lemma_suf_align(nn, orig, i + 1, i + 1, 0);
    assert(entries_suf(nn, i + 1) == entries_suf(orig, i + 1));
    assert(entries(nn) =~= entries(orig));
    // the new separator sits between its neighbours
    lemma_item_bounds(sib, 0);
    assert(orig.items@[i].time < sib.items@[0].time);
    assert forall|a: int, b: int| 0 <= a < b < nn.items@.len() implies nn.items@[a].time
        < nn.items@[b].time by {
        if a != i && b != i {
        } else if a == i {
            assert(nn.items@[b] == orig.items@[b]);
            assert(all_lt(entries(sib), orig.items@[i + 1].time));
        } else {
            assert(nn.items@[a] == orig.items@[a]);
        }
    }
    assert forall|j: int| 0 <= j < nn.children@.len() implies wf(
        #[trigger] nn.children@[j],
        false,
    ) by {
        if j != i && j != i + 1 {
            assert(nn.children@[j] == orig.children@[j]);
        }
    }
    assert forall|j: int| 0 <= j < nn.children@.len() implies height(#[trigger] nn.children@[j])
        == height(nn.children@[0]) by {
        if j != i && j != i + 1 {
            assert(nn.children@[j] == orig.children@[j]);
        }
        if i != 0 {
            assert(nn.children@[0] == orig.children@[0]);
        }
        assert(forall|k: int|
            0 <= k < orig.children@.len() ==> height(#[trigger] orig.children@[k]) == height(
                orig.children@[0],
            ));
    }
    assert forall|j: int| 1 <= j < nn.children@.len() implies all_gt(
        entries(#[trigger] nn.children@[j]),
        nn.items@[j - 1].time,
    ) by {
        if j != i && j != i + 1 {
            assert(nn.children@[j] == orig.children@[j]);
            assert(nn.items@[j - 1] == orig.items@[j - 1]);
        } else if j == i {
            assert(nn.items@[j - 1] == orig.items@[j - 1]);
            if node.children@.len() == 0 {
                lemma_all_gt_concat(entries(node), seq![sp], orig.items@[i - 1].time);
            } else {
                assert(all_gt(entries(sib), orig.items@[i].time));
                lemma_pre_suf(sib, 0);
                lemma_all_gt_parts(entries(sib.children@[0]), entries_suf(sib, 0), orig.items@[i].time);
                lemma_all_gt_concat(entries(node), seq![sp], orig.items@[i - 1].time);
                lemma_all_gt_concat(
                    entries(node) + seq![sp],
                    entries(sib.children@[0]),
                    orig.items@[i - 1].time,
                );
            }
        } else {
            assert(nn.items@[j - 1] == sib.items@[0]);
            assert(all_gt(entries(sib2), sib.items@[0].time));
        }
    }
    assert forall|j: int| 0 <= j < nn.children@.len() - 1 implies all_lt(
        entries(#[trigger] nn.children@[j]),
        nn.items@[j].time,
    ) by {
        if j != i && j != i + 1 {
            assert(nn.children@[j] == orig.children@[j]);
            assert(nn.items@[j] == orig.items@[j]);
        } else if j == i {
            assert(nn.items@[j] == sib.items@[0]);
            assert(all_lt(entries(node2), sib.items@[0].time));
        } else {
            assert(nn.items@[j] == orig.items@[j]);
            assert(all_lt(entries(sib), orig.items@[i + 1].time));
            if sib.children@.len() == 0 {
                lemma_all_lt_parts(seq![it0], entries(sib2), orig.items@[i + 1].time);
            } else {
                lemma_all_lt_parts(
                    entries(sib.children@[0]) + seq![it0],
                    entries(sib2),
                    orig.items@[i + 1].time,
                );
            }
        }
    }
    assert(wf_local(nn));
    if i != 0 {
        assert(nn.children@[0] == orig.children@[0]);
    }
    assert(height(nn) == height(orig));
    lemma_kids_update2(orig, nn, i, i + 1, is_root);
}

/// Mirror image for a steal from the left sibling.
#[verifier::rlimit(100)]
proof fn lemma_steal_left_parent<V: Monoid>(
    orig: Node<V>,
    nn: Node<V>,
    i: int,
    node2: Node<V>,
    sib2: Node<V>,
    is_root: bool,
)
    requires
        orig.children@.len() == orig.items@.len() + 1,
        1 <= orig.items@.len() <= MAX_ARITY - 1,
        1 <= i < orig.children@.len(),
        forall|a: int, b: int|
            0 <= a < b < orig.items@.len() ==> orig.items@[a].time < orig.items@[b].time,
        forall|j: int|
            0 <= j < orig.children@.len() && j != i ==> wf(#[trigger] orig.children@[j], false),
        forall|j: int|
            0 <= j < orig.children@.len() ==> height(#[trigger] orig.children@[j]) == height(
                orig.children@[0],
            ),
        forall|j: int|
            1 <= j < orig.children@.len() ==> all_gt(
                entries(#[trigger] orig.children@[j]),
                orig.items@[j - 1].time,
            ),
        forall|j: int|
            0 <= j < orig.children@.len() - 1 ==> all_lt(
                entries(#[trigger] orig.children@[j]),
                orig.items@[j].time,
            ),
        kids_ok(orig, is_root),
        is_root ==> !orig.spine.left && !orig.spine.right,
        orig.children@[i - 1].items@.len() >= 1,
        ({
            let node = orig.children@[i];
            let sib = orig.children@[i - 1];
            let sp = (orig.items@[i - 1].time, orig.items@[i - 1].value);
            let itl = (sib.items@.last().time, sib.items@.last().value);
            &&& (node.children@.len() == 0 ==> entries(node2) == seq![sp] + entries(node))
            &&& (node.children@.len() > 0 ==> entries(node2) == entries(
                sib.children@[sib.children@.len() - 1],
            ) + seq![sp] + entries(node))
            &&& (sib.children@.len() == 0 ==> entries(sib) == entries(sib2) + seq![itl])
            &&& (sib.children@.len() > 0 ==> entries(sib) == entries(sib2) + seq![itl] + entries(
                sib.children@[sib.children@.len() - 1],
            ))
            &&& (node.children@.len() == 0) == (sib.children@.len() == 0)
            &&& wf(node2, false)
            &&& wf(sib2, false)
            &&& height(node2) == height(node)
            &&& height(sib2) == height(sib)
            &&& all_lt(entries(sib2), sib.items@.last().time)
            &&& all_gt(entries(node2), sib.items@.last().time)
            &&& node2.spine == node.spine
            &&& sib2.spine == sib.spine
            &&& aggs_core(node2, false)
            &&& aggs_core(sib2, false)
            &&& nn.items@ == orig.items@.update(i - 1, sib.items@.last())
            &&& nn.children@ == orig.children@.update(i, node2).update(i - 1, sib2)
            &&& nn.spine == orig.spine
        }),
    ensures
        entries(nn) == entries(orig),
        height(nn) == height(orig),
        nn.items@.len() == orig.items@.len(),
        nn.children@.len() == nn.items@.len() + 1,
        wf_local(nn),
        kids_ok(nn, is_root),
{
    let m = orig.items@.len() as int;
    let node = orig.children@[i];
    let sib = orig.children@[i - 1];
    let sp = (orig.items@[i - 1].time, orig.items@[i - 1].value);
    let itl = (sib.items@.last().time, sib.items@.last().value);
    assert(nn.children@[i] == node2);
    assert(nn.children@[i - 1] == sib2);
    assert(forall|j: int|
        0 <= j < nn.children@.len() && j != i && j != i - 1 ==> nn.children@[j]
            == orig.children@[j]);
    assert(forall|j: int|
        0 <= j < nn.items@.len() && j != i - 1 ==> nn.items@[j] == orig.items@[j]);
    assert(nn.items@[i - 1] == sib.items@.last());
    // entries preserved
    lemma_entries_at(orig, i - 1);
    assert(entries_suf(orig, i - 1) == seq![sp] + entries(node) + entries_suf(orig, i));
    lemma_entries_at(nn, i - 1);
    if i - 1 > 0 {
        lemma_pre_frame(nn, orig, i - 2);
    }
    assert(entries_before(nn, i - 1) == entries_before(orig, i - 1));
    assert(entries_suf(nn, i - 1) == seq![itl] + entries(node2) + entries_suf(nn, i));
    assert(nn.items@.skip(i) =~= orig.items@.skip(i));
    assert(nn.children@.skip(i + 1) =~= orig.children@.skip(i + 1));
    lemma_suf_align(nn, orig, i, i, 0);
    assert(entries_suf(nn, i) == entries_suf(orig, i));
    assert(entries(nn) =~= entries(orig));
    // the new separator sits between its neighbours
    lemma_item_bounds(sib, sib.items@.len() - 1);
    assert(sib.items@.last().time < orig.items@[i - 1].time);
    assert forall|a: int, b: int| 0 <= a < b < nn.items@.len() implies nn.items@[a].time
        < nn.items@[b].time by {
        if a != i - 1 && b != i - 1 {
        } else if a == i - 1 {
            assert(nn.items@[b] == orig.items@[b]);
        } else {
            assert(nn.items@[a] == orig.items@[a]);
            assert(all_gt(entries(sib), orig.items@[i - 2].time));
        }
    }
    assert forall|j: int| 0 <= j < nn.children@.len() implies wf(
        #[trigger] nn.children@[j],
        false,
    ) by {
        if j != i && j != i - 1 {
            assert(nn.children@[j] == orig.children@[j]);
        }
    }
    assert forall|j: int| 0 <= j < nn.children@.len() implies height(#[trigger] nn.children@[j])
        == height(nn.children@[0]) by {
        if j != i && j != i - 1 {
            assert(nn.children@[j] == orig.children@[j]);
        }
        if i - 1 != 0 {
            assert(nn.children@[0] == orig.children@[0]);
        }
        assert(forall|k: int|
            0 <= k < orig.children@.len() ==> height(#[trigger] orig.children@[k]) == height(
                orig.children@[0],
            ));
    }
    assert forall|j: int| 1 <= j < nn.children@.len() implies all_gt(
        entries(#[trigger] nn.children@[j]),
        nn.items@[j - 1].time,
    ) by {
        if j != i && j != i - 1 {
            assert(nn.children@[j] == orig.children@[j]);
            assert(nn.items@[j - 1] == orig.items@[j - 1]);
        } else if j == i {
            assert(nn.items@[j - 1] == sib.items@.last());
            assert(all_gt(entries(node2), sib.items@.last().time));
        } else {
            assert(nn.items@[j - 1] == orig.items@[j - 1]);
            assert(all_gt(entries(sib), orig.items@[i - 2].time));
            if sib.children@.len() == 0 {
                lemma_all_gt_parts(entries(sib2), seq![itl], orig.items@[i - 2].time);
            } else {
                lemma_all_gt_parts(
                    entries(sib2) + seq![itl],
                    entries(sib.children@[sib.children@.len() - 1]),
                    orig.items@[i - 2].time,
                );
                lemma_all_gt_parts(entries(sib2), seq![itl], orig.items@[i - 2].time);
            }
        }
    }
    assert forall|j: int| 0 <= j < nn.children@.len() - 1 implies all_lt(
        entries(#[trigger] nn.children@[j]),
        nn.items@[j].time,
    ) by {
        if j != i && j != i - 1 {
            assert(nn.children@[j] == orig.children@[j]);
            assert(nn.items@[j] == orig.items@[j]);
        } else if j == i - 1 {
            assert(nn.items@[j] == sib.items@.last());
            assert(all_lt(entries(sib2), sib.items@.last().time));
        } else {
            assert(nn.items@[j] == orig.items@[j]);
            assert(all_lt(entries(node), orig.items@[i].time));
            assert(orig.items@[i - 1].time < orig.items@[i].time);
            if node.children@.len() == 0 {
                lemma_all_lt_concat(seq![sp], entries(node), orig.items@[i].time);
            } else {
                assert(all_lt(entries(sib), orig.items@[i - 1].time));
                lemma_all_lt_parts(
                    entries(sib2) + seq![itl],
                    entries(sib.children@[sib.children@.len() - 1]),
                    orig.items@[i - 1].time,
                );
                assert(all_lt(
                    entries(sib.children@[sib.children@.len() - 1]),
                    orig.items@[i].time,
                ));
                lemma_all_lt_concat(
                    entries(sib.children@[sib.children@.len() - 1]),
                    seq![sp],
                    orig.items@[i].time,
                );
                lemma_all_lt_concat(
                    entries(sib.children@[sib.children@.len() - 1]) + seq![sp],
                    entries(node),
                    orig.items@[i].time,
                );
            }
        }
    }
    assert(wf_local(nn));
    if i - 1 != 0 {
        assert(nn.children@[0] == orig.children@[0]);
    }
    assert(height(nn) == height(orig));
    // spine discipline
    assert forall|j: int| 0 <= j < nn.children@.len() implies aggs_core(
        #[trigger] nn.children@[j],
        false,
    ) by {
        if j != i && j != i - 1 {
            assert(aggs_core(orig.children@[j], false));
        }
    }
    assert forall|j: int| 0 <= j < nn.children@.len() implies ((
    #[trigger] nn.children@[j]).spine.left <==> (j == 0 && (is_root || nn.spine.left))) by {
        if j != i && j != i - 1 {
            assert(nn.children@[j] == orig.children@[j]);
        }
    }
    assert forall|j: int| 0 <= j < nn.children@.len() implies ((
    #[trigger] nn.children@[j]).spine.right <==> (j == nn.children@.len() - 1 && (is_root
        || nn.spine.right))) by {
        if j != i && j != i - 1 {
            assert(nn.children@[j] == orig.children@[j]);
        }
    }
    assert(kids_ok(nn, is_root));
}


proof fn lemma_sorted_concat3<V>(a: Seq<(Time, V)>, p: (Time, V), b: Seq<(Time, V)>)
    requires
        sorted(a),
        sorted(b),
        all_lt(a, p.0),
        all_gt(b, p.0),
    ensures
        sorted(a + seq![p] + b),
{
    let s = a + seq![p] + b;
    assert forall|x: int, y: int| 0 <= x < y < s.len() implies s[x].0 < s[y].0 by {
        let al = a.len() as int;
        if y < al {
            assert(s[x] == a[x]);
            assert(s[y] == a[y]);
        } else if x > al {
            assert(s[x] == b[x - al - 1]);
            assert(s[y] == b[y - al - 1]);
        } else if x == al {
            assert(s[x] == p);
            assert(s[y] == b[y - al - 1]);
        } else if y == al {
            assert(s[x] == a[x]);
            assert(s[y] == p);
        } else {
            assert(s[x] == a[x]);
            assert(s[y] == b[y - al - 1]);
        }
    }
}

/// A well-formed subtree's entries are strictly sorted by time.
proof fn lemma_wf_sorted<V: Monoid>(n: Node<V>)
    requires
        wf_local(n),
    ensures
        sorted(entries(n)),
    decreases n, n.items@.len() + 1int,
{
    if n.children@.len() == 0 {
        assert forall|x: int, y: int|
            0 <= x < y < entries(n).len() implies entries(n)[x].0 < entries(n)[y].0 by {
            assert(entries(n)[x] == (n.items@[x].time, n.items@[x].value));
            assert(entries(n)[y] == (n.items@[y].time, n.items@[y].value));
        }
    } else {
        lemma_wf_sorted_pre(n, n.items@.len() as int);
    }
}

proof fn lemma_wf_sorted_pre<V: Monoid>(n: Node<V>, k: int)
    requires
        wf_local(n),
        n.children@.len() > 0,
        0 <= k <= n.items@.len(),
    ensures
        sorted(entries_pre(n, k)),
        k < n.items@.len() ==> all_lt(entries_pre(n, k), n.items@[k].time),
    decreases n, k,
{
    if k == 0 {
        lemma_wf_sorted(n.children@[0]);
        if 0 < n.items@.len() {
            assert(all_lt(entries(n.children@[0]), n.items@[0].time));
        }
    } else {
        lemma_wf_sorted_pre(n, k - 1);
        lemma_wf_sorted(n.children@[k]);
        let p = (n.items@[k - 1].time, n.items@[k - 1].value);
        assert(all_lt(entries_pre(n, k - 1), n.items@[k - 1].time));
        assert(all_gt(entries(n.children@[k]), n.items@[k - 1].time));
        lemma_sorted_concat3(entries_pre(n, k - 1), p, entries(n.children@[k]));
        assert(entries_pre(n, k) == entries_pre(n, k - 1) + seq![p] + entries(n.children@[k]));
        if k < n.items@.len() {
            lemma_pre_all_lt(n, k);
        }
    }
}


/// After a steal from the right sibling, both affected nodes keep the spine
/// discipline for their children and their aggregate obligations.
#[verifier::rlimit(100)]
proof fn lemma_steal_right_discipline<V: Monoid>(
    onode: Node<V>,
    osib: Node<V>,
    node: Node<V>,
    sib: Node<V>,
)
    requires
        kids_ok(onode, false),
        kids_ok(osib, false),
        !onode.spine.right,
        !osib.spine.left,
        node.spine == onode.spine,
        sib.spine == osib.spine,
        onode.children@.len() == 0 ==> node.children@ == onode.children@,
        onode.children@.len() > 0 ==> osib.children@.len() > 0 && node.children@
            == onode.children@.push(osib.children@[0]),
        osib.children@.len() == 0 ==> sib.children@ == osib.children@,
        osib.children@.len() > 0 ==> sib.children@ == osib.children@.skip(1),
        osib.children@.len() == 0 || osib.children@.len() >= 2,
        (!node.spine.left && !node.spine.right) ==> node.agg == subtree_fold(node),
        (!sib.spine.left && !sib.spine.right) ==> sib.agg == subtree_fold(sib),
    ensures
        kids_ok(node, false),
        kids_ok(sib, false),
        aggs_core(node, false),
        aggs_core(sib, false),
{
    if osib.children@.len() > 0 {
        assert(!osib.children@[0].spine.right);
    }
    assert forall|j: int| 0 <= j < node.children@.len() implies aggs_core(
        #[trigger] node.children@[j],
        false,
    ) by {
        if j < onode.children@.len() {
            assert(node.children@[j] == onode.children@[j]);
        } else {
            assert(node.children@[j] == osib.children@[0]);
        }
    }
    assert forall|j: int| 0 <= j < node.children@.len() implies ((
    #[trigger] node.children@[j]).spine.left <==> (j == 0 && node.spine.left)) by {
        if j < onode.children@.len() {
            assert(node.children@[j] == onode.children@[j]);
        } else {
            assert(node.children@[j] == osib.children@[0]);
            assert(j > 0);
            assert(!osib.spine.left);
        }
    }
    assert forall|j: int| 0 <= j < node.children@.len() implies ((
    #[trigger] node.children@[j]).spine.right <==> (j == node.children@.len() - 1
        && node.spine.right)) by {
        assert(!node.spine.right);
        if j < onode.children@.len() {
            assert(node.children@[j] == onode.children@[j]);
            assert(!onode.spine.right);
        } else {
            assert(node.children@[j] == osib.children@[0]);
            assert(!osib.spine.left);
        }
    }
    assert(kids_ok(node, false));
    assert(aggs_core(node, false));
    assert forall|j: int| 0 <= j < sib.children@.len() implies aggs_core(
        #[trigger] sib.children@[j],
        false,
    ) by {
        assert(sib.children@[j] == osib.children@[j + 1]);
    }
    assert forall|j: int| 0 <= j < sib.children@.len() implies ((
    #[trigger] sib.children@[j]).spine.left <==> (j == 0 && sib.spine.left)) by {
        assert(sib.children@[j] == osib.children@[j + 1]);
        assert(!osib.spine.left);
        assert(j + 1 > 0);
    }
    assert forall|j: int| 0 <= j < sib.children@.len() implies ((
    #[trigger] sib.children@[j]).spine.right <==> (j == sib.children@.len() - 1
        && sib.spine.right)) by {
        assert(sib.children@[j] == osib.children@[j + 1]);
        assert(j == sib.children@.len() - 1 <==> j + 1 == osib.children@.len()
            - 1);
    }
    assert(kids_ok(sib, false));
    assert(aggs_core(sib, false));
}


/// The children handed to the two refreshed nodes of a right steal all
/// carry correct up aggregates when the nodes are off both spines.
#[verifier::rlimit(100)]
proof fn lemma_steal_right_aggs<V: Monoid>(
    onode: Node<V>,
    osib: Node<V>,
    node: Node<V>,
    sib: Node<V>,
)
    requires
        kids_ok(onode, false),
        kids_ok(osib, false),
        !osib.spine.left,
        onode.children@.len() == 0 ==> node.children@ == onode.children@,
        onode.children@.len() > 0 ==> osib.children@.len() > 0 && node.children@
            == onode.children@.push(osib.children@[0]),
        osib.children@.len() == 0 ==> sib.children@ == osib.children@,
        osib.children@.len() > 0 ==> sib.children@ == osib.children@.skip(1),
        osib.children@.len() == 0 || osib.children@.len() >= 2,
        !node.spine.left && !node.spine.right ==> !onode.spine.left && !onode.spine.right,
        node.spine == onode.spine,
        sib.spine == osib.spine,
    ensures
        (!node.spine.left && !node.spine.right) ==> forall|j: int|
            0 <= j < node.children@.len() ==> (#[trigger] node.children@[j]).agg == subtree_fold(
                node.children@[j],
            ),
        (!sib.spine.left && !sib.spine.right) ==> forall|j: int|
            0 <= j < sib.children@.len() ==> (#[trigger] sib.children@[j]).agg == subtree_fold(
                sib.children@[j],
            ),
{
    if !node.spine.left && !node.spine.right {
        assert forall|j: int| 0 <= j < node.children@.len() implies (
        #[trigger] node.children@[j]).agg == subtree_fold(node.children@[j]) by {
            if j < onode.children@.len() {
                assert(node.children@[j] == onode.children@[j]);
                assert(aggs_core(onode.children@[j], false));
                assert(!onode.children@[j].spine.left);
                assert(!onode.children@[j].spine.right);
            } else {
                assert(node.children@[j] == osib.children@[0]);
                assert(aggs_core(osib.children@[0], false));
                assert(!osib.children@[0].spine.left);
                assert(!osib.children@[0].spine.right);
            }
        }
    }
    if !sib.spine.left && !sib.spine.right {
        assert forall|j: int| 0 <= j < sib.children@.len() implies (
        #[trigger] sib.children@[j]).agg == subtree_fold(sib.children@[j]) by {
            assert(sib.children@[j] == osib.children@[j + 1]);
            assert(aggs_core(osib.children@[j + 1], false));
            assert(!osib.children@[j + 1].spine.left);
            assert(!osib.children@[j + 1].spine.right);
        }
    }
}


/// The node formed by a merge keeps the spine discipline for its combined
/// child list.
#[verifier::rlimit(100)]
proof fn lemma_merge_discipline<V: Monoid>(cl: Node<V>, cr: Node<V>, left: Node<V>)
    requires
        kids_ok(cl, false),
        kids_ok(cr, false),
        !cl.spine.right,
        !cr.spine.left,
        left.children@ == cl.children@ + cr.children@,
        (cl.children@.len() == 0) == (cr.children@.len() == 0),
        left.spine.left == cl.spine.left,
        left.spine.right == cr.spine.right,
        (!left.spine.left && !left.spine.right) ==> left.agg == subtree_fold(left),
    ensures
        kids_ok(left, false),
        aggs_core(left, false),
{
    assert forall|j: int| 0 <= j < left.children@.len() implies aggs_core(
        #[trigger] left.children@[j],
        false,
    ) by {
        if j < cl.children@.len() {
            assert(left.children@[j] == cl.children@[j]);
        } else {
            assert(left.children@[j] == cr.children@[j - cl.children@.len()]);
        }
    }
    assert forall|j: int| 0 <= j < left.children@.len() implies ((
    #[trigger] left.children@[j]).spine.left <==> (j == 0 && left.spine.left)) by {
        if j < cl.children@.len() {
            assert(left.children@[j] == cl.children@[j]);
        } else {
            assert(left.children@[j] == cr.children@[j - cl.children@.len()]);
            assert(j > 0);
        }
    }
    assert forall|j: int| 0 <= j < left.children@.len() implies ((
    #[trigger] left.children@[j]).spine.right <==> (j == left.children@.len() - 1
        && left.spine.right)) by {
        if j < cl.children@.len() {
            assert(left.children@[j] == cl.children@[j]);
            assert(j < left.children@.len() - 1 || cr.children@.len() == 0);
            if cr.children@.len() == 0 {
        assert(cl.children@.len() == 0);
            }
        } else {
            assert(left.children@[j] == cr.children@[j - cl.children@.len()]);
            assert(j == left.children@.len() - 1 <==> j - cl.children@.len()
        == cr.children@.len() - 1);
        }
    }
    assert(kids_ok(left, false));
    assert(aggs_core(left, false));
}

impl<V: Monoid> Node<V> {
    /// Repair the under-full child `i`: steal through the parent from a
    /// sibling with items to spare (preferring the right sibling), or merge
    /// with it and the separating item when it has none.
    fn fix_underfull(n: &mut Node<V>, i: usize, is_root: bool)
        requires
            old(n).children@.len() == old(n).items@.len() + 1,
            1 <= old(n).items@.len() <= MAX_ARITY - 1,
            i < old(n).children@.len(),
            forall|a: int, b: int|
                0 <= a < b < old(n).items@.len() ==> old(n).items@[a].time < old(
                    n,
                ).items@[b].time,
            forall|j: int|
                0 <= j < old(n).children@.len() && j != i ==> wf(
                    #[trigger] old(n).children@[j],
                    false,
                ),
            wf_local(old(n).children@[i as int]),
            old(n).children@[i as int].items@.len() == MIN_ARITY - 2,
            forall|j: int|
                0 <= j < old(n).children@.len() ==> height(#[trigger] old(n).children@[j])
                    == height(old(n).children@[0]),
            forall|j: int|
                1 <= j < old(n).children@.len() ==> all_gt(
                    entries(#[trigger] old(n).children@[j]),
                    old(n).items@[j - 1].time,
                ),
            forall|j: int|
                0 <= j < old(n).children@.len() - 1 ==> all_lt(
                    entries(#[trigger] old(n).children@[j]),
                    old(n).items@[j].time,
                ),
            kids_ok(*old(n), is_root),
            is_root ==> !old(n).spine.left && !old(n).spine.right,
        ensures
            entries(*final(n)) == entries(*old(n)),
            height(*final(n)) == height(*old(n)),
            final(n).spine == old(n).spine,
            final(n).agg == old(n).agg,
            old(n).items@.len() - 1 <= final(n).items@.len() <= old(n).items@.len(),
            final(n).children@.len() == final(n).items@.len() + 1,
            final(n).items@.len() >= 1 ==> wf_local(*final(n)),
            final(n).items@.len() == 0 ==> wf(final(n).children@[0], false),
            kids_ok(*final(n), is_root),
    {
        let use_right = i + 1 < n.children.len();
        let si = if use_right {
            i + 1
        } else {
            i - 1
        };
        if n.children[si].items.len() <= MIN_ARITY - 1 {
            Self::merge_child(n, i, is_root);
        } else if use_right {
            Self::steal_right(n, i, is_root);
        } else {
            Self::steal_left(n, i, is_root);
        }
    }

    /// Merge the under-full child `i` with a sibling at minimum arity and
    /// the item separating them.
    /// Join two siblings and their separator into one node, with the union
    /// of their spine flags and, off both spines, a fresh up aggregate.
    #[verifier::rlimit(100)]
    fn merge_nodes(cl: Node<V>, cr: Node<V>, sep: Item<V>) -> (y: Node<V>)
        requires
            wf_local(cl),
            wf_local(cr),
            (cl.children@.len() == 0) == (cr.children@.len() == 0),
            height(cl) == height(cr),
            MIN_ARITY - 1 <= cl.items@.len() + cr.items@.len() + 1 <= MAX_ARITY - 1,
            all_lt(entries(cl), sep.time),
            all_gt(entries(cr), sep.time),
            aggs_core(cl, false),
            aggs_core(cr, false),
            !cl.spine.right,
            !cr.spine.left,
        ensures
            entries(y) == entries(cl) + seq![(sep.time, sep.value)] + entries(cr),
            wf(y, false),
            height(y) == height(cl),
            y.spine.left == cl.spine.left,
            y.spine.right == cr.spine.right,
            y.items@.len() == cl.items@.len() + cr.items@.len() + 1,
            aggs_core(y, false),
    {
        let mut right = cr;
        let mut left = cl;
        let lflag = left.spine.left || right.spine.left;
        let rflag = left.spine.right || right.spine.right;
        left.items.push(sep);
        left.items.append(&mut right.items);
        left.children.append(&mut right.children);
        left.spine = Spine::new(lflag, rflag);
        proof {
            assert(left.items@ =~= cl.items@ + seq![sep] + cr.items@);
            assert(left.children@ =~= cl.children@ + cr.children@);
            lemma_merge_child(cl, cr, sep, left);
            lemma_merge_wf(cl, cr, sep, left);
            assert(kids_ok(cl, false));
            assert(kids_ok(cr, false));
        }
        if !(left.spine.left || left.spine.right) {
            proof {
                assert forall|j: int| 0 <= j < left.children@.len() implies (
                #[trigger] left.children@[j]).agg == subtree_fold(left.children@[j]) by {
                    if j < cl.children@.len() {
                        assert(left.children@[j] == cl.children@[j]);
                        assert(aggs_core(cl.children@[j], false));
                        assert(!cl.children@[j].spine.left);
                        assert(!cl.children@[j].spine.right);
                    } else {
                        assert(left.children@[j] == cr.children@[j - cl.children@.len()]);
                        assert(aggs_core(cr.children@[j - cl.children@.len()], false));
                        assert(!cr.children@[j - cl.children@.len()].spine.left);
                        assert(!cr.children@[j - cl.children@.len()].spine.right);
                    }
                }
            }
            let ghost lm = left;
            let a = left.up_agg_of();
            left.agg = a;
            proof {
                lemma_shape_entries(left, lm);
                assert(entries(left) == entries(lm));
                assert(left.agg == subtree_fold(left));
                assert(wf(left, false));
                assert(height(left) == height(lm));
            }
        }
        proof {
            lemma_merge_discipline(cl, cr, left);
        }
        left
    }

    /// Merge the under-full child `i` with a sibling at minimum arity and
    /// the item separating them.
    #[verifier::rlimit(100)]
    fn merge_child(n: &mut Node<V>, i: usize, is_root: bool)
        requires
            (if i + 1 < old(n).children@.len() { old(n).children@[i + 1] } else { old(n).children@[i - 1] }).items@.len() <= MIN_ARITY - 1,
            old(n).children@.len() == old(n).items@.len() + 1,
            1 <= old(n).items@.len() <= MAX_ARITY - 1,
            i < old(n).children@.len(),
            forall|a: int, b: int|
                0 <= a < b < old(n).items@.len() ==> old(n).items@[a].time < old(
                    n,
                ).items@[b].time,
            forall|j: int|
                0 <= j < old(n).children@.len() && j != i ==> wf(
                    #[trigger] old(n).children@[j],
                    false,
                ),
            wf_local(old(n).children@[i as int]),
            old(n).children@[i as int].items@.len() == MIN_ARITY - 2,
            forall|j: int|
                0 <= j < old(n).children@.len() ==> height(#[trigger] old(n).children@[j])
                    == height(old(n).children@[0]),
            forall|j: int|
                1 <= j < old(n).children@.len() ==> all_gt(
                    entries(#[trigger] old(n).children@[j]),
                    old(n).items@[j - 1].time,
                ),
            forall|j: int|
                0 <= j < old(n).children@.len() - 1 ==> all_lt(
                    entries(#[trigger] old(n).children@[j]),
                    old(n).items@[j].time,
                ),
            kids_ok(*old(n), is_root),
            is_root ==> !old(n).spine.left && !old(n).spine.right,
        ensures
            entries(*final(n)) == entries(*old(n)),
            height(*final(n)) == height(*old(n)),
            final(n).spine == old(n).spine,
            final(n).agg == old(n).agg,
            old(n).items@.len() - 1 <= final(n).items@.len() <= old(n).items@.len(),
            final(n).children@.len() == final(n).items@.len() + 1,
            final(n).items@.len() >= 1 ==> wf_local(*final(n)),
            final(n).items@.len() == 0 ==> wf(final(n).children@[0], false),
            kids_ok(*final(n), is_root),
    {
        let ghost orig = *old(n);
        let use_right = i + 1 < n.children.len();
        let l = if use_right {
            i
        } else {
            i - 1
        };
        let si = if use_right {
            i + 1
        } else {
            i - 1
        };
        proof {
            assert(wf(orig.children@[si as int], false));
            assert(height(orig.children@[i as int]) == height(orig.children@[si as int]));
            assert((orig.children@[i as int].children@.len() == 0) == (height(
                orig.children@[i as int],
            ) == 0));
            assert((orig.children@[si as int].children@.len() == 0) == (height(
                orig.children@[si as int],
            ) == 0));
            assert(aggs_core(orig.children@[l as int], false));
            assert(aggs_core(orig.children@[l + 1], false));
            assert(!orig.children@[l as int].spine.right);
            assert(!orig.children@[l + 1].spine.left);
            assert(all_lt(entries(orig.children@[l as int]), orig.items@[l as int].time));
            assert(all_gt(entries(orig.children@[l + 1]), orig.items@[l as int].time));
        }
        let right = n.children.remove(l + 1);
        let left = n.children.remove(l);
        let sep = n.items.remove(l);
        let merged = Self::merge_nodes(left, right, sep);
        let ghost gm = merged;
        n.children.insert(l, merged);
        proof {
            assert(sep == orig.items@[l as int]);
            assert(n.items@ =~= orig.items@.remove(l as int));
            assert(n.children@ =~= orig.children@.update(l as int, gm).remove(l + 1));
            lemma_merge_parent(orig, *n, l as int, gm, is_root);
        }
    }

    /// The node-level surgery of a steal from the right sibling: the
    /// separator joins the under-full node, the sibling's first item
    /// replaces it, and for internal nodes the sibling's first subtree moves
    /// over; both nodes' aggregates are refreshed where they hold the up
    /// role.
    #[verifier::rlimit(100)]
    fn steal_right_nodes(node: Node<V>, sib: Node<V>, sep: Item<V>) -> (r: (
        Node<V>,
        Node<V>,
        Item<V>,
    ))
        requires
            wf_local(node),
            node.items@.len() == MIN_ARITY - 2,
            wf(sib, false),
            sib.items@.len() >= MIN_ARITY,
            height(node) == height(sib),
            (node.children@.len() == 0) == (height(node) == 0),
            (sib.children@.len() == 0) == (height(sib) == 0),
            all_lt(entries(node), sep.time),
            all_gt(entries(sib), sep.time),
            aggs_core(node, false),
            aggs_core(sib, false),
            !node.spine.right,
            !sib.spine.left,
        ensures
            ({
                let (node2, sib2, newsep) = r;
                &&& newsep == sib.items@[0]
                &&& (node.children@.len() == 0 ==> entries(node2) == entries(node) + seq![
                    (sep.time, sep.value),
                ])
                &&& (node.children@.len() > 0 ==> entries(node2) == entries(node) + seq![
                    (sep.time, sep.value),
                ] + entries(sib.children@[0]))
                &&& (sib.children@.len() == 0 ==> entries(sib) == seq![
                    (sib.items@[0].time, sib.items@[0].value),
                ] + entries(sib2))
                &&& (sib.children@.len() > 0 ==> entries(sib) == entries(sib.children@[0])
                    + seq![(sib.items@[0].time, sib.items@[0].value)] + entries(sib2))
                &&& wf(node2, false)
                &&& wf(sib2, false)
                &&& height(node2) == height(node)
                &&& height(sib2) == height(sib)
                &&& all_gt(entries(sib2), sib.items@[0].time)
                &&& all_lt(entries(node2), sib.items@[0].time)
                &&& node2.spine == node.spine
                &&& sib2.spine == sib.spine
                &&& aggs_core(node2, false)
                &&& aggs_core(sib2, false)
            }),
    {
        let ghost onode = node;
        let ghost osib = sib;
        let mut node = node;
        let mut sib = sib;
        let newsep = sib.items.remove(0);
        node.items.push(sep);
        if sib.children.len() > 0 {
            let gc = sib.children.remove(0);
            node.children.push(gc);
        }
        proof {
            assert(node.items@ =~= onode.items@.push(sep));
            assert(sib.items@ =~= osib.items@.skip(1));
            if osib.children@.len() > 0 {
                assert(node.children@ =~= onode.children@.push(osib.children@[0]));
                assert(sib.children@ =~= osib.children@.skip(1));
            }
            assert(kids_ok(onode, false));
            assert(kids_ok(osib, false));
            lemma_steal_nodes_right(onode, osib, sep, node, sib);
        }
        proof {
            lemma_steal_right_aggs(onode, osib, node, sib);
        }
        if !(node.spine.left || node.spine.right) {
            let ghost nm = node;
            let a = node.up_agg_of();
            node.agg = a;
            proof {
                lemma_shape_entries(node, nm);
                assert(wf(node, false));
                assert(height(node) == height(nm));
            }
        }
        proof {
            lemma_steal_right_aggs(onode, osib, node, sib);
        }
        if !(sib.spine.left || sib.spine.right) {
            let ghost sm = sib;
            let a = sib.up_agg_of();
            sib.agg = a;
            proof {
                lemma_shape_entries(sib, sm);
                assert(wf(sib, false));
                assert(height(sib) == height(sm));
            }
        }
        proof {
            lemma_steal_right_discipline(onode, osib, node, sib);
        }
        (node, sib, newsep)
    }

    /// Steal through the parent from the right sibling.
    #[verifier::rlimit(100)]
    fn steal_right(n: &mut Node<V>, i: usize, is_root: bool)
        requires
            i + 1 < old(n).children@.len(),
            old(n).children@[i + 1].items@.len() >= MIN_ARITY,
            old(n).children@.len() == old(n).items@.len() + 1,
            1 <= old(n).items@.len() <= MAX_ARITY - 1,
            i < old(n).children@.len(),
            forall|a: int, b: int|
                0 <= a < b < old(n).items@.len() ==> old(n).items@[a].time < old(
                    n,
                ).items@[b].time,
            forall|j: int|
                0 <= j < old(n).children@.len() && j != i ==> wf(
                    #[trigger] old(n).children@[j],
                    false,
                ),
            wf_local(old(n).children@[i as int]),
            old(n).children@[i as int].items@.len() == MIN_ARITY - 2,
            forall|j: int|
                0 <= j < old(n).children@.len() ==> height(#[trigger] old(n).children@[j])
                    == height(old(n).children@[0]),
            forall|j: int|
                1 <= j < old(n).children@.len() ==> all_gt(
                    entries(#[trigger] old(n).children@[j]),
                    old(n).items@[j - 1].time,
                ),
            forall|j: int|
                0 <= j < old(n).children@.len() - 1 ==> all_lt(
                    entries(#[trigger] old(n).children@[j]),
                    old(n).items@[j].time,
                ),
            kids_ok(*old(n), is_root),
            is_root ==> !old(n).spine.left && !old(n).spine.right,
        ensures
            entries(*final(n)) == entries(*old(n)),
            height(*final(n)) == height(*old(n)),
            final(n).spine == old(n).spine,
            final(n).agg == old(n).agg,
            old(n).items@.len() - 1 <= final(n).items@.len() <= old(n).items@.len(),
            final(n).children@.len() == final(n).items@.len() + 1,
            final(n).items@.len() >= 1 ==> wf_local(*final(n)),
            final(n).items@.len() == 0 ==> wf(final(n).children@[0], false),
            kids_ok(*final(n), is_root),
    {
        let ghost orig = *old(n);
        proof {
            assert(wf(orig.children@[i + 1], false));
            assert(height(orig.children@[i as int]) == height(orig.children@[i + 1]));
            assert((orig.children@[i as int].children@.len() == 0) == (height(
                orig.children@[i as int],
            ) == 0));
            assert((orig.children@[i + 1].children@.len() == 0) == (height(
                orig.children@[i + 1],
            ) == 0));
            assert(all_lt(entries(orig.children@[i as int]), orig.items@[i as int].time));
            assert(all_gt(entries(orig.children@[i + 1]), orig.items@[i as int].time));
            assert(aggs_core(orig.children@[i as int], false));
            assert(aggs_core(orig.children@[i + 1], false));
        }
        let ghost onode = orig.children@[i as int];
        let ghost osib = orig.children@[i + 1];
        let sib0 = n.children.remove(i + 1);
        let node0 = n.children.remove(i);
        let sep = n.items.remove(i);
        let (node, sib, newsep) = Self::steal_right_nodes(node0, sib0, sep);
        n.items.insert(i, newsep);
        let ghost node2 = node;
        let ghost sib2 = sib;
        n.children.insert(i, node);
        n.children.insert(i + 1, sib);
        proof {
            assert(sep == orig.items@[i as int]);
            assert(n.items@ =~= orig.items@.update(i as int, osib.items@[0]));
            assert(n.children@ =~= orig.children@.update(i as int, node2).update(
                i + 1,
                sib2,
            ));
            lemma_steal_right_parent(orig, *n, i as int, node2, sib2, is_root);
        }
    }

    /// Mirror image: the under-full child is the last one, so steal from its
    /// left sibling.
    #[verifier::rlimit(100)]
    fn steal_left(n: &mut Node<V>, i: usize, is_root: bool)
        requires
            i + 1 == old(n).children@.len(),
            i >= 1,
            old(n).children@[i - 1].items@.len() >= MIN_ARITY,
            old(n).children@.len() == old(n).items@.len() + 1,
            1 <= old(n).items@.len() <= MAX_ARITY - 1,
            i < old(n).children@.len(),
            forall|a: int, b: int|
                0 <= a < b < old(n).items@.len() ==> old(n).items@[a].time < old(
                    n,
                ).items@[b].time,
            forall|j: int|
                0 <= j < old(n).children@.len() && j != i ==> wf(
                    #[trigger] old(n).children@[j],
                    false,
                ),
            wf_local(old(n).children@[i as int]),
            old(n).children@[i as int].items@.len() == MIN_ARITY - 2,
            forall|j: int|
                0 <= j < old(n).children@.len() ==> height(#[trigger] old(n).children@[j])
                    == height(old(n).children@[0]),
            forall|j: int|
                1 <= j < old(n).children@.len() ==> all_gt(
                    entries(#[trigger] old(n).children@[j]),
                    old(n).items@[j - 1].time,
                ),
            forall|j: int|
                0 <= j < old(n).children@.len() - 1 ==> all_lt(
                    entries(#[trigger] old(n).children@[j]),
                    old(n).items@[j].time,
                ),
            kids_ok(*old(n), is_root),
            is_root ==> !old(n).spine.left && !old(n).spine.right,
        ensures
            entries(*final(n)) == entries(*old(n)),
            height(*final(n)) == height(*old(n)),
            final(n).spine == old(n).spine,
            final(n).agg == old(n).agg,
            old(n).items@.len() - 1 <= final(n).items@.len() <= old(n).items@.len(),
            final(n).children@.len() == final(n).items@.len() + 1,
            final(n).items@.len() >= 1 ==> wf_local(*final(n)),
            final(n).items@.len() == 0 ==> wf(final(n).children@[0], false),
            kids_ok(*final(n), is_root),
    {
        let ghost orig = *old(n);
        proof {
            assert(wf(orig.children@[i - 1], false));
            assert(height(orig.children@[i as int]) == height(orig.children@[i - 1]));
            assert((orig.children@[i as int].children@.len() == 0) == (height(
                orig.children@[i as int],
            ) == 0));
            assert((orig.children@[i - 1].children@.len() == 0) == (height(
                orig.children@[i - 1],
            ) == 0));
        }
        let ghost onode = orig.children@[i as int];
        let ghost osib = orig.children@[i - 1];
        let mut node = n.children.remove(i);
        let mut sib = n.children.remove(i - 1);
        let newsep = sib.items.pop().unwrap();
        let sep = n.items.remove(i - 1);
        n.items.insert(i - 1, newsep);
        node.items.insert(0, sep);
        if sib.children.len() > 0 {
            let gc = sib.children.pop().unwrap();
            node.children.insert(0, gc);
        }
        proof {
            assert(sep == orig.items@[i - 1]);
            assert(newsep == osib.items@.last());
            assert(node.items@ =~= seq![sep] + onode.items@);
            assert(sib.items@ =~= osib.items@.drop_last());
            if osib.children@.len() > 0 {
                assert(node.children@ =~= seq![
                    osib.children@[osib.children@.len() - 1],
                ] + onode.children@);
                assert(sib.children@ =~= osib.children@.drop_last());
            }
            assert(all_gt(entries(onode), sep.time));
            assert(all_lt(entries(osib), sep.time));
            assert(aggs_core(onode, false));
            assert(kids_ok(onode, false));
            assert(aggs_core(osib, false));
            assert(kids_ok(osib, false));
            lemma_steal_nodes_left(onode, osib, sep, node, sib);
        }
        if !(node.spine.left || node.spine.right) {
            proof {
                assert forall|j: int| 0 <= j < node.children@.len() implies (
                #[trigger] node.children@[j]).agg == subtree_fold(node.children@[j]) by {
                    if j > 0 {
                        assert(node.children@[j] == onode.children@[j - 1]);
                        assert(aggs_core(onode.children@[j - 1], false));
                    } else {
                        assert(node.children@[j] == osib.children@[osib.children@.len()
                            - 1]);
                        assert(aggs_core(
                            osib.children@[osib.children@.len() - 1],
                            false,
                        ));
                        assert(!osib.spine.right);
                    }
                }
            }
            let ghost nm = node;
            let a = node.up_agg_of();
            node.agg = a;
            proof {
                lemma_shape_entries(node, nm);
                assert(wf(node, false));
                assert(height(node) == height(nm));
            }
        }
        if !(sib.spine.left || sib.spine.right) {
            proof {
                assert forall|j: int| 0 <= j < sib.children@.len() implies (
                #[trigger] sib.children@[j]).agg == subtree_fold(sib.children@[j]) by {
                    assert(sib.children@[j] == osib.children@[j]);
                    assert(aggs_core(osib.children@[j], false));
                    assert(!osib.spine.right);
                    assert(j < osib.children@.len() - 1);
                }
            }
            let ghost sm = sib;
            let a = sib.up_agg_of();
            sib.agg = a;
            proof {
                lemma_shape_entries(sib, sm);
                assert(wf(sib, false));
                assert(height(sib) == height(sm));
            }
        }
        proof {
            assert forall|j: int| 0 <= j < node.children@.len() implies aggs_core(
                #[trigger] node.children@[j],
                false,
            ) by {
                if j > 0 {
                    assert(node.children@[j] == onode.children@[j - 1]);
                } else {
                    assert(node.children@[j] == osib.children@[osib.children@.len() - 1]);
                }
            }
            assert forall|j: int| 0 <= j < node.children@.len() implies ((
            #[trigger] node.children@[j]).spine.left <==> (j == 0 && node.spine.left)) by {
                assert(!node.spine.left);
                if j > 0 {
                    assert(node.children@[j] == onode.children@[j - 1]);
                    assert(!onode.spine.left);
                } else {
                    assert(node.children@[j] == osib.children@[osib.children@.len() - 1]);
                    assert(!osib.spine.right);
                }
            }
            assert forall|j: int| 0 <= j < node.children@.len() implies ((
            #[trigger] node.children@[j]).spine.right <==> (j == node.children@.len() - 1
                && node.spine.right)) by {
                if j > 0 {
                    assert(node.children@[j] == onode.children@[j - 1]);
                    assert(j == node.children@.len() - 1 <==> j - 1
                        == onode.children@.len() - 1);
                } else {
                    assert(node.children@[j] == osib.children@[osib.children@.len() - 1]);
                    assert(!osib.spine.right);
                    assert(node.children@.len() > 1);
                }
            }
            assert(kids_ok(node, false));
            assert(aggs_core(node, false));
            assert forall|j: int| 0 <= j < sib.children@.len() implies aggs_core(
                #[trigger] sib.children@[j],
                false,
            ) by {
                assert(sib.children@[j] == osib.children@[j]);
            }
            assert forall|j: int| 0 <= j < sib.children@.len() implies ((
            #[trigger] sib.children@[j]).spine.left <==> (j == 0 && sib.spine.left)) by {
                assert(sib.children@[j] == osib.children@[j]);
            }
            assert forall|j: int| 0 <= j < sib.children@.len() implies ((
            #[trigger] sib.children@[j]).spine.right <==> (j == sib.children@.len() - 1
                && sib.spine.right)) by {
                assert(sib.children@[j] == osib.children@[j]);
                assert(!osib.spine.right);
                assert(j < osib.children@.len() - 1);
            }
            assert(kids_ok(sib, false));
            assert(aggs_core(sib, false));
        }
        let ghost node2 = node;
        let ghost sib2 = sib;
        n.children.insert(i - 1, sib);
        n.children.insert(i, node);
        proof {
            assert(n.items@ =~= orig.items@.update(i - 1, osib.items@.last()));
            assert(n.children@ =~= orig.children@.update(i as int, node2).update(
                i - 1,
                sib2,
            ));
            lemma_steal_left_parent(orig, *n, i as int, node2, sib2, is_root);
        }
    }
}

impl<V: Monoid> Node<V> {
    /// Height increase: this node is a fresh root holding the old, overfull
    /// root as its only child; split that child around its median, leaving a
    /// root with one item and the two halves, which head the two spines.
    #[verifier::rlimit(100)]
    fn split_root(n: &mut Node<V>)
        requires
            old(n).items@.len() == 0,
            old(n).children@.len() == 1,
            !old(n).spine.left,
            !old(n).spine.right,
            wf_local(old(n).children@[0]),
            old(n).children@[0].items@.len() == MAX_ARITY,
            !old(n).children@[0].spine.left,
            !old(n).children@[0].spine.right,
            kids_ok(old(n).children@[0], true),
        ensures
            final(n).items@.len() == 1,
            final(n).children@.len() == 2,
            final(n).spine == old(n).spine,
            entries(*final(n)) == entries(old(n).children@[0]),
            wf_local(*final(n)),
            kids_ok(*final(n), true),
        decreases *old(n),
    {
        let ghost oc = old(n).children@[0];
        let mut child = n.children.remove(0);
        let mut right = Node::new();
        let middle = (child.items.len() + 1) / 2;
        let right_items = child.items.split_off(middle + 1);
        let med = child.items.pop().unwrap();
        right.items = right_items;
        if child.children.len() > 0 {
            let right_children = child.children.split_off(middle + 1);
            right.children = right_children;
        }
        child.spine = Spine::new(true, false);
        right.spine = Spine::new(false, true);
        let ghost midx = middle as int;
        let ghost medp = (med.time, med.value);
        proof {
            assert(child.items@ =~= oc.items@.subrange(0, midx));
            assert(right.items@ =~= oc.items@.skip(midx + 1));
            if oc.children@.len() > 0 {
                assert(child.children@ =~= oc.children@.subrange(0, midx + 1));
                assert(right.children@ =~= oc.children@.skip(midx + 1));
            }
            assert(med == oc.items@[midx]);
            lemma_split_halves(oc, child, right, med, midx);
        }
        n.items.push(med);
        n.children.push(child);
        n.children.push(right);
        proof {
            assert(n.items@ =~= seq![med]);
            assert(n.children@.len() == 2);
            assert(entries(*n) == entries_pre(*n, 1));
            assert(entries_pre(*n, 0) == entries(n.children@[0]));
            assert(entries(*n) =~= entries(n.children@[0]) + seq![medp] + entries(
                n.children@[1],
            ));
            assert(entries(*n) =~= entries(oc));
            assert(wf_local(*n));
            assert(kids_ok(*n, true));
        }
    }
}

impl<V: Monoid> Tree<V> {
    /// Insert `(t, v)`: combine `v` into the stored value if time `t` is
    /// already present, otherwise place a fresh entry at its sorted
    /// position; then repair the aggregates along both spines, the root,
    /// and the fingers.
    pub fn insert(&mut self, t: Time, v: V)
        ensures
            final(self)@ == insert_entry(old(self)@, t, v),
            sorted(final(self)@),
    {
        proof {
            use_type_invariant(&*self);
        }
        let mut tmp = Tree { root: Node::new(), left_agg: V::identity(), right_agg: V::identity() };
        std::mem::swap(&mut tmp, self);
        let Tree { mut root, left_agg: _, right_agg: _ } = tmp;
        let ghost oldroot = root;
        Node::insert_rec(&mut root, t, v, true);
        if root.items.len() > MAX_ARITY - 1 {
            let mut nr = Node::new();
            nr.children.push(root);
            proof {
                assert(entries(nr) == entries(nr.children@[0]));
            }
            Node::split_root(&mut nr);
            root = nr;
        }
        *self = Self::reassemble(root);
        proof {
            assert(self@ == insert_entry(old(self)@, t, v));
            use_type_invariant(&*self);
            lemma_wf_sorted(self.root);
        }
    }

    /// Evict time `t`: remove the matching entry if the window holds one,
    /// and otherwise change nothing; then repair the aggregates along both
    /// spines, the root, and the fingers.
    pub fn evict(&mut self, t: Time)
        ensures
            final(self)@ == remove_entry(old(self)@, t),
            sorted(final(self)@),
    {
        proof {
            use_type_invariant(&*self);
        }
        let mut tmp = Tree { root: Node::new(), left_agg: V::identity(), right_agg: V::identity() };
        std::mem::swap(&mut tmp, self);
        let Tree { mut root, left_agg: _, right_agg: _ } = tmp;
        Node::evict_rec(&mut root, t, true);
        if root.items.len() == 0 && root.children.len() > 0 {
            // height decrease: the sole remaining child becomes the root
            let ghost shrunk = root;
            let mut c = root.children.pop().unwrap();
            proof {
                assert(c == shrunk.children@[0]);
                assert(entries(shrunk) == entries_pre(shrunk, 0));
                assert(entries(shrunk) == entries(c));
                assert(aggs_core(c, false));
                assert(kids_ok(c, false));
                assert(c.spine.left);
                assert(c.spine.right);
            }
            let ghost cpre = c;
            c.spine = Spine::new(false, false);
            proof {
                lemma_shape_entries(c, cpre);
                assert(entries(c) == entries(cpre));
                assert(wf_local(c));
                assert forall|j: int| 0 <= j < c.children@.len() implies ((
                #[trigger] c.children@[j]).spine.left <==> (j == 0 && (true || c.spine.left))) by {
                    assert(c.children@[j] == cpre.children@[j]);
                }
                assert forall|j: int| 0 <= j < c.children@.len() implies ((
                #[trigger] c.children@[j]).spine.right <==> (j == c.children@.len() - 1 && (true
                    || c.spine.right))) by {
                    assert(c.children@[j] == cpre.children@[j]);
                }
                assert(kids_ok(c, true));
            }
            root = c;
        }
        *self = Self::reassemble(root);
        proof {
            assert(self@ == remove_entry(old(self)@, t));
            use_type_invariant(&*self);
            lemma_wf_sorted(self.root);
        }
    }

    /// Rebuild a valid window around a structurally sound root: refresh the
    /// root's aggregate for its role, walk both spines refreshing theirs,
    /// and cache the two finger leaves' aggregates.
    fn reassemble(root: Node<V>) -> (s: Tree<V>)
        requires
            wf_local(root),
            1 <= root.children@.len() ==> root.items@.len() >= 1,
            root.items@.len() <= MAX_ARITY - 1,
            !root.spine.left,
            !root.spine.right,
            kids_ok(root, true),
        ensures
            s@ == entries(root),
    {
        let mut root = root;
        let ghost rstart = root;
        if root.children.len() == 0 {
            let a = root.up_agg_of();
            root.agg = a;
            proof {
                lemma_shape_entries(root, rstart);
            }
            let s = Tree { root, left_agg: V::identity(), right_agg: V::identity() };
            s
        } else {
            proof {
                assert forall|j: int|
                    1 <= j < root.children@.len() - 1 implies (#[trigger] root.children@[j]).agg
                    == subtree_fold(root.children@[j]) by {
                    assert(aggs_core(root.children@[j], false));
                    assert(!root.children@[j].spine.left);
                    assert(!root.children@[j].spine.right);
                }
            }
            let ghost r0 = root;
            let a = root.inner_agg_of();
            root.agg = a;
            proof {
                lemma_shape_entries(root, r0);
                assert(root.agg == fold(vals_of(mid(root))));
                assert(kids_ok(root, true));
            }
            let ghost r1 = root;
            let la = Node::repair_left(&mut root.children[0], V::identity());
            proof {
                assert(forall|j: int|
                    1 <= j < root.children@.len() ==> root.children@[j] == r1.children@[j]);
                assert forall|j: int|
                    0 <= j < root.children@.len() implies entries(#[trigger] root.children@[j])
                    == entries(r1.children@[j]) by {
                    if j > 0 {
                        assert(root.children@[j] == r1.children@[j]);
                    }
                }
                lemma_shape_entries(root, r1);
                assert(kids_ok(root, true));
                assert(root.agg == fold(vals_of(mid(root))));
                assert forall|j: int| 0 <= j < root.children@.len() implies height(
                    #[trigger] root.children@[j],
                ) == height(root.children@[0]) by {
                    if j > 0 {
                        assert(root.children@[j] == r1.children@[j]);
                    }
                    assert(height(r1.children@[j]) == height(r1.children@[0]));
                }
                assert(wf_local(root));
            }
            let ghost r2 = root;
            let last = root.children.len() - 1;
            let ra = Node::repair_right(&mut root.children[last], V::identity());
            proof {
                assert(forall|j: int|
                    0 <= j < root.children@.len() - 1 ==> root.children@[j] == r2.children@[j]);
                assert forall|j: int|
                    0 <= j < root.children@.len() implies entries(#[trigger] root.children@[j])
                    == entries(r2.children@[j]) by {
                    if j < root.children@.len() - 1 {
                        assert(root.children@[j] == r2.children@[j]);
                    }
                }
                lemma_shape_entries(root, r2);
                assert(kids_ok(root, true));
                assert(root.agg == fold(vals_of(mid(root))));
                assert forall|j: int| 0 <= j < root.children@.len() implies height(
                    #[trigger] root.children@[j],
                ) == height(root.children@[0]) by {
                    if j < root.children@.len() - 1 {
                        assert(root.children@[j] == r2.children@[j]);
                    }
                    assert(height(r2.children@[j]) == height(r2.children@[0]));
                }
                assert(chain_left_ok(root.children@[0], V::id()));
                assert(chain_right_ok(root.children@[root.children@.len() - 1], V::id()));
                assert(la == leftmost_agg(root.children@[0]));
                assert(ra == rightmost_agg(root.children@[root.children@.len() - 1]));
                assert(wf(root, true));
            }
            let s = Tree { root, left_agg: la, right_agg: ra };
            s
        }
    }
}

impl<V: Monoid> Node<V> {
    /// Remove and return the oldest entry of the subtree, repairing any
    /// underflow on the way back up; the node itself may end one item short.
    #[verifier::rlimit(100)]
    fn evict_min(n: &mut Node<V>) -> (r: Item<V>)
        requires
            wf(*old(n), false),
            aggs_core(*old(n), false),
        ensures
            entries(*old(n)).len() >= 1,
            (r.time, r.value) == entries(*old(n))[0],
            entries(*final(n)) == entries(*old(n)).drop_first(),
            height(*final(n)) == height(*old(n)),
            final(n).spine == old(n).spine,
            old(n).items@.len() - 1 <= final(n).items@.len() <= old(n).items@.len(),
            final(n).items@.len() >= MIN_ARITY - 2,
            wf_local(*final(n)),
            final(n).items@.len() <= MAX_ARITY - 1,
            (final(n).children@.len() == 0) == (old(n).children@.len() == 0),
            aggs_core(*final(n), false),
        decreases *old(n),
    {
        let ghost orig = *old(n);
        if n.children.len() == 0 {
            let it = n.items.remove(0);
            proof {
                assert(pairs(n.items@) =~= pairs(orig.items@).drop_first());
                assert((it.time, it.value) == pairs(orig.items@)[0]);
                assert(wf_local(*n));
            }
            if !(n.spine.left || n.spine.right) {
                let ghost pre2 = *n;
                let a = n.up_agg_of();
                n.agg = a;
                proof {
                    lemma_shape_entries(*n, pre2);
                }
            }
            it
        } else {
            proof {
                assert(wf(orig.children@[0], false));
                assert(aggs_core(orig.children@[0], false));
                lemma_pre_suf(orig, 0);
                assert(entries(orig) == entries(orig.children@[0]) + entries_suf(orig, 0));
            }
            let it = Self::evict_min(&mut n.children[0]);
            proof {
                assert(n.children@ =~= orig.children@.update(0, n.children@[0]));
                lemma_pre_suf(*n, 0);
                assert(n.items@.skip(0) =~= orig.items@.skip(0));
                assert(n.children@.skip(1) =~= orig.children@.skip(1));
                lemma_suf_align(*n, orig, 0, 0, 0);
                assert(entries_suf(*n, 0) == entries_suf(orig, 0));
                assert(entries(*n) =~= entries(orig).drop_first());
                assert((it.time, it.value) == entries(orig)[0]);
                // the shrunken child keeps its bounds
                assert forall|j: int| 0 <= j < entries(n.children@[0]).len() implies entries(
                    n.children@[0],
                )[j].0 < orig.items@[0].time by {
                    assert(entries(n.children@[0])[j] == entries(orig.children@[0])[j + 1]);
                }
                assert(all_lt(entries(n.children@[0]), orig.items@[0].time));
                assert forall|j: int| 0 <= j < n.children@.len() && j != 0 implies wf(
                    #[trigger] n.children@[j],
                    false,
                ) by {
                    assert(n.children@[j] == orig.children@[j]);
                }
                assert forall|j: int| 0 <= j < n.children@.len() implies height(
                    #[trigger] n.children@[j],
                ) == height(n.children@[0]) by {
                    if j != 0 {
                        assert(n.children@[j] == orig.children@[j]);
                    }
                    assert(height(orig.children@[j]) == height(orig.children@[0]));
                }
                assert forall|j: int| 1 <= j < n.children@.len() implies all_gt(
                    entries(#[trigger] n.children@[j]),
                    n.items@[j - 1].time,
                ) by {
                    assert(n.children@[j] == orig.children@[j]);
                }
                assert forall|j: int| 0 <= j < n.children@.len() implies aggs_core(
                    #[trigger] n.children@[j],
                    false,
                ) by {
                    if j != 0 {
                        assert(n.children@[j] == orig.children@[j]);
                    }
                }
                assert(kids_ok(*n, false));
            }
            if n.children[0].items.len() < MIN_ARITY - 1 {
                let ghost mid_state = *n;
                Self::fix_underfull(n, 0, false);
                proof {
                    assert(entries(*n) == entries(mid_state));
                    assert(wf_local(*n));
                }
            } else {
                proof {
                    assert(wf(n.children@[0], false));
                    assert(wf_local(*n));
                }
            }
            if !(n.spine.left || n.spine.right) {
                proof {
                    assert forall|j: int| 0 <= j < n.children@.len() implies (
                    #[trigger] n.children@[j]).agg == subtree_fold(n.children@[j]) by {
                        assert(aggs_core(n.children@[j], false));
                        assert(!n.children@[j].spine.left);
                        assert(!n.children@[j].spine.right);
                    }
                }
                let ghost pre2 = *n;
                let a = n.up_agg_of();
                n.agg = a;
                proof {
                    lemma_shape_entries(*n, pre2);
                    assert(wf_local(*n));
                    assert(kids_ok(*n, false));
                    assert(height(*n) == height(pre2));
                }
            }
            it
        }
    }

    /// Remove and return the youngest entry of the subtree; mirror image of
    /// the oldest case.
    #[verifier::rlimit(100)]
    fn evict_max(n: &mut Node<V>) -> (r: Item<V>)
        requires
            wf(*old(n), false),
            aggs_core(*old(n), false),
        ensures
            entries(*old(n)).len() >= 1,
            (r.time, r.value) == entries(*old(n)).last(),
            entries(*final(n)) == entries(*old(n)).drop_last(),
            height(*final(n)) == height(*old(n)),
            final(n).spine == old(n).spine,
            old(n).items@.len() - 1 <= final(n).items@.len() <= old(n).items@.len(),
            final(n).items@.len() >= MIN_ARITY - 2,
            wf_local(*final(n)),
            final(n).items@.len() <= MAX_ARITY - 1,
            (final(n).children@.len() == 0) == (old(n).children@.len() == 0),
            aggs_core(*final(n), false),
        decreases *old(n),
    {
        let ghost orig = *old(n);
        if n.children.len() == 0 {
            let it = n.items.pop().unwrap();
            proof {
                assert(pairs(n.items@) =~= pairs(orig.items@).drop_last());
                assert((it.time, it.value) == pairs(orig.items@).last());
                assert(wf_local(*n));
            }
            if !(n.spine.left || n.spine.right) {
                let ghost pre2 = *n;
                let a = n.up_agg_of();
                n.agg = a;
                proof {
                    lemma_shape_entries(*n, pre2);
                }
            }
            it
        } else {
            let m = n.items.len();
            let last = n.children.len() - 1;
            proof {
                assert(wf(orig.children@[last as int], false));
                assert(aggs_core(orig.children@[last as int], false));
                assert(entries(orig) == entries_pre(orig, m as int));
                assert(entries_pre(orig, m as int) == entries_pre(orig, m - 1) + seq![
                    (orig.items@[m - 1].time, orig.items@[m - 1].value),
                ] + entries(orig.children@[last as int]));
            }
            let it = Self::evict_max(&mut n.children[last]);
            proof {
                assert(n.children@ =~= orig.children@.update(last as int, n.children@[last as int]));
                assert(entries(*n) == entries_pre(*n, m as int));
                lemma_pre_frame(*n, orig, m - 1);
                assert(entries_pre(*n, m as int) == entries_pre(*n, m - 1) + seq![
                    (n.items@[m - 1].time, n.items@[m - 1].value),
                ] + entries(n.children@[last as int]));
                assert(entries(n.children@[last as int]) == entries(
                    orig.children@[last as int],
                ).drop_last());
                assert(entries(orig.children@[last as int]).len() >= 1);
                assert(entries(*n) =~= entries(orig).drop_last());
                assert((it.time, it.value) == entries(orig).last());
                assert forall|j: int| 0 <= j < entries(n.children@[last as int]).len() implies
                    entries(n.children@[last as int])[j].0 > orig.items@[m - 1].time by {
                    assert(entries(n.children@[last as int])[j] == entries(
                        orig.children@[last as int],
                    )[j]);
                }
                assert(all_gt(entries(n.children@[last as int]), orig.items@[m - 1].time));
                assert forall|j: int| 0 <= j < n.children@.len() && j != last implies wf(
                    #[trigger] n.children@[j],
                    false,
                ) by {
                    assert(n.children@[j] == orig.children@[j]);
                }
                assert forall|j: int| 0 <= j < n.children@.len() implies height(
                    #[trigger] n.children@[j],
                ) == height(n.children@[0]) by {
                    if j != last {
                        assert(n.children@[j] == orig.children@[j]);
                    }
                    assert(n.children@[0] == orig.children@[0]);
                    assert(height(orig.children@[j]) == height(orig.children@[0]));
                }
                assert forall|j: int| 0 <= j < n.children@.len() - 1 implies all_lt(
                    entries(#[trigger] n.children@[j]),
                    n.items@[j].time,
                ) by {
                    assert(n.children@[j] == orig.children@[j]);
                }
                assert forall|j: int| 0 <= j < n.children@.len() implies aggs_core(
                    #[trigger] n.children@[j],
                    false,
                ) by {
                    if j != last {
                        assert(n.children@[j] == orig.children@[j]);
                    }
                }
                assert(kids_ok(*n, false));
            }
            if n.children[last].items.len() < MIN_ARITY - 1 {
                let ghost mid_state = *n;
                Self::fix_underfull(n, last, false);
                proof {
                    assert(entries(*n) == entries(mid_state));
                    assert(wf_local(*n));
                }
            } else {
                proof {
                    assert(wf(n.children@[last as int], false));
                    assert(wf_local(*n));
                }
            }
            if !(n.spine.left || n.spine.right) {
                proof {
                    assert forall|j: int| 0 <= j < n.children@.len() implies (
                    #[trigger] n.children@[j]).agg == subtree_fold(n.children@[j]) by {
                        assert(aggs_core(n.children@[j], false));
                        assert(!n.children@[j].spine.left);
                        assert(!n.children@[j].spine.right);
                    }
                }
                let ghost pre2 = *n;
                let a = n.up_agg_of();
                n.agg = a;
                proof {
                    lemma_shape_entries(*n, pre2);
                    assert(wf_local(*n));
                    assert(kids_ok(*n, false));
                    assert(height(*n) == height(pre2));
                }
            }
            it
        }
    }
}


/// Eviction at a present time removes exactly that entry.
proof fn lemma_remove_entry_at<V: Monoid>(p: Seq<(Time, V)>, u: V, q: Seq<(Time, V)>, t: Time)
    requires
        all_lt(p, t),
        all_gt(q, t),
    ensures
        remove_entry(p + seq![(t, u)] + q, t) == p + q,
{
    let s = p + seq![(t, u)] + q;
    assert(p + seq![(t, u)] + q =~= p + (seq![(t, u)] + q));
    lemma_count_lt_concat_lo(p, seq![(t, u)] + q, t);
    lemma_count_lt_concat_hi(seq![(t, u)], q, t);
    lemma_count_lt_all_ge(seq![(t, u)], t);
    assert(count_lt(s, t) == p.len());
    assert(s[p.len() as int] == (t, u));
    assert(s.remove(p.len() as int) =~= p + q);
}

/// Eviction never enlarges a sequence nor escapes bounds that covered it.
proof fn lemma_remove_entry_bounds<V: Monoid>(s: Seq<(Time, V)>, t: Time)
    ensures
        s.len() - 1 <= remove_entry(s, t).len() <= s.len(),
        forall|x: Time| all_gt(s, x) ==> all_gt(#[trigger] remove_entry(s, t), x),
        forall|x: Time| all_lt(s, x) ==> all_lt(#[trigger] remove_entry(s, t), x),
{
    lemma_count_lt_hi_bound(s, t);
    let i = count_lt(s, t);
    let r = remove_entry(s, t);
    if i < s.len() && s[i].0 == t {
        assert forall|x: Time| all_gt(s, x) implies all_gt(r, x) by {
            assert forall|j: int| 0 <= j < r.len() implies r[j].0 > x by {
                if j < i {
                    assert(r[j] == s[j]);
                } else {
                    assert(r[j] == s[j + 1]);
                }
            }
        }
        assert forall|x: Time| all_lt(s, x) implies all_lt(r, x) by {
            assert forall|j: int| 0 <= j < r.len() implies r[j].0 < x by {
                if j < i {
                    assert(r[j] == s[j]);
                } else {
                    assert(r[j] == s[j + 1]);
                }
            }
        }
    }
}


/// Evicting an item of an internal node by overwriting it with the oldest
/// entry of the subtree to its right, which has itself been removed there.
#[verifier::rlimit(100)]
proof fn lemma_evict_subst_right<V: Monoid>(
    orig: Node<V>,
    nn: Node<V>,
    ii: int,
    t: Time,
    sub: (Time, V),
    is_root: bool,
)
    requires
        wf_local(orig),
        orig.children@.len() == orig.items@.len() + 1,
        1 <= orig.items@.len() <= MAX_ARITY - 1,
        0 <= ii < orig.items@.len(),
        orig.items@[ii].time == t,
        kids_ok(orig, is_root),
        is_root ==> !orig.spine.left && !orig.spine.right,
        nn.spine == orig.spine,
        nn.items@ == orig.items@.update(ii, nn.items@[ii]),
        (nn.items@[ii].time, nn.items@[ii].value) == sub,
        nn.children@ == orig.children@.update(ii + 1, nn.children@[ii + 1]),
        entries(nn.children@[ii + 1]) == entries(orig.children@[ii + 1]).drop_first(),
        entries(orig.children@[ii + 1]).len() >= 1,
        sub == entries(orig.children@[ii + 1])[0],
        wf(nn.children@[ii + 1], false),
        height(nn.children@[ii + 1]) == height(orig.children@[ii + 1]),
        nn.children@[ii + 1].spine == orig.children@[ii + 1].spine,
        aggs_core(nn.children@[ii + 1], false),
    ensures
        entries(nn) == remove_entry(entries(orig), t),
        wf_local(nn),
        height(nn) == height(orig),
        kids_ok(nn, is_root),
        nn.items@.len() == orig.items@.len(),
{
    let m = orig.items@.len() as int;
    let u = orig.items@[ii].value;
    let c = entries(orig.children@[ii + 1]);
    let c2 = entries(nn.children@[ii + 1]);
    lemma_pre_suf(orig, ii);
    assert(entries_suf(orig, ii) == seq![(t, u)] + c + entries_suf(orig, ii + 1));
    let p = entries_pre(orig, ii);
    let q = c + entries_suf(orig, ii + 1);
    lemma_pre_all_lt(orig, ii);
    assert(all_gt(c, t));
    if ii + 1 < m {
        lemma_suf_all_gt(orig, ii + 1, t);
    } else {
        assert(entries_suf(orig, ii + 1) =~= Seq::<(Time, V)>::empty());
    }
    lemma_all_gt_concat(c, entries_suf(orig, ii + 1), t);
    lemma_remove_entry_at(p, u, q, t);
    assert(entries(orig) =~= p + seq![(t, u)] + q);
    assert(remove_entry(entries(orig), t) == p + q);
    // the updated node
    lemma_pre_suf(nn, ii);
    lemma_pre_frame(nn, orig, ii);
    assert(entries_pre(nn, ii) == p);
    assert(entries_suf(nn, ii) == seq![sub] + c2 + entries_suf(nn, ii + 1));
    assert(nn.items@.skip(ii + 1) =~= orig.items@.skip(ii + 1));
    assert(nn.children@.skip(ii + 2) =~= orig.children@.skip(ii + 2));
    lemma_suf_align(nn, orig, ii + 1, ii + 1, 0);
    assert(entries_suf(nn, ii + 1) == entries_suf(orig, ii + 1));
    assert(seq![sub] + c2 =~= c);
    assert(entries(nn) =~= p + q);
    // shape
    lemma_wf_sorted(orig.children@[ii + 1]);
    assert(sub.0 > t);
    assert forall|a: int, b: int| 0 <= a < b < nn.items@.len() implies nn.items@[a].time
        < nn.items@[b].time by {
        if a != ii && b != ii {
        } else if a == ii {
            assert(nn.items@[b] == orig.items@[b]);
            assert(all_lt(c, orig.items@[ii + 1].time));
            assert(c[0] == sub);
        } else {
            assert(nn.items@[a] == orig.items@[a]);
        }
    }
    assert forall|j: int| 0 <= j < nn.children@.len() implies wf(
        #[trigger] nn.children@[j],
        false,
    ) by {
        if j != ii + 1 {
            assert(nn.children@[j] == orig.children@[j]);
        }
    }
    assert forall|j: int| 0 <= j < nn.children@.len() implies height(#[trigger] nn.children@[j])
        == height(nn.children@[0]) by {
        if j != ii + 1 {
            assert(nn.children@[j] == orig.children@[j]);
        }
        assert(nn.children@[0] == orig.children@[0]);
        assert(height(orig.children@[j]) == height(orig.children@[0]));
    }
    assert forall|j: int| 1 <= j < nn.children@.len() implies all_gt(
        entries(#[trigger] nn.children@[j]),
        nn.items@[j - 1].time,
    ) by {
        if j != ii + 1 {
            assert(nn.children@[j] == orig.children@[j]);
            assert(nn.items@[j - 1] == orig.items@[j - 1]);
        } else {
            assert(nn.items@[j - 1].time == sub.0);
            assert forall|k: int| 0 <= k < c2.len() implies c2[k].0 > sub.0 by {
                assert(c2[k] == c[k + 1]);
            }
        }
    }
    assert forall|j: int| 0 <= j < nn.children@.len() - 1 implies all_lt(
        entries(#[trigger] nn.children@[j]),
        nn.items@[j].time,
    ) by {
        if j != ii && j != ii + 1 {
            assert(nn.children@[j] == orig.children@[j]);
            assert(nn.items@[j] == orig.items@[j]);
        } else if j == ii {
            assert(nn.children@[j] == orig.children@[j]);
            assert(nn.items@[j].time == sub.0);
            assert(all_lt(entries(orig.children@[ii]), t));
        } else {
            assert(nn.items@[j] == orig.items@[j]);
            assert(all_lt(c, orig.items@[ii + 1].time));
            assert forall|k: int| 0 <= k < c2.len() implies c2[k].0 < orig.items@[ii + 1].time by {
                assert(c2[k] == c[k + 1]);
            }
        }
    }
    assert(wf_local(nn));
    assert(height(nn) == height(orig));
    assert forall|j: int| 0 <= j < nn.children@.len() implies aggs_core(
        #[trigger] nn.children@[j],
        false,
    ) by {
        if j != ii + 1 {
            assert(nn.children@[j] == orig.children@[j]);
        }
    }
    assert forall|j: int| 0 <= j < nn.children@.len() implies ((
    #[trigger] nn.children@[j]).spine.left <==> (j == 0 && (is_root || nn.spine.left))) by {
        if j != ii + 1 {
            assert(nn.children@[j] == orig.children@[j]);
        }
    }
    assert forall|j: int| 0 <= j < nn.children@.len() implies ((
    #[trigger] nn.children@[j]).spine.right <==> (j == nn.children@.len() - 1 && (is_root
        || nn.spine.right))) by {
        if j != ii + 1 {
            assert(nn.children@[j] == orig.children@[j]);
        }
    }
    assert(kids_ok(nn, is_root));
}

/// Mirror image: the substitute is the youngest entry of the subtree to the
/// evicted item's left.
#[verifier::rlimit(100)]
proof fn lemma_evict_subst_left<V: Monoid>(
    orig: Node<V>,
    nn: Node<V>,
    ii: int,
    t: Time,
    sub: (Time, V),
    is_root: bool,
)
    requires
        wf_local(orig),
        orig.children@.len() == orig.items@.len() + 1,
        1 <= orig.items@.len() <= MAX_ARITY - 1,
        0 <= ii < orig.items@.len(),
        orig.items@[ii].time == t,
        kids_ok(orig, is_root),
        is_root ==> !orig.spine.left && !orig.spine.right,
        nn.spine == orig.spine,
        nn.items@ == orig.items@.update(ii, nn.items@[ii]),
        (nn.items@[ii].time, nn.items@[ii].value) == sub,
        nn.children@ == orig.children@.update(ii, nn.children@[ii]),
        entries(nn.children@[ii]) == entries(orig.children@[ii]).drop_last(),
        entries(orig.children@[ii]).len() >= 1,
        sub == entries(orig.children@[ii]).last(),
        wf_local(nn.children@[ii]),
        nn.children@[ii].items@.len() >= MIN_ARITY - 2,
        nn.children@[ii].items@.len() <= MAX_ARITY - 1,
        height(nn.children@[ii]) == height(orig.children@[ii]),
        nn.children@[ii].spine == orig.children@[ii].spine,
        aggs_core(nn.children@[ii], false),
        (nn.children@[ii].children@.len() == 0) == (orig.children@[ii].children@.len() == 0),
    ensures
        entries(nn) == remove_entry(entries(orig), t),
        height(nn) == height(orig),
        kids_ok(nn, is_root),
        nn.items@.len() == orig.items@.len(),
        nn.children@.len() == nn.items@.len() + 1,
        forall|a: int, b: int|
            0 <= a < b < nn.items@.len() ==> nn.items@[a].time < nn.items@[b].time,
        forall|j: int|
            0 <= j < nn.children@.len() && j != ii ==> wf(#[trigger] nn.children@[j], false),
        wf_local(nn.children@[ii]),
        forall|j: int|
            0 <= j < nn.children@.len() ==> height(#[trigger] nn.children@[j]) == height(
                nn.children@[0],
            ),
        forall|j: int|
            1 <= j < nn.children@.len() ==> all_gt(
                entries(#[trigger] nn.children@[j]),
                nn.items@[j - 1].time,
            ),
        forall|j: int|
            0 <= j < nn.children@.len() - 1 ==> all_lt(
                entries(#[trigger] nn.children@[j]),
                nn.items@[j].time,
            ),
        nn.children@[ii].items@.len() >= MIN_ARITY - 1 ==> wf_local(nn),
{
    let m = orig.items@.len() as int;
    let u = orig.items@[ii].value;
    let c = entries(orig.children@[ii]);
    let c2 = entries(nn.children@[ii]);
    lemma_entries_at(orig, ii);
    assert(entries_suf(orig, ii) == seq![(t, u)] + entries(orig.children@[ii + 1])
        + entries_suf(orig, ii + 1));
    let bef = entries_before(orig, ii);
    let q = entries(orig.children@[ii + 1]) + entries_suf(orig, ii + 1);
    lemma_before_all_lt(orig, ii, t);
    assert(all_lt(c, t));
    lemma_all_lt_concat(bef, c, t);
    assert(all_gt(entries(orig.children@[ii + 1]), t));
    if ii + 1 < m {
        lemma_suf_all_gt(orig, ii + 1, t);
    } else {
        assert(entries_suf(orig, ii + 1) =~= Seq::<(Time, V)>::empty());
    }
    lemma_all_gt_concat(entries(orig.children@[ii + 1]), entries_suf(orig, ii + 1), t);
    lemma_remove_entry_at(bef + c, u, q, t);
    assert(entries(orig) =~= (bef + c) + seq![(t, u)] + q);
    assert(remove_entry(entries(orig), t) == (bef + c) + q);
    // the updated node
    lemma_entries_at(nn, ii);
    if ii > 0 {
        lemma_pre_frame(nn, orig, ii - 1);
    }
    assert(entries_before(nn, ii) == bef);
    assert(entries_suf(nn, ii) == seq![sub] + entries(nn.children@[ii + 1]) + entries_suf(
        nn,
        ii + 1,
    ));
    assert(nn.children@[ii + 1] == orig.children@[ii + 1]);
    assert(nn.items@.skip(ii + 1) =~= orig.items@.skip(ii + 1));
    assert(nn.children@.skip(ii + 2) =~= orig.children@.skip(ii + 2));
    lemma_suf_align(nn, orig, ii + 1, ii + 1, 0);
    assert(entries_suf(nn, ii + 1) == entries_suf(orig, ii + 1));
    assert(c2 + seq![sub] =~= c);
    assert(entries(nn) =~= (bef + c) + q);
    // shape
    lemma_wf_sorted(orig.children@[ii]);
    assert(c[c.len() - 1] == sub);
    assert(sub.0 < t);
    assert forall|a: int, b: int| 0 <= a < b < nn.items@.len() implies nn.items@[a].time
        < nn.items@[b].time by {
        if a != ii && b != ii {
        } else if a == ii {
            assert(nn.items@[b] == orig.items@[b]);
        } else {
            assert(nn.items@[a] == orig.items@[a]);
            assert(all_gt(c, orig.items@[ii - 1].time));
        }
    }
    assert forall|j: int| 0 <= j < nn.children@.len() && j != ii implies wf(
        #[trigger] nn.children@[j],
        false,
    ) by {
        assert(nn.children@[j] == orig.children@[j]);
    }
    assert forall|j: int| 0 <= j < nn.children@.len() implies height(#[trigger] nn.children@[j])
        == height(nn.children@[0]) by {
        if j != ii {
            assert(nn.children@[j] == orig.children@[j]);
        }
        if ii != 0 {
            assert(nn.children@[0] == orig.children@[0]);
        }
        assert(height(orig.children@[j]) == height(orig.children@[0]));
    }
    assert forall|j: int| 1 <= j < nn.children@.len() implies all_gt(
        entries(#[trigger] nn.children@[j]),
        nn.items@[j - 1].time,
    ) by {
        if j != ii && j != ii + 1 {
            assert(nn.children@[j] == orig.children@[j]);
            assert(nn.items@[j - 1] == orig.items@[j - 1]);
        } else if j == ii {
            assert(nn.items@[j - 1] == orig.items@[j - 1]);
            assert(all_gt(c, orig.items@[ii - 1].time));
            assert forall|k: int| 0 <= k < c2.len() implies c2[k].0 > orig.items@[ii - 1].time by {
                assert(c2[k] == c[k]);
            }
        } else {
            assert(nn.children@[j] == orig.children@[j]);
            assert(nn.items@[j - 1].time == sub.0);
            assert(all_gt(entries(orig.children@[ii + 1]), t));
            assert forall|k: int| 0 <= k < entries(orig.children@[ii + 1]).len() implies (
            #[trigger] entries(orig.children@[ii + 1])[k]).0 > sub.0 by {
                assert(entries(orig.children@[ii + 1])[k].0 > t);
            }
        }
    }
    assert forall|j: int| 0 <= j < nn.children@.len() - 1 implies all_lt(
        entries(#[trigger] nn.children@[j]),
        nn.items@[j].time,
    ) by {
        if j != ii {
            assert(nn.children@[j] == orig.children@[j]);
            assert(nn.items@[j] == orig.items@[j]);
        } else {
            assert(nn.items@[j].time == sub.0);
            assert forall|k: int| 0 <= k < c2.len() implies c2[k].0 < sub.0 by {
                assert(c2[k] == c[k]);
                assert(c[k].0 < c[c.len() - 1].0);
            }
        }
    }
    assert(height(nn) == height(orig));
    assert forall|j: int| 0 <= j < nn.children@.len() implies aggs_core(
        #[trigger] nn.children@[j],
        false,
    ) by {
        if j != ii {
            assert(nn.children@[j] == orig.children@[j]);
        }
    }
    assert forall|j: int| 0 <= j < nn.children@.len() implies ((
    #[trigger] nn.children@[j]).spine.left <==> (j == 0 && (is_root || nn.spine.left))) by {
        if j != ii {
            assert(nn.children@[j] == orig.children@[j]);
        }
    }
    assert forall|j: int| 0 <= j < nn.children@.len() implies ((
    #[trigger] nn.children@[j]).spine.right <==> (j == nn.children@.len() - 1 && (is_root
        || nn.spine.right))) by {
        if j != ii {
            assert(nn.children@[j] == orig.children@[j]);
        }
    }
    assert(kids_ok(nn, is_root));
}


/// After the child holding the eviction interval has been updated, the
/// node's entries are the removal from the old entries, and the shape facts
/// around the child still hold.
#[verifier::rlimit(100)]
proof fn lemma_child_removed<V: Monoid>(
    orig: Node<V>,
    nn: Node<V>,
    ii: int,
    t: Time,
    ea: Seq<(Time, V)>,
    ec: Seq<(Time, V)>,
    eb: Seq<(Time, V)>,
    is_root: bool,
)
    requires
        wf_local(orig),
        orig.children@.len() == orig.items@.len() + 1,
        orig.items@.len() >= 1,
        0 <= ii < orig.children@.len(),
        ii > 0 ==> orig.items@[ii - 1].time < t,
        ii < orig.items@.len() ==> orig.items@[ii].time > t,
        ea == entries_before(orig, ii),
        ec == entries(orig.children@[ii]),
        eb == entries_suf(orig, ii),
        kids_ok(orig, is_root),
        is_root ==> !orig.spine.left && !orig.spine.right,
        nn.items@ == orig.items@,
        nn.spine == orig.spine,
        nn.children@ == orig.children@.update(ii, nn.children@[ii]),
        nn.children@.len() == orig.children@.len(),
        entries(nn.children@[ii]) == remove_entry(ec, t),
        height(nn.children@[ii]) == height(orig.children@[ii]),
        nn.children@[ii].spine == orig.children@[ii].spine,
        aggs_core(nn.children@[ii], false),
    ensures
        entries(nn) == remove_entry(entries(orig), t),
        forall|j: int|
            1 <= j < nn.children@.len() ==> all_gt(
                entries(#[trigger] nn.children@[j]),
                nn.items@[j - 1].time,
            ),
        forall|j: int|
            0 <= j < nn.children@.len() - 1 ==> all_lt(
                entries(#[trigger] nn.children@[j]),
                nn.items@[j].time,
            ),
        forall|j: int|
            0 <= j < nn.children@.len() && j != ii ==> wf(#[trigger] nn.children@[j], false),
        forall|j: int|
            0 <= j < nn.children@.len() ==> height(#[trigger] nn.children@[j]) == height(
                nn.children@[0],
            ),
        kids_ok(nn, is_root),
        height(nn) == height(orig),
{
    lemma_entries_at(orig, ii);
    lemma_before_all_lt(orig, ii, t);
    lemma_after_all_gt(orig, ii, t);
    lemma_remove_entry_mid(ea, ec, eb, t);
    assert(nn.items@ == orig.items@);
    assert(nn.children@ =~= orig.children@.update(ii, nn.children@[ii]));
    lemma_entries_at(nn, ii);
    if ii > 0 {
        lemma_pre_frame(nn, orig, ii - 1);
    }
    assert(entries_before(nn, ii) == ea);
    assert(nn.items@.skip(ii) =~= orig.items@.skip(ii));
    assert(nn.children@.skip(ii + 1) =~= orig.children@.skip(ii + 1));
    lemma_suf_align(nn, orig, ii, ii, 0);
    assert(entries_suf(nn, ii) == eb);
    assert(entries(nn.children@[ii]) == remove_entry(ec, t));
    assert(entries(nn) =~= ea + remove_entry(ec, t) + eb);
    assert(entries(nn) == remove_entry(entries(orig), t));
    lemma_remove_entry_bounds(ec, t);
    assert forall|j: int| 1 <= j < nn.children@.len() implies all_gt(
        entries(#[trigger] nn.children@[j]),
        nn.items@[j - 1].time,
    ) by {
        if j != ii {
            assert(nn.children@[j] == orig.children@[j]);
        } else {
            assert(all_gt(ec, orig.items@[j - 1].time));
        }
    }
    assert forall|j: int| 0 <= j < nn.children@.len() - 1 implies all_lt(
        entries(#[trigger] nn.children@[j]),
        nn.items@[j].time,
    ) by {
        if j != ii {
            assert(nn.children@[j] == orig.children@[j]);
        } else {
            assert(all_lt(ec, orig.items@[j].time));
        }
    }
    assert forall|j: int| 0 <= j < nn.children@.len() && j != ii implies wf(
        #[trigger] nn.children@[j],
        false,
    ) by {
        assert(nn.children@[j] == orig.children@[j]);
    }
    assert forall|j: int| 0 <= j < nn.children@.len() implies height(
        #[trigger] nn.children@[j],
    ) == height(nn.children@[0]) by {
        if j != ii {
            assert(nn.children@[j] == orig.children@[j]);
        }
        if ii != 0 {
            assert(nn.children@[0] == orig.children@[0]);
        }
        assert(height(orig.children@[j]) == height(orig.children@[0]));
    }
    assert forall|j: int| 0 <= j < nn.children@.len() implies aggs_core(
        #[trigger] nn.children@[j],
        false,
    ) by {
        if j != ii {
            assert(nn.children@[j] == orig.children@[j]);
        }
    }
    assert(kids_ok(nn, is_root));
    assert(height(nn) == height(orig)) by {
        if ii != 0 {
            assert(nn.children@[0] == orig.children@[0]);
        }
    }
}

impl<V: Monoid> Node<V> {
    /// Evict time `t` from the subtree: remove the matching entry if there
    /// is one, substituting a neighbouring leaf entry when the match sits in
    /// an internal node, and repair underflow on the way back up. The node
    /// itself may end one item short.
    #[verifier::rlimit(100)]
    fn evict_rec(n: &mut Node<V>, t: Time, is_root: bool)
        requires
            wf_local(*old(n)),
            old(n).items@.len() <= MAX_ARITY - 1,
            !is_root ==> old(n).items@.len() >= MIN_ARITY - 1,
            aggs_core(*old(n), is_root),
            is_root ==> !old(n).spine.left && !old(n).spine.right,
        ensures
            entries(*final(n)) == remove_entry(entries(*old(n)), t),
            height(*final(n)) == height(*old(n)),
            final(n).spine == old(n).spine,
            old(n).items@.len() - 1 <= final(n).items@.len() <= old(n).items@.len(),
            final(n).items@.len() <= MAX_ARITY - 1,
            (final(n).children@.len() == 0) == (old(n).children@.len() == 0),
            final(n).children@.len() > 0 ==> final(n).children@.len() == final(n).items@.len()
                + 1,
            final(n).items@.len() >= 1 ==> wf_local(*final(n)),
            final(n).items@.len() == 0 && final(n).children@.len() > 0 ==> final(n).children@.len()
                == 1 && wf(final(n).children@[0], false),
            aggs_core(*final(n), is_root),
        decreases *old(n),
    {
        let ghost orig = *old(n);
        let m = n.items.len();
        match Self::item_idx(&n.items, t) {
            Ok(i) => {
                if n.children.len() == 0 {
                    n.items.remove(i);
                    proof {
                        let ps = pairs(orig.items@);
                        assert(ps[i as int] == (t, orig.items@[i as int].value));
                        assert(pairs(n.items@) =~= ps.remove(i as int));
                        assert(remove_entry(ps, t) == ps.remove(i as int));
                        assert(wf_local(*n));
                    }
                } else {
                    let ghost ii = i as int;
                    proof {
                        lemma_pre_suf(orig, ii);
                        assert(entries_suf(orig, ii) == seq![(t, orig.items@[ii].value)]
                            + entries(orig.children@[ii + 1]) + entries_suf(orig, ii + 1));
                        lemma_pre_all_lt(orig, ii);
                        assert(wf(orig.children@[ii], false));
                        assert(wf(orig.children@[ii + 1], false));
                        assert(aggs_core(orig.children@[ii], false));
                        assert(aggs_core(orig.children@[ii + 1], false));
                        if ii + 1 < m {
                            lemma_suf_all_gt(orig, ii + 1, t);
                        } else {
                            assert(entries_suf(orig, ii + 1) =~= Seq::<(Time, V)>::empty());
                        }
                        lemma_wf_sorted(orig.children@[ii]);
                        lemma_wf_sorted(orig.children@[ii + 1]);
                    }
                    if n.children[i + 1].items.len() >= MIN_ARITY {
                        let it = Self::evict_min(&mut n.children[i + 1]);
                        let ghost sub = (it.time, it.value);
                        n.items[i] = it;
                        proof {
                            lemma_evict_subst_right(orig, *n, ii, t, sub, is_root);
                        }
                    } else {
                        let it = Self::evict_max(&mut n.children[i]);
                        let ghost sub = (it.time, it.value);
                        n.items[i] = it;
                        proof {
                            lemma_evict_subst_left(orig, *n, ii, t, sub, is_root);
                        }
                        if n.children[i].items.len() < MIN_ARITY - 1 {
                            let ghost mid_state = *n;
                            Self::fix_underfull(n, i, is_root);
                            proof {
                                assert(entries(*n) == entries(mid_state));
                            }
                        } else {
                            proof {
                                assert(wf(n.children@[ii], false));
                                assert(wf_local(*n));
                            }
                        }
                    }
                }
            },
            Err(i) => {
                if n.children.len() == 0 {
                    proof {
                        let ps = pairs(orig.items@);
                        assert(i as int == count_lt(ps, t));
                        if (i as int) < ps.len() {
                            assert(ps[i as int].0 != t);
                        }
                        assert(remove_entry(ps, t) == ps);
                        assert(wf_local(*n));
                    }
                } else {
                    let ghost ii = i as int;
                    proof {
                        assert(wf(orig.children@[ii], false));
                        assert(aggs_core(orig.children@[ii], false));
                        lemma_entries_at(orig, ii);
                    }
                    let ghost ea = entries_before(orig, ii);
                    let ghost ec = entries(orig.children@[ii]);
                    let ghost eb = entries_suf(orig, ii);
                    Self::evict_rec(&mut n.children[i], t, false);
                    proof {
                        assert(n.children@ =~= orig.children@.update(ii, n.children@[ii]));
                        lemma_child_removed(orig, *n, ii, t, ea, ec, eb, is_root);
                    }
                    if n.children[i].items.len() < MIN_ARITY - 1 {
                        let ghost mid_state = *n;
                        proof {
                            assert(n.children@[ii].items@.len() == MIN_ARITY - 2);
                            assert(wf_local(n.children@[ii]));
                        }
                        Self::fix_underfull(n, i, is_root);
                        proof {
                            assert(entries(*n) == entries(mid_state));
                        }
                    } else {
                        proof {
                            assert(wf(n.children@[ii], false));
                            assert(wf_local(*n));
                        }
                    }
                }
            },
        }
        // refresh the cached aggregate where this node holds the up role
        if !is_root && !n.spine.left && !n.spine.right {
            proof {
                assert forall|j: int| 0 <= j < n.children@.len() implies (
                #[trigger] n.children@[j]).agg == subtree_fold(n.children@[j]) by {
                    assert(aggs_core(n.children@[j], false));
                    assert(!n.children@[j].spine.left);
                    assert(!n.children@[j].spine.right);
                }
            }
            let ghost pre2 = *n;
            let a = n.up_agg_of();
            n.agg = a;
            proof {
                lemma_shape_entries(*n, pre2);
                assert(height(*n) == height(pre2));
            }
        }
    }
}

impl<V: Monoid> Tree<V> {
    /// An empty window: a single empty leaf.
    pub fn new() -> (t: Tree<V>)
        ensures
            t@ == Seq::<(Time, V)>::empty(),
    {
        Tree { root: Node::new(), left_agg: V::identity(), right_agg: V::identity() }
    }

    /// The aggregate of every value in the window, in time order; the
    /// identity when the window is empty. Combines the two finger leaves'
    /// cached aggregates with the root's inner aggregate.
    pub fn query(&self) -> (r: V)
        ensures
            r == fold(vals_of(self@)),
            sorted(self@),
    {
        proof {
            use_type_invariant(&*self);
            lemma_wf_sorted(self.root);
        }
        if self.root.children.len() == 0 {
            self.root.agg
        } else {
            let mut agg = V::identity();
            agg = agg.combine(&self.left_agg);
            agg = agg.combine(&self.root.agg);
            agg = agg.combine(&self.right_agg);
            proof {
                let last = self.root.children@.len() - 1;
                let c0 = self.root.children@[0];
                let cl = self.root.children@[last];
                lemma_wf_weaken(c0);
                lemma_wf_weaken(cl);
                lemma_chain_left(c0, V::id());
                lemma_chain_right(cl, V::id());
                V::op_id(fold(vals_of(entries(c0))));
                V::op_id(fold(vals_of(entries(cl))));
                lemma_entries_decomp(self.root);
                lemma_fold_vals_app::<V>(entries(c0), mid(self.root));
                lemma_fold_vals_app::<V>(entries(c0) + mid(self.root), entries(cl));
                assert(entries(c0) + mid(self.root) + entries(cl) == self@);
            }
            agg
        }
    }
}

impl<V: Monoid> Node<V> {
    /// Aggregate the values with time in `[lo, hi]`, recursing only into
    /// children whose interval straddles a range boundary; a child fully
    /// inside the range and holding the up role answers from its cache. The
    /// extreme times stand in for a range end already known to cover this
    /// whole side.
    #[verifier::rlimit(100)]
    fn query_rec(n: &Node<V>, lo: Time, hi: Time, is_root: bool) -> (r: V)
        requires
            wf(*n, true),
            aggs_core(*n, is_root),
        ensures
            r == fold(vals_of(range_filter(entries(*n), lo, hi))),
        decreases *n,
    {
        if lo == Time::MIN && hi == Time::MAX && !is_root && !n.spine.left && !n.spine.right {
            proof {
                assert(n.agg == subtree_fold(*n));
                lemma_rf_all_in(entries(*n), lo, hi);
            }
            return n.agg;
        }
        let m = n.items.len();
        let mut res = V::identity();
        if n.children.len() == 0 {
            let ghost ps = pairs(n.items@);
            proof {
                assert(entries(*n) == ps);
                assert(range_filter(ps.take(0), lo, hi) =~= Seq::<(Time, V)>::empty());
                assert(vals_of(range_filter(ps.take(0), lo, hi)) =~= Seq::<V>::empty());
            }
            let mut i: usize = 0;
            while i < m
                invariant
                    m == n.items@.len(),
                    n.children@.len() == 0,
                    ps == pairs(n.items@),
                    i <= m,
                    res == fold(vals_of(range_filter(ps.take(i as int), lo, hi))),
                decreases m - i,
            {
                let time = n.items[i].time;
                let ghost pre = range_filter(ps.take(i as int), lo, hi);
                if lo <= time && time <= hi {
                    res = res.combine(&n.items[i].value);
                }
                proof {
                    assert(ps.take(i + 1) =~= ps.take(i as int).push(ps[i as int]));
                    assert(ps[i as int] == (n.items@[i as int].time, n.items@[i as int].value));
                    lemma_rf_push(ps.take(i as int), ps[i as int], lo, hi);
                    if lo <= time && time <= hi {
                        assert(range_filter(ps.take(i + 1), lo, hi) == pre.push(ps[i as int]));
                        assert(vals_of(pre.push(ps[i as int])) =~= vals_of(pre).push(
                            n.items@[i as int].value,
                        ));
                        lemma_fold_push::<V>(vals_of(pre), n.items@[i as int].value);
                    } else {
                        assert(range_filter(ps.take(i + 1), lo, hi) == pre);
                    }
                }
                i = i + 1;
            }
            proof {
                assert(ps.take(m as int) =~= ps);
            }
            res
        } else {
            proof {
                assert(kids_ok(*n, is_root));
            }
            let t_next = n.items[0].time;
            if lo < t_next {
                let t_b = if t_next <= hi {
                    Time::MAX
                } else {
                    hi
                };
                proof {
                    lemma_wf_weaken(n.children@[0]);
                    assert(aggs_core(n.children@[0], false));
                }
                let c = Self::query_rec(&n.children[0], lo, t_b, false);
                proof {
                    let e0 = entries(n.children@[0]);
                    assert(all_lt(e0, t_next));
                    if t_next <= hi {
                        lemma_rf_widen_hi(e0, lo, hi);
                        assert(range_filter(e0, lo, t_b) == range_filter(e0, lo, hi));
                    }
                    V::op_id(c);
                }
                res = res.combine(&c);
            } else {
                proof {
                    let e0 = entries(n.children@[0]);
                    assert(all_lt(e0, t_next));
                    lemma_rf_all_below(e0, lo, hi);
                    V::op_id(res);
                }
            }
            proof {
                assert(entries_pre(*n, 0) == entries(n.children@[0]));
                assert(res == fold(vals_of(range_filter(entries_pre(*n, 0), lo, hi))));
            }
            let mut i: usize = 0;
            while i < m
                invariant
                    wf(*n, true),
                    aggs_core(*n, is_root),
                    kids_ok(*n, is_root),
                    m == n.items@.len(),
                    n.children@.len() == m + 1,
                    m >= 1,
                    i <= m,
                    i < m ==> res == fold(
                        vals_of(range_filter(entries_pre(*n, i as int), lo, hi)),
                    ),
                    i == m ==> res == fold(
                        vals_of(range_filter(entries_before(*n, m as int), lo, hi)),
                    ),
                decreases m - i,
            {
                let time = n.items[i].time;
                let ghost pre = range_filter(entries_pre(*n, i as int), lo, hi);
                let ghost it = (n.items@[i as int].time, n.items@[i as int].value);
                if lo <= time && time <= hi {
                    res = res.combine(&n.items[i].value);
                }
                proof {
                    lemma_rf_concat(entries_pre(*n, i as int), seq![it], lo, hi);
                    lemma_rf_push(Seq::<(Time, V)>::empty(), it, lo, hi);
                    assert(Seq::<(Time, V)>::empty().push(it) =~= seq![it]);
                    assert(range_filter(Seq::<(Time, V)>::empty(), lo, hi) =~= Seq::<(
                        Time,
                        V,
                    )>::empty());
                    if lo <= time && time <= hi {
                        assert(range_filter(seq![it], lo, hi) =~= seq![it]);
                        assert(vals_of(pre + seq![it]) =~= vals_of(pre).push(it.1));
                        lemma_fold_push::<V>(vals_of(pre), it.1);
                    } else {
                        assert(range_filter(seq![it], lo, hi) =~= Seq::<(Time, V)>::empty());
                        assert(pre + range_filter(seq![it], lo, hi) =~= pre);
                    }
                    assert(res == fold(
                        vals_of(range_filter(entries_pre(*n, i as int) + seq![it], lo, hi)),
                    ));
                }
                if i + 1 < m {
                    let t_ii = n.items[i + 1].time;
                    let ghost ec = entries(n.children@[i + 1]);
                    proof {
                        assert(all_gt(ec, time));
                        assert(all_lt(ec, t_ii));
                    }
                    if time < hi && lo < t_ii {
                        let t_a = if lo <= time {
                            Time::MIN
                        } else {
                            lo
                        };
                        let t_b = if t_ii <= hi {
                            Time::MAX
                        } else {
                            hi
                        };
                        proof {
                            lemma_wf_weaken(n.children@[i + 1]);
                            assert(aggs_core(n.children@[i + 1], false));
                        }
                        let c = Self::query_rec(&n.children[i + 1], t_a, t_b, false);
                        proof {
                            if lo <= time {
                                lemma_rf_widen_lo(ec, lo, t_b);
                                assert(range_filter(ec, t_a, t_b) == range_filter(ec, lo, t_b));
                            }
                            if t_ii <= hi {
                                lemma_rf_widen_hi(ec, lo, hi);
                                assert(range_filter(ec, lo, t_b) == range_filter(ec, lo, hi));
                            }
                            assert(c == fold(vals_of(range_filter(ec, lo, hi))));
                        }
                        res = res.combine(&c);
                    } else {
                        proof {
                            if time >= hi {
                                lemma_rf_all_above(ec, lo, hi);
                            } else {
                                lemma_rf_all_below(ec, lo, hi);
                            }
                            V::op_id(res);
                        }
                    }
                    proof {
                        let base = entries_pre(*n, i as int) + seq![it];
                        lemma_rf_concat(base, ec, lo, hi);
                        lemma_fold_vals_app::<V>(
                            range_filter(base, lo, hi),
                            range_filter(ec, lo, hi),
                        );
                        if !(time < hi && lo < t_ii) {
                            V::op_id(fold(vals_of(range_filter(base, lo, hi))));
                        }
                        assert(entries_pre(*n, i + 1) == base + ec);
                        assert(res == fold(
                            vals_of(range_filter(entries_pre(*n, i + 1), lo, hi)),
                        ));
                    }
                } else {
                    proof {
                        assert(entries_before(*n, m as int) == entries_pre(*n, m - 1) + seq![it]);
                        assert(res == fold(
                            vals_of(range_filter(entries_before(*n, m as int), lo, hi)),
                        ));
                    }
                }
                i = i + 1;
            }
            let t_curr = n.items[m - 1].time;
            let ghost el = entries(n.children@[m as int]);
            proof {
                assert(all_gt(el, t_curr));
            }
            if t_curr < hi {
                let t_a = if lo <= t_curr {
                    Time::MIN
                } else {
                    lo
                };
                proof {
                    lemma_wf_weaken(n.children@[m as int]);
                    assert(aggs_core(n.children@[m as int], false));
                }
                let c = Self::query_rec(&n.children[m], t_a, hi, false);
                proof {
                    if lo <= t_curr {
                        lemma_rf_widen_lo(el, lo, hi);
                        assert(range_filter(el, t_a, hi) == range_filter(el, lo, hi));
                    }
                    assert(c == fold(vals_of(range_filter(el, lo, hi))));
                }
                res = res.combine(&c);
            } else {
                proof {
                    lemma_rf_all_above(el, lo, hi);
                    V::op_id(res);
                }
            }
            proof {
                let bef = entries_before(*n, m as int);
                lemma_rf_concat(bef, el, lo, hi);
                lemma_fold_vals_app::<V>(range_filter(bef, lo, hi), range_filter(el, lo, hi));
                if t_curr >= hi {
                    V::op_id(fold(vals_of(range_filter(bef, lo, hi))));
                }
                lemma_pre_suf(*n, m as int);
                assert(entries(*n) == entries_pre(*n, m as int));
                assert(entries_pre(*n, m as int) == entries_pre(*n, m - 1) + seq![
                    (n.items@[m - 1].time, n.items@[m - 1].value),
                ] + entries(n.children@[m as int]));
                assert(bef + el =~= entries(*n));
                assert(res == fold(vals_of(range_filter(entries(*n), lo, hi))));
            }
            res
        }
    }
}

impl<V: Monoid> Tree<V> {
    /// Aggregate exactly the values whose times fall within the range, both
    /// ends included; the identity when no entry does. Over the whole time
    /// domain this is the window query itself.
    pub fn range_query(&self, range: core::ops::Range<Time>) -> (r: V)
        ensures
            r == fold(vals_of(range_filter(self@, range.start, range.end))),
            range.start == Time::MIN && range.end == Time::MAX ==> r == fold(vals_of(self@)),
    {
        proof {
            use_type_invariant(&*self);
            if range.start == Time::MIN && range.end == Time::MAX {
                lemma_rf_all_in(self@, range.start, range.end);
            }
        }
        Node::query_rec(&self.root, range.start, range.end, true)
    }

    /// A second entry point for insertion, behaving exactly as `insert`;
    /// callers exercising the window keep both names.
    pub fn insert_test(&mut self, t: Time, v: V)
        ensures
            final(self)@ == insert_entry(old(self)@, t, v),
    {
        self.insert(t, v);
    }
}

impl<V: Monoid> View for Tree<V> {
    type V = Seq<(Time, V)>;

    /// The window as the time-sorted sequence of its (time, value) entries.
    closed spec fn view(&self) -> Seq<(Time, V)> {
        entries(self.root)
    }
}

impl<V: Monoid> crate::TimeWindow<V> for Tree<V> {
    closed spec fn contents(self) -> Seq<(Time, V)> {
        entries(self.root)
    }

    fn new() -> (w: Tree<V>) {
        Tree::<V>::new()
    }

    fn insert(&mut self, t: Time, v: V) {
        Tree::<V>::insert(self, t, v);
    }

    fn evict(&mut self, t: Time) {
        Tree::<V>::evict(self, t);
    }

    fn query(&self) -> (r: V) {
        Tree::<V>::query(self)
    }

    fn range_query(&self, range: core::ops::Range<Time>) -> V {
        Tree::<V>::range_query(self, range)
    }
}

/// A sorted window splits, in order, into the part below `a`, the part
/// inside `[a, b]`, and the part above `b`.
proof fn lemma_rf_partition<V: Monoid>(s: Seq<(Time, V)>, a: Time, b: Time)
    requires
        sorted(s),
        a <= b,
        Time::MIN < a,
        b < Time::MAX,
    ensures
        s == range_filter(s, Time::MIN, (a - 1) as Time) + range_filter(s, a, b) + range_filter(
            s,
            (b + 1) as Time,
            Time::MAX,
        ),
    decreases s.len(),
{
    if s.len() == 0 {
        assert(s =~= range_filter(s, Time::MIN, (a - 1) as Time) + range_filter(s, a, b) + range_filter(
            s,
            (b + 1) as Time,
            Time::MAX,
        ));
    } else {
        let x = s.last();
        let t = s.drop_last();
        lemma_rf_partition(t, a, b);
        let p1 = range_filter(t, Time::MIN, (a - 1) as Time);
        let p2 = range_filter(t, a, b);
        let p3 = range_filter(t, (b + 1) as Time, Time::MAX);
        assert(forall|j: int| 0 <= j < t.len() ==> #[trigger] t[j].0 < x.0);
        if x.0 < a {
            assert(range_filter(s, Time::MIN, (a - 1) as Time) == p1.push(x));
            lemma_rf_all_below(t, a, b);
            lemma_rf_all_below(t, (b + 1) as Time, Time::MAX);
            assert(range_filter(s, a, b) == p2);
            assert(range_filter(s, (b + 1) as Time, Time::MAX) == p3);
            assert(p2 =~= Seq::<(Time, V)>::empty());
            assert(p3 =~= Seq::<(Time, V)>::empty());
            assert(s =~= p1.push(x) + p2 + p3);
        } else if x.0 <= b {
            assert(range_filter(s, Time::MIN, (a - 1) as Time) == p1);
            assert(range_filter(s, a, b) == p2.push(x));
            lemma_rf_all_below(t, (b + 1) as Time, Time::MAX);
            assert(range_filter(s, (b + 1) as Time, Time::MAX) == p3);
            assert(p3 =~= Seq::<(Time, V)>::empty());
            assert(t =~= p1 + p2);
            assert(p1 + p2.push(x) + p3 =~= (p1 + p2).push(x));
            assert(s =~= (p1 + p2).push(x));
        } else {
            assert(range_filter(s, Time::MIN, (a - 1) as Time) == p1);
            assert(range_filter(s, a, b) == p2);
            assert(range_filter(s, (b + 1) as Time, Time::MAX) == p3.push(x));
            assert(p1 + p2 + p3.push(x) =~= (p1 + p2 + p3).push(x));
            assert(s =~= (p1 + p2 + p3).push(x));
        }
    }
}

/// Splitting the time domain around `[a, b]` under a commutative operator:
/// the aggregate of the range, of everything above it, and of everything
/// below it recombine to the whole window's aggregate.
pub proof fn lemma_range_split<V: Commutative>(s: Seq<(Time, V)>, a: Time, b: Time)
    requires
        sorted(s),
        a <= b,
        Time::MIN < a,
        b < Time::MAX,
    ensures
        V::op(
            V::op(
                fold(vals_of(range_filter(s, a, b))),
                fold(vals_of(range_filter(s, (b + 1) as Time, Time::MAX))),
            ),
            fold(vals_of(range_filter(s, Time::MIN, (a - 1) as Time))),
        ) == fold(vals_of(s)),
{
    lemma_rf_partition(s, a, b);
    let f1 = fold(vals_of(range_filter(s, Time::MIN, (a - 1) as Time)));
    let f2 = fold(vals_of(range_filter(s, a, b)));
    let f3 = fold(vals_of(range_filter(s, (b + 1) as Time, Time::MAX)));
    lemma_fold_vals_app::<V>(
        range_filter(s, Time::MIN, (a - 1) as Time),
        range_filter(s, a, b),
    );
    lemma_fold_vals_app::<V>(
        range_filter(s, Time::MIN, (a - 1) as Time) + range_filter(s, a, b),
        range_filter(s, (b + 1) as Time, Time::MAX),
    );
    assert(fold(vals_of(s)) == V::op(V::op(f1, f2), f3));
    V::op_comm(V::op(f2, f3), f1);
    V::op_assoc(f1, f2, f3);
    V::op_assoc(V::op(f2, f3), f1, f1);
    assert(V::op(V::op(f2, f3), f1) == V::op(f1, V::op(f2, f3)));
    V::op_assoc(f2, f3, f1);
}

/// Inserting a fresh time and evicting it restores the window; on a time
/// already present, the eviction removes the combined entry, exactly as it
/// would have removed the original one.
pub proof fn lemma_insert_then_evict<V: Monoid>(s: Seq<(Time, V)>, t: Time, v: V)
    requires
        sorted(s),
    ensures
        !has_time(s, t) ==> remove_entry(insert_entry(s, t, v), t) == s,
        remove_entry(insert_entry(s, t, v), t) == remove_entry(s, t),
{
    lemma_count_lt_hi_bound(s, t);
    lemma_count_lt_props(s, t);
    let i = count_lt(s, t);
    if i < s.len() && s[i].0 == t {
        assert(has_time(s, t));
        let s2 = s.update(i, (t, V::op(s[i].1, v)));
        lemma_count_lt_same_times(s2, s, t);
        assert(count_lt(s2, t) == i);
        assert(s2[i].0 == t);
        assert(s2.remove(i) =~= s.remove(i));
    } else {
        let s2 = s.insert(i, (t, v));
        assert forall|j: int| 0 <= j < i implies s2[j].0 < t by {
            assert(s2[j] == s[j]);
        }
        assert(sorted(s2)) by {
            assert forall|x: int, y: int| 0 <= x < y < s2.len() implies s2[x].0 < s2[y].0 by {
                if y < i {
                } else if x > i {
                    assert(s2[x] == s[x - 1]);
                    assert(s2[y] == s[y - 1]);
                } else if x == i {
                    assert(s2[y] == s[y - 1]);
                    assert(s[y - 1].0 >= t);
                    assert(s[y - 1].0 != t || y - 1 != i);
                    if y - 1 == i {
                        assert(s[i].0 != t);
                        assert(s[i].0 >= t);
                    } else {
                        assert(s[i].0 >= t);
                        assert(s[i].0 < s[y - 1].0);
                    }
                } else if y == i {
                    assert(s2[x] == s[x]);
                } else {
                    assert(s2[x] == s[x]);
                    assert(s2[y] == s[y - 1]);
                    assert(s[x].0 < t);
                    assert(s[y - 1].0 >= t);
                }
            }
        }
        lemma_count_lt_char(s2, t, i);
        assert(count_lt(s2, t) == i);
        assert(s2[i] == (t, v));
        assert(s2.remove(i) =~= s);
        if has_time(s, t) {
            let k = choose|k: int| 0 <= k < s.len() && s[k].0 == t;
            if k < i {
                assert(s[k].0 < t);
            } else if k > i {
                assert(s[i].0 < s[k].0);
                assert(s[i].0 >= t);
            }
            assert(false);
        }
    }
}

/// On a sorted sequence, `count_lt` marks the boundary: everything before
/// it lies below `t` and whatever follows does not.
proof fn lemma_count_lt_props<V>(s: Seq<(Time, V)>, t: Time)
    requires
        sorted(s),
    ensures
        0 <= count_lt(s, t) <= s.len(),
        forall|j: int| 0 <= j < count_lt(s, t) ==> s[j].0 < t,
        count_lt(s, t) < s.len() ==> s[count_lt(s, t)].0 >= t,
    decreases s.len(),
{
    if s.len() > 0 {
        if s.last().0 < t {
            assert forall|j: int| 0 <= j < s.len() implies s[j].0 < t by {
                if j < s.len() - 1 {
                    assert(s[j].0 < s.last().0);
                }
            }
        } else {
            lemma_count_lt_props(s.drop_last(), t);
            let i = count_lt(s.drop_last(), t);
            assert forall|j: int| 0 <= j < i implies s[j].0 < t by {
                assert(s[j] == s.drop_last()[j]);
            }
            if i < s.len() - 1 {
                assert(s[i] == s.drop_last()[i]);
            }
        }
    }
}

/// Two sequences with the same times in the same places count alike.
proof fn lemma_count_lt_same_times<V>(x: Seq<(Time, V)>, y: Seq<(Time, V)>, t: Time)
    requires
        x.len() == y.len(),
        forall|j: int| 0 <= j < x.len() ==> x[j].0 == y[j].0,
    ensures
        count_lt(x, t) == count_lt(y, t),
    decreases x.len(),
{
    if x.len() > 0 {
        assert(x.last().0 == y.last().0);
        assert(x.drop_last().len() == y.drop_last().len());
        assert(forall|j: int|
            0 <= j < x.drop_last().len() ==> x.drop_last()[j].0 == y.drop_last()[j].0);
        lemma_count_lt_same_times(x.drop_last(), y.drop_last(), t);
    }
}

} // verus!
