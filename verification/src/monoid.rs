//! The operator abstraction: an associative binary operator with identity,
//! optionally extended with an inverse, plus the fold that defines what a
//! window's aggregate means.
use vstd::prelude::*;

verus! {

/// An associative binary operator with identity. `op`/`id` are the
/// mathematical operator and its unit; `combine`/`identity` are their
/// executable forms; the two proof obligations are the monoid laws, which
/// every implementation must establish.
pub trait Monoid: Sized + Copy {
    /// The identity element.
    spec fn id() -> Self;

    /// The binary operator.
    spec fn op(a: Self, b: Self) -> Self;

    proof fn op_id(a: Self)
        ensures
            Self::op(Self::id(), a) == a,
            Self::op(a, Self::id()) == a,
    ;

    proof fn op_assoc(a: Self, b: Self, c: Self)
        ensures
            Self::op(Self::op(a, b), c) == Self::op(a, Self::op(b, c)),
    ;

    fn identity() -> (r: Self)
        ensures
            r == Self::id(),
    ;

    fn combine(&self, other: &Self) -> (r: Self)
        ensures
            r == Self::op(*self, *other),
    ;
}

/// A monoid whose operator is commutative: the order of the operands is
/// immaterial.
pub trait Commutative: Monoid {
    proof fn op_comm(a: Self, b: Self)
        ensures
            Self::op(a, b) == Self::op(b, a),
    ;
}

/// A commutative monoid whose elements have inverses. The aggregators that
/// subtract on eviction are correct exactly for such operators, where the
/// order in which contributions are removed is immaterial.
pub trait Group: Commutative {
    /// The inverse element.
    spec fn inv(a: Self) -> Self;

    proof fn op_inv(a: Self)
        ensures
            Self::op(a, Self::inv(a)) == Self::id(),
            Self::op(Self::inv(a), a) == Self::id(),
    ;

    fn inverse(&self) -> (r: Self)
        ensures
            r == Self::inv(*self),
    ;
}

/// The combined value of a sequence of window values, oldest first:
/// `v0 ⊕ v1 ⊕ ... ⊕ vn−1`, or the identity for the empty window.
pub open spec fn fold<V: Monoid>(s: Seq<V>) -> V
    decreases s.len(),
{
    if s.len() == 0 {
        V::id()
    } else {
        V::op(fold(s.drop_last()), s.last())
    }
}

pub proof fn lemma_fold_singleton<V: Monoid>(v: V)
    ensures
        fold(seq![v]) == v,
{
    assert(seq![v].drop_last() =~= Seq::<V>::empty());
    assert(seq![v].last() == v);
    assert(fold(seq![v]) == V::op(fold(Seq::<V>::empty()), v));
    V::op_id(v);
}

pub proof fn lemma_fold_push<V: Monoid>(s: Seq<V>, v: V)
    ensures
        fold(s.push(v)) == V::op(fold(s), v),
{
    assert(s.push(v).drop_last() =~= s);
    assert(s.push(v).last() == v);
}

/// Folding a concatenation combines the folds of the parts.
pub proof fn lemma_fold_app<V: Monoid>(s1: Seq<V>, s2: Seq<V>)
    ensures
        fold(s1 + s2) == V::op(fold(s1), fold(s2)),
    decreases s2.len(),
{
    if s2.len() == 0 {
        assert(s1 + s2 =~= s1);
        V::op_id(fold(s1));
    } else {
        lemma_fold_app::<V>(s1, s2.drop_last());
        assert((s1 + s2).drop_last() =~= s1 + s2.drop_last());
        assert((s1 + s2).last() == s2.last());
        V::op_assoc(fold(s1), fold(s2.drop_last()), s2.last());
    }
}

/// Folding a span splits at any midpoint.
pub proof fn lemma_fold_subrange_app<V: Monoid>(s: Seq<V>, a: int, b: int, c: int)
    requires
        0 <= a <= b <= c <= s.len(),
    ensures
        fold(s.subrange(a, c)) == V::op(fold(s.subrange(a, b)), fold(s.subrange(b, c))),
{
    assert(s.subrange(a, b) + s.subrange(b, c) =~= s.subrange(a, c));
    lemma_fold_app::<V>(s.subrange(a, b), s.subrange(b, c));
}

/// Folding from the front: the first value combined with the fold of the rest.
pub proof fn lemma_fold_first<V: Monoid>(s: Seq<V>)
    requires
        s.len() > 0,
    ensures
        fold(s) == V::op(s[0], fold(s.drop_first())),
    decreases s.len(),
{
    assert(s =~= seq![s[0]] + s.drop_first());
    lemma_fold_app::<V>(seq![s[0]], s.drop_first());
    lemma_fold_singleton::<V>(s[0]);
}

/// Integer values under (wrapping) addition: a commutative group with
/// identity `0` and negation as inverse.
#[derive(Clone, Copy, PartialEq, Eq, Debug, Structural)]
pub struct IntSum(pub i64);

impl Monoid for IntSum {
    open spec fn id() -> IntSum {
        IntSum(0)
    }

    open spec fn op(a: IntSum, b: IntSum) -> IntSum {
        IntSum(vstd::wrapping::i64_specs::wrapping_add(a.0, b.0))
    }

    proof fn op_id(a: IntSum) {
    }

    proof fn op_assoc(a: IntSum, b: IntSum, c: IntSum) {
    }

    fn identity() -> (r: IntSum) {
        IntSum(0)
    }

    fn combine(&self, other: &IntSum) -> (r: IntSum) {
        IntSum(self.0.wrapping_add(other.0))
    }
}

impl Commutative for IntSum {
    proof fn op_comm(a: IntSum, b: IntSum) {
    }
}

impl Group for IntSum {
    open spec fn inv(a: IntSum) -> IntSum {
        IntSum(vstd::wrapping::i64_specs::wrapping_sub(0, a.0))
    }

    proof fn op_inv(a: IntSum) {
    }

    fn inverse(&self) -> (r: IntSum) {
        IntSum(0i64.wrapping_sub(self.0))
    }
}

/// Integer values under maximum: a monoid whose identity is the smallest
/// integer.
#[derive(Clone, Copy, PartialEq, Eq, Debug, Structural)]
pub struct IntMax(pub i64);

impl Monoid for IntMax {
    open spec fn id() -> IntMax {
        IntMax(i64::MIN)
    }

    open spec fn op(a: IntMax, b: IntMax) -> IntMax {
        if a.0 < b.0 {
            b
        } else {
            a
        }
    }

    proof fn op_id(a: IntMax) {
    }

    proof fn op_assoc(a: IntMax, b: IntMax, c: IntMax) {
    }

    fn identity() -> (r: IntMax) {
        IntMax(i64::MIN)
    }

    fn combine(&self, other: &IntMax) -> (r: IntMax) {
        if self.0 < other.0 {
            *other
        } else {
            *self
        }
    }
}

impl Commutative for IntMax {
    proof fn op_comm(a: IntMax, b: IntMax) {
    }
}

} // verus!
