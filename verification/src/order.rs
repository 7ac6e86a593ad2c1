//! The order on elements, as contracts see it.
//!
//! Everything is phrased over the mathematical model of
//! `PartialOrd::partial_cmp`. Two elements have the *same rank* when they
//! compare as equal; they need not be the same value.
use vstd::prelude::*;
use vstd::std_specs::cmp::PartialOrdSpec;
use core::cmp::Ordering;

verus! {

/// `a` compares strictly below `b`.
pub open spec fn less<T: PartialOrd>(a: T, b: T) -> bool {
    a.partial_cmp_spec(&b) == Some(Ordering::Less)
}

/// `a` compares strictly above `b`.
pub open spec fn greater<T: PartialOrd>(a: T, b: T) -> bool {
    a.partial_cmp_spec(&b) == Some(Ordering::Greater)
}

/// `a` and `b` compare as equal.
pub open spec fn same_rank<T: PartialOrd>(a: T, b: T) -> bool {
    a.partial_cmp_spec(&b) == Some(Ordering::Equal)
}

/// `a` compares below `b` or as equal to it.
pub open spec fn at_most<T: PartialOrd>(a: T, b: T) -> bool {
    less(a, b) || same_rank(a, b)
}

/// The comparison on `T` is a total order on ranks: the operators `<` and `>`
/// answer as the model of `partial_cmp` says, any two values are comparable,
/// `<` and `>` mirror each other, and `<=` is transitive. Distinct values may
/// share a rank.
pub open spec fn total_order<T: PartialOrd>() -> bool {
    &&& T::obeys_partial_cmp_spec()
    &&& forall|a: T, b: T| (#[trigger] a.partial_cmp_spec(&b)).is_some()
    &&& forall|a: T, b: T| #[trigger] less(a, b) <==> greater(b, a)
    &&& forall|a: T, b: T, c: T| #[trigger] at_most(a, b) && #[trigger] at_most(b, c) ==> at_most(a, c)
}

/// The comparison on `T` answers as the model of `partial_cmp` says, and `>`
/// never holds of a pair in both directions. Every partial order is of this
/// kind.
pub open spec fn strict_order<T: PartialOrd>() -> bool {
    &&& T::obeys_partial_cmp_spec()
    &&& forall|a: T, b: T| #[trigger] greater(a, b) ==> !greater(b, a)
}

/// A strict order in which `a < b` says the same as `b > a`. Every partial
/// order is of this kind.
pub open spec fn mirrored_order<T: PartialOrd>() -> bool {
    &&& strict_order::<T>()
    &&& forall|a: T, b: T| #[trigger] less(a, b) <==> greater(b, a)
}

/// A total order is a strict order, and a mirrored one.
pub proof fn lemma_total_order_is_strict<T: PartialOrd>()
    requires
        total_order::<T>(),
    ensures
        strict_order::<T>(),
        mirrored_order::<T>(),
{
    assert forall|a: T, b: T| #[trigger] greater(a, b) implies !greater(b, a) by {
        assert(less(b, a) <==> greater(a, b));
    }
}

/// Under a total order exactly one of `<`, `==`-rank, `>` holds of a pair.
pub proof fn lemma_trichotomy<T: PartialOrd>(a: T, b: T)
    requires
        total_order::<T>(),
    ensures
        less(a, b) || same_rank(a, b) || greater(a, b),
        at_most(a, b) <==> !greater(a, b),
        less(a, b) <==> !at_most(b, a),
{
    assert(less(a, b) <==> greater(b, a));
    assert(less(b, a) <==> greater(a, b));
    match a.partial_cmp_spec(&b) {
        Some(Ordering::Less) => {},
        Some(Ordering::Equal) => {},
        Some(Ordering::Greater) => {},
        None => {},
    }
    match b.partial_cmp_spec(&a) {
        Some(Ordering::Less) => {},
        Some(Ordering::Equal) => {},
        Some(Ordering::Greater) => {},
        None => {},
    }
}

/// Every value has its own rank.
pub proof fn lemma_same_rank_reflexive<T: PartialOrd>(a: T)
    requires
        total_order::<T>(),
    ensures
        same_rank(a, a),
        at_most(a, a),
{
    lemma_trichotomy(a, a);
    assert(less(a, a) <==> greater(a, a));
}

/// Having the same rank is symmetric.
pub proof fn lemma_same_rank_symmetric<T: PartialOrd>(a: T, b: T)
    requires
        total_order::<T>(),
    ensures
        same_rank(a, b) <==> same_rank(b, a),
        same_rank(a, b) <==> at_most(a, b) && at_most(b, a),
{
    lemma_trichotomy(a, b);
    lemma_trichotomy(b, a);
}

/// Having the same rank is transitive.
pub proof fn lemma_same_rank_transitive<T: PartialOrd>(a: T, b: T, c: T)
    requires
        total_order::<T>(),
        same_rank(a, b),
        same_rank(b, c),
    ensures
        same_rank(a, c),
{
    lemma_same_rank_symmetric(a, b);
    lemma_same_rank_symmetric(b, c);
    lemma_same_rank_symmetric(a, c);
    assert(at_most(a, b) && at_most(b, c));
    assert(at_most(c, b) && at_most(b, a));
}

/// `<=` is transitive.
pub proof fn lemma_at_most_transitive<T: PartialOrd>(a: T, b: T, c: T)
    requires
        total_order::<T>(),
        at_most(a, b),
        at_most(b, c),
    ensures
        at_most(a, c),
{
}

/// A value strictly below another stays strictly below everything at or above
/// that other.
pub proof fn lemma_less_then_at_most<T: PartialOrd>(a: T, b: T, c: T)
    requires
        total_order::<T>(),
        less(a, b),
        at_most(b, c),
    ensures
        less(a, c),
{
    lemma_trichotomy(a, c);
    lemma_trichotomy(c, a);
    lemma_trichotomy(a, b);
    lemma_trichotomy(b, a);
    if at_most(c, a) {
        assert(at_most(b, c) && at_most(c, a));
        assert(at_most(b, a));
    }
}

} // verus!
