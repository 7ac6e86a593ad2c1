//! Counting the pairs of a sequence that stand out of order.
//!
//! The count drops by one whenever two neighbours that are out of order are
//! exchanged, which is why a sort by such exchanges comes to an end.
use vstd::prelude::*;
use crate::order::{greater, strict_order};
use crate::arrangement::exchanged;

verus! {

/// How many of the first `upto` elements of `s` are strictly greater than
/// `v`.
pub open spec fn count_greater<T: PartialOrd>(s: Seq<T>, upto: int, v: T) -> nat
    decreases upto,
{
    if upto <= 0 {
        0
    } else {
        count_greater(s, upto - 1, v) + if greater(s[upto - 1], v) {
            1nat
        } else {
            0nat
        }
    }
}

/// How many pairs of positions `i < j < n` of `s` hold a strictly greater
/// element at `i` than at `j`.
pub open spec fn inversions<T: PartialOrd>(s: Seq<T>, n: int) -> nat
    decreases n,
{
    if n <= 0 {
        0
    } else {
        inversions(s, n - 1) + count_greater(s, n - 1, s[n - 1])
    }
}

/// The count over a prefix depends on that prefix alone.
proof fn lemma_count_greater_of_prefix<T: PartialOrd>(s: Seq<T>, t: Seq<T>, upto: int, v: T)
    requires
        forall|i: int| 0 <= i < upto ==> s[i] == t[i],
    ensures
        count_greater(s, upto, v) == count_greater(t, upto, v),
    decreases upto,
{
    if upto > 0 {
        lemma_count_greater_of_prefix(s, t, upto - 1, v);
    }
}

/// The inversions within a prefix depend on that prefix alone.
proof fn lemma_inversions_of_prefix<T: PartialOrd>(s: Seq<T>, t: Seq<T>, n: int)
    requires
        forall|i: int| 0 <= i < n ==> s[i] == t[i],
    ensures
        inversions(s, n) == inversions(t, n),
    decreases n,
{
    if n > 0 {
        lemma_inversions_of_prefix(s, t, n - 1);
        lemma_count_greater_of_prefix(s, t, n - 1, s[n - 1]);
    }
}

/// Exchanging two neighbours does not change how many elements of a prefix
/// that holds both are greater than a given value.
proof fn lemma_count_greater_after_exchange<T: PartialOrd>(s: Seq<T>, k: int, upto: int, v: T)
    requires
        0 <= k,
        k + 2 <= upto <= s.len(),
    ensures
        count_greater(exchanged(s, k, k + 1), upto, v) == count_greater(s, upto, v),
    decreases upto,
{
    let t = exchanged(s, k, k + 1);
    if upto == k + 2 {
        lemma_count_greater_of_prefix(s, t, k, v);
        assert(count_greater(t, k + 1, v) == count_greater(t, k, v) + if greater(t[k], v) {
            1nat
        } else {
            0nat
        });
        assert(count_greater(s, k + 1, v) == count_greater(s, k, v) + if greater(s[k], v) {
            1nat
        } else {
            0nat
        });
    } else {
        lemma_count_greater_after_exchange(s, k, upto - 1, v);
    }
}

/// Exchanging two neighbours of which the first is strictly greater removes
/// exactly one inversion.
pub proof fn lemma_exchange_removes_inversion<T: PartialOrd>(s: Seq<T>, k: int, n: int)
    requires
        strict_order::<T>(),
        0 <= k,
        k + 2 <= n <= s.len(),
        greater(s[k], s[k + 1]),
    ensures
        inversions(exchanged(s, k, k + 1), n) + 1 == inversions(s, n),
    decreases n,
{
    let t = exchanged(s, k, k + 1);
    if n == k + 2 {
        lemma_inversions_of_prefix(s, t, k);
        lemma_count_greater_of_prefix(s, t, k, s[k + 1]);
        lemma_count_greater_of_prefix(s, t, k, s[k]);
        assert(!greater(s[k + 1], s[k]));
        assert(inversions(t, k + 1) == inversions(t, k) + count_greater(t, k, t[k]));
        assert(inversions(s, k + 1) == inversions(s, k) + count_greater(s, k, s[k]));
        assert(count_greater(t, k + 1, s[k]) == count_greater(t, k, s[k]) + if greater(
            t[k],
            s[k],
        ) {
            1nat
        } else {
            0nat
        });
        assert(count_greater(s, k + 1, s[k + 1]) == count_greater(s, k, s[k + 1]) + if greater(
            s[k],
            s[k + 1],
        ) {
            1nat
        } else {
            0nat
        });
    } else {
        lemma_exchange_removes_inversion(s, k, n - 1);
        lemma_count_greater_after_exchange(s, k, n - 1, s[n - 1]);
    }
}

} // verus!
