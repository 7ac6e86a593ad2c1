//! Laws that relate the results of the sorts to one another.
use vstd::prelude::*;
use vstd::seq_lib::to_multiset_remove;
use crate::order::{at_most, same_rank, total_order};
use crate::order::{lemma_at_most_transitive, lemma_same_rank_reflexive};
use crate::order::{lemma_same_rank_symmetric, lemma_same_rank_transitive};
use crate::arrangement::{sorted, rank_class, keeps_tie_order, ties_identical};

verus! {

/// Two ordered arrangements of the same elements agree on the rank found at
/// every position. So whatever routine sorted a sequence, the result shows
/// the same order of ranks; results can differ only in which of several
/// elements of one rank stands where.
pub proof fn lemma_sorted_arrangements_agree<T: PartialOrd>(a: Seq<T>, b: Seq<T>)
    requires
        total_order::<T>(),
        sorted(a),
        sorted(b),
        a.to_multiset() == b.to_multiset(),
    ensures
        a.len() == b.len(),
        forall|i: int| 0 <= i < a.len() ==> same_rank(#[trigger] a[i], b[i]),
    decreases a.len(),
{
    a.to_multiset_ensures();
    b.to_multiset_ensures();
    if a.len() > 0 {
        let n = a.len() as int;
        let top = a[n - 1];
        let other_top = b[n - 1];
        assert(a.len() == b.len());
        assert(a.contains(top));
        assert(a.to_multiset().count(top) > 0);
        assert(b.to_multiset().count(top) > 0);
        assert(b.contains(top));
        assert(b.contains(other_top));
        assert(b.to_multiset().count(other_top) > 0);
        assert(a.to_multiset().count(other_top) > 0);
        assert(a.contains(other_top));
        let k = choose|k: int| 0 <= k < n && b[k] == top;
        let m = choose|m: int| 0 <= m < n && a[m] == other_top;
        lemma_same_rank_reflexive(top);
        lemma_same_rank_reflexive(other_top);
        if m < n - 1 {
            assert(at_most(a[m], a[n - 1]));
        }
        if k < n - 1 {
            assert(at_most(b[k], b[n - 1]));
        }
        lemma_same_rank_symmetric(top, other_top);
        assert(same_rank(top, other_top));
        let a_rest = a.remove(n - 1);
        let b_rest = b.remove(k);
        to_multiset_remove(a, n - 1);
        to_multiset_remove(b, k);
        assert(a_rest.len() == n - 1 && b_rest.len() == n - 1);
        assert forall|i: int, j: int| 0 <= i < j < a_rest.len() implies #[trigger] at_most(
            a_rest[i],
            a_rest[j],
        ) by {
            assert(at_most(a[i], a[j]));
        }
        assert forall|i: int, j: int| 0 <= i < j < b_rest.len() implies #[trigger] at_most(
            b_rest[i],
            b_rest[j],
        ) by {
            let from = if i < k { i } else { i + 1 };
            let to = if j < k { j } else { j + 1 };
            assert(at_most(b[from], b[to]));
        }
        lemma_sorted_arrangements_agree(a_rest, b_rest);
        assert forall|i: int| 0 <= i < n implies same_rank(#[trigger] a[i], b[i]) by {
            if i == n - 1 {
            } else if i < k {
                assert(a_rest[i] == a[i] && b_rest[i] == b[i]);
            } else {
                assert(a_rest[i] == a[i] && b_rest[i] == b[i + 1]);
                assert(same_rank(a[i], b[i + 1]));
                lemma_same_rank_reflexive(b[i]);
                if k < i {
                    assert(at_most(b[k], b[i]));
                }
                assert(at_most(b[i], b[i + 1]));
                if i + 1 < n - 1 {
                    assert(at_most(b[i + 1], b[n - 1]));
                }
                lemma_same_rank_reflexive(b[i + 1]);
                lemma_at_most_transitive(b[i + 1], other_top, top);
                lemma_at_most_transitive(b[i + 1], top, b[i]);
                lemma_same_rank_symmetric(b[i + 1], b[i]);
                lemma_same_rank_transitive(a[i], b[i + 1], b[i]);
            }
        }
    }
}

/// An ordered arrangement is fixed by its elements and by the order in which
/// the elements of each rank stand: two ordered arrangements of the same
/// elements with the same rank classes are the same sequence. So two sorts
/// that both keep the input order within each rank return the same result on
/// the same input, and so do two that both reverse it.
pub proof fn lemma_rank_classes_fix_arrangement<T: PartialOrd>(a: Seq<T>, b: Seq<T>)
    requires
        total_order::<T>(),
        sorted(a),
        sorted(b),
        a.to_multiset() == b.to_multiset(),
        forall|x: T| #[trigger] rank_class(a, x) == rank_class(b, x),
    ensures
        a == b,
    decreases a.len(),
{
    lemma_sorted_arrangements_agree(a, b);
    if a.len() == 0 {
        assert(a =~= b);
    } else {
        let n = a.len() as int;
        let z = a[n - 1];
        let w = b[n - 1];
        let a_rest = a.drop_last();
        let b_rest = b.drop_last();
        assert(a =~= a_rest.push(z));
        assert(b =~= b_rest.push(w));
        lemma_same_rank_reflexive(z);
        lemma_same_rank_symmetric(z, w);
        let own = |e: T| same_rank(e, z);
        a_rest.lemma_filter_push(z, own);
        b_rest.lemma_filter_push(w, own);
        assert(rank_class(a, z) == rank_class(b, z));
        assert(rank_class(a, z).last() == z);
        assert(rank_class(b, z).last() == w);
        assert(z == w);
        assert forall|x: T| #[trigger] rank_class(a_rest, x) == rank_class(b_rest, x) by {
            let p = |e: T| same_rank(e, x);
            a_rest.lemma_filter_push(z, p);
            b_rest.lemma_filter_push(z, p);
            assert(rank_class(a, x) == rank_class(b, x));
            if p(z) {
                assert(rank_class(a_rest, x) =~= rank_class(a_rest, x).push(z).drop_last());
                assert(rank_class(b_rest, x) =~= rank_class(b_rest, x).push(z).drop_last());
            }
        }
        assert(a_rest =~= a.remove(n - 1));
        assert(b_rest =~= b.remove(n - 1));
        to_multiset_remove(a, n - 1);
        to_multiset_remove(b, n - 1);
        assert forall|i: int, j: int| 0 <= i < j < a_rest.len() implies #[trigger] at_most(
            a_rest[i],
            a_rest[j],
        ) by {
            assert(at_most(a[i], a[j]));
        }
        assert forall|i: int, j: int| 0 <= i < j < b_rest.len() implies #[trigger] at_most(
            b_rest[i],
            b_rest[j],
        ) by {
            assert(at_most(b[i], b[j]));
        }
        lemma_rank_classes_fix_arrangement(a_rest, b_rest);
        assert(a =~= b);
    }
}

/// Two sorts that both keep the input order within each rank return the same
/// sequence on the same input.
pub proof fn lemma_stable_results_agree<T: PartialOrd>(input: Seq<T>, a: Seq<T>, b: Seq<T>)
    requires
        total_order::<T>(),
        sorted(a),
        sorted(b),
        a.to_multiset() == input.to_multiset(),
        b.to_multiset() == input.to_multiset(),
        keeps_tie_order(input, a),
        keeps_tie_order(input, b),
    ensures
        a == b,
{
    assert forall|x: T| #[trigger] rank_class(a, x) == rank_class(b, x) by {
        assert(rank_class(a, x) == rank_class(input, x));
        assert(rank_class(b, x) == rank_class(input, x));
    }
    lemma_rank_classes_fix_arrangement(a, b);
}

/// Where the input holds no two distinct values of one rank, as with
/// integers, any two ordered arrangements of it are the same sequence:
/// every sort returns the same result.
pub proof fn lemma_results_agree_without_distinct_ties<T: PartialOrd>(
    input: Seq<T>,
    a: Seq<T>,
    b: Seq<T>,
)
    requires
        total_order::<T>(),
        ties_identical(input),
        sorted(a),
        sorted(b),
        a.to_multiset() == input.to_multiset(),
        b.to_multiset() == input.to_multiset(),
    ensures
        a == b,
{
    lemma_sorted_arrangements_agree(a, b);
    input.to_multiset_ensures();
    a.to_multiset_ensures();
    b.to_multiset_ensures();
    assert forall|i: int| 0 <= i < a.len() implies a[i] == b[i] by {
        assert(a.contains(a[i]));
        assert(a.to_multiset().count(a[i]) > 0);
        assert(input.to_multiset().count(a[i]) > 0);
        assert(input.contains(a[i]));
        assert(b.contains(b[i]));
        assert(b.to_multiset().count(b[i]) > 0);
        assert(input.to_multiset().count(b[i]) > 0);
        assert(input.contains(b[i]));
        let p = choose|p: int| 0 <= p < input.len() && input[p] == a[i];
        let q = choose|q: int| 0 <= q < input.len() && input[q] == b[i];
        lemma_same_rank_symmetric(a[i], b[i]);
        if p < q {
            assert(same_rank(input[p], input[q]));
        } else if q < p {
            assert(same_rank(input[q], input[p]));
        }
    }
    assert(a =~= b);
}

} // verus!
