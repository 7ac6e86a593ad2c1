//! Insertion sort.
use vstd::prelude::*;
use crate::order::{greater, strict_order, total_order};
use crate::order::{lemma_total_order_is_strict, lemma_trichotomy};
use crate::arrangement::{sorted, no_descent, keeps_tie_order, exchanged, rank_class};
use crate::arrangement::{lemma_exchanged_same_elements, lemma_exchanged_keeps_tie_order};
use crate::arrangement::{lemma_no_descent_is_sorted, lemma_sorted_has_no_descent};

verus! {

/// Sorts `list` in place by growing an ordered prefix.
///
/// For each position from the second on, the element there moves left through
/// the ordered prefix, exchanging places with its left neighbour for as long
/// as that neighbour is strictly greater. An element of equal rank stops the
/// move, so elements of equal rank keep their order, and a slice in which no
/// element is greater than its right neighbour is left as it is. An empty or
/// one-element slice is left untouched.
///
/// The elements are kept whatever the comparison does. When `>` never holds
/// of a pair both ways, the result has no element greater than its right
/// neighbour; when the comparison is a total order that makes it ordered
/// throughout.
pub fn insertion_sort<T: PartialOrd>(list: &mut [T])
    ensures
        final(list)@.to_multiset() == old(list)@.to_multiset(),
        final(list)@.len() == old(list)@.len(),
        old(list)@.len() < 2 ==> final(list)@ == old(list)@,
        strict_order::<T>() ==> no_descent(final(list)@),
        strict_order::<T>() && no_descent(old(list)@) ==> final(list)@ == old(list)@,
        total_order::<T>() ==> sorted(final(list)@),
        total_order::<T>() ==> keeps_tie_order(old(list)@, final(list)@),
        total_order::<T>() && sorted(old(list)@) ==> final(list)@ == old(list)@,
{
    let n = list.len();
    let ghost initial = list@;
    let mut i: usize = 1;
    while i < n
        invariant
            1 <= i,
            list@.len() == n,
            initial.len() == n,
            list@.to_multiset() == initial.to_multiset(),
            n < 2 ==> list@ == initial,
            total_order::<T>() ==> keeps_tie_order(initial, list@),
            strict_order::<T>() && no_descent(initial) ==> list@ == initial,
            strict_order::<T>() ==> forall|m: int|
                0 <= m && m + 1 < i && m + 1 < n ==> !#[trigger] greater(list@[m], list@[m + 1]),
        decreases n - i,
    {
        let mut j: usize = i;
        while j > 0 && list[j - 1] > list[j]
            invariant
                1 <= i < n,
                j <= i,
                list@.len() == n,
                initial.len() == n,
                list@.to_multiset() == initial.to_multiset(),
                total_order::<T>() ==> keeps_tie_order(initial, list@),
                strict_order::<T>() && no_descent(initial) ==> list@ == initial,
                strict_order::<T>() ==> forall|m: int|
                    0 <= m && m + 1 <= i && m + 1 != j ==> !#[trigger] greater(
                        list@[m],
                        list@[m + 1],
                    ),
                strict_order::<T>() && 0 < j < i ==> !greater(list@[j - 1], list@[j + 1]),
            decreases j,
        {
            let ghost before = list@;
            list.swap(j - 1, j);
            j -= 1;
            proof {
                let k = j as int;
                lemma_exchanged_same_elements(before, k, k + 1);
                assert(list@ == exchanged(before, k, k + 1));
                if total_order::<T>() {
                    lemma_total_order_is_strict::<T>();
                    lemma_trichotomy(before[k], before[k + 1]);
                    lemma_exchanged_keeps_tie_order(before, k);
                    assert(forall|x: T| #[trigger] rank_class(list@, x) == rank_class(before, x));
                }
                if strict_order::<T>() {
                    assert(greater(before[k], before[k + 1]));
                    assert(!greater(before[k + 1], before[k]));
                    assert forall|m: int| 0 <= m && m + 1 <= i && m + 1 != k implies !#[trigger] greater(
                        list@[m],
                        list@[m + 1],
                    ) by {
                        if m == k {
                        } else if m == k + 1 {
                            assert(!greater(before[k], before[k + 2]));
                        } else {
                            assert(!greater(before[m], before[m + 1]));
                        }
                    }
                    if 0 < k {
                        let below = k - 1;
                        assert(!greater(before[below], before[below + 1]));
                    }
                }
            }
        }
        i += 1;
    }
    proof {
        if total_order::<T>() {
            lemma_total_order_is_strict::<T>();
            lemma_no_descent_is_sorted(list@);
            if sorted(initial) {
                lemma_sorted_has_no_descent(initial);
            }
        }
    }
}

} // verus!
