//! Bubble sort.
use vstd::prelude::*;
use crate::order::{greater, strict_order, total_order};
use crate::arrangement::{sorted, no_descent, keeps_tie_order, exchanged, rank_class};
use crate::arrangement::{lemma_exchanged_same_elements, lemma_exchanged_keeps_tie_order};
use crate::arrangement::{lemma_no_descent_is_sorted, lemma_sorted_has_no_descent};
use crate::inversions::{inversions, lemma_exchange_removes_inversion};

verus! {

/// Sorts `list` in place by passes of neighbour exchanges.
///
/// Each pass walks the slice once and exchanges every neighbouring pair whose
/// first element is strictly greater than its second; passes repeat until one
/// of them exchanges nothing. Elements of equal rank are never exchanged, so
/// they keep their order, and a slice in which no element is greater than its
/// right neighbour is left as it is. An empty or one-element slice is returned
/// at once.
///
/// The passes come to an end because `>` never holds of a pair both ways:
/// every exchange then removes one inversion. The result has no element
/// greater than its right neighbour; when the comparison is a total order
/// that makes it ordered throughout.
pub fn bubble_sort<T: PartialOrd>(list: &mut [T])
    requires
        strict_order::<T>(),
    ensures
        final(list)@.to_multiset() == old(list)@.to_multiset(),
        final(list)@.len() == old(list)@.len(),
        old(list)@.len() < 2 ==> final(list)@ == old(list)@,
        no_descent(final(list)@),
        no_descent(old(list)@) ==> final(list)@ == old(list)@,
        total_order::<T>() ==> sorted(final(list)@),
        total_order::<T>() ==> keeps_tie_order(old(list)@, final(list)@),
        total_order::<T>() && sorted(old(list)@) ==> final(list)@ == old(list)@,
{
    let n = list.len();
    if n < 2 {
        proof {
            if total_order::<T>() {
                lemma_no_descent_is_sorted(list@);
            }
        }
        return ;
    }
    let ghost initial = list@;
    loop
        invariant
            strict_order::<T>(),
            n >= 2,
            list@.len() == n,
            list@.to_multiset() == initial.to_multiset(),
            total_order::<T>() ==> keeps_tie_order(initial, list@),
            no_descent(initial) ==> list@ == initial,
        ensures
            no_descent(list@),
        decreases inversions(list@, n as int),
    {
        let ghost start = list@;
        let mut swapped = false;
        for i in 0..n - 1
            invariant
                strict_order::<T>(),
                n >= 2,
                list@.len() == n,
                list@.to_multiset() == initial.to_multiset(),
                total_order::<T>() ==> keeps_tie_order(initial, list@),
                no_descent(initial) ==> list@ == initial,
                inversions(list@, n as int) + (if swapped { 1int } else { 0int }) <= inversions(
                    start,
                    n as int,
                ),
                !swapped ==> forall|m: int|
                    0 <= m < i ==> !#[trigger] greater(list@[m], list@[m + 1]),
        {
            let ghost before = list@;
            proof {
                let k = i as int;
                if no_descent(initial) {
                    assert(!greater(before[k], before[k + 1]));
                }
            }
            if list[i] > list[i + 1] {
                list.swap(i, i + 1);
                swapped = true;
                proof {
                    assert(list@ == exchanged(before, i as int, i + 1));
                    lemma_exchanged_same_elements(before, i as int, i + 1);
                    lemma_exchange_removes_inversion(before, i as int, n as int);
                    if total_order::<T>() {
                        lemma_exchanged_keeps_tie_order(before, i as int);
                        assert(forall|x: T| #[trigger]
                            rank_class(list@, x) == rank_class(before, x));
                    }
                }
            }
        }
        if !swapped {
            break ;
        }
    }
    proof {
        if total_order::<T>() {
            lemma_no_descent_is_sorted(list@);
            if sorted(initial) {
                lemma_sorted_has_no_descent(initial);
            }
        }
    }
}

} // verus!
