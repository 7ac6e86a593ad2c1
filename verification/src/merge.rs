//! Merge sort.
use vstd::prelude::*;
use vstd::multiset::group_multiset_axioms;
use vstd::seq_lib::{to_multiset_build, lemma_multiset_commutative};
use crate::order::{at_most, greater, less, same_rank};
use crate::order::{mirrored_order, strict_order, total_order, lemma_total_order_is_strict};
use crate::order::{lemma_trichotomy, lemma_at_most_transitive, lemma_less_then_at_most};
use crate::order::{lemma_same_rank_reflexive, lemma_same_rank_symmetric, lemma_same_rank_transitive};
use crate::arrangement::{sorted, no_descent, rank_class, reverses_tie_order, ties_identical};

verus! {

/// What holds, midway through a merge of two ordered runs, of the output so
/// far: `out` holds the first `l` elements of `left` and the first `r` of
/// `right`, in order, with the elements of `right` ahead of those of `left`
/// within each rank.
spec fn merging_in_order<T: PartialOrd>(
    left: Seq<T>,
    right: Seq<T>,
    l: int,
    r: int,
    out: Seq<T>,
) -> bool {
    &&& sorted(out)
    &&& l < left.len() ==> forall|k: int|
        0 <= k < out.len() ==> #[trigger] at_most(out[k], left[l])
    &&& r < right.len() ==> forall|k: int|
        0 <= k < out.len() ==> #[trigger] at_most(out[k], right[r])
    &&& r < right.len() ==> forall|k: int| 0 <= k < l ==> #[trigger] less(left[k], right[r])
    &&& forall|x: T| #[trigger]
        rank_class(out, x) == rank_class(right.take(r), x) + rank_class(left.take(l), x)
}

/// What holds, midway through a merge of two runs whose concatenation is
/// already in order and has no two distinct values of one rank: `out` is a
/// prefix of that concatenation.
spec fn merging_in_place<T: PartialOrd>(
    left: Seq<T>,
    right: Seq<T>,
    l: int,
    r: int,
    out: Seq<T>,
) -> bool {
    &&& out == (left + right).take(l + r)
    &&& r > 0 && l < left.len() ==> at_most(right[r - 1], left[l])
}

/// What holds, midway through a merge of two runs in neither of which an
/// element is greater than its right neighbour: the same is true of `out`,
/// and its last element is not greater than either head.
spec fn merging_without_descent<T: PartialOrd>(
    left: Seq<T>,
    right: Seq<T>,
    l: int,
    r: int,
    out: Seq<T>,
) -> bool {
    &&& no_descent(out)
    &&& out.len() > 0 && l < left.len() ==> !greater(out[out.len() - 1], left[l])
    &&& out.len() > 0 && r < right.len() ==> !greater(out[out.len() - 1], right[r])
}

/// The state of a merge that has moved `l` elements of `left` and `r`
/// elements of `right` into `out`.
spec fn merging<T: PartialOrd>(left: Seq<T>, right: Seq<T>, l: int, r: int, out: Seq<T>) -> bool {
    &&& 0 <= l <= left.len()
    &&& 0 <= r <= right.len()
    &&& out.len() == l + r
    &&& out.to_multiset() == left.take(l).to_multiset().add(right.take(r).to_multiset())
    &&& mirrored_order::<T>() && no_descent(left) && no_descent(right)
        ==> merging_without_descent(left, right, l, r, out)
    &&& total_order::<T>() && sorted(left) && sorted(right) ==> merging_in_order(
        left,
        right,
        l,
        r,
        out,
    )
    &&& total_order::<T>() && sorted(left + right) && ties_identical(left + right)
        ==> merging_in_place(left, right, l, r, out)
}

/// A merge starts with nothing taken and nothing written.
proof fn lemma_merging_start<T: PartialOrd>(left: Seq<T>, right: Seq<T>)
    ensures
        merging(left, right, 0, 0, Seq::<T>::empty()),
{
    let out = Seq::<T>::empty();
    assert(left.take(0) =~= out);
    assert(right.take(0) =~= out);
    broadcast use group_multiset_axioms;
    out.to_multiset_ensures();
    assert(out.to_multiset() =~= out.to_multiset().add(out.to_multiset()));
    assert((left + right).take(0) =~= out);
    assert forall|x: T| #[trigger]
        rank_class(out, x) == rank_class(right.take(0), x) + rank_class(left.take(0), x) by {
        reveal(Seq::filter);
        assert(rank_class(out, x) =~= out);
        assert(out + out =~= out);
    }
}

/// Taking the head of `left`, when `right` is used up or its head is
/// strictly greater, leads to the next state of the merge.
proof fn lemma_take_left<T: PartialOrd>(left: Seq<T>, right: Seq<T>, l: int, r: int, out: Seq<T>)
    requires
        merging(left, right, l, r, out),
        l < left.len(),
        r == right.len() || (strict_order::<T>() ==> less(left[l], right[r])),
    ensures
        merging(left, right, l + 1, r, out.push(left[l])),
{
    let z = left[l];
    let next = out.push(z);
    assert(left.take(l + 1) =~= left.take(l).push(z));
    assert(next.to_multiset() == left.take(l + 1).to_multiset().add(right.take(r).to_multiset()))
        by {
        broadcast use group_multiset_axioms;
        to_multiset_build(out, z);
        to_multiset_build(left.take(l), z);
        assert(next.to_multiset() =~= left.take(l + 1).to_multiset().add(
            right.take(r).to_multiset(),
        ));
    }
    if mirrored_order::<T>() && no_descent(left) && no_descent(right) {
        assert forall|i: int| 0 <= i && i + 1 < next.len() implies !#[trigger] greater(
            next[i],
            next[i + 1],
        ) by {
            if i + 1 < out.len() {
                assert(!greater(out[i], out[i + 1]));
            }
        }
        if l + 1 < left.len() {
            assert(!greater(left[l], left[l + 1]));
        }
        if r < right.len() {
            assert(less(z, right[r]) <==> greater(right[r], z));
        }
        assert(merging_without_descent(left, right, l + 1, r, next));
    }
    if total_order::<T>() {
        lemma_total_order_is_strict::<T>();
    }
    if total_order::<T>() && sorted(left) && sorted(right) {
        lemma_same_rank_reflexive(z);
        assert forall|i: int, j: int| 0 <= i < j < next.len() implies #[trigger] at_most(
            next[i],
            next[j],
        ) by {
            if j < out.len() {
                assert(at_most(out[i], out[j]));
            } else {
                assert(at_most(out[i], left[l]));
            }
        }
        if l + 1 < left.len() {
            assert(at_most(left[l], left[l + 1]));
            assert forall|k: int| 0 <= k < next.len() implies #[trigger] at_most(
                next[k],
                left[l + 1],
            ) by {
                if k < out.len() {
                    assert(at_most(out[k], left[l]));
                    lemma_at_most_transitive(out[k], left[l], left[l + 1]);
                }
            }
        }
        if r < right.len() {
            assert forall|k: int| 0 <= k < next.len() implies #[trigger] at_most(
                next[k],
                right[r],
            ) by {
                if k < out.len() {
                    assert(at_most(out[k], right[r]));
                }
            }
        }
        assert forall|x: T| #[trigger]
            rank_class(next, x) == rank_class(right.take(r), x) + rank_class(
                left.take(l + 1),
                x,
            ) by {
            let p = |e: T| same_rank(e, x);
            out.lemma_filter_push(z, p);
            left.take(l).lemma_filter_push(z, p);
            assert(rank_class(out, x) == rank_class(right.take(r), x) + rank_class(
                left.take(l),
                x,
            ));
            if p(z) {
                assert(rank_class(next, x) =~= rank_class(right.take(r), x) + rank_class(
                    left.take(l),
                    x,
                ).push(z));
            }
        }
        assert(merging_in_order(left, right, l + 1, r, next));
    }
    if total_order::<T>() && sorted(left + right) && ties_identical(left + right) {
        let c = left + right;
        let w = left.len() as int;
        assert(c[l] == z);
        if r > 0 {
            assert(c[w + r - 1] == right[r - 1]);
            assert(at_most(c[l], c[l + r]));
            lemma_same_rank_reflexive(c[l + r]);
            if l + r < w + r - 1 {
                assert(at_most(c[l + r], c[w + r - 1]));
            }
            lemma_at_most_transitive(c[l + r], right[r - 1], c[l]);
            lemma_same_rank_symmetric(c[l], c[l + r]);
            assert(same_rank(c[l], c[l + r]));
            if l + 1 < left.len() {
                assert(at_most(c[l], c[l + 1]));
                lemma_at_most_transitive(right[r - 1], left[l], left[l + 1]);
            }
        }
        assert(next =~= c.take(l + r + 1));
    }
}

/// Taking the head of `right`, when `left` is used up or its head is not
/// strictly less, leads to the next state of the merge.
proof fn lemma_take_right<T: PartialOrd>(left: Seq<T>, right: Seq<T>, l: int, r: int, out: Seq<T>)
    requires
        merging(left, right, l, r, out),
        r < right.len(),
        l == left.len() || (strict_order::<T>() ==> !less(left[l], right[r])),
    ensures
        merging(left, right, l, r + 1, out.push(right[r])),
{
    let y = right[r];
    let next = out.push(y);
    assert(right.take(r + 1) =~= right.take(r).push(y));
    assert(next.to_multiset() == left.take(l).to_multiset().add(right.take(r + 1).to_multiset()))
        by {
        broadcast use group_multiset_axioms;
        to_multiset_build(out, y);
        to_multiset_build(right.take(r), y);
        assert(next.to_multiset() =~= left.take(l).to_multiset().add(
            right.take(r + 1).to_multiset(),
        ));
    }
    if mirrored_order::<T>() && no_descent(left) && no_descent(right) {
        assert forall|i: int| 0 <= i && i + 1 < next.len() implies !#[trigger] greater(
            next[i],
            next[i + 1],
        ) by {
            if i + 1 < out.len() {
                assert(!greater(out[i], out[i + 1]));
            }
        }
        if r + 1 < right.len() {
            assert(!greater(right[r], right[r + 1]));
        }
        if l < left.len() {
            assert(less(left[l], y) <==> greater(y, left[l]));
        }
        assert(merging_without_descent(left, right, l, r + 1, next));
    }
    if total_order::<T>() {
        lemma_total_order_is_strict::<T>();
        lemma_same_rank_reflexive(y);
        if l < left.len() {
            lemma_trichotomy(left[l], y);
        }
    }
    if total_order::<T>() && sorted(left) && sorted(right) {
        assert forall|i: int, j: int| 0 <= i < j < next.len() implies #[trigger] at_most(
            next[i],
            next[j],
        ) by {
            if j < out.len() {
                assert(at_most(out[i], out[j]));
            } else {
                assert(at_most(out[i], right[r]));
            }
        }
        if l < left.len() {
            assert forall|k: int| 0 <= k < next.len() implies #[trigger] at_most(
                next[k],
                left[l],
            ) by {
                if k < out.len() {
                    assert(at_most(out[k], left[l]));
                }
            }
        }
        if r + 1 < right.len() {
            assert(at_most(right[r], right[r + 1]));
            assert forall|k: int| 0 <= k < next.len() implies #[trigger] at_most(
                next[k],
                right[r + 1],
            ) by {
                if k < out.len() {
                    assert(at_most(out[k], right[r]));
                    lemma_at_most_transitive(out[k], right[r], right[r + 1]);
                }
            }
            assert forall|k: int| 0 <= k < l implies #[trigger] less(left[k], right[r + 1]) by {
                assert(less(left[k], right[r]));
                lemma_less_then_at_most(left[k], right[r], right[r + 1]);
            }
        }
        assert forall|x: T| #[trigger]
            rank_class(next, x) == rank_class(right.take(r + 1), x) + rank_class(
                left.take(l),
                x,
            ) by {
            let p = |e: T| same_rank(e, x);
            out.lemma_filter_push(y, p);
            right.take(r).lemma_filter_push(y, p);
            assert(rank_class(out, x) == rank_class(right.take(r), x) + rank_class(
                left.take(l),
                x,
            ));
            if p(y) {
                let taken = left.take(l);
                assert forall|k: int| 0 <= k < taken.len() implies !p(#[trigger] taken[k]) by {
                    assert(less(left[k], right[r]));
                    if same_rank(left[k], x) {
                        lemma_same_rank_symmetric(y, x);
                        lemma_same_rank_transitive(left[k], x, y);
                    }
                }
                assert(taken.all(|e: T| !p(e)));
                taken.lemma_all_neg_filter_empty(p);
                assert(rank_class(next, x) =~= rank_class(right.take(r), x).push(y) + rank_class(
                    taken,
                    x,
                ));
            }
        }
        assert(merging_in_order(left, right, l, r + 1, next));
    }
    if total_order::<T>() && sorted(left + right) && ties_identical(left + right) {
        let c = left + right;
        let w = left.len() as int;
        assert(c[w + r] == y);
        if l < w {
            assert(c[l] == left[l]);
            lemma_same_rank_reflexive(c[l]);
            if r > 0 {
                assert(at_most(c[l], c[l + r]));
            }
            assert(at_most(c[l + r], c[w + r]));
            lemma_at_most_transitive(c[w + r], c[l], c[l + r]);
            lemma_same_rank_symmetric(c[l + r], c[w + r]);
            assert(same_rank(c[l + r], c[w + r]));
        }
        assert(next =~= c.take(l + r + 1));
    }
}

/// Merges two runs into a new vector.
///
/// At each step the head of `left` is taken if it is strictly less than the
/// head of `right`, and the head of `right` otherwise; when one run is used
/// up the rest of the other follows. So within one rank the elements of
/// `right` come out ahead of those of `left`.
pub fn merge_runs<T: Copy + PartialOrd>(left: &[T], right: &[T]) -> (result: Vec<T>)
    requires
        left@.len() + right@.len() <= usize::MAX,
    ensures
        result@.len() == left@.len() + right@.len(),
        result@.to_multiset() == left@.to_multiset().add(right@.to_multiset()),
        mirrored_order::<T>() && no_descent(left@) && no_descent(right@) ==> no_descent(result@),
        total_order::<T>() && sorted(left@) && sorted(right@) ==> sorted(result@),
        total_order::<T>() && sorted(left@) && sorted(right@) ==> forall|x: T| #[trigger]
            rank_class(result@, x) == rank_class(right@, x) + rank_class(left@, x),
        total_order::<T>() && sorted(left@ + right@) && ties_identical(left@ + right@)
            ==> result@ == left@ + right@,
{
    let left_len = left.len();
    let right_len = right.len();
    let mut result: Vec<T> = Vec::with_capacity(left_len + right_len);
    let mut l: usize = 0;
    let mut r: usize = 0;
    proof {
        lemma_merging_start(left@, right@);
    }
    while l < left_len && r < right_len
        invariant
            left_len == left@.len(),
            right_len == right@.len(),
            merging(left@, right@, l as int, r as int, result@),
        decreases left_len - l + right_len - r,
    {
        if left[l] < right[r] {
            proof {
                lemma_take_left(left@, right@, l as int, r as int, result@);
            }
            result.push(left[l]);
            l += 1;
        } else {
            proof {
                lemma_take_right(left@, right@, l as int, r as int, result@);
            }
            result.push(right[r]);
            r += 1;
        }
    }
    while l < left_len
        invariant
            left_len == left@.len(),
            right_len == right@.len(),
            l == left_len || r == right_len,
            merging(left@, right@, l as int, r as int, result@),
        decreases left_len - l,
    {
        proof {
            lemma_take_left(left@, right@, l as int, r as int, result@);
        }
        result.push(left[l]);
        l += 1;
    }
    while r < right_len
        invariant
            left_len == left@.len(),
            right_len == right@.len(),
            l == left_len,
            merging(left@, right@, l as int, r as int, result@),
        decreases right_len - r,
    {
        proof {
            lemma_take_right(left@, right@, l as int, r as int, result@);
        }
        result.push(right[r]);
        r += 1;
    }
    proof {
        assert(left@.take(l as int) =~= left@);
        assert(right@.take(r as int) =~= right@);
        assert((left@ + right@).take(l + r) =~= left@ + right@);
    }
    result
}

/// Reversing a concatenation reverses each part and exchanges the two.
proof fn lemma_reverse_of_concat<T>(a: Seq<T>, b: Seq<T>)
    ensures
        (a + b).reverse() == b.reverse() + a.reverse(),
{
    assert((a + b).reverse() =~= b.reverse() + a.reverse());
}

/// A sequence of at most one element has every rank class in both orders at
/// once.
proof fn lemma_short_reverses_tie_order<T: PartialOrd>(s: Seq<T>)
    requires
        s.len() < 2,
    ensures
        reverses_tie_order(s, s),
        sorted(s),
{
    assert forall|x: T| #[trigger] rank_class(s, x) == rank_class(s, x).reverse() by {
        let p = |e: T| same_rank(e, x);
        s.lemma_filter_len(p);
        assert(rank_class(s, x) =~= rank_class(s, x).reverse());
    }
}

/// Sorts `items` in place by splitting, sorting the halves and merging them.
///
/// The slice is split at `len / 2`, each half is sorted by the same routine,
/// and the halves are merged through a buffer that is then copied back. The
/// merge takes from the lower half only when its head is strictly less, so
/// elements of equal rank come out in the opposite of their input order. A
/// slice of fewer than two elements is left untouched.
///
/// The elements are kept whatever the comparison does. When `<` and `>`
/// mirror each other and `>` never holds of a pair both ways, the result has
/// no element greater than its right neighbour; when the comparison is a
/// total order that makes it ordered throughout.
pub fn merge_sort<T: Copy + PartialOrd>(items: &mut [T])
    ensures
        final(items)@.to_multiset() == old(items)@.to_multiset(),
        final(items)@.len() == old(items)@.len(),
        old(items)@.len() < 2 ==> final(items)@ == old(items)@,
        mirrored_order::<T>() ==> no_descent(final(items)@),
        total_order::<T>() ==> sorted(final(items)@),
        total_order::<T>() ==> reverses_tie_order(old(items)@, final(items)@),
        total_order::<T>() && sorted(old(items)@) && ties_identical(old(items)@)
            ==> final(items)@ == old(items)@,
    decreases old(items)@.len(),
{
    let len = items.len();
    let ghost initial = items@;
    if len < 2 {
        proof {
            lemma_short_reverses_tie_order(initial);
        }
        return ;
    }
    let mid = len / 2;
    let (left, right) = items.split_at_mut(mid);
    let ghost lower = left@;
    let ghost upper = right@;
    proof {
        assert(initial =~= lower + upper);
    }
    merge_sort(left);
    merge_sort(right);
    let result = merge_runs(left, right);
    proof {
        broadcast use group_multiset_axioms;
        lemma_multiset_commutative(lower, upper);
        if total_order::<T>() {
            assert forall|x: T| #[trigger]
                rank_class(result@, x) == rank_class(initial, x).reverse() by {
                let p = |e: T| same_rank(e, x);
                Seq::filter_distributes_over_add(lower, upper, p);
                lemma_reverse_of_concat(rank_class(lower, x), rank_class(upper, x));
                assert(rank_class(left@, x) == rank_class(lower, x).reverse());
                assert(rank_class(right@, x) == rank_class(upper, x).reverse());
            }
            if sorted(initial) && ties_identical(initial) {
                assert forall|i: int, j: int| 0 <= i < j < lower.len() implies #[trigger] at_most(
                    lower[i],
                    lower[j],
                ) by {
                    assert(at_most(initial[i], initial[j]));
                }
                assert forall|i: int, j: int| 0 <= i < j < upper.len() implies #[trigger] at_most(
                    upper[i],
                    upper[j],
                ) by {
                    assert(at_most(initial[mid + i], initial[mid + j]));
                }
                assert forall|i: int, j: int|
                    0 <= i < j < lower.len() && #[trigger] same_rank(
                        lower[i],
                        lower[j],
                    ) implies lower[i] == lower[j] by {
                    assert(same_rank(initial[i], initial[j]));
                }
                assert forall|i: int, j: int|
                    0 <= i < j < upper.len() && #[trigger] same_rank(
                        upper[i],
                        upper[j],
                    ) implies upper[i] == upper[j] by {
                    assert(same_rank(initial[mid + i], initial[mid + j]));
                }
            }
        }
    }
    items.copy_from_slice(result.as_slice());
}

} // verus!
