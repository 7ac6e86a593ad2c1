//! What it means for a sequence to be in order, and how exchanging two
//! neighbours changes it.
use vstd::prelude::*;
use vstd::seq_lib::to_multiset_update;
use vstd::multiset::group_multiset_axioms;
use crate::order::{at_most, greater, same_rank, total_order};
use crate::order::{lemma_trichotomy, lemma_at_most_transitive};
use crate::order::{lemma_same_rank_symmetric, lemma_same_rank_transitive};

verus! {

/// No element is followed, anywhere later, by one of lower rank.
pub open spec fn sorted<T: PartialOrd>(s: Seq<T>) -> bool {
    forall|i: int, j: int| 0 <= i < j < s.len() ==> #[trigger] at_most(s[i], s[j])
}

/// No element is strictly greater than its right neighbour.
pub open spec fn no_descent<T: PartialOrd>(s: Seq<T>) -> bool {
    forall|i: int| 0 <= i && i + 1 < s.len() ==> !#[trigger] greater(s[i], s[i + 1])
}

/// Under a total order, a sequence in which no element is greater than its
/// right neighbour is in order.
pub proof fn lemma_no_descent_is_sorted<T: PartialOrd>(s: Seq<T>)
    requires
        total_order::<T>(),
        no_descent(s),
    ensures
        sorted(s),
{
    assert forall|i: int, j: int| 0 <= i < j < s.len() implies #[trigger] at_most(s[i], s[j]) by {
        lemma_climb(s, i, j);
    }
}

/// Without a descent between neighbours there is none between any two
/// positions.
proof fn lemma_climb<T: PartialOrd>(s: Seq<T>, i: int, j: int)
    requires
        total_order::<T>(),
        no_descent(s),
        0 <= i < j < s.len(),
    ensures
        at_most(s[i], s[j]),
    decreases j - i,
{
    let k = j - 1;
    assert(!greater(s[k], s[k + 1]));
    lemma_trichotomy(s[k], s[k + 1]);
    if i < k {
        lemma_climb(s, i, k);
        lemma_at_most_transitive(s[i], s[k], s[k + 1]);
    }
}

/// Under a total order, a sequence in order has no element greater than its
/// right neighbour.
pub proof fn lemma_sorted_has_no_descent<T: PartialOrd>(s: Seq<T>)
    requires
        total_order::<T>(),
        sorted(s),
    ensures
        no_descent(s),
{
    assert forall|i: int| 0 <= i && i + 1 < s.len() implies !#[trigger] greater(
        s[i],
        s[i + 1],
    ) by {
        assert(at_most(s[i], s[i + 1]));
        lemma_trichotomy(s[i], s[i + 1]);
    }
}

/// The elements of `s` that have the rank of `x`, in the order in which they
/// stand in `s`.
pub open spec fn rank_class<T: PartialOrd>(s: Seq<T>, x: T) -> Seq<T> {
    s.filter(|e: T| same_rank(e, x))
}

/// Elements of equal rank stand in `after` in the order they had in `before`.
pub open spec fn keeps_tie_order<T: PartialOrd>(before: Seq<T>, after: Seq<T>) -> bool {
    forall|x: T| #[trigger] rank_class(after, x) == rank_class(before, x)
}

/// Elements of equal rank stand in `after` in the opposite of the order they
/// had in `before`.
pub open spec fn reverses_tie_order<T: PartialOrd>(before: Seq<T>, after: Seq<T>) -> bool {
    forall|x: T| #[trigger] rank_class(after, x) == rank_class(before, x).reverse()
}

/// Elements of `s` that have the same rank are the same value.
pub open spec fn ties_identical<T: PartialOrd>(s: Seq<T>) -> bool {
    forall|i: int, j: int|
        0 <= i < j < s.len() && #[trigger] same_rank(s[i], s[j]) ==> s[i] == s[j]
}

/// `s` with the elements at `i` and `j` exchanged.
pub open spec fn exchanged<T>(s: Seq<T>, i: int, j: int) -> Seq<T> {
    s.update(i, s[j]).update(j, s[i])
}

/// Exchanging two elements keeps the multiset of elements.
pub proof fn lemma_exchanged_same_elements<T>(s: Seq<T>, i: int, j: int)
    requires
        0 <= i < s.len(),
        0 <= j < s.len(),
    ensures
        exchanged(s, i, j).to_multiset() == s.to_multiset(),
{
    broadcast use group_multiset_axioms;
    let mid = s.update(i, s[j]);
    to_multiset_update(s, i, s[j]);
    to_multiset_update(mid, j, s[i]);
    s.to_multiset_ensures();
    mid.to_multiset_ensures();
    assert(s.to_multiset().count(s[i]) > 0);
    assert(mid.to_multiset().count(mid[j]) > 0);
    assert(exchanged(s, i, j).to_multiset() =~= s.to_multiset());
}

/// Exchanging two neighbours of different rank leaves every rank class as it
/// was.
pub proof fn lemma_exchanged_keeps_tie_order<T: PartialOrd>(s: Seq<T>, i: int)
    requires
        total_order::<T>(),
        0 <= i,
        i + 1 < s.len(),
        !same_rank(s[i], s[i + 1]),
    ensures
        keeps_tie_order(s, exchanged(s, i, i + 1)),
{
    let t = exchanged(s, i, i + 1);
    let a = s[i];
    let b = s[i + 1];
    let head = s.take(i);
    let tail = s.skip(i + 2);
    let none = Seq::<T>::empty();
    assert(s =~= head + none.push(a).push(b) + tail);
    assert(t =~= head + none.push(b).push(a) + tail);
    assert forall|x: T| #[trigger] rank_class(t, x) == rank_class(s, x) by {
        let p = |e: T| same_rank(e, x);
        if p(a) && p(b) {
            lemma_same_rank_symmetric(b, x);
            lemma_same_rank_transitive(a, x, b);
        }
        assert(none.filter(p) =~= none) by {
            reveal(Seq::filter);
        }
        none.lemma_filter_push(a, p);
        none.push(a).lemma_filter_push(b, p);
        none.lemma_filter_push(b, p);
        none.push(b).lemma_filter_push(a, p);
        assert(none.push(a).push(b).filter(p) =~= none.push(b).push(a).filter(p));
        Seq::filter_distributes_over_add(head, none.push(a).push(b), p);
        Seq::filter_distributes_over_add(head + none.push(a).push(b), tail, p);
        Seq::filter_distributes_over_add(head, none.push(b).push(a), p);
        Seq::filter_distributes_over_add(head + none.push(b).push(a), tail, p);
    }
}

} // verus!
