//! Contracts for the slice operations of the standard library that the sorts
//! call and that `vstd` says nothing about. They are taken on trust from the
//! standard library's documentation; nothing here proves them.
use vstd::prelude::*;

verus! {

/// `<[T]>::swap`: exchanges the elements at positions `a` and `b` and leaves
/// every other position as it was. The standard library panics when an index
/// is out of bounds, so both must lie inside the slice.
pub assume_specification<V>[ <[V]>::swap ](slice: &mut [V], a: usize, b: usize)
    requires
        a < old(slice)@.len(),
        b < old(slice)@.len(),
    ensures
        final(slice)@ == old(slice)@.update(a as int, old(slice)@[b as int]).update(
            b as int,
            old(slice)@[a as int],
        ),
;

/// `<[T]>::copy_from_slice`: overwrites `dst` with the elements of `src`. The
/// standard library panics when the two lengths differ, so they must agree.
pub assume_specification<V>[ <[V]>::copy_from_slice ](dst: &mut [V], src: &[V]) where V: Copy
    requires
        old(dst)@.len() == src@.len(),
    ensures
        final(dst)@ == src@,
;

} // verus!
