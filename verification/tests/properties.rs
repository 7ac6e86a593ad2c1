use sort::merge::merge_runs;
use sort::{bubble_sort, insertion_sort, merge_sort};
use std::cmp::Ordering;

/// An element ordered by `key` alone; `tag` tells elements of one rank apart.
#[derive(Clone, Copy, Debug)]
struct Card {
    key: u8,
    tag: char,
}

impl PartialEq for Card {
    fn eq(&self, other: &Card) -> bool {
        self.key == other.key
    }
}

impl PartialOrd for Card {
    fn partial_cmp(&self, other: &Card) -> Option<Ordering> {
        self.key.partial_cmp(&other.key)
    }
}

fn card(key: u8, tag: char) -> Card {
    Card { key, tag }
}

fn faces(cards: &[Card]) -> Vec<(u8, char)> {
    cards.iter().map(|c| (c.key, c.tag)).collect()
}

fn hand() -> Vec<Card> {
    vec![
        card(3, 'a'),
        card(1, 'b'),
        card(3, 'c'),
        card(2, 'd'),
        card(1, 'e'),
        card(3, 'f'),
        card(2, 'g'),
    ]
}

#[test]
fn empty_slice_stays_empty() {
    let mut a: [i32; 0] = [];
    bubble_sort(&mut a);
    assert_eq!(a, []);
    let mut b: [i32; 0] = [];
    insertion_sort(&mut b);
    assert_eq!(b, []);
    let mut c: [i32; 0] = [];
    merge_sort(&mut c);
    assert_eq!(c, []);
}

#[test]
fn single_element_stays() {
    let mut a = [7];
    bubble_sort(&mut a);
    assert_eq!(a, [7]);
    let mut b = [7];
    insertion_sort(&mut b);
    assert_eq!(b, [7]);
    let mut c = [7];
    merge_sort(&mut c);
    assert_eq!(c, [7]);
}

#[test]
fn two_elements_out_of_order() {
    let mut a = [2, 1];
    bubble_sort(&mut a);
    assert_eq!(a, [1, 2]);
    let mut b = [2, 1];
    insertion_sort(&mut b);
    assert_eq!(b, [1, 2]);
    let mut c = [2, 1];
    merge_sort(&mut c);
    assert_eq!(c, [1, 2]);
}

#[test]
fn reverse_sorted_input() {
    let mut a = [9, 7, 5, 3, 1, 0];
    bubble_sort(&mut a);
    assert_eq!(a, [0, 1, 3, 5, 7, 9]);
    let mut b = [9, 7, 5, 3, 1, 0];
    insertion_sort(&mut b);
    assert_eq!(b, [0, 1, 3, 5, 7, 9]);
    let mut c = [9, 7, 5, 3, 1, 0];
    merge_sort(&mut c);
    assert_eq!(c, [0, 1, 3, 5, 7, 9]);
}

#[test]
fn elements_are_kept_with_their_multiplicity() {
    let input = [5u32, 5, 1, 5, 0, 1, 7, 7, 0];
    let mut a = input;
    bubble_sort(&mut a);
    let mut b = input;
    insertion_sort(&mut b);
    let mut c = input;
    merge_sort(&mut c);
    for out in [a, b, c] {
        assert_eq!(out.len(), input.len());
        for v in 0u32..8 {
            let before = input.iter().filter(|e| **e == v).count();
            let after = out.iter().filter(|e| **e == v).count();
            assert_eq!(before, after);
        }
    }
}

#[test]
fn output_is_in_order() {
    let input = [12i64, -4, 99, 0, 0, 35, -120, 8, 8, 3];
    let mut a = input;
    bubble_sort(&mut a);
    let mut b = input;
    insertion_sort(&mut b);
    let mut c = input;
    merge_sort(&mut c);
    for out in [a, b, c] {
        for i in 0..out.len() - 1 {
            assert!(out[i] <= out[i + 1]);
        }
    }
    assert_eq!(a, [-120, -4, 0, 0, 3, 8, 8, 12, 35, 99]);
}

#[test]
fn sorted_input_is_left_alone() {
    let mut a = [1, 2, 2, 3, 10];
    bubble_sort(&mut a);
    assert_eq!(a, [1, 2, 2, 3, 10]);
    let mut b = [1, 2, 2, 3, 10];
    insertion_sort(&mut b);
    assert_eq!(b, [1, 2, 2, 3, 10]);
    let mut c = [1, 2, 2, 3, 10];
    merge_sort(&mut c);
    assert_eq!(c, [1, 2, 2, 3, 10]);
}

#[test]
fn sorting_twice_changes_nothing_more() {
    let mut a = [4, 1, 3, 1, 2];
    bubble_sort(&mut a);
    let once = a;
    bubble_sort(&mut a);
    assert_eq!(a, once);
    let mut b = [4, 1, 3, 1, 2];
    insertion_sort(&mut b);
    let once = b;
    insertion_sort(&mut b);
    assert_eq!(b, once);
    let mut c = [4, 1, 3, 1, 2];
    merge_sort(&mut c);
    let once = c;
    merge_sort(&mut c);
    assert_eq!(c, once);
}

#[test]
fn bubble_sort_keeps_order_of_equal_keys() {
    let mut cards = hand();
    bubble_sort(&mut cards);
    assert_eq!(
        faces(&cards),
        vec![(1, 'b'), (1, 'e'), (2, 'd'), (2, 'g'), (3, 'a'), (3, 'c'), (3, 'f')]
    );
}

#[test]
fn insertion_sort_keeps_order_of_equal_keys() {
    let mut cards = hand();
    insertion_sort(&mut cards);
    assert_eq!(
        faces(&cards),
        vec![(1, 'b'), (1, 'e'), (2, 'd'), (2, 'g'), (3, 'a'), (3, 'c'), (3, 'f')]
    );
}

#[test]
fn merge_sort_reverses_order_of_equal_keys() {
    let mut cards = hand();
    merge_sort(&mut cards);
    assert_eq!(
        faces(&cards),
        vec![(1, 'e'), (1, 'b'), (2, 'g'), (2, 'd'), (3, 'f'), (3, 'c'), (3, 'a')]
    );
}

#[test]
fn merge_sort_of_two_equal_keys_exchanges_them() {
    let mut cards = [card(5, 'x'), card(5, 'y')];
    merge_sort(&mut cards);
    assert_eq!(faces(&cards), vec![(5, 'y'), (5, 'x')]);
}

#[test]
fn stable_sorts_leave_sorted_ties_alone() {
    let mut a = [card(5, 'x'), card(5, 'y'), card(6, 'z')];
    bubble_sort(&mut a);
    assert_eq!(faces(&a), vec![(5, 'x'), (5, 'y'), (6, 'z')]);
    let mut b = [card(5, 'x'), card(5, 'y'), card(6, 'z')];
    insertion_sort(&mut b);
    assert_eq!(faces(&b), vec![(5, 'x'), (5, 'y'), (6, 'z')]);
}

#[test]
fn all_three_agree_on_keys() {
    let mut a = hand();
    bubble_sort(&mut a);
    let mut b = hand();
    insertion_sort(&mut b);
    let mut c = hand();
    merge_sort(&mut c);
    let keys = |cards: &[Card]| cards.iter().map(|c| c.key).collect::<Vec<u8>>();
    assert_eq!(keys(&a), vec![1, 1, 2, 2, 3, 3, 3]);
    assert_eq!(keys(&a), keys(&b));
    assert_eq!(keys(&a), keys(&c));
    assert_eq!(faces(&a), faces(&b));
}

#[test]
fn odd_length_splits_with_shorter_lower_half() {
    let mut cards = [card(1, 'a'), card(1, 'b'), card(1, 'c')];
    merge_sort(&mut cards);
    assert_eq!(faces(&cards), vec![(1, 'c'), (1, 'b'), (1, 'a')]);
    let mut v = [2, 3, 1];
    merge_sort(&mut v);
    assert_eq!(v, [1, 2, 3]);
}

#[test]
fn merge_runs_takes_right_on_ties() {
    let left = [card(1, 'a'), card(2, 'b'), card(4, 'c')];
    let right = [card(2, 'd'), card(3, 'e')];
    let out = merge_runs(&left, &right);
    assert_eq!(
        faces(&out),
        vec![(1, 'a'), (2, 'd'), (2, 'b'), (3, 'e'), (4, 'c')]
    );
}

#[test]
fn merge_runs_drains_the_longer_run() {
    let out = merge_runs(&[1, 2], &[3, 4, 5, 6]);
    assert_eq!(out, vec![1, 2, 3, 4, 5, 6]);
    let out = merge_runs(&[7, 8, 9], &[1]);
    assert_eq!(out, vec![1, 7, 8, 9]);
    let none: [i32; 0] = [];
    assert_eq!(merge_runs(&none, &[1, 2]), vec![1, 2]);
    assert_eq!(merge_runs(&[1, 2], &none), vec![1, 2]);
}

#[test]
fn sorts_a_vector_through_its_slice() {
    let mut v = vec![3u8, 1, 2];
    bubble_sort(v.as_mut_slice());
    assert_eq!(v, vec![1, 2, 3]);
    let mut w = vec![3u8, 1, 2];
    insertion_sort(&mut w);
    assert_eq!(w, vec![1, 2, 3]);
    let mut x = vec![3u8, 1, 2];
    merge_sort(&mut x[..]);
    assert_eq!(x, vec![1, 2, 3]);
}

#[test]
fn incomparable_element_is_never_exchanged() {
    let mut a = [2.0f64, f64::NAN, 1.0];
    bubble_sort(&mut a);
    assert_eq!(a[0], 2.0);
    assert!(a[1].is_nan());
    assert_eq!(a[2], 1.0);
    let mut b = [2.0f64, f64::NAN, 1.0];
    insertion_sort(&mut b);
    assert_eq!(b[0], 2.0);
    assert!(b[1].is_nan());
    assert_eq!(b[2], 1.0);
}

#[test]
fn merge_sort_takes_right_when_heads_are_incomparable() {
    let mut c = [2.0f64, f64::NAN, 1.0];
    merge_sort(&mut c);
    assert_eq!(c[0], 1.0);
    assert!(c[1].is_nan());
    assert_eq!(c[2], 2.0);
}

#[test]
fn no_neighbour_is_out_of_order_after_sorting() {
    let input = [3.5f64, f64::NAN, -1.0, 8.0, f64::NAN, 0.0, 2.0];
    let mut a = input;
    bubble_sort(&mut a);
    let mut b = input;
    insertion_sort(&mut b);
    let mut c = input;
    merge_sort(&mut c);
    for out in [a, b, c] {
        assert_eq!(out.len(), 7);
        assert_eq!(out.iter().filter(|e| e.is_nan()).count(), 2);
        for i in 0..out.len() - 1 {
            assert!(!(out[i] > out[i + 1]));
        }
    }
}
