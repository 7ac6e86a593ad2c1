use sort::{bubble_sort, insertion_sort, merge_sort};

#[test]
fn test_bubble_sort() {
    let list1 = &mut [1, 3, 2, 11, 6, 8, 9, 2, 3, 1];
    bubble_sort(list1);
    assert_eq!(&mut [1, 1, 2, 2, 3, 3, 6, 8, 9, 11], list1);

    let list2 = &mut [1, 3, 2, 11, 6, 8, 9, -1, 2, 3, 1];
    bubble_sort(list2);
    assert_eq!(&mut [-1, 1, 1, 2, 2, 3, 3, 6, 8, 9, 11], list2);

    let list3 = &mut [1.01, 1.00, 10.5, 0.8, 0.001];
    bubble_sort(list3);
    assert_eq!(&mut [0.001, 0.8, 1.00, 1.01, 10.5], list3);

    let list4 = &mut ['a', 'c', 'b'];
    bubble_sort(list4);
    assert_eq!(&mut ['a', 'b', 'c'], list4);

    let list5 = &mut ["Test", "A old day", "A new day"];
    bubble_sort(list5);
    assert_eq!(&mut ["A new day", "A old day", "Test"], list5);
}

#[test]
fn test_insertion_sort() {
    let list1 = &mut [1, 3, 2, 11, 6, 8, 9, 2, 3, 1];
    insertion_sort(list1);
    assert_eq!(&mut [1, 1, 2, 2, 3, 3, 6, 8, 9, 11], list1);

    let list2 = &mut [1, 3, 2, 11, 6, 8, 9, -1, 2, 3, 1];
    insertion_sort(list2);
    assert_eq!(&mut [-1, 1, 1, 2, 2, 3, 3, 6, 8, 9, 11], list2);

    let list3 = &mut [1.01, 1.00, 10.5, 0.8, 0.001];
    insertion_sort(list3);
    assert_eq!(&mut [0.001, 0.8, 1.00, 1.01, 10.5], list3);

    let list4 = &mut ['a', 'c', 'b'];
    insertion_sort(list4);
    assert_eq!(&mut ['a', 'b', 'c'], list4);

    let list5 = &mut ["Test", "A old day", "A new day"];
    insertion_sort(list5);
    assert_eq!(&mut ["A new day", "A old day", "Test"], list5);
}

#[test]
fn test_merge_sort() {
    let list1 = &mut [1, 3, 2, 11, 6, 8, 9, 2, 3, 1];
    merge_sort(list1);
    assert_eq!(&mut [1, 1, 2, 2, 3, 3, 6, 8, 9, 11], list1);

    let list2 = &mut [1, 3, 2, 11, 6, 8, -1, 9, 2, 3, 1];
    merge_sort(list2);
    assert_eq!(&mut [-1, 1, 1, 2, 2, 3, 3, 6, 8, 9, 11], list2);

    let list3 = &mut [1.01, 1.00, 10.5, 0.8, 0.001];
    merge_sort(list3);
    assert_eq!(&mut [0.001, 0.8, 1.00, 1.01, 10.5], list3);

    let list4 = &mut ['a', 'c', 'b'];
    merge_sort(list4);
    assert_eq!(&mut ['a', 'b', 'c'], list4);

    let list5 = &mut ["Test", "A old day", "A new day"];
    merge_sort(list5);
    assert_eq!(&mut ["A new day", "A old day", "Test"], list5);
}
