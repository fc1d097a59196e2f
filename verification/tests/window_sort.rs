use window_sort_iterator::window_sort;
use window_sort_iterator::WindowSortIterExt;

#[test]
fn should_sort_i32_fn() {
    let a = vec![3_i64, 4, 2, 1];
    let mut it = window_sort(a, 2);
    assert_eq!(Some(4), it.next());
    assert_eq!(Some(3), it.next());
    assert_eq!(Some(2), it.next());
    assert_eq!(Some(1), it.next());
    assert_eq!(None, it.next());
}

#[test]
fn should_sort_i32_method() {
    let a = vec![3_i64, 4, 2, 1];
    let mut it = a.window_sort(2);
    assert_eq!(Some(4), it.next());
    assert_eq!(Some(3), it.next());
    assert_eq!(Some(2), it.next());
    assert_eq!(Some(1), it.next());
    assert_eq!(None, it.next());
}

#[test]
fn should_sort_window_only() {
    let a = vec![4_i64, 2, 1, 3];
    let mut it = window_sort(a, 2);
    assert_eq!(Some(4), it.next());
    assert_eq!(Some(2), it.next());
    assert_eq!(Some(3), it.next());
    assert_eq!(Some(1), it.next());
    assert_eq!(None, it.next());
}

#[test]
fn small_underlying_iterator() {
    let a = vec![2_i64, 3, 4, 1];
    let mut it = window_sort(a, 10);
    assert_eq!(Some(4), it.next());
    assert_eq!(Some(3), it.next());
    assert_eq!(Some(2), it.next());
    assert_eq!(Some(1), it.next());
    assert_eq!(None, it.next());
}

#[test]
fn mostly_sorted_within_window() {
    let a = vec![4_i64, 2, 3, 1];
    let mut it = window_sort(a, 2);
    assert_eq!(Some(4), it.next());
    assert_eq!(Some(3), it.next());
    assert_eq!(Some(2), it.next());
    assert_eq!(Some(1), it.next());
    assert_eq!(None, it.next());
}

#[test]
fn reversed_order_via_negation() {
    // Min-first direction: feed items through an order-reversing map
    // (negation) and map the output back.
    let a = vec![1_i64, 4, 2, 3];
    let negated: Vec<i64> = a.iter().map(|i| -i).collect();
    let mut it = window_sort(negated, 2);
    assert_eq!(Some(1), it.next().map(|i| -i));
    assert_eq!(Some(2), it.next().map(|i| -i));
    assert_eq!(Some(3), it.next().map(|i| -i));
    assert_eq!(Some(4), it.next().map(|i| -i));
    assert_eq!(None, it.next());
}

#[test]
fn zero_window_passes_items_through() {
    let a = vec![3_i64, 1, 2];
    let mut it = window_sort(a, 0);
    assert_eq!(Some(3), it.next());
    assert_eq!(Some(1), it.next());
    assert_eq!(Some(2), it.next());
    assert_eq!(None, it.next());
}

#[test]
fn one_window_passes_items_through() {
    let a = vec![3_i64, 1, 2];
    let mut it = window_sort(a, 1);
    assert_eq!(Some(3), it.next());
    assert_eq!(Some(1), it.next());
    assert_eq!(Some(2), it.next());
    assert_eq!(None, it.next());
}

#[test]
fn empty_input_yields_nothing() {
    let a: Vec<i64> = vec![];
    let mut it = window_sort(a, 4);
    assert_eq!(None, it.next());
    assert_eq!((0, Some(0)), it.size_hint());
}

#[test]
fn exhaustion_is_stable() {
    let a = vec![2_i64, 1];
    let mut it = window_sort(a, 3);
    assert_eq!(Some(2), it.next());
    assert_eq!(Some(1), it.next());
    assert_eq!(None, it.next());
    assert_eq!(None, it.next());
    assert_eq!(None, it.next());
}

#[test]
fn duplicate_items_are_all_produced() {
    let a = vec![5_i64, 1, 5, 2];
    let mut it = window_sort(a, 3);
    assert_eq!(vec![5_i64, 5, 2, 1], it.drain());
    assert_eq!(None, it.next());
}

#[test]
fn drain_produces_the_whole_output() {
    let a = vec![4_i64, 2, 1, 3];
    let mut it = window_sort(a, 2);
    assert_eq!(vec![4_i64, 2, 3, 1], it.drain());
    assert_eq!((0, Some(0)), it.size_hint());
}

#[test]
fn size_hint_is_exact() {
    let a = vec![4_i64, 2, 3, 1];
    let mut it = window_sort(a, 2);
    assert_eq!((4, Some(4)), it.size_hint());
    assert_eq!(Some(4), it.next());
    // two items were polled into the window, one was emitted
    assert_eq!((3, Some(3)), it.size_hint());
    it.drain();
    assert_eq!((0, Some(0)), it.size_hint());
}

#[test]
fn almost_sorted_input_fully_sorts() {
    // no item is a full window late, so the output is perfectly sorted
    let a = vec![9_i64, 10, 8, 9, 7];
    let mut it = window_sort(a, 2);
    assert_eq!(vec![10_i64, 9, 9, 8, 7], it.drain());
}

#[test]
fn large_values_are_handled() {
    let a = vec![i64::MIN, i64::MAX, 0];
    let mut it = window_sort(a, 2);
    assert_eq!(Some(i64::MAX), it.next());
    assert_eq!(Some(0), it.next());
    assert_eq!(Some(i64::MIN), it.next());
    assert_eq!(None, it.next());
}
