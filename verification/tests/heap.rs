use flexible_heap::BinaryHeap;
use std::cmp::Ordering;
use std::f64::INFINITY;

#[test]
fn test_sift_down() {
    let elements = vec![5, 4, 3, 2, 1];
    let heap = BinaryHeap::from_array(elements, |a, b| b.cmp(a));
    let inner = heap.into_inner();
    assert!(inner.as_slice() == [1, 2, 3, 5, 4].as_slice())
}

#[test]
fn test_pop() {
    let mut heap = BinaryHeap::from_array(vec![5, 4, 3, 2, 1], |a, b| b.cmp(a));
    assert_eq!(heap.pop(), Some(1));
    assert_eq!(heap.pop(), Some(2));
    assert_eq!(heap.pop(), Some(3));
    assert_eq!(heap.pop(), Some(4));
    assert_eq!(heap.pop(), Some(5));
    assert_eq!(heap.pop(), None);
}

#[test]
fn test_push() {
    let mut heap = BinaryHeap::new(|a: &i32, b: &i32| a.cmp(b));
    heap.push(10i32);
    heap.push(3i32);
    heap.push(128i32);
    assert_eq!(heap.pop(), Some(128));
    assert_eq!(heap.pop(), Some(10));
    assert_eq!(heap.pop(), Some(3));
    assert_eq!(heap.pop(), None);
}

#[test]
fn test_update() {
    let mut heap = BinaryHeap::from_array(vec![5, 4, 3, 2, 1], |a, b| b.cmp(a));
    heap.update_top(6);
    assert_eq!(heap.pop(), Some(2));
    assert_eq!(heap.pop(), Some(3));
    assert_eq!(heap.pop(), Some(4));
    assert_eq!(heap.pop(), Some(5));
    assert_eq!(heap.pop(), Some(6));
    assert_eq!(heap.pop(), None);
}

#[test]
fn test_iterator() {
    let mut heap = BinaryHeap::from_array(vec![5, 4, 3, 2, 1], |a, b| b.cmp(a));
    heap.update_top(6);
    assert_eq!(heap.into_iter().collect(), vec![2, 3, 4, 5, 6]);
}

#[test]
fn test_float() {
    let heap = BinaryHeap::from_array(vec![0.0, 1.3, -107.18, INFINITY], |a: &f64, b: &f64| {
        a.partial_cmp(&b).unwrap()
    });
    let mut sorted = heap.into_iter();
    while let Some(float) = sorted.next() {
        println!("{float}")
    }
}

fn ascending(a: &i32, b: &i32) -> Ordering {
    a.cmp(b)
}

fn is_heap_layout(data: &[i32]) -> bool {
    (1..data.len()).all(|i| ascending(&data[(i - 1) / 2], &data[i]) != Ordering::Less)
}

fn sorted_copy(data: &[i32]) -> Vec<i32> {
    let mut copy = data.to_vec();
    copy.sort();
    copy
}

#[test]
fn float_elements_come_out_highest_first() {
    let heap = BinaryHeap::from_array(vec![0.0, 1.3, -107.18, INFINITY], |a: &f64, b: &f64| {
        a.partial_cmp(b).unwrap()
    });
    assert_eq!(heap.into_iter().collect(), vec![INFINITY, 1.3, 0.0, -107.18]);
}

#[test]
fn new_heap_is_empty() {
    let mut heap = BinaryHeap::new(ascending);
    assert_eq!(heap.len(), 0);
    assert_eq!(heap.peak(), None);
    assert_eq!(heap.pop(), None);
    assert_eq!(heap.len(), 0);
    assert_eq!(heap.into_inner(), Vec::<i32>::new());
}

#[test]
fn from_array_of_nothing_and_of_one() {
    let heap = BinaryHeap::from_array(Vec::<i32>::new(), ascending);
    assert_eq!(heap.len(), 0);
    let mut heap = BinaryHeap::from_array(vec![7], ascending);
    assert_eq!(heap.len(), 1);
    assert_eq!(heap.peak(), Some(&7));
    assert_eq!(heap.pop(), Some(7));
    assert_eq!(heap.pop(), None);
}

#[test]
fn from_array_lays_out_a_heap() {
    let input = vec![3, 9, 1, 4, 1, 5, 9, 2, 6, 5, 3, 5];
    let heap = BinaryHeap::from_array(input.clone(), ascending);
    assert_eq!(heap.len(), input.len());
    let inner = heap.into_inner();
    assert!(is_heap_layout(&inner));
    assert_eq!(sorted_copy(&inner), sorted_copy(&input));
    assert_eq!(inner[0], 9);
}

#[test]
fn from_array_layout_of_six() {
    let heap = BinaryHeap::from_array(vec![1, 2, 3, 4, 5, 6], ascending);
    assert_eq!(heap.into_inner(), vec![6, 5, 3, 4, 2, 1]);
}

#[test]
fn from_array_holds_what_pushes_hold() {
    let input = vec![8, 3, 5, 3, 10, 1, 7];
    let built = BinaryHeap::from_array(input.clone(), ascending);
    let mut pushed = BinaryHeap::new(ascending);
    for x in input.iter().rev() {
        pushed.push(*x);
    }
    assert_eq!(sorted_copy(&built.into_inner()), sorted_copy(&pushed.into_inner()));
}

#[test]
fn len_follows_push_and_pop() {
    let mut heap = BinaryHeap::new(ascending);
    heap.push(4);
    assert_eq!(heap.len(), 1);
    heap.push(2);
    assert_eq!(heap.len(), 2);
    heap.push(9);
    assert_eq!(heap.len(), 3);
    assert_eq!(heap.pop(), Some(9));
    assert_eq!(heap.len(), 2);
    assert_eq!(heap.pop(), Some(4));
    assert_eq!(heap.len(), 1);
    assert_eq!(heap.pop(), Some(2));
    assert_eq!(heap.len(), 0);
    assert_eq!(heap.pop(), None);
    assert_eq!(heap.len(), 0);
}

#[test]
fn push_keeps_a_heap_layout() {
    let mut heap = BinaryHeap::new(ascending);
    for x in [5, 1, 8, 3, 9, 2, 9, 7] {
        heap.push(x);
        assert_eq!(heap.peak().copied(), heap.clone().into_iter().collect().first().copied());
    }
    let inner = heap.into_inner();
    assert!(is_heap_layout(&inner));
    assert_eq!(inner, vec![9, 8, 9, 7, 3, 2, 5, 1]);
}

#[test]
fn push_moves_an_equal_element_above_its_parent() {
    let mut heap = BinaryHeap::new(|a: &(i32, char), b: &(i32, char)| a.0.cmp(&b.0));
    heap.push((1, 'a'));
    heap.push((1, 'b'));
    assert_eq!(heap.into_inner(), vec![(1, 'b'), (1, 'a')]);
}

#[test]
fn pop_moves_the_last_element_down() {
    let mut heap = BinaryHeap::from_array(vec![9, 7, 8, 1, 2, 3], ascending);
    assert_eq!(heap.pop(), Some(9));
    assert_eq!(heap.into_inner(), vec![8, 7, 3, 1, 2]);
}

#[test]
fn sift_down_prefers_the_left_child_on_a_tie() {
    let mut heap = BinaryHeap::from_array(
        vec![(9, 'r'), (5, 'a'), (5, 'b'), (1, 'z')],
        |a: &(i32, char), b: &(i32, char)| a.0.cmp(&b.0),
    );
    assert_eq!(heap.pop(), Some((9, 'r')));
    assert_eq!(heap.into_inner(), vec![(5, 'a'), (1, 'z'), (5, 'b')]);
}

#[test]
fn pops_come_out_as_the_sorted_elements() {
    let input = vec![12, -4, 7, 7, 0, 33, 5, -4, 18];
    let mut heap = BinaryHeap::from_array(input.clone(), ascending);
    let mut out = Vec::new();
    while let Some(x) = heap.pop() {
        out.push(x);
    }
    let mut expected = input;
    expected.sort_by(|a, b| b.cmp(a));
    assert_eq!(out, expected);
}

#[test]
fn update_top_on_an_empty_heap_pushes() {
    let mut heap = BinaryHeap::new(ascending);
    heap.update_top(5);
    assert_eq!(heap.len(), 1);
    assert_eq!(heap.peak(), Some(&5));
}

#[test]
fn update_top_with_a_higher_item_only_replaces_the_root() {
    let mut heap = BinaryHeap::from_array(vec![9, 7, 8, 1, 2, 3], ascending);
    heap.update_top(10);
    assert_eq!(heap.into_inner(), vec![10, 7, 8, 1, 2, 3]);
}

#[test]
fn update_top_with_an_equal_item_only_replaces_the_root() {
    let by_key = |a: &(i32, char), b: &(i32, char)| a.0.cmp(&b.0);
    let mut heap = BinaryHeap::from_array(vec![(4, 'a'), (4, 'b'), (2, 'c')], by_key);
    heap.update_top((4, 'n'));
    assert_eq!(heap.into_inner(), vec![(4, 'n'), (4, 'b'), (2, 'c')]);
}

#[test]
fn update_top_with_a_lower_item_moves_it_down() {
    let mut heap = BinaryHeap::from_array(vec![9, 7, 8, 1, 2, 3], ascending);
    heap.update_top(0);
    assert_eq!(heap.into_inner(), vec![8, 7, 3, 1, 2, 0]);
}

#[test]
fn update_top_holds_what_pop_then_push_holds() {
    let start = vec![9, 7, 8, 1, 2, 3];
    for item in [0, 4, 8, 9, 20] {
        let mut updated = BinaryHeap::from_array(start.clone(), ascending);
        updated.update_top(item);
        let mut popped = BinaryHeap::from_array(start.clone(), ascending);
        popped.pop();
        popped.push(item);
        assert_eq!(updated.len(), popped.len());
        let a = updated.into_inner();
        assert!(is_heap_layout(&a));
        assert_eq!(sorted_copy(&a), sorted_copy(&popped.into_inner()));
    }
}

#[test]
fn extend_pushes_each_item() {
    let mut heap = BinaryHeap::from_array(vec![5, 1], ascending);
    heap.extend(&[7, 3, 9]);
    assert_eq!(heap.len(), 5);
    assert_eq!(heap.clone().into_inner(), vec![9, 7, 5, 1, 3]);
    assert_eq!(heap.into_iter().collect(), vec![9, 7, 5, 3, 1]);
}

#[test]
fn extend_by_nothing_changes_nothing() {
    let mut heap = BinaryHeap::from_array(vec![5, 1], ascending);
    heap.extend(&[]);
    assert_eq!(heap.into_inner(), vec![5, 1]);
}

#[test]
fn bulk_extend_appends_and_lays_out_anew() {
    let mut heap = BinaryHeap::from_array(vec![5, 1], ascending);
    heap.bulk_extend(&[7, 3, 9]);
    assert_eq!(heap.len(), 5);
    assert_eq!(heap.clone().into_inner(), vec![9, 5, 7, 3, 1]);
    assert_eq!(heap.into_iter().collect(), vec![9, 7, 5, 3, 1]);
}

#[test]
fn bulk_extend_mends_a_layout_that_was_written_over() {
    let mut heap = BinaryHeap::from_array(vec![9, 7, 8], ascending);
    *heap.index_mut(0) = 0;
    assert_eq!(heap.clone().into_inner(), vec![0, 7, 8]);
    heap.bulk_extend(&[4]);
    let inner = heap.into_inner();
    assert!(is_heap_layout(&inner));
    assert_eq!(sorted_copy(&inner), vec![0, 4, 7, 8]);
}

#[test]
fn index_reads_the_backing_store() {
    let heap = BinaryHeap::from_array(vec![5, 4, 3, 2, 1], |a: &i32, b: &i32| b.cmp(a));
    assert_eq!(*heap.index(0), 1);
    assert_eq!(*heap.index(3), 5);
    assert_eq!(*heap.index(4), 4);
}

#[test]
fn index_mut_writes_past_the_heap_order() {
    let mut heap = BinaryHeap::from_array(vec![1, 2, 3], ascending);
    *heap.index_mut(2) = 50;
    assert_eq!(heap.peak(), Some(&3));
    assert_eq!(heap.into_inner(), vec![3, 2, 50]);
}

#[test]
fn sorted_view_ends_and_stays_ended() {
    let heap = BinaryHeap::from_array(vec![2, 1], ascending);
    let mut view = heap.into_iter();
    assert_eq!(view.next(), Some(2));
    assert_eq!(view.next(), Some(1));
    assert_eq!(view.next(), None);
    assert_eq!(view.next(), None);
    assert_eq!(view.collect(), Vec::<i32>::new());
}

#[test]
fn collect_hands_out_the_rest() {
    let heap = BinaryHeap::from_array(vec![4, 8, 6, 2], ascending);
    let mut view = heap.into_iter();
    assert_eq!(view.next(), Some(8));
    assert_eq!(view.collect(), vec![6, 4, 2]);
}
