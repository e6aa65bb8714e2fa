use binary_heap::differential::{Op, TestState};
use binary_heap::heap::BinaryHeap;
use binary_heap::naive::NaiveHeap;

#[test]
fn peek_agrees_with_the_model() {
    let items = vec![17usize, 4, 17, 23, 0, 8];
    let heap = BinaryHeap::from(items.clone());
    let mut naive = NaiveHeap::new();
    naive.extend(items);
    assert_eq!(heap.peek(), naive.peek());
    assert_eq!(heap.peek(), Some(&23));
    let empty_heap: BinaryHeap<usize> = BinaryHeap::new();
    let empty_naive: NaiveHeap<usize> = NaiveHeap::new();
    assert_eq!(empty_heap.peek(), empty_naive.peek());
}

#[test]
fn pops_agree_with_the_model_until_both_are_empty() {
    let items = vec![6usize, 1, 6, 3, 9, 2, 9, 9];
    let mut heap = BinaryHeap::from(items.clone());
    let mut naive = NaiveHeap::new();
    naive.extend(items);
    let expected = [9usize, 9, 9, 6, 6, 3, 2, 1];
    for want in expected {
        let got = heap.pop();
        assert_eq!(got, naive.pop());
        assert_eq!(got, Some(want));
    }
    assert_eq!(heap.pop(), None);
    assert_eq!(naive.pop(), None);
}

#[test]
fn drain_agrees_with_the_model() {
    let mut heap = BinaryHeap::new();
    let mut naive = NaiveHeap::new();
    for x in [30usize, 10, 20, 10, 40] {
        heap.push(x);
        naive.push(x);
    }
    assert_eq!(heap.pop(), naive.pop());
    heap.push(5);
    naive.push(5);
    let drained = heap.into_sorted_vec();
    assert_eq!(drained, naive.into_sorted_vec());
    assert_eq!(drained, vec![5, 10, 10, 20, 30]);
}

#[test]
fn state_starts_with_the_initial_elements() {
    let state = TestState::new(vec![3, 1, 2, 3]);
    assert_eq!(state.assert_final(), vec![1, 2, 3, 3]);
    let state = TestState::new(vec![]);
    assert_eq!(state.assert_final(), Vec::<usize>::new());
}

#[test]
fn state_shows_the_maximum_after_each_operation() {
    let mut state = TestState::new(vec![]);
    assert_eq!(state.apply_op_and_assert(0, Op::Pop), None);
    assert_eq!(state.apply_op_and_assert(1, Op::Push { item: 10 }), Some(10));
    assert_eq!(state.apply_op_and_assert(2, Op::Push { item: 20 }), Some(20));
    assert_eq!(state.apply_op_and_assert(3, Op::Pop), Some(10));
    assert_eq!(state.apply_op_and_assert(4, Op::Push { item: 15 }), Some(15));
    assert_eq!(state.apply_op_and_assert(5, Op::Pop), Some(10));
    assert_eq!(state.apply_op_and_assert(6, Op::Pop), None);
    assert_eq!(state.apply_op_and_assert(7, Op::Pop), None);
    assert_eq!(state.assert_final(), Vec::<usize>::new());
}

#[test]
fn state_applies_a_sequence_in_order() {
    let mut state = TestState::new(vec![5, 1]);
    state.apply_ops_and_assert(vec![
        Op::Push { item: 7 },
        Op::Pop,
        Op::Push { item: 5 },
        Op::Push { item: 0 },
        Op::Pop,
    ]);
    assert_eq!(state.assert_final(), vec![0, 1, 5]);
}

#[test]
fn state_applies_no_operations() {
    let mut state = TestState::new(vec![2, 1]);
    state.apply_ops_and_assert(vec![]);
    assert_eq!(state.assert_final(), vec![1, 2]);
}

#[test]
fn state_pops_more_than_it_holds() {
    let mut state = TestState::new(vec![4]);
    state.apply_ops_and_assert(vec![Op::Pop, Op::Pop, Op::Pop, Op::Push { item: 2 }]);
    assert_eq!(state.assert_final(), vec![2]);
}
