use binary_heap::differential::{Op, TestState};
use binary_heap::heap::BinaryHeap;
use binary_heap::naive::NaiveHeap;
use proptest::arbitrary::any;
use proptest::collection;
use proptest::strategy::{BoxedStrategy, Just, Strategy, Union};
use proptest::test_runner::{Config, TestRunner};

/// Pushes a third of the time, pops two thirds.
fn ops() -> BoxedStrategy<Op> {
    Union::new_weighted(vec![
        (1, any::<usize>().prop_map(|item| Op::Push { item }).boxed()),
        (2, Just(Op::Pop).boxed()),
    ])
    .boxed()
}

fn runner() -> TestRunner {
    TestRunner::new(Config { failure_persistence: None, ..Config::default() })
}

#[test]
fn test_compare_heaps() {
    let inputs = (collection::vec(any::<usize>(), 0..128), collection::vec(ops(), 0..128));
    let outcome = runner().run(&inputs, |(initial, ops)| {
        let mut heap = BinaryHeap::new();
        heap.extend(initial.clone());
        let mut naive = NaiveHeap::new();
        naive.extend(initial);
        for (idx, op) in ops.into_iter().enumerate() {
            match op {
                Op::Push { item } => {
                    heap.push(item);
                    naive.push(item);
                }
                Op::Pop => {
                    let heap_item = heap.pop();
                    let naive_item = naive.pop();
                    assert_eq!(heap_item, naive_item, "operation {idx}: popped items differ");
                }
            }
            assert_eq!(heap.peek(), naive.peek(), "operation {idx}: peeked items differ");
        }
        assert_eq!(heap.into_sorted_vec(), naive.into_sorted_vec());
        Ok(())
    });
    assert!(outcome.is_ok(), "{outcome:?}");
}

#[test]
fn random_batches_drain_sorted() {
    let outcome = runner().run(&collection::vec(0usize..16, 0..128), |items| {
        let mut expected = items.clone();
        expected.sort();
        let heap = BinaryHeap::from(items);
        assert_eq!(heap.len(), expected.len());
        assert_eq!(heap.into_sorted_vec(), expected);
        Ok(())
    });
    assert!(outcome.is_ok(), "{outcome:?}");
}

#[test]
fn random_operations_keep_the_length() {
    let inputs = (collection::vec(any::<usize>(), 0..64), collection::vec(ops(), 0..64));
    let outcome = runner().run(&inputs, |(initial, ops)| {
        let mut heap = BinaryHeap::from(initial);
        let mut expected = heap.len();
        for op in ops {
            match op {
                Op::Push { item } => {
                    heap.push(item);
                    expected += 1;
                }
                Op::Pop => {
                    if heap.pop().is_some() {
                        expected -= 1;
                    } else {
                        assert_eq!(expected, 0);
                    }
                }
            }
            assert_eq!(heap.len(), expected);
            assert_eq!(heap.is_empty(), expected == 0);
        }
        Ok(())
    });
    assert!(outcome.is_ok(), "{outcome:?}");
}

#[test]
fn random_states_drain_like_a_sorted_copy() {
    let inputs = (collection::vec(any::<usize>(), 0..128), collection::vec(ops(), 0..128));
    let outcome = runner().run(&inputs, |(initial, ops)| {
        let mut model = initial.clone();
        model.sort();
        let mut state = TestState::new(initial);
        for (idx, op) in ops.iter().enumerate() {
            match *op {
                Op::Push { item } => {
                    model.push(item);
                    model.sort();
                }
                Op::Pop => {
                    model.pop();
                }
            }
            assert_eq!(state.apply_op_and_assert(idx, *op), model.last().copied());
        }
        assert_eq!(state.assert_final(), model);
        Ok(())
    });
    assert!(outcome.is_ok(), "{outcome:?}");
}
