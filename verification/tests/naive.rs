use binary_heap::naive::NaiveHeap;

#[test]
fn naive_new_is_empty() {
    let mut queue: NaiveHeap<usize> = NaiveHeap::new();
    assert_eq!(queue.peek(), None);
    assert_eq!(queue.pop(), None);
    assert_eq!(queue.into_sorted_vec(), Vec::<usize>::new());
}

#[test]
fn naive_push_sorts_the_vector() {
    let mut queue = NaiveHeap::new();
    queue.push(3usize);
    queue.push(1);
    queue.push(2);
    assert_eq!(queue.peek(), Some(&3));
    assert_eq!(queue.clone().into_sorted_vec(), vec![1, 2, 3]);
    assert_eq!(queue.pop(), Some(3));
    assert_eq!(queue.pop(), Some(2));
    assert_eq!(queue.pop(), Some(1));
    assert_eq!(queue.pop(), None);
}

#[test]
fn naive_push_below_the_maximum_keeps_it_last() {
    let mut queue = NaiveHeap::new();
    queue.push(9usize);
    queue.push(4);
    assert_eq!(queue.peek(), Some(&9));
    queue.push(0);
    assert_eq!(queue.peek(), Some(&9));
    assert_eq!(queue.into_sorted_vec(), vec![0, 4, 9]);
}

#[test]
fn naive_keeps_duplicates() {
    let mut queue = NaiveHeap::new();
    for x in [5usize, 1, 5, 3] {
        queue.push(x);
    }
    assert_eq!(queue.into_sorted_vec(), vec![1, 3, 5, 5]);
}

#[test]
fn naive_extend_sorts_the_batch() {
    let mut queue = NaiveHeap::new();
    queue.push(6usize);
    queue.extend(vec![8usize, 2, 6, 11]);
    assert_eq!(queue.peek(), Some(&11));
    assert_eq!(queue.pop(), Some(11));
    assert_eq!(queue.into_sorted_vec(), vec![2, 6, 6, 8]);
}

#[test]
fn naive_extend_with_nothing() {
    let mut queue: NaiveHeap<usize> = NaiveHeap::new();
    queue.extend(vec![]);
    assert_eq!(queue.peek(), None);
    queue.push(1);
    queue.extend(vec![]);
    assert_eq!(queue.into_sorted_vec(), vec![1]);
}

#[test]
fn naive_interleaved_pushes_and_pops() {
    let mut queue = NaiveHeap::new();
    queue.push(10usize);
    queue.push(20);
    assert_eq!(queue.pop(), Some(20));
    queue.push(15);
    assert_eq!(queue.pop(), Some(15));
    assert_eq!(queue.pop(), Some(10));
    assert_eq!(queue.pop(), None);
}

#[test]
fn naive_sort_is_stable_for_ties() {
    // Ordered by the first component only: ties keep the order of insertion.
    #[derive(Clone, Debug)]
    struct ByKey(u8, char);
    impl PartialEq for ByKey {
        fn eq(&self, other: &Self) -> bool {
            self.0 == other.0
        }
    }
    impl Eq for ByKey {}
    impl PartialOrd for ByKey {
        fn partial_cmp(&self, other: &Self) -> Option<std::cmp::Ordering> {
            Some(self.cmp(other))
        }
    }
    impl Ord for ByKey {
        fn cmp(&self, other: &Self) -> std::cmp::Ordering {
            self.0.cmp(&other.0)
        }
    }
    let mut queue = NaiveHeap::new();
    queue.extend(vec![ByKey(2, 'a'), ByKey(1, 'b'), ByKey(2, 'c'), ByKey(1, 'd')]);
    let letters: Vec<char> = queue.into_sorted_vec().iter().map(|k| k.1).collect();
    assert_eq!(letters, vec!['b', 'd', 'a', 'c']);
}
