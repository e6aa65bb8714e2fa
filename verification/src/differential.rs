//! The two queues driven in lock step.
//!
//! A [`TestState`] holds a binary heap and a sorted-vector queue with the
//! same contents and applies every operation to both. That the two always
//! answer alike is proved here once and for all, so the comparisons in the
//! methods are assertions for the verifier and can never fail at run time.

use crate::heap::BinaryHeap;
use crate::naive::NaiveHeap;
use crate::order::{ascending, lemma_ascending_unique, lemma_max_exists, max_of};
use vstd::multiset::Multiset;
use vstd::prelude::*;

verus! {

/// An operation on a priority queue of `usize`.
#[derive(Clone, Copy, Debug)]
pub enum Op {
    /// Insert `item`.
    Push { item: usize },
    /// Remove the greatest element, if there is one.
    Pop,
}

/// The greatest element of the bag `m`, or `None` when it is empty: what a
/// queue that holds `m` shows on `peek` and returns on `pop`.
pub open spec fn top(m: Multiset<usize>) -> Option<usize> {
    if m.len() == 0 {
        None
    } else {
        Some(max_of(m))
    }
}

/// The bag that `op` makes of the bag `m`. A pop from the empty bag leaves
/// it empty.
pub open spec fn step(m: Multiset<usize>, op: Op) -> Multiset<usize> {
    match op {
        Op::Push { item } => m.insert(item),
        Op::Pop => if m.len() == 0 {
            m
        } else {
            m.remove(max_of(m))
        },
    }
}

/// The bag that the operations `ops`, applied in order, make of `m`.
pub open spec fn run(m: Multiset<usize>, ops: Seq<Op>) -> Multiset<usize>
    decreases ops.len(),
{
    if ops.len() == 0 {
        m
    } else {
        step(run(m, ops.drop_last()), ops.last())
    }
}

/// Number of pushes among `ops`.
pub open spec fn pushes(ops: Seq<Op>) -> nat
    decreases ops.len(),
{
    if ops.len() == 0 {
        0
    } else {
        pushes(ops.drop_last()) + (if ops.last() is Push {
            1nat
        } else {
            0nat
        })
    }
}

/// Number of pops among `ops`.
pub open spec fn pops(ops: Seq<Op>) -> nat
    decreases ops.len(),
{
    if ops.len() == 0 {
        0
    } else {
        pops(ops.drop_last()) + (if ops.last() is Pop {
            1nat
        } else {
            0nat
        })
    }
}

/// Starting from `m`, no pop among `ops` meets an empty bag.
pub open spec fn pops_succeed(m: Multiset<usize>, ops: Seq<Op>) -> bool
    decreases ops.len(),
{
    if ops.len() == 0 {
        true
    } else {
        &&& pops_succeed(m, ops.drop_last())
        &&& ops.last() is Pop ==> run(m, ops.drop_last()).len() > 0
    }
}

/// After `k` pushes and `p` pops, none of them from an empty bag, the bag
/// holds `k - p` elements more than before.
pub proof fn lemma_run_len(m: Multiset<usize>, ops: Seq<Op>)
    requires
        pops_succeed(m, ops),
    ensures
        run(m, ops).len() == m.len() + pushes(ops) - pops(ops),
    decreases ops.len(),
{
    broadcast use vstd::multiset::group_multiset_axioms;

    if ops.len() > 0 {
        lemma_run_len(m, ops.drop_last());
        let before = run(m, ops.drop_last());
        if ops.last() is Pop {
            lemma_max_exists(before);
        }
    }
}

/// A binary heap and a sorted-vector queue that are kept in step.
#[derive(Clone, Debug)]
pub struct TestState {
    heap: BinaryHeap<usize>,
    naive: NaiveHeap<usize>,
}

impl View for TestState {
    type V = Multiset<usize>;

    /// The bag that both queues hold.
    closed spec fn view(&self) -> Multiset<usize> {
        self.heap@
    }
}

impl TestState {
    /// Both queues are well formed and hold the same bag.
    pub closed spec fn wf(&self) -> bool {
        &&& self.heap.wf()
        &&& self.naive.wf()
        &&& self.heap@ == self.naive@
    }

    /// Creates a state in which both queues hold the elements of `initial`.
    pub fn new(initial: Vec<usize>) -> (s: Self)
        ensures
            s.wf(),
            s@ == initial@.to_multiset(),
    {
        let mut heap = BinaryHeap::new();
        let copy = initial.clone();
        heap.extend(copy);
        let mut naive = NaiveHeap::new();
        naive.extend(initial);
        Self { heap, naive }
    }

    /// Applies `ops` in order to both queues. The queues agree after every
    /// one of them.
    pub fn apply_ops_and_assert(&mut self, ops: Vec<Op>)
        requires
            old(self).wf(),
        ensures
            final(self).wf(),
            final(self)@ == run(old(self)@, ops@),
    {
        let mut idx: usize = 0;
        while idx < ops.len()
            invariant
                idx <= ops@.len(),
                self.wf(),
                self@ == run(old(self)@, ops@.take(idx as int)),
            decreases ops@.len() - idx,
        {
            proof {
                assert(ops@.take(idx + 1).drop_last() =~= ops@.take(idx as int));
            }
            self.apply_op_and_assert(idx, ops[idx]);
            idx = idx + 1;
        }
        proof {
            assert(ops@.take(idx as int) =~= ops@);
        }
    }

    /// Applies `op` to both queues and returns the greatest element that is
    /// left, or `None` if none is. What the two queues pop is the same, and
    /// so is what they show afterwards. The first argument is the position of
    /// `op` in its sequence and has no bearing on the result.
    pub fn apply_op_and_assert(&mut self, _idx: usize, op: Op) -> (shown: Option<usize>)
        requires
            old(self).wf(),
        ensures
            final(self).wf(),
            final(self)@ == step(old(self)@, op),
            shown == top(final(self)@),
    {
        match op {
            Op::Push { item } => {
                self.heap.push(item);
                self.naive.push(item);
            },
            Op::Pop => {
                let heap_item = self.heap.pop();
                let naive_item = self.naive.pop();
                // Each is a greatest element of one and the same bag.
                assert(heap_item == naive_item);
            },
        }
        let heap_peek = self.heap.peek();
        let naive_peek = self.naive.peek();
        assert(heap_peek == naive_peek);
        match heap_peek {
            Some(x) => Some(*x),
            None => None,
        }
    }

    /// Drains both queues and returns the elements in ascending order. The
    /// two queues drain to the same vector.
    pub fn assert_final(self) -> (sorted: Vec<usize>)
        requires
            self.wf(),
        ensures
            sorted@.to_multiset() == self@,
            ascending(sorted@),
            forall|i: int, j: int| 0 <= i < j < sorted@.len() ==> sorted@[i] <= sorted@[j],
    {
        let sorted = self.heap.into_sorted_vec();
        let naive_sorted = self.naive.into_sorted_vec();
        proof {
            lemma_ascending_unique(sorted@, naive_sorted@);
        }
        assert(sorted@ == naive_sorted@);
        sorted
    }
}

} // verus!
