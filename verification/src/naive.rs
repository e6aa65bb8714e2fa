//! A priority queue that keeps its elements in a sorted vector.
//!
//! Every insertion sorts the whole vector again, which is slow and plainly
//! right: the greatest element is always the last one. The queue is the
//! model that the binary heap is held against.

use crate::order::{ascending, is_max_of, lawful, lemma_last_is_max, tied};
use vstd::multiset::Multiset;
use vstd::prelude::*;

verus! {

/// `after` holds the elements of `before` in another arrangement in which
/// elements that tie stand in the order they had in `before`; `from[i]` is
/// the index in `before` of the element at index `i` of `after`.
pub open spec fn stably_rearranged<T: Ord>(before: Seq<T>, after: Seq<T>) -> bool {
    exists|from: Seq<int>|
        {
            &&& #[trigger] from.len() == after.len()
            &&& before.len() == after.len()
            &&& forall|i: int|
                0 <= i < after.len() ==> 0 <= #[trigger] from[i] < before.len() && after[i]
                    == before[from[i]]
            &&& forall|i: int, j: int|
                0 <= i < j < after.len() ==> #[trigger] from[i] != #[trigger] from[j]
            &&& forall|i: int, j: int|
                0 <= i < j < after.len() && tied(after[i], after[j]) ==> #[trigger] from[i]
                    < #[trigger] from[j]
        }
}

/// Sorts `v` in place with `slice::sort`. Under a lawful order the standard
/// library promises that the result is in ascending order, holds the same
/// elements, and keeps elements that tie in their former order. Under an
/// order that is not total `sort` may panic, so such orders are left out.
#[verifier::external_body]
fn sort_ascending<T: Ord>(v: &mut Vec<T>)
    requires
        lawful::<T>(),
    ensures
        ascending(final(v)@),
        final(v)@.to_multiset() == old(v)@.to_multiset(),
        stably_rearranged(old(v)@, final(v)@),
{
    v.sort();
}

/// A max-priority queue backed by a vector in ascending order.
#[derive(Clone, Debug)]
pub struct NaiveHeap<T> {
    data: Vec<T>,
}

impl<T> NaiveHeap<T> {
    /// The backing vector: the elements in the order in which
    /// `into_sorted_vec` returns them.
    pub closed spec fn sorted(&self) -> Seq<T> {
        self.data@
    }
}

impl<T> View for NaiveHeap<T> {
    type V = Multiset<T>;

    /// The contents of the queue as a bag.
    open spec fn view(&self) -> Multiset<T> {
        self.sorted().to_multiset()
    }
}

impl<T: Ord> NaiveHeap<T> {
    /// The backing vector is in ascending order. Every constructor
    /// establishes this and every method keeps it.
    pub open spec fn wf(&self) -> bool {
        ascending(self.sorted())
    }

    /// The last element of the backing vector: the one that `peek` shows and
    /// `pop` removes.
    pub open spec fn greatest(&self) -> Option<T> {
        if self.sorted().len() == 0 {
            None
        } else {
            Some(self.sorted().last())
        }
    }

    /// The last element is absent exactly when the queue is empty; otherwise
    /// it is an element of the queue, and under a lawful order a greatest one.
    pub proof fn lemma_greatest(self)
        requires
            self.wf(),
        ensures
            self.greatest() is None <==> self@.len() == 0,
            self.greatest() matches Some(x) ==> self@.contains(x) && (lawful::<T>() ==> is_max_of(
                x,
                self@,
            )),
    {
        let s = self.data@;
        s.to_multiset_ensures();
        if s.len() > 0 && lawful::<T>() {
            lemma_last_is_max(s);
        }
    }

    /// Creates an empty queue.
    pub fn new() -> (q: Self)
        ensures
            q.wf(),
            q@ == Multiset::<T>::empty(),
    {
        let q = NaiveHeap { data: Vec::new() };
        proof {
            q.data@.to_multiset_ensures();
            assert(q@ =~= Multiset::<T>::empty()) by {
                broadcast use vstd::multiset::group_multiset_axioms;

            }
        }
        q
    }

    /// Adds `item`: it is appended and the whole vector sorted again. The
    /// order on `T` must be lawful.
    pub fn push(&mut self, item: T)
        requires
            old(self).wf(),
            lawful::<T>(),
        ensures
            final(self).wf(),
            final(self)@ == old(self)@.insert(item),
            final(self)@.len() == old(self)@.len() + 1,
    {
        proof {
            self.data@.to_multiset_ensures();
        }
        self.data.push(item);
        sort_ascending(&mut self.data);
    }

    /// Removes and returns the greatest element; `None`, with the queue left
    /// as it was, when it is empty.
    pub fn pop(&mut self) -> (r: Option<T>)
        requires
            old(self).wf(),
        ensures
            final(self).wf(),
            r == old(self).greatest(),
            r is None <==> old(self)@.len() == 0,
            match r {
                Some(x) => {
                    &&& old(self)@.contains(x)
                    &&& lawful::<T>() ==> is_max_of(x, old(self)@)
                    &&& final(self)@ == old(self)@.remove(x)
                    &&& final(self)@.len() == old(self)@.len() - 1
                },
                None => final(self)@ == old(self)@,
            },
    {
        proof {
            self.lemma_greatest();
            let s = self.data@;
            if s.len() > 0 {
                assert(s.drop_last() =~= s.remove(s.len() - 1));
                s.to_multiset_ensures();
            }
        }
        self.data.pop()
    }

    /// The greatest element, without removing it; `None` when the queue is
    /// empty.
    pub fn peek(&self) -> (r: Option<&T>)
        requires
            self.wf(),
        ensures
            r is None <==> self@.len() == 0,
            match r {
                Some(x) => self.greatest() == Some(*x) && self@.contains(*x) && (lawful::<T>()
                    ==> is_max_of(*x, self@)),
                None => self.greatest() is None,
            },
    {
        proof {
            self.lemma_greatest();
        }
        self.data.last()
    }

    /// Consumes the queue and returns its elements in ascending order.
    pub fn into_sorted_vec(self) -> (v: Vec<T>)
        requires
            self.wf(),
        ensures
            v@ == self.sorted(),
            v@.to_multiset() == self@,
            ascending(v@),
    {
        self.data
    }

    /// Adds every element of `items`: they are appended and the whole vector
    /// sorted again. The order on `T` must be lawful.
    pub fn extend(&mut self, items: Vec<T>)
        requires
            old(self).wf(),
            lawful::<T>(),
        ensures
            final(self).wf(),
            final(self)@ == old(self)@.add(items@.to_multiset()),
    {
        let mut items = items;
        proof {
            vstd::seq_lib::lemma_multiset_commutative(self.data@, items@);
        }
        self.data.append(&mut items);
        sort_ascending(&mut self.data);
    }
}

} // verus!
