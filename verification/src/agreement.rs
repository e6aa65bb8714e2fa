//! What the binary heap and the sorted-vector queue have in common: holding
//! the same bag, they show, remove and drain the same elements.
//!
//! Elements that tie without being the same value may leave the two queues
//! in different orders, so each statement asks that ties in the bag are
//! identical.

use crate::heap::BinaryHeap;
use crate::naive::NaiveHeap;
use crate::order::{
    ascending, ascending_of, lawful, lemma_ascending_unique, lemma_max_unique, max_of,
    ties_identical,
};
use vstd::multiset::Multiset;
use vstd::prelude::*;

verus! {

/// A heap and a sorted-vector queue that hold the same bag show the same
/// element on `peek`, or both show none: the greatest element of the bag.
pub proof fn lemma_peek_agrees<T: Ord>(h: BinaryHeap<T>, n: NaiveHeap<T>)
    requires
        lawful::<T>(),
        h.wf(),
        n.wf(),
        h@ == n@,
        ties_identical(h@),
    ensures
        h.greatest() == n.greatest(),
        h.greatest() == (if h@.len() == 0 {
            None
        } else {
            Some(max_of(h@))
        }),
{
    h.lemma_greatest();
    n.lemma_greatest();
    if h@.len() > 0 {
        let x = h.greatest()->Some_0;
        let y = n.greatest()->Some_0;
        lemma_max_unique(h@, x, y);
    }
}

/// A heap and a sorted-vector queue that hold the same bag return the same
/// element on `pop`, or both return none, and hold the same bag afterwards.
/// So any sequence of pushes and pops, applied to both, is answered alike.
pub proof fn lemma_pop_agrees<T: Ord>(h: BinaryHeap<T>, n: NaiveHeap<T>)
    requires
        lawful::<T>(),
        h.wf(),
        n.wf(),
        h@ == n@,
        ties_identical(h@),
    ensures
        h.greatest() == n.greatest(),
        h.greatest() is None <==> h@.len() == 0,
        h.greatest() matches Some(x) ==> n.greatest() == Some(x) && h@.remove(x) == n@.remove(x)
            && ties_identical(h@.remove(x)),
{
    lemma_peek_agrees(h, n);
    if h.greatest() is Some {
        let x = h.greatest()->Some_0;
        assert(ties_identical(h@.remove(x))) by {
            broadcast use vstd::multiset::group_multiset_axioms;

        }
    }
}

/// Draining a heap gives the sorted contents of a sorted-vector queue that
/// holds the same bag. `drained` stands for what `into_sorted_vec` returns
/// on `h`: an ascending arrangement of its contents.
pub proof fn lemma_drains_agree<T: Ord>(h: BinaryHeap<T>, n: NaiveHeap<T>, drained: Seq<T>)
    requires
        lawful::<T>(),
        h.wf(),
        n.wf(),
        h@ == n@,
        ties_identical(h@),
        drained.to_multiset() == h@,
        ascending(drained),
    ensures
        drained == n.sorted(),
{
    lemma_ascending_unique(drained, n.sorted());
}

/// Building a heap from `items` and draining it gives `items` in ascending
/// order, duplicates included. `h` stands for what `from` returns on `items`
/// and `drained` for what `into_sorted_vec` returns on `h`.
pub proof fn lemma_round_trip<T: Ord>(items: Seq<T>, h: BinaryHeap<T>, drained: Seq<T>)
    requires
        lawful::<T>(),
        h.wf(),
        h@ == items.to_multiset(),
        ties_identical(h@),
        drained.to_multiset() == h@,
        ascending(drained),
    ensures
        drained == ascending_of(items.to_multiset()),
        drained.len() == items.len(),
{
    let m = items.to_multiset();
    let s = ascending_of(m);
    lemma_ascending_unique(drained, s);
    items.to_multiset_ensures();
    drained.to_multiset_ensures();
}

/// A heap that holds nothing, such as a new one, shows no element, and
/// `peek` and `pop` on it return `None`.
pub proof fn lemma_empty_shows_none<T: Ord>(h: BinaryHeap<T>)
    requires
        h.wf(),
        h@ == Multiset::<T>::empty(),
    ensures
        h.greatest() is None,
{
    broadcast use vstd::multiset::group_multiset_axioms;

    h.lemma_greatest();
}

} // verus!
