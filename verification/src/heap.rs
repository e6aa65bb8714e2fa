//! An array-backed binary max-heap.
//!
//! The backing vector is read as a complete binary tree: the node at index
//! `i > 0` has its parent at `(i - 1) / 2`. A heap is in order when no node
//! is ordered after its parent, so that the root is a greatest element.

use crate::order::{
    ascending, at_most, is_max_of, lawful, le, lemma_le_reflexive, lemma_le_total,
    lemma_le_transitive,
};
use vstd::multiset::Multiset;
use vstd::prelude::*;

verus! {

/// Index of the parent of the node at index `i > 0`.
pub open spec fn parent(i: int) -> int {
    (i - 1) / 2
}

/// The node at index `i` is ordered no later than its parent.
pub open spec fn below_parent<T: Ord>(s: Seq<T>, i: int) -> bool {
    le(s[i], s[parent(i)])
}

/// Among the first `end` elements of `s`, every node whose parent is at
/// index `lo` or later is ordered no later than that parent.
pub open spec fn heap_from<T: Ord>(s: Seq<T>, lo: int, end: int) -> bool {
    forall|i: int| 0 < i < end && lo <= parent(i) ==> #[trigger] below_parent(s, i)
}

/// The whole of `s` is in heap order.
pub open spec fn is_heap<T: Ord>(s: Seq<T>) -> bool {
    heap_from(s, 0, s.len() as int)
}

/// Each of the first `end` elements of `s` is ordered no later than `x`.
spec fn all_at_most<T: Ord>(s: Seq<T>, end: int, x: T) -> bool {
    forall|i: int| 0 <= i < end ==> le(#[trigger] s[i], x)
}

/// `s` with the elements at `a` and `b` exchanged.
spec fn swapped<T>(s: Seq<T>, a: int, b: int) -> Seq<T> {
    s.update(a, s[b]).update(b, s[a])
}

/// Exchanging two elements leaves the contents as they were.
proof fn lemma_swapped_contents<T>(s: Seq<T>, a: int, b: int)
    requires
        0 <= a < s.len(),
        0 <= b < s.len(),
    ensures
        swapped(s, a, b).to_multiset() == s.to_multiset(),
{
    broadcast use vstd::multiset::group_multiset_axioms;

    let m = s.to_multiset();
    let s1 = s.update(a, s[b]);
    vstd::seq_lib::to_multiset_update(s, a, s[b]);
    vstd::seq_lib::to_multiset_update(s1, b, s[a]);
    vstd::seq_lib::to_multiset_contains(s, s[a]);
}

/// In a heap the root is ordered no earlier than any other node.
pub proof fn lemma_root_is_greatest<T: Ord>(s: Seq<T>, end: int, i: int)
    requires
        lawful::<T>(),
        heap_from(s, 0, end),
        0 <= i < end <= s.len(),
    ensures
        le(s[i], s[0]),
    decreases i,
{
    if i == 0 {
        lemma_le_reflexive(s[0]);
    } else {
        assert(below_parent(s, i));
        lemma_root_is_greatest(s, end, parent(i));
        lemma_le_transitive(s[i], s[parent(i)], s[0]);
    }
}

/// Exchanges the elements at `a` and `b` with `slice::swap`, which leaves
/// every other element where it was; both indices must be in bounds, as
/// `swap` panics otherwise.
#[verifier::external_body]
fn swap_at<T>(v: &mut Vec<T>, a: usize, b: usize)
    requires
        a < old(v)@.len(),
        b < old(v)@.len(),
    ensures
        final(v)@ == swapped(old(v)@, a as int, b as int),
{
    v.swap(a, b);
}

/// Moves the element at `pos` toward the root until it is no longer ordered
/// after its parent.
fn sift_up<T: Ord>(v: &mut Vec<T>, pos: usize)
    requires
        pos < old(v)@.len(),
        lawful::<T>() ==> forall|i: int|
            0 < i < old(v)@.len() && i != pos ==> #[trigger] below_parent(old(v)@, i),
        lawful::<T>() ==> forall|i: int|
            0 < i < old(v)@.len() && parent(i) == pos && pos > 0 ==> le(
                #[trigger] old(v)@[i],
                old(v)@[parent(pos as int)],
            ),
    ensures
        final(v)@.to_multiset() == old(v)@.to_multiset(),
        final(v)@.len() == old(v)@.len(),
        lawful::<T>() ==> is_heap(final(v)@),
{
    let mut pos = pos;
    while pos > 0
        invariant
            pos < v@.len(),
            v@.len() == old(v)@.len(),
            v@.to_multiset() == old(v)@.to_multiset(),
            lawful::<T>() ==> forall|i: int|
                0 < i < v@.len() && i != pos ==> #[trigger] below_parent(v@, i),
            lawful::<T>() ==> forall|i: int|
                0 < i < v@.len() && parent(i) == pos && pos > 0 ==> le(
                    #[trigger] v@[i],
                    v@[parent(pos as int)],
                ),
        ensures
            v@.len() == old(v)@.len(),
            v@.to_multiset() == old(v)@.to_multiset(),
            lawful::<T>() ==> is_heap(v@),
        decreases pos,
    {
        let up = (pos - 1) / 2;
        if at_most(&v[pos], &v[up]) {
            break ;
        }
        let ghost s = v@;
        swap_at(v, pos, up);
        proof {
            lemma_swapped_contents(s, pos as int, up as int);
            if lawful::<T>() {
                let t = v@;
                let p = pos as int;
                let u = up as int;
                // The element that moves up was ordered after its parent.
                lemma_le_total(s[p], s[u]);
                assert forall|i: int| 0 < i < t.len() && i != u implies #[trigger] below_parent(
                    t,
                    i,
                ) by {
                    if i != p && parent(i) != p {
                        assert(below_parent(s, i));
                        if parent(i) == u {
                            // The other child of `u` now stands below what was its sibling.
                            lemma_le_transitive(s[i], s[u], s[p]);
                        }
                    }
                }
                assert forall|i: int| 0 < i < t.len() && parent(i) == u && u > 0 implies le(
                    #[trigger] t[i],
                    t[parent(u)],
                ) by {
                    assert(below_parent(s, u));
                    if i != p {
                        assert(below_parent(s, i));
                        lemma_le_transitive(s[i], s[u], s[parent(u)]);
                    }
                }
            }
        }
        pos = up;
    }
}

/// Moves the element at `start` toward the leaves, within the first `end`
/// elements, exchanging it with its greater child (the left one on a tie)
/// until neither child is ordered after it.
fn sift_down_range<T: Ord>(v: &mut Vec<T>, start: usize, end: usize)
    requires
        start < end <= old(v)@.len(),
        lawful::<T>() ==> heap_from(old(v)@, start + 1, end as int),
    ensures
        final(v)@.len() == old(v)@.len(),
        final(v)@.to_multiset() == old(v)@.to_multiset(),
        forall|i: int| end <= i < old(v)@.len() ==> final(v)@[i] == old(v)@[i],
        forall|x: T| #[trigger]
            all_at_most(old(v)@, end as int, x) ==> all_at_most(final(v)@, end as int, x),
        lawful::<T>() ==> heap_from(final(v)@, start as int, end as int),
{
    let mut pos = start;
    loop
        invariant
            start <= pos < end <= v@.len(),
            v@.len() == old(v)@.len(),
            v@.to_multiset() == old(v)@.to_multiset(),
            forall|i: int| end <= i < v@.len() ==> v@[i] == old(v)@[i],
            forall|x: T| #[trigger]
                all_at_most(old(v)@, end as int, x) ==> all_at_most(v@, end as int, x),
            pos > start ==> start <= parent(pos as int),
            lawful::<T>() ==> forall|i: int|
                0 < i < end && start <= parent(i) && parent(i) != pos ==> #[trigger] below_parent(
                    v@,
                    i,
                ),
            lawful::<T>() ==> forall|i: int|
                0 < i < end && parent(i) == pos && pos > start ==> le(
                    #[trigger] v@[i],
                    v@[parent(pos as int)],
                ),
        ensures
            v@.len() == old(v)@.len(),
            v@.to_multiset() == old(v)@.to_multiset(),
            forall|i: int| end <= i < v@.len() ==> v@[i] == old(v)@[i],
            forall|x: T| #[trigger]
                all_at_most(old(v)@, end as int, x) ==> all_at_most(v@, end as int, x),
            lawful::<T>() ==> heap_from(v@, start as int, end as int),
        decreases end - pos,
    {
        if pos >= end / 2 {
            break ;
        }
        let left = 2 * pos + 1;
        let right = left + 1;
        let mut child = left;
        if right < end && !at_most(&v[right], &v[left]) {
            child = right;
        }
        if at_most(&v[child], &v[pos]) {
            proof {
                if lawful::<T>() && right < end {
                    // The child that was not chosen is ordered no later than
                    // the chosen one, and so no later than their parent.
                    let s = v@;
                    let p = pos as int;
                    let l = left as int;
                    let r = right as int;
                    lemma_le_total(s[r], s[l]);
                    if child == left {
                        lemma_le_transitive(s[r], s[l], s[p]);
                    } else {
                        lemma_le_transitive(s[l], s[r], s[p]);
                    }
                }
            }
            break ;
        }
        let ghost s = v@;
        swap_at(v, pos, child);
        proof {
            lemma_swapped_contents(s, pos as int, child as int);
            let t = v@;
            let p = pos as int;
            let c = child as int;
            let l = left as int;
            let r = right as int;
            assert forall|x: T| #[trigger] all_at_most(old(v)@, end as int, x) implies all_at_most(
                t,
                end as int,
                x,
            ) by {
                assert(all_at_most(s, end as int, x));
            }
            if lawful::<T>() {
                // The child that moves up was ordered after its parent, and
                // its sibling, if it has one, no later than the child.
                lemma_le_total(s[c], s[p]);
                if right < end {
                    lemma_le_total(s[r], s[l]);
                }
                assert forall|i: int|
                    0 < i < end && start <= parent(i) && parent(i) != c implies #[trigger] below_parent(
                    t,
                    i,
                ) by {
                    if i != p && i != c && parent(i) != p {
                        assert(below_parent(s, i));
                    }
                }
                assert forall|i: int| 0 < i < end && parent(i) == c && c > start implies le(
                    #[trigger] t[i],
                    t[parent(c)],
                ) by {
                    assert(below_parent(s, i));
                }
            }
        }
        pos = child;
    }
}

/// Puts `v` in heap order in linear time: every node that has a child,
/// from the last such node back to the root, is sifted down into place.
fn heapify<T: Ord>(v: &mut Vec<T>)
    ensures
        final(v)@.len() == old(v)@.len(),
        final(v)@.to_multiset() == old(v)@.to_multiset(),
        lawful::<T>() ==> is_heap(final(v)@),
{
    let n = v.len();
    let mut k = n / 2;
    while k > 0
        invariant
            k <= n / 2,
            v@.len() == n,
            v@.to_multiset() == old(v)@.to_multiset(),
            lawful::<T>() ==> heap_from(v@, k as int, n as int),
        decreases k,
    {
        k = k - 1;
        sift_down_range(v, k, n);
    }
}

/// A max-heap: a bag of elements from which a greatest one can be read in
/// constant time and removed in logarithmic time.
#[derive(Clone, Debug)]
pub struct BinaryHeap<T> {
    data: Vec<T>,
}

impl<T> BinaryHeap<T> {
    /// The backing vector: the nodes of the tree, level by level.
    pub closed spec fn layout(&self) -> Seq<T> {
        self.data@
    }
}

impl<T> View for BinaryHeap<T> {
    type V = Multiset<T>;

    /// The contents of the heap as a bag. Which of several layouts holds
    /// them makes no difference to it.
    open spec fn view(&self) -> Multiset<T> {
        self.layout().to_multiset()
    }
}

impl<T: Ord> BinaryHeap<T> {
    /// The backing vector is in heap order, as far as the order on `T` is
    /// lawful. Every constructor establishes this and every method keeps it.
    pub open spec fn wf(&self) -> bool {
        lawful::<T>() ==> is_heap(self.layout())
    }

    /// The element at the root: the one that `peek` shows and `pop` removes.
    pub open spec fn greatest(&self) -> Option<T> {
        if self.layout().len() == 0 {
            None
        } else {
            Some(self.layout()[0])
        }
    }

    /// The root is absent exactly when the heap is empty; otherwise it is an
    /// element of the heap, and under a lawful order a greatest one.
    pub proof fn lemma_greatest(self)
        requires
            self.wf(),
        ensures
            self.greatest() is None <==> self@.len() == 0,
            self.greatest() matches Some(x) ==> self@.contains(x) && (lawful::<T>() ==> is_max_of(
                x,
                self@,
            )),
    {
        let s = self.data@;
        s.to_multiset_ensures();
        if s.len() > 0 && lawful::<T>() {
            assert forall|y: T| #[trigger] self@.contains(y) implies le(y, s[0]) by {
                let i = choose|i: int| 0 <= i < s.len() && s[i] == y;
                lemma_root_is_greatest(s, s.len() as int, i);
            }
        }
    }

    /// An empty heap.
    pub fn new() -> (h: Self)
        ensures
            h.wf(),
            h@ == Multiset::<T>::empty(),
    {
        let h = BinaryHeap { data: Vec::new() };
        proof {
            h.data@.to_multiset_ensures();
            assert(h@ =~= Multiset::<T>::empty()) by {
                broadcast use vstd::multiset::group_multiset_axioms;

            }
        }
        h
    }

    /// A heap that holds exactly `items`, each as often as the vector does.
    /// The vector is reordered in place in linear time, not filled element
    /// by element.
    pub fn from(items: Vec<T>) -> (h: Self)
        ensures
            h.wf(),
            h@ == items@.to_multiset(),
    {
        let mut data = items;
        heapify(&mut data);
        BinaryHeap { data }
    }

    /// Number of elements in the heap.
    pub fn len(&self) -> (n: usize)
        ensures
            n == self@.len(),
    {
        proof {
            self.data@.to_multiset_ensures();
        }
        self.data.len()
    }

    /// Whether the heap holds no element.
    pub fn is_empty(&self) -> (b: bool)
        ensures
            b <==> self@.len() == 0,
    {
        proof {
            self.data@.to_multiset_ensures();
        }
        self.data.len() == 0
    }

    /// Adds `item`: it becomes the last leaf and is then sifted up.
    pub fn push(&mut self, item: T)
        requires
            old(self).wf(),
        ensures
            final(self).wf(),
            final(self)@ == old(self)@.insert(item),
            final(self)@.len() == old(self)@.len() + 1,
    {
        let ghost s = self.data@;
        self.data.push(item);
        let last = self.data.len() - 1;
        proof {
            let t = self.data@;
            s.to_multiset_ensures();
            if lawful::<T>() {
                assert forall|i: int| 0 < i < t.len() && i != last implies #[trigger] below_parent(
                    t,
                    i,
                ) by {
                    assert(below_parent(s, i));
                }
            }
        }
        sift_up(&mut self.data, last);
    }

    /// The greatest element, without removing it; `None` when the heap is
    /// empty.
    pub fn peek(&self) -> (r: Option<&T>)
        requires
            self.wf(),
        ensures
            r is None <==> self@.len() == 0,
            match r {
                Some(x) => self.greatest() == Some(*x) && self@.contains(*x) && (lawful::<T>()
                    ==> is_max_of(*x, self@)),
                None => self.greatest() is None,
            },
    {
        proof {
            self.lemma_greatest();
        }
        if self.data.len() == 0 {
            None
        } else {
            Some(&self.data[0])
        }
    }

    /// Removes and returns the greatest element; `None`, with the heap left
    /// as it was, when it is empty. The last leaf takes the root's place and
    /// is sifted down.
    pub fn pop(&mut self) -> (r: Option<T>)
        requires
            old(self).wf(),
        ensures
            final(self).wf(),
            r == old(self).greatest(),
            r is None <==> old(self)@.len() == 0,
            match r {
                Some(x) => {
                    &&& old(self)@.contains(x)
                    &&& lawful::<T>() ==> is_max_of(x, old(self)@)
                    &&& final(self)@ == old(self)@.remove(x)
                    &&& final(self)@.len() == old(self)@.len() - 1
                },
                None => final(self)@ == old(self)@,
            },
    {
        proof {
            self.lemma_greatest();
        }
        if self.data.len() == 0 {
            return None;
        }
        let ghost s = self.data@;
        let x = self.data.swap_remove(0);
        let n = self.data.len();
        proof {
            let t = self.data@;
            let last = s.len() - 1;
            let w = swapped(s, 0, last);
            lemma_swapped_contents(s, 0, last);
            vstd::seq_lib::to_multiset_remove(w, last);
            assert(t =~= w.remove(last));
            if lawful::<T>() {
                assert forall|i: int| 0 < i < n && 1 <= parent(i) implies #[trigger] below_parent(
                    t,
                    i,
                ) by {
                    assert(below_parent(s, i));
                }
            }
        }
        if n > 0 {
            sift_down_range(&mut self.data, 0, n);
        }
        Some(x)
    }

    /// Adds every element of `items`. An empty heap takes the whole batch and
    /// is put in order in linear time; otherwise the elements are pushed one
    /// by one. Either way the heap afterwards holds the same bag.
    pub fn extend(&mut self, items: Vec<T>)
        requires
            old(self).wf(),
        ensures
            final(self).wf(),
            final(self)@ == old(self)@.add(items@.to_multiset()),
    {
        if self.data.len() == 0 {
            let mut items = items;
            proof {
                self.data@.to_multiset_ensures();
                assert(self@ =~= Multiset::<T>::empty()) by {
                    broadcast use vstd::multiset::group_multiset_axioms;

                }
                assert(self@.add(items@.to_multiset()) =~= items@.to_multiset()) by {
                    broadcast use vstd::multiset::group_multiset_axioms;

                }
            }
            self.data.append(&mut items);
            heapify(&mut self.data);
        } else {
            let ghost all = items@;
            let ghost before = self@;
            proof {
                assert(all.take(0) =~= Seq::<T>::empty());
                Seq::<T>::empty().to_multiset_ensures();
                assert(before.add(Seq::<T>::empty().to_multiset()) =~= before) by {
                    broadcast use vstd::multiset::group_multiset_axioms;

                }
            }
            for x in it: items
                invariant
                    self.wf(),
                    it.seq() == all,
                    self@ == before.add(all.take(it.index() as int).to_multiset()),
            {
                let ghost held = self@;
                let ghost k = it.index() as int;
                self.push(x);
                proof {
                    assert(all.take(k + 1) =~= all.take(k).push(x));
                    vstd::seq_lib::to_multiset_build(all.take(k), x);
                    assert(held.insert(x) =~= before.add(all.take(k).to_multiset().insert(x))) by {
                        broadcast use vstd::multiset::group_multiset_axioms;

                    }
                }
            }
            proof {
                assert(all.take(all.len() as int) =~= all);
            }
        }
    }

    /// Consumes the heap and returns its elements in ascending order. The
    /// backing vector is sorted in place: the root is exchanged with the last
    /// element of a shrinking prefix, which is then put back in heap order.
    pub fn into_sorted_vec(self) -> (v: Vec<T>)
        requires
            self.wf(),
        ensures
            v@.to_multiset() == self@,
            v@.len() == self@.len(),
            lawful::<T>() ==> ascending(v@),
    {
        proof {
            self.data@.to_multiset_ensures();
        }
        let mut v = self.data;
        let n = v.len();
        let mut end = n;
        while end > 1
            invariant
                end <= n,
                v@.len() == n,
                v@.to_multiset() == self@,
                lawful::<T>() ==> heap_from(v@, 0, end as int),
                lawful::<T>() ==> forall|j: int|
                    end <= j < n ==> all_at_most(v@, j, #[trigger] v@[j]),
            decreases end,
        {
            let ghost s = v@;
            end = end - 1;
            swap_at(&mut v, 0, end);
            let ghost w = v@;
            proof {
                lemma_swapped_contents(s, 0, end as int);
                if lawful::<T>() {
                    assert forall|i: int| 0 < i < end && 1 <= parent(i) implies #[trigger] below_parent(
                        w,
                        i,
                    ) by {
                        assert(below_parent(s, i));
                    }
                    assert forall|j: int| end <= j < n implies all_at_most(w, j, #[trigger] w[j]) by {
                        if j == end {
                            // The former root now stands at `end`, and nothing
                            // before it is ordered after it.
                            assert forall|i: int| 0 <= i < j implies le(#[trigger] w[i], w[j]) by {
                                lemma_root_is_greatest(
                                    s,
                                    end + 1,
                                    if i == 0 {
                                        end as int
                                    } else {
                                        i
                                    },
                                );
                            }
                        } else {
                            assert(all_at_most(s, j, s[j]));
                        }
                    }
                }
            }
            sift_down_range(&mut v, 0, end);
            proof {
                if lawful::<T>() {
                    let t = v@;
                    assert forall|j: int| end <= j < n implies all_at_most(t, j, #[trigger] t[j]) by {
                        assert(all_at_most(w, end as int, w[j]));
                    }
                }
            }
        }
        v
    }
}

} // verus!
