//! The total order that the queues rely on, stated once for every element type.

use core::cmp::Ordering;
use vstd::multiset::Multiset;
use vstd::prelude::*;
use vstd::std_specs::cmp::{OrdSpec, PartialEqSpec, PartialOrdSpec};

verus! {

/// The comparison operators of `T` compute a total order: they agree with
/// their specifications, and those are reflexive, transitive and total.
pub open spec fn lawful<T: Ord>() -> bool {
    vstd::laws_cmp::obeys_cmp::<T>()
}

/// `a` is ordered before `b`, or ties with it.
pub open spec fn le<T: Ord>(a: T, b: T) -> bool {
    a.cmp_spec(&b) != Ordering::Greater
}

/// `a` and `b` tie: each is ordered no later than the other.
pub open spec fn tied<T: Ord>(a: T, b: T) -> bool {
    le(a, b) && le(b, a)
}

/// Every element ties with itself.
pub proof fn lemma_le_reflexive<T: Ord>(a: T)
    requires
        lawful::<T>(),
    ensures
        le(a, a),
{
    reveal(vstd::laws_cmp::obeys_cmp_ord);
    reveal(vstd::laws_cmp::obeys_partial_cmp_spec_properties);
    // Were `a` ordered after itself, it would also be ordered before itself.
    assert(a.partial_cmp_spec(&a) == Some(a.cmp_spec(&a)));
}

/// Of any two elements, one is ordered no later than the other.
pub proof fn lemma_le_total<T: Ord>(a: T, b: T)
    requires
        lawful::<T>(),
    ensures
        le(a, b) || le(b, a),
{
    reveal(vstd::laws_cmp::obeys_cmp_ord);
    reveal(vstd::laws_cmp::obeys_partial_cmp_spec_properties);
    // If `a` is ordered after `b`, then `b` is ordered before `a`.
    assert(a.partial_cmp_spec(&b) == Some(a.cmp_spec(&b)));
    assert(b.partial_cmp_spec(&a) == Some(b.cmp_spec(&a)));
}

/// The order is transitive.
pub proof fn lemma_le_transitive<T: Ord>(a: T, b: T, c: T)
    requires
        lawful::<T>(),
        le(a, b),
        le(b, c),
    ensures
        le(a, c),
{
    reveal(vstd::laws_cmp::obeys_cmp_ord);
    reveal(vstd::laws_cmp::obeys_partial_cmp_spec_properties);
    reveal(vstd::laws_eq::obeys_eq_spec_properties);
    // Each comparison among the three is decided, and decided alike by both
    // comparison functions. Were `a` ordered after `c`, then `c < a`; with
    // `a < b` that gives `c < b`, with `b < c` it gives `b < a`, and with
    // ties on both sides it gives a tie of `a` and `c`: each is excluded.
    assert(a.partial_cmp_spec(&b) == Some(a.cmp_spec(&b)));
    assert(b.partial_cmp_spec(&a) == Some(b.cmp_spec(&a)));
    assert(b.partial_cmp_spec(&c) == Some(b.cmp_spec(&c)));
    assert(c.partial_cmp_spec(&b) == Some(c.cmp_spec(&b)));
    assert(a.partial_cmp_spec(&c) == Some(a.cmp_spec(&c)));
    assert(c.partial_cmp_spec(&a) == Some(c.cmp_spec(&a)));
}

/// Whether `a` is ordered no later than `b`, decided by the element type's
/// own comparison.
pub fn at_most<T: Ord>(a: &T, b: &T) -> (r: bool)
    ensures
        lawful::<T>() ==> r == le(*a, *b),
{
    proof {
        reveal(vstd::laws_cmp::obeys_cmp_ord);
        reveal(vstd::laws_cmp::obeys_cmp_partial_ord);
        assert(lawful::<T>() ==> a.partial_cmp_spec(b) == Some(a.cmp_spec(b)));
    }
    *a <= *b
}

/// `s` is in ascending order: no element is ordered after a later one.
pub open spec fn ascending<T: Ord>(s: Seq<T>) -> bool {
    forall|i: int, j: int| 0 <= i < j < s.len() ==> le(#[trigger] s[i], #[trigger] s[j])
}

/// `x` occurs in the bag `m`, and nothing in `m` is ordered after it.
pub open spec fn is_max_of<T: Ord>(x: T, m: Multiset<T>) -> bool {
    &&& m.contains(x)
    &&& forall|y: T| #[trigger] m.contains(y) ==> le(y, x)
}

/// Any two elements of `m` that tie are the same value, so that the order
/// tells the elements of `m` apart.
pub open spec fn ties_identical<T: Ord>(m: Multiset<T>) -> bool {
    forall|a: T, b: T| m.contains(a) && m.contains(b) && #[trigger] tied(a, b) ==> a == b
}

/// The greatest element of `m`, where it has one.
pub open spec fn max_of<T: Ord>(m: Multiset<T>) -> T {
    choose|x: T| is_max_of(x, m)
}

/// A bag whose ties are identical has at most one greatest element.
pub proof fn lemma_max_unique<T: Ord>(m: Multiset<T>, x: T, y: T)
    requires
        ties_identical(m),
        is_max_of(x, m),
        is_max_of(y, m),
    ensures
        x == y,
        x == max_of(m),
{
    assert(tied(x, y));
    let z = max_of(m);
    assert(tied(x, z));
}

/// The last element of a non-empty ascending sequence is a greatest element
/// of its contents.
pub proof fn lemma_last_is_max<T: Ord>(s: Seq<T>)
    requires
        lawful::<T>(),
        ascending(s),
        s.len() > 0,
    ensures
        is_max_of(s.last(), s.to_multiset()),
{
    broadcast use vstd::seq_lib::group_to_multiset_ensures;

    let m = s.to_multiset();
    assert forall|y: T| #[trigger] m.contains(y) implies le(y, s.last()) by {
        let i = choose|i: int| 0 <= i < s.len() && s[i] == y;
        if i == s.len() - 1 {
            lemma_le_reflexive(y);
        }
    }
}

/// Two ascending sequences with the same contents are the same sequence,
/// provided that ties in those contents are identical.
pub proof fn lemma_ascending_unique<T: Ord>(a: Seq<T>, b: Seq<T>)
    requires
        lawful::<T>(),
        ascending(a),
        ascending(b),
        a.to_multiset() == b.to_multiset(),
        ties_identical(a.to_multiset()),
    ensures
        a == b,
    decreases a.len(),
{
    broadcast use vstd::seq_lib::group_to_multiset_ensures;

    assert(a.len() == b.len()) by {
        b.to_multiset_ensures();
    }
    if a.len() > 0 {
        lemma_last_is_max(a);
        lemma_last_is_max(b);
        lemma_max_unique(a.to_multiset(), a.last(), b.last());
        let n = a.len() - 1;
        assert(a.drop_last() =~= a.remove(n));
        assert(b.drop_last() =~= b.remove(n));
        assert(ties_identical(a.drop_last().to_multiset()));
        lemma_ascending_unique(a.drop_last(), b.drop_last());
        assert(b =~= b.drop_last().push(b.last()));
    }
}

/// Under a lawful order every non-empty bag has a greatest element.
pub proof fn lemma_max_exists<T: Ord>(m: Multiset<T>)
    requires
        lawful::<T>(),
        m.len() > 0,
    ensures
        is_max_of(max_of(m), m),
    decreases m.len(),
{
    broadcast use vstd::multiset::group_multiset_axioms;

    let a = m.choose();
    let r = m.remove(a);
    if r.len() == 0 {
        lemma_le_reflexive(a);
        assert forall|y: T| #[trigger] m.contains(y) implies le(y, a) by {
            if y != a {
                assert(r.contains(y));
            }
        }
        assert(is_max_of(a, m));
    } else {
        lemma_max_exists(r);
        let b = max_of(r);
        lemma_le_total(a, b);
        lemma_le_reflexive(a);
        if le(b, a) {
            assert forall|y: T| #[trigger] m.contains(y) implies le(y, a) by {
                if y != a {
                    assert(r.contains(y));
                    lemma_le_transitive(y, b, a);
                }
            }
            assert(is_max_of(a, m));
        } else {
            assert forall|y: T| #[trigger] m.contains(y) implies le(y, b) by {
                if y != a {
                    assert(r.contains(y));
                }
            }
            assert(is_max_of(b, m));
        }
    }
}

/// The ascending arrangement of the bag `m`. Under a lawful order there is
/// one, and where ties in `m` are identical there is no other.
pub open spec fn ascending_of<T: Ord>(m: Multiset<T>) -> Seq<T> {
    choose|s: Seq<T>| ascending(s) && s.to_multiset() == m
}

} // verus!
