//! Order keys for distances, and sorted sequences of point indices.
//!
//! A distance is a non-negative float, `+inf`, or NaN. The library receives
//! it as a `u64` key: `0` for a zero distance, the IEEE-754 bit pattern for a
//! positive one (for non-negative floats the bit patterns are ordered as the
//! values are), and [`UNDEFINED_DIST`] for NaN. Two distances compare under
//! `<` exactly as their keys do under [`dist_lt`].
use vstd::prelude::*;
use vstd::relations::sorted_by;
use vstd::relations::total_ordering;
use vstd::seq_lib::lemma_sorted_unique;

verus! {

/// The key of a distance that is not a number.
pub const UNDEFINED_DIST: u64 = 0xffff_ffff_ffff_ffffu64;

/// `a < b` on distances as floats compare them: never true when either side
/// is undefined.
pub open spec fn dist_lt(a: u64, b: u64) -> bool {
    a != UNDEFINED_DIST && b != UNDEFINED_DIST && a < b
}

/// Executable form of [`dist_lt`].
pub fn dist_less(a: u64, b: u64) -> (r: bool)
    ensures
        r == dist_lt(a, b),
{
    a != UNDEFINED_DIST && b != UNDEFINED_DIST && a < b
}

/// `s` is in ascending order.
pub open spec fn is_sorted(s: Seq<usize>) -> bool {
    forall|i: int, j: int| 0 <= i < j < s.len() ==> s[i] <= s[j]
}

/// `s` is in strictly ascending order.
pub open spec fn is_strictly_sorted(s: Seq<usize>) -> bool {
    forall|i: int, j: int| 0 <= i < j < s.len() ==> s[i] < s[j]
}

/// `t` holds the entries of `s` in ascending order.
pub open spec fn is_sorted_permutation(t: Seq<usize>, s: Seq<usize>) -> bool {
    is_sorted(t) && t.to_multiset() == s.to_multiset()
}

/// Whether `x` occurs in `v`.
pub fn contains_index(v: &[usize], x: usize) -> (r: bool)
    ensures
        r == v@.contains(x),
{
    let mut i: usize = 0;
    while i < v.len()
        invariant
            i <= v@.len(),
            forall|j: int| 0 <= j < i ==> v@[j] != x,
        decreases v@.len() - i,
    {
        if v[i] == x {
            assert(v@[i as int] == x);
            return true;
        }
        i = i + 1;
    }
    false
}

/// Sorts `v` in ascending order.
pub fn sort_indices(v: &mut Vec<usize>)
    ensures
        is_sorted_permutation(final(v)@, old(v)@),
{
    let ghost input = v@;
    let mut sorted: Vec<usize> = Vec::new();
    let mut i: usize = 0;
    assert(sorted@ == input.take(0));
    while i < v.len()
        invariant
            v@ == input,
            i <= input.len(),
            is_sorted(sorted@),
            sorted@.to_multiset() == input.take(i as int).to_multiset(),
        decreases input.len() - i,
    {
        let x = v[i];
        let mut j: usize = 0;
        while j < sorted.len() && sorted[j] <= x
            invariant
                j <= sorted@.len(),
                forall|m: int| 0 <= m < j ==> sorted@[m] <= x,
            decreases sorted@.len() - j,
        {
            j = j + 1;
        }
        let ghost before = sorted@;
        sorted.insert(j, x);
        assert(is_sorted(sorted@)) by {
            assert forall|a: int, b: int| 0 <= a < b < sorted@.len() implies sorted@[a]
                <= sorted@[b] by {
                if b < j {
                } else if b == j {
                } else if a < j {
                    assert(before[a] <= x);
                    assert(x < before[j as int]);
                    assert(before[j as int] <= before[b - 1]);
                } else if a == j {
                    assert(x < before[j as int]);
                    assert(before[j as int] <= before[b - 1]);
                } else {
                }
            }
        }
        assert(sorted@.to_multiset() == before.to_multiset().insert(x)) by {
            vstd::seq_lib::to_multiset_insert(before, j as int, x);
        }
        assert(input.take(i + 1).to_multiset() == input.take(i as int).to_multiset().insert(x))
            by {
            assert(input.take(i + 1) == input.take(i as int).push(x));
            vstd::seq_lib::to_multiset_build(input.take(i as int), x);
        }
        i = i + 1;
    }
    assert(input.take(input.len() as int) == input);
    *v = sorted;
}

/// Two ascending sequences with the same entries are equal.
pub proof fn lemma_sorted_permutation_unique(a: Seq<usize>, b: Seq<usize>)
    requires
        is_sorted(a),
        is_sorted(b),
        a.to_multiset() == b.to_multiset(),
    ensures
        a == b,
{
    let leq = |x: usize, y: usize| x <= y;
    assert(total_ordering(leq));
    assert(sorted_by(a, leq));
    assert(sorted_by(b, leq));
    lemma_sorted_unique(a, b, leq);
}

/// A rearrangement of a sequence without repeated elements has none either.
pub proof fn lemma_no_duplicates_permutation(a: Seq<usize>, b: Seq<usize>)
    requires
        a.to_multiset() == b.to_multiset(),
        b.no_duplicates(),
    ensures
        a.no_duplicates(),
{
    broadcast use vstd::multiset::group_multiset_axioms;

    b.lemma_multiset_has_no_duplicates();
    a.lemma_multiset_has_no_duplicates_conv();
}

/// An ascending sequence without repeated elements is strictly ascending.
pub proof fn lemma_sorted_distinct_strict(a: Seq<usize>)
    requires
        is_sorted(a),
        a.no_duplicates(),
    ensures
        is_strictly_sorted(a),
{
}

/// Two strictly ascending sequences with the same elements are equal.
pub proof fn lemma_strictly_sorted_unique(a: Seq<usize>, b: Seq<usize>)
    requires
        is_strictly_sorted(a),
        is_strictly_sorted(b),
        a.to_set() == b.to_set(),
    ensures
        a == b,
{
    broadcast use vstd::seq_lib::group_to_multiset_ensures;
    broadcast use vstd::multiset::group_multiset_axioms;

    assert(a.no_duplicates());
    assert(b.no_duplicates());
    a.lemma_multiset_has_no_duplicates();
    b.lemma_multiset_has_no_duplicates();
    assert forall|x: usize| a.to_multiset().count(x) == b.to_multiset().count(x) by {
        if a.contains(x) {
            assert(a.to_set().contains(x));
            assert(b.contains(x));
        } else {
            assert(!a.to_set().contains(x));
            assert(!b.contains(x));
        }
    }
    assert(a.to_multiset() =~= b.to_multiset());
    lemma_sorted_permutation_unique(a, b);
}

} // verus!
