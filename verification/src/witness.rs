//! Witnesses and the two voting rules: weak and strong witnessing.
//!
//! An entry of a witness's landmark list is a pair `(l, d)`: the landmark
//! index `l` and the order key `d` of the distance from the witness to that
//! landmark, as described in [`crate::order`].
use vstd::prelude::*;
use crate::order::dist_less;
use crate::order::dist_lt;

verus! {

/// The landmark entries of `s` are in ascending order of distance key.
pub open spec fn dists_sorted(s: Seq<(usize, u64)>) -> bool {
    forall|i: int, j: int| 0 <= i < j < s.len() ==> s[i].1 <= s[j].1
}

/// Number of leading entries of `s` whose distance key is at most `key`.
pub open spec fn prefix_within(s: Seq<(usize, u64)>, key: u64) -> nat
    decreases s.len(),
{
    if s.len() == 0 {
        0
    } else if s[0].1 <= key {
        1 + prefix_within(s.drop_first(), key)
    } else {
        0
    }
}

/// `e` placed after the leading entries of `s` that are no farther than it.
pub open spec fn insert_by_dist(s: Seq<(usize, u64)>, e: (usize, u64)) -> Seq<
    (usize, u64),
> {
    s.insert(prefix_within(s, e.1) as int, e)
}

/// The stable sort of `s` by distance key: entries at equal distance keep the
/// order they have in `s`.
pub open spec fn sort_by_dist(s: Seq<(usize, u64)>) -> Seq<(usize, u64)>
    decreases s.len(),
{
    if s.len() == 0 {
        s
    } else {
        insert_by_dist(sort_by_dist(s.drop_last()), s.last())
    }
}

/// The landmark indices of the first `k` entries of `s` (all of them when
/// `s` has fewer).
pub open spec fn nearest_of(s: Seq<(usize, u64)>, k: nat) -> Seq<usize> {
    Seq::new(if k <= s.len() { k } else { s.len() }, |i: int| s[i].0)
}

/// Every vertex of `sigma` is among the `nu` nearest landmarks of the witness
/// whose sorted landmark list is `s`.
pub open spec fn weakly_witnesses(s: Seq<(usize, u64)>, sigma: Seq<usize>, nu: nat) -> bool {
    forall|i: int| 0 <= i < sigma.len() ==> nearest_of(s, nu).contains(#[trigger] sigma[i])
}

/// The simplified strong witness rule: with `k` the number of vertices of
/// `sigma`, every vertex is among the `k` nearest landmarks, and when a
/// `k`-th and a `(k+1)`-th landmark exist the `(k+1)`-th is strictly farther.
pub open spec fn strongly_witnesses(s: Seq<(usize, u64)>, sigma: Seq<usize>) -> bool {
    let k = sigma.len();
    &&& k <= s.len()
    &&& weakly_witnesses(s, sigma, k)
    &&& 0 < k < s.len() ==> dist_lt(s[k - 1].1, s[k as int].1)
}

/// A witness point with its landmarks, nearest first.
#[derive(Debug, Clone)]
pub struct Witness {
    /// Index of the witness in the original point cloud.
    pub index: usize,
    /// One entry per landmark, sorted ascending by distance.
    pub landmark_dists: Vec<(usize, u64)>,
}

proof fn lemma_prefix_within_is(s: Seq<(usize, u64)>, key: u64, j: int)
    requires
        0 <= j <= s.len(),
        forall|m: int| 0 <= m < j ==> s[m].1 <= key,
        j < s.len() ==> s[j].1 > key,
    ensures
        prefix_within(s, key) == j,
    decreases j,
{
    if j > 0 {
        lemma_prefix_within_is(s.drop_first(), key, j - 1);
    }
}

proof fn lemma_prefix_within_bounds(s: Seq<(usize, u64)>, key: u64)
    ensures
        prefix_within(s, key) <= s.len(),
        forall|m: int| 0 <= m < prefix_within(s, key) ==> s[m].1 <= key,
        prefix_within(s, key) < s.len() ==> s[prefix_within(s, key) as int].1 > key,
    decreases s.len(),
{
    if s.len() > 0 && s[0].1 <= key {
        lemma_prefix_within_bounds(s.drop_first(), key);
        assert forall|m: int| 0 <= m < prefix_within(s, key) implies s[m].1 <= key by {
            if m > 0 {
                assert(s[m] == s.drop_first()[m - 1]);
            }
        }
    }
}

/// Placing an entry by distance into a sorted list keeps it sorted.
pub proof fn lemma_insert_by_dist_sorted(s: Seq<(usize, u64)>, e: (usize, u64))
    requires
        dists_sorted(s),
    ensures
        dists_sorted(insert_by_dist(s, e)),
        insert_by_dist(s, e).len() == s.len() + 1,
{
    lemma_prefix_within_bounds(s, e.1);
    let p = prefix_within(s, e.1) as int;
    let t = insert_by_dist(s, e);
    assert forall|a: int, b: int| 0 <= a < b < t.len() implies t[a].1 <= t[b].1 by {
        if b < p {
        } else if b == p {
        } else if a < p {
            assert(s[p].1 <= s[b - 1].1);
        } else if a == p {
            assert(s[p].1 <= s[b - 1].1);
        } else {
        }
    }
}

/// The stable sort by distance is sorted and has the length of its input.
pub proof fn lemma_sort_by_dist_sorted(s: Seq<(usize, u64)>)
    ensures
        dists_sorted(sort_by_dist(s)),
        sort_by_dist(s).len() == s.len(),
    decreases s.len(),
{
    if s.len() > 0 {
        lemma_sort_by_dist_sorted(s.drop_last());
        lemma_insert_by_dist_sorted(sort_by_dist(s.drop_last()), s.last());
    }
}

/// The stable sort by distance rearranges its input: it holds the same
/// entries, each as often.
pub proof fn lemma_sort_by_dist_permutes(s: Seq<(usize, u64)>)
    ensures
        sort_by_dist(s).to_multiset() == s.to_multiset(),
    decreases s.len(),
{
    if s.len() > 0 {
        let rest = sort_by_dist(s.drop_last());
        lemma_sort_by_dist_permutes(s.drop_last());
        lemma_sort_by_dist_sorted(s.drop_last());
        lemma_prefix_within_bounds(rest, s.last().1);
        vstd::seq_lib::to_multiset_insert(rest, prefix_within(rest, s.last().1) as int, s.last());
        assert(s.drop_last().push(s.last()) == s);
        vstd::seq_lib::to_multiset_build(s.drop_last(), s.last());
    }
}

/// The landmark indices of the entries of `s`, in order.
pub open spec fn labels(s: Seq<(usize, u64)>) -> Seq<usize> {
    s.map_values(|e: (usize, u64)| e.0)
}

/// The stable sort by distance rearranges the landmark indices.
pub proof fn lemma_sort_by_dist_labels(s: Seq<(usize, u64)>)
    ensures
        labels(sort_by_dist(s)).to_multiset() == labels(s).to_multiset(),
    decreases s.len(),
{
    if s.len() > 0 {
        let rest = s.drop_last();
        let x = s.last();
        let t = sort_by_dist(rest);
        lemma_sort_by_dist_labels(rest);
        lemma_sort_by_dist_sorted(rest);
        lemma_prefix_within_bounds(t, x.1);
        let p = prefix_within(t, x.1) as int;
        assert(labels(t.insert(p, x)) == labels(t).insert(p, x.0));
        vstd::seq_lib::to_multiset_insert(labels(t), p, x.0);
        assert(labels(s) == labels(rest).push(x.0));
        vstd::seq_lib::to_multiset_build(labels(rest), x.0);
    }
}

/// Selects the entries at distance key `key`.
pub open spec fn at_dist(key: u64) -> spec_fn((usize, u64)) -> bool {
    |e: (usize, u64)| e.1 == key
}

proof fn lemma_filter_none(s: Seq<(usize, u64)>, pred: spec_fn((usize, u64)) -> bool)
    requires
        forall|i: int| 0 <= i < s.len() ==> !pred(s[i]),
    ensures
        s.filter(pred) == Seq::<(usize, u64)>::empty(),
    decreases s.len(),
{
    reveal(Seq::filter);
    if s.len() > 0 {
        lemma_filter_none(s.drop_last(), pred);
    }
}

/// The stable sort by distance keeps the order of the entries at each
/// distance.
pub proof fn lemma_sort_by_dist_stable(s: Seq<(usize, u64)>, key: u64)
    ensures
        sort_by_dist(s).filter(at_dist(key)) == s.filter(at_dist(key)),
    decreases s.len(),
{
    if s.len() > 0 {
        let rest = s.drop_last();
        let x = s.last();
        let t = sort_by_dist(rest);
        let pred = at_dist(key);
        lemma_sort_by_dist_stable(rest, key);
        lemma_sort_by_dist_sorted(rest);
        lemma_prefix_within_bounds(t, x.1);
        let p = prefix_within(t, x.1) as int;
        let head = t.take(p);
        let tail = t.skip(p);
        assert(t == head + tail);
        assert(t.insert(p, x) == head + seq![x] + tail);
        Seq::filter_distributes_over_add(head, tail, pred);
        Seq::filter_distributes_over_add(head + seq![x], tail, pred);
        Seq::filter_distributes_over_add(head, seq![x], pred);
        reveal_with_fuel(Seq::filter, 2);
        assert(seq![x].drop_last() == Seq::<(usize, u64)>::empty());
        assert(s.filter(pred) == if pred(x) {
            rest.filter(pred).push(x)
        } else {
            rest.filter(pred)
        });
        if pred(x) {
            assert forall|i: int| 0 <= i < tail.len() implies !pred(tail[i]) by {
                assert(t[p].1 <= t[p + i].1);
            }
            lemma_filter_none(tail, pred);
            assert(head.filter(pred) + seq![x] == head.filter(pred).push(x));
        } else {
            assert(seq![x].filter(pred) == Seq::<(usize, u64)>::empty());
        }
    }
}

impl Witness {
    /// Creates the witness `point_idx` from one entry per landmark, in any
    /// order: the entries are sorted stably by distance.
    pub fn new(point_idx: usize, landmark_dists: Vec<(usize, u64)>) -> (w: Self)
        ensures
            w.index == point_idx,
            w.landmark_dists@ == sort_by_dist(landmark_dists@),
            dists_sorted(w.landmark_dists@),
            w.landmark_dists@.to_multiset() == landmark_dists@.to_multiset(),
            forall|key: u64|
                w.landmark_dists@.filter(at_dist(key)) == #[trigger] landmark_dists@.filter(
                    at_dist(key),
                ),
    {
        let ghost input = landmark_dists@;
        let mut sorted: Vec<(usize, u64)> = Vec::new();
        let mut i: usize = 0;
        while i < landmark_dists.len()
            invariant
                landmark_dists@ == input,
                i <= input.len(),
                sorted@ == sort_by_dist(input.take(i as int)),
                dists_sorted(sorted@),
            decreases input.len() - i,
        {
            let e = landmark_dists[i];
            let mut j: usize = 0;
            while j < sorted.len() && sorted[j].1 <= e.1
                invariant
                    j <= sorted@.len(),
                    forall|m: int| 0 <= m < j ==> sorted@[m].1 <= e.1,
                decreases sorted@.len() - j,
            {
                j = j + 1;
            }
            proof {
                lemma_prefix_within_is(sorted@, e.1, j as int);
                lemma_insert_by_dist_sorted(sorted@, e);
                assert(input.take(i + 1).drop_last() == input.take(i as int));
            }
            sorted.insert(j, e);
            i = i + 1;
        }
        proof {
            assert(input.take(input.len() as int) == input);
            lemma_sort_by_dist_permutes(input);
            assert forall|key: u64|
                sorted@.filter(at_dist(key)) == #[trigger] input.filter(at_dist(key)) by {
                lemma_sort_by_dist_stable(input, key);
            }
        }
        Witness { index: point_idx, landmark_dists: sorted }
    }

    /// The indices of the `k` nearest landmarks, nearest first.
    pub fn nearest_landmarks(&self, k: usize) -> (r: Vec<usize>)
        ensures
            r@ == nearest_of(self.landmark_dists@, k as nat),
    {
        let mut r: Vec<usize> = Vec::new();
        let mut i: usize = 0;
        while i < k && i < self.landmark_dists.len()
            invariant
                i <= self.landmark_dists@.len(),
                i <= k,
                r@ == Seq::new(i as nat, |m: int| self.landmark_dists@[m].0),
            decreases self.landmark_dists@.len() - i,
        {
            r.push(self.landmark_dists[i].0);
            i = i + 1;
        }
        r
    }
}

/// A weak witness votes for a simplex when all its vertices are among the
/// witness's nearest landmarks.
pub struct WeakWitness;

impl WeakWitness {
    /// Whether `w` votes for the simplex `landmark_indices`: every vertex is
    /// among the `nu` nearest landmarks of `w`.
    pub fn votes_for(w: &Witness, landmark_indices: &[usize], nu: usize) -> (r: bool)
        ensures
            r == weakly_witnesses(w.landmark_dists@, landmark_indices@, nu as nat),
    {
        let nearest = w.nearest_landmarks(nu);
        let mut i: usize = 0;
        while i < landmark_indices.len()
            invariant
                i <= landmark_indices@.len(),
                nearest@ == nearest_of(w.landmark_dists@, nu as nat),
                forall|m: int| 0 <= m < i ==> nearest@.contains(#[trigger] landmark_indices@[m]),
            decreases landmark_indices@.len() - i,
        {
            if !crate::order::contains_index(nearest.as_slice(), landmark_indices[i]) {
                return false;
            }
            i = i + 1;
        }
        true
    }
}

/// A strong witness certifies a simplex when the simplex is exactly its set
/// of nearest landmarks, strictly nearer than the next landmark.
pub struct StrongWitness;

impl StrongWitness {
    /// Whether `w` certifies the simplex `landmark_indices` under the
    /// simplified strong rule (see [`strongly_witnesses`]).
    pub fn certifies(w: &Witness, landmark_indices: &[usize]) -> (r: bool)
        ensures
            r == strongly_witnesses(w.landmark_dists@, landmark_indices@),
    {
        let k = landmark_indices.len();
        if k > w.landmark_dists.len() {
            return false;
        }
        if !WeakWitness::votes_for(w, landmark_indices, k) {
            return false;
        }
        if 0 < k && k < w.landmark_dists.len() {
            let d_next = w.landmark_dists[k].1;
            let d_k = w.landmark_dists[k - 1].1;
            return dist_less(d_k, d_next);
        }
        true
    }
}

/// A strong witness of a simplex is also a weak witness of it, with as many
/// nearest landmarks as the simplex has vertices.
pub proof fn lemma_strong_witness_is_weak(s: Seq<(usize, u64)>, sigma: Seq<usize>)
    requires
        strongly_witnesses(s, sigma),
    ensures
        weakly_witnesses(s, sigma, sigma.len()),
{
}

/// A weak witness for `nu` nearest landmarks stays one for any larger `nu`.
pub proof fn lemma_weak_witness_monotone(
    s: Seq<(usize, u64)>,
    sigma: Seq<usize>,
    nu: nat,
    nu2: nat,
)
    requires
        weakly_witnesses(s, sigma, nu),
        nu <= nu2,
    ensures
        weakly_witnesses(s, sigma, nu2),
{
    assert forall|i: int| 0 <= i < sigma.len() implies nearest_of(s, nu2).contains(
        #[trigger] sigma[i],
    ) by {
        let m = choose|m: int| 0 <= m < nearest_of(s, nu).len() && nearest_of(s, nu)[m] == sigma[i];
        assert(nearest_of(s, nu2)[m] == sigma[i]);
    }
}

/// `v` is the landmark of one of the first `nu` entries of `s`.
pub open spec fn among_first(s: Seq<(usize, u64)>, nu: nat, v: usize) -> bool {
    exists|m: int| 0 <= m < nu && m < s.len() && #[trigger] s[m].0 == v
}

/// The weak rule looks only at which landmarks are nearest: a witness whose
/// landmark list is `s` votes for `sigma` with `nu` exactly when every
/// listed vertex is the landmark of one of the first `nu` entries, whatever
/// order the vertices are listed in and however often one repeats.
pub proof fn lemma_weak_rule(s: Seq<(usize, u64)>, sigma: Seq<usize>, nu: nat)
    ensures
        weakly_witnesses(s, sigma, nu) <==> (forall|v: int|
            0 <= v < sigma.len() ==> among_first(s, nu, #[trigger] sigma[v])),
{
    let near = nearest_of(s, nu);
    assert forall|x: usize| near.contains(x) <==> among_first(s, nu, x) by {
        if near.contains(x) {
            let m = choose|m: int| 0 <= m < near.len() && near[m] == x;
            assert(s[m].0 == x);
        }
        if among_first(s, nu, x) {
            let m = choose|m: int| 0 <= m < nu && m < s.len() && #[trigger] s[m].0 == x;
            assert(near[m] == x);
        }
    }
}

/// Two listings of the same vertices, in any order, get the same answer
/// from the weak rule.
pub proof fn lemma_weak_rule_any_order(
    s: Seq<(usize, u64)>,
    a: Seq<usize>,
    b: Seq<usize>,
    nu: nat,
)
    requires
        a.to_set() == b.to_set(),
    ensures
        weakly_witnesses(s, a, nu) == weakly_witnesses(s, b, nu),
{
    lemma_weak_rule(s, a, nu);
    lemma_weak_rule(s, b, nu);
    assert forall|x: usize| a.contains(x) <==> b.contains(x) by {
        assert(a.to_set().contains(x) == a.contains(x));
        assert(b.to_set().contains(x) == b.contains(x));
    }
    if weakly_witnesses(s, a, nu) {
        assert forall|v: int| 0 <= v < b.len() implies among_first(s, nu, #[trigger] b[v]) by {
            assert(b.contains(b[v]));
            let j = choose|j: int| 0 <= j < a.len() && a[j] == b[v];
        }
    }
    if weakly_witnesses(s, b, nu) {
        assert forall|v: int| 0 <= v < a.len() implies among_first(s, nu, #[trigger] a[v]) by {
            assert(a.contains(a[v]));
            let j = choose|j: int| 0 <= j < b.len() && b[j] == a[v];
        }
    }
}

/// The strong rule: with `k` the number of listed vertices, a witness whose
/// landmark list is `s` certifies `sigma` exactly when it has at least `k`
/// landmarks, every listed vertex is the landmark of one of its first `k`
/// entries, and the `(k+1)`-th landmark, if there is one, is strictly
/// farther than the `k`-th. Distances among the `k` nearest play no part.
pub proof fn lemma_strong_rule(s: Seq<(usize, u64)>, sigma: Seq<usize>)
    ensures
        strongly_witnesses(s, sigma) <==> {
            &&& sigma.len() <= s.len()
            &&& forall|v: int|
                0 <= v < sigma.len() ==> among_first(s, sigma.len(), #[trigger] sigma[v])
            &&& 0 < sigma.len() < s.len() ==> dist_lt(
                s[sigma.len() - 1].1,
                s[sigma.len() as int].1,
            )
        },
{
    lemma_weak_rule(s, sigma, sigma.len());
}

/// Two listings of the same vertices, in any order, get the same answer
/// from the strong rule.
pub proof fn lemma_strong_rule_any_order(s: Seq<(usize, u64)>, a: Seq<usize>, b: Seq<usize>)
    requires
        a.to_multiset() == b.to_multiset(),
    ensures
        strongly_witnesses(s, a) == strongly_witnesses(s, b),
{
    broadcast use vstd::seq_lib::group_to_multiset_ensures;

    vstd::seq_lib::to_multiset_len(a);
    vstd::seq_lib::to_multiset_len(b);
    assert forall|x: usize| a.to_set().contains(x) <==> b.to_set().contains(x) by {
        assert(a.to_set().contains(x) == a.contains(x));
        assert(b.to_set().contains(x) == b.contains(x));
        assert(a.contains(x) == (a.to_multiset().count(x) > 0));
        assert(b.contains(x) == (b.to_multiset().count(x) > 0));
    }
    assert(a.to_set() =~= b.to_set());
    lemma_weak_rule_any_order(s, a, b, a.len());
}

} // verus!
