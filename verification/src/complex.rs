//! The witness complex: landmarks as vertices, and the simplices that
//! receive a witness's vote.
//!
//! The complex is built from a distance table: `point_dists[i][j]` holds the
//! order key of the distance from point `i` to the landmark `landmarks[j]`
//! (see [`crate::order`]). Points that are landmarks are not
//! witnesses, and their rows are not read.
use vstd::prelude::*;
use crate::order::contains_index;
use crate::order::is_sorted_permutation;
use crate::order::lemma_sorted_permutation_unique;
use crate::order::sort_indices;
use crate::witness::nearest_of;
use crate::witness::sort_by_dist;
use crate::witness::strongly_witnesses;
use crate::witness::weakly_witnesses;
use crate::witness::StrongWitness;
use crate::witness::Witness;

verus! {

/// The landmark entries of one point, in landmark order.
pub open spec fn witness_entries(landmarks: Seq<usize>, row: Seq<u64>) -> Seq<
    (usize, u64),
> {
    Seq::new(landmarks.len(), |j: int| (landmarks[j], row[j]))
}

/// The sorted landmark list of point `i` as a witness.
pub open spec fn witness_list(
    point_dists: Seq<Vec<u64>>,
    landmarks: Seq<usize>,
    i: int,
) -> Seq<(usize, u64)> {
    sort_by_dist(witness_entries(landmarks, point_dists[i]@))
}

/// Point `i` of `n` is a witness: it is not a landmark.
pub open spec fn is_witness(n: nat, landmarks: Seq<usize>, i: int) -> bool {
    0 <= i < n && !landmarks.contains(i as usize)
}

/// `s` is the 0-simplex of one of the landmarks.
pub open spec fn is_vertex_simplex(landmarks: Seq<usize>, s: Seq<usize>) -> bool {
    exists|j: int| 0 <= j < landmarks.len() && s == seq![landmarks[j]]
}

/// Witness `i` votes for `s` as its `dim`-simplex under the weak rule: `s`
/// holds, in ascending order, the `dim + 1` nearest landmarks of `i`.
pub open spec fn weak_vote(
    point_dists: Seq<Vec<u64>>,
    landmarks: Seq<usize>,
    max_dim: nat,
    i: int,
    dim: int,
    s: Seq<usize>,
) -> bool {
    &&& is_witness(point_dists.len(), landmarks, i)
    &&& 1 <= dim <= max_dim
    &&& dim + 1 <= landmarks.len()
    &&& is_sorted_permutation(
        s,
        nearest_of(witness_list(point_dists, landmarks, i), (dim + 1) as nat),
    )
}

/// Witness `i` votes for `s` as its `dim`-simplex and also certifies it
/// under the strong rule.
pub open spec fn strong_vote(
    point_dists: Seq<Vec<u64>>,
    landmarks: Seq<usize>,
    max_dim: nat,
    i: int,
    dim: int,
    s: Seq<usize>,
) -> bool {
    &&& weak_vote(point_dists, landmarks, max_dim, i, dim, s)
    &&& strongly_witnesses(witness_list(point_dists, landmarks, i), s)
}

/// The vote of the weak rule, or of the strong rule when `strong` holds.
pub open spec fn vote(
    strong: bool,
    point_dists: Seq<Vec<u64>>,
    landmarks: Seq<usize>,
    max_dim: nat,
    i: int,
    dim: int,
    s: Seq<usize>,
) -> bool {
    if strong {
        strong_vote(point_dists, landmarks, max_dim, i, dim, s)
    } else {
        weak_vote(point_dists, landmarks, max_dim, i, dim, s)
    }
}

/// `s` is a simplex of the weak witness complex up to dimension `max_dim`:
/// the 0-simplex of a landmark, or a simplex that a witness votes for under
/// the weak rule.
pub open spec fn in_weak_complex(
    point_dists: Seq<Vec<u64>>,
    landmarks: Seq<usize>,
    max_dim: nat,
    s: Seq<usize>,
) -> bool {
    ||| is_vertex_simplex(landmarks, s)
    ||| exists|i: int, dim: int| #[trigger] weak_vote(point_dists, landmarks, max_dim, i, dim, s)
}

/// `s` is a simplex of the strong witness complex up to dimension `max_dim`:
/// the 0-simplex of a landmark, or a simplex that a witness votes for and
/// certifies under the strong rule.
pub open spec fn in_strong_complex(
    point_dists: Seq<Vec<u64>>,
    landmarks: Seq<usize>,
    max_dim: nat,
    s: Seq<usize>,
) -> bool {
    ||| is_vertex_simplex(landmarks, s)
    ||| exists|i: int, dim: int| #[trigger] strong_vote(point_dists, landmarks, max_dim, i, dim, s)
}

/// `s` is a simplex of the strong complex when `strong` holds, of the weak
/// one otherwise.
pub open spec fn in_complex(
    strong: bool,
    point_dists: Seq<Vec<u64>>,
    landmarks: Seq<usize>,
    max_dim: nat,
    s: Seq<usize>,
) -> bool {
    if strong {
        in_strong_complex(point_dists, landmarks, max_dim, s)
    } else {
        in_weak_complex(point_dists, landmarks, max_dim, s)
    }
}

/// Every witness row of the table has one entry per landmark.
pub open spec fn rows_complete(point_dists: Seq<Vec<u64>>, landmarks: Seq<usize>) -> bool {
    forall|i: int|
        #[trigger] is_witness(point_dists.len(), landmarks, i) ==> point_dists[i]@.len()
            == landmarks.len()
}

/// The contents of a list of simplices.
pub open spec fn views(vs: Seq<Vec<usize>>) -> Seq<Seq<usize>> {
    vs.map_values(|v: Vec<usize>| v@)
}

/// The contents of a list of borrowed simplices.
pub open spec fn ref_views(vs: Seq<&Vec<usize>>) -> Seq<Seq<usize>> {
    vs.map_values(|v: &Vec<usize>| v@)
}

/// Whether `a` and `b` hold the same indices in the same order.
fn same_indices(a: &Vec<usize>, b: &Vec<usize>) -> (r: bool)
    ensures
        r == (a@ == b@),
{
    if a.len() != b.len() {
        return false;
    }
    let mut i: usize = 0;
    while i < a.len()
        invariant
            a@.len() == b@.len(),
            i <= a@.len(),
            forall|m: int| 0 <= m < i ==> a@[m] == b@[m],
        decreases a@.len() - i,
    {
        if a[i] != b[i] {
            return false;
        }
        i = i + 1;
    }
    assert(a@ == b@);
    true
}

/// Adds `s` to a list of distinct simplices unless it is there already.
fn insert_simplex(simplices: &mut Vec<Vec<usize>>, s: Vec<usize>)
    requires
        views(old(simplices)@).no_duplicates(),
    ensures
        views(final(simplices)@).no_duplicates(),
        forall|t: Seq<usize>|
            views(final(simplices)@).contains(t) <==> (views(old(simplices)@).contains(t) || t
                == s@),
{
    let ghost before = views(simplices@);
    let mut i: usize = 0;
    while i < simplices.len()
        invariant
            views(simplices@) == before,
            before == views(old(simplices)@),
            before.no_duplicates(),
            i <= simplices@.len(),
            forall|m: int| 0 <= m < i ==> before[m] != s@,
        decreases simplices@.len() - i,
    {
        if same_indices(&simplices[i], &s) {
            assert(before[i as int] == s@);
            return;
        }
        i = i + 1;
    }
    let ghost sv = s@;
    simplices.push(s);
    assert(views(simplices@) == before.push(sv));
    assert(before == views(old(simplices)@));
    assert(views(simplices@).no_duplicates());
    assert forall|t: Seq<usize>|
        views(simplices@).contains(t) <==> (before.contains(t) || t == sv) by {
        if before.contains(t) {
            let k = choose|k: int| 0 <= k < before.len() && before[k] == t;
            assert(views(simplices@)[k] == t);
        }
        if t == sv {
            assert(views(simplices@)[before.len() as int] == t);
        }
        if views(simplices@).contains(t) {
            let k = choose|k: int| 0 <= k < views(simplices@).len() && views(simplices@)[k] == t;
            if k < before.len() {
                assert(before[k] == t);
            }
        }
    }
    assert(forall|t: Seq<usize>|
        views(simplices@).contains(t) <==> (views(old(simplices)@).contains(t) || t == sv));
}

/// The landmark entries of one point, from its row of the distance table.
fn witness_row(landmarks: &[usize], row: &Vec<u64>) -> (r: Vec<(usize, u64)>)
    requires
        row@.len() == landmarks@.len(),
    ensures
        r@ == witness_entries(landmarks@, row@),
{
    let mut r: Vec<(usize, u64)> = Vec::new();
    let mut j: usize = 0;
    while j < landmarks.len()
        invariant
            row@.len() == landmarks@.len(),
            j <= landmarks@.len(),
            r@ == witness_entries(landmarks@, row@).take(j as int),
        decreases landmarks@.len() - j,
    {
        r.push((landmarks[j], row[j]));
        j = j + 1;
        assert(r@ == witness_entries(landmarks@, row@).take(j as int));
    }
    r
}

/// A witness complex: the landmarks as vertices, and the simplices that
/// witnesses vote for.
#[derive(Debug)]
pub struct WitnessComplex {
    vertices: Vec<usize>,
    simplices: Vec<Vec<usize>>,
}

impl WitnessComplex {
    /// Each simplex is stored once.
    #[verifier::type_invariant]
    spec fn simplices_distinct(self) -> bool {
        views(self.simplices@).no_duplicates()
    }

    /// The vertices: the landmarks, in the order given.
    pub closed spec fn vertex_seq(self) -> Seq<usize> {
        self.vertices@
    }

    /// The simplices, each as its vertices in ascending order.
    pub closed spec fn simplex_set(self) -> Set<Seq<usize>> {
        views(self.simplices@).to_set()
    }

    /// Builds the weak witness complex of dimension up to `max_dim`: the
    /// 0-simplex of every landmark, and for every witness `w` and every
    /// `dim` in `1..=max_dim`, the simplex of the `dim + 1` nearest landmarks
    /// of `w` (when there are that many landmarks).
    pub fn build_weak(point_dists: &[Vec<u64>], landmarks: &[usize], max_dim: usize) -> (c:
        Self)
        requires
            rows_complete(point_dists@, landmarks@),
        ensures
            c.vertex_seq() == landmarks@,
            forall|s: Seq<usize>|
                c.simplex_set().contains(s) <==> in_weak_complex(
                    point_dists@,
                    landmarks@,
                    max_dim as nat,
                    s,
                ),
    {
        let c = Self::build(point_dists, landmarks, max_dim, false);
        proof {
            lemma_built_all(false, point_dists@, landmarks@, max_dim as nat);
        }
        c
    }

    /// Builds the strong witness complex of dimension up to `max_dim`: as the
    /// weak one, but a simplex voted for by a witness is kept only when that
    /// witness also certifies it under the strong rule.
    pub fn build_strong(point_dists: &[Vec<u64>], landmarks: &[usize], max_dim: usize) -> (c:
        Self)
        requires
            rows_complete(point_dists@, landmarks@),
            (exists|i: int| is_witness(point_dists@.len(), landmarks@, i)) ==> max_dim
                < usize::MAX,
        ensures
            c.vertex_seq() == landmarks@,
            forall|s: Seq<usize>|
                c.simplex_set().contains(s) <==> in_strong_complex(
                    point_dists@,
                    landmarks@,
                    max_dim as nat,
                    s,
                ),
    {
        let c = Self::build(point_dists, landmarks, max_dim, true);
        proof {
            lemma_built_all(true, point_dists@, landmarks@, max_dim as nat);
        }
        c
    }

    /// Number of vertices.
    pub fn num_vertices(&self) -> (r: usize)
        ensures
            r == self.vertex_seq().len(),
    {
        self.vertices.len()
    }

    /// Total number of simplices.
    pub fn num_simplices(&self) -> (r: usize)
        ensures
            r == self.simplex_set().len(),
    {
        proof {
            use_type_invariant(self);
            views(self.simplices@).unique_seq_to_set();
        }
        self.simplices.len()
    }

    /// All simplices of dimension `dim` (with `dim + 1` vertices), each once,
    /// in no particular order.
    pub fn simplices_of_dim(&self, dim: usize) -> (r: Vec<&Vec<usize>>)
        ensures
            ref_views(r@).no_duplicates(),
            ref_views(r@).to_set() == with_len(self.simplex_set(), (dim + 1) as nat),
            r@.len() == with_len(self.simplex_set(), (dim + 1) as nat).len(),
    {
        proof {
            use_type_invariant(self);
            views(self.simplices@).unique_seq_to_set();
        }
        let ghost all = views(self.simplices@);
        let mut r: Vec<&Vec<usize>> = Vec::new();
        let mut i: usize = 0;
        while i < self.simplices.len()
            invariant
                all == views(self.simplices@),
                all.no_duplicates(),
                i <= all.len(),
                ref_views(r@).no_duplicates(),
                forall|t: Seq<usize>|
                    ref_views(r@).contains(t) <==> (exists|m: int|
                        0 <= m < i && all[m] == t && t.len() == dim + 1),
            decreases all.len() - i,
        {
            let ghost before = ref_views(r@);
            let s = &self.simplices[i];
            assert(all[i as int] == s@);
            if s.len() > 0 && s.len() - 1 == dim {
                r.push(s);
                assert(ref_views(r@) == before.push(all[i as int]));
                assert(!before.contains(all[i as int]));
                assert forall|t: Seq<usize>|
                    ref_views(r@).contains(t) <==> (exists|m: int|
                        0 <= m < i + 1 && all[m] == t && t.len() == dim + 1) by {
                    let now = ref_views(r@);
                    if now.contains(t) {
                        if t == all[i as int] {
                            assert(0 <= i < i + 1 && all[i as int] == t && t.len() == dim + 1);
                        } else {
                            let k = choose|k: int| 0 <= k < now.len() && now[k] == t;
                            assert(before[k] == t);
                            assert(before.contains(t));
                            let m = choose|m: int|
                                0 <= m < i && all[m] == t && t.len() == dim + 1;
                            assert(0 <= m < i + 1 && all[m] == t && t.len() == dim + 1);
                        }
                    }
                    if exists|m: int| 0 <= m < i + 1 && all[m] == t && t.len() == dim + 1 {
                        if t == all[i as int] {
                            assert(now[before.len() as int] == t);
                        } else {
                            let m = choose|m: int|
                                0 <= m < i + 1 && all[m] == t && t.len() == dim + 1;
                            assert(before.contains(t));
                            let k = choose|k: int| 0 <= k < before.len() && before[k] == t;
                            assert(now[k] == t);
                        }
                    }
                }
            }
            i = i + 1;
        }
        proof {
            let got = ref_views(r@);
            assert(got.to_set() == with_len(self.simplex_set(), (dim + 1) as nat));
            got.unique_seq_to_set();
        }
        r
    }

    /// Whether the simplex with the given vertices, in any order, is in the
    /// complex.
    pub fn has_simplex(&self, vertices: &[usize]) -> (r: bool)
        ensures
            r == exists|s: Seq<usize>|
                self.simplex_set().contains(s) && is_sorted_permutation(s, vertices@),
    {
        let mut v = vstd::slice::slice_to_vec(vertices);
        sort_indices(&mut v);
        let ghost all = views(self.simplices@);
        let mut i: usize = 0;
        while i < self.simplices.len()
            invariant
                all == views(self.simplices@),
                i <= all.len(),
                is_sorted_permutation(v@, vertices@),
                forall|m: int| 0 <= m < i ==> all[m] != v@,
            decreases all.len() - i,
        {
            if same_indices(&self.simplices[i], &v) {
                assert(all[i as int] == v@);
                assert(self.simplex_set().contains(v@));
                assert(is_sorted_permutation(v@, vertices@));
                return true;
            }
            i = i + 1;
        }
        proof {
            assert forall|s: Seq<usize>|
                self.simplex_set().contains(s) && is_sorted_permutation(s, vertices@) implies false by {
                lemma_sorted_permutation_unique(s, v@);
            }
        }
        false
    }

    fn build(
        point_dists: &[Vec<u64>],
        landmarks: &[usize],
        max_dim: usize,
        strong: bool,
    ) -> (c: Self)
        requires
            rows_complete(point_dists@, landmarks@),
        ensures
            c.vertex_seq() == landmarks@,
            forall|s: Seq<usize>|
                c.simplex_set().contains(s) <==> built_upto(
                    strong,
                    point_dists@,
                    landmarks@,
                    max_dim as nat,
                    point_dists@.len() as int,
                    0,
                    s,
                ),
    {
        let ghost pd = point_dists@;
        let ghost lm = landmarks@;
        let ghost md = max_dim as nat;
        let mut simplices: Vec<Vec<usize>> = Vec::new();
        let mut j: usize = 0;
        while j < landmarks.len()
            invariant
                lm == landmarks@,
                j <= lm.len(),
                views(simplices@).no_duplicates(),
                forall|s: Seq<usize>|
                    views(simplices@).contains(s) <==> exists|m: int|
                        0 <= m < j && s == seq![lm[m]],
            decreases lm.len() - j,
        {
            let mut v: Vec<usize> = Vec::new();
            v.push(landmarks[j]);
            assert(v@ == seq![lm[j as int]]);
            insert_simplex(&mut simplices, v);
            j = j + 1;
        }
        let n = point_dists.len();
        let mut i: usize = 0;
        proof {
            assert forall|s: Seq<usize>|
                views(simplices@).contains(s) <==> built_upto(strong, pd, lm, md, 0, 0, s) by {
                if built_upto(strong, pd, lm, md, 0, 0, s) && !is_vertex_simplex(lm, s) {
                    let (i2, d2) = choose|i2: int, d2: int|
                        (i2 < 0 || (i2 == 0 && d2 < 0)) && #[trigger] vote(
                            strong,
                            pd,
                            lm,
                            md,
                            i2,
                            d2,
                            s,
                        );
                }
            }
        }
        while i < n
            invariant
                pd == point_dists@,
                lm == landmarks@,
                md == max_dim as nat,
                n == pd.len(),
                rows_complete(pd, lm),
                i <= n,
                views(simplices@).no_duplicates(),
                forall|s: Seq<usize>|
                    views(simplices@).contains(s) <==> built_upto(
                        strong,
                        pd,
                        lm,
                        md,
                        i as int,
                        0,
                        s,
                    ),
            decreases n - i,
        {
            if !contains_index(landmarks, i) {
                assert(is_witness(n as nat, lm, i as int));
                let row = witness_row(landmarks, &point_dists[i]);
                let w = Witness::new(i, row);
                proof {
                    crate::witness::lemma_sort_by_dist_sorted(witness_entries(lm, pd[i as int]@));
                    lemma_built_upto_no_votes_below(strong, pd, lm, md, i as int, 1);
                }
                let mut dim: usize = 1;
                while dim <= max_dim && dim < w.landmark_dists.len()
                    invariant
                        pd == point_dists@,
                        lm == landmarks@,
                        md == max_dim as nat,
                        n == pd.len(),
                        i < n,
                        is_witness(n as nat, lm, i as int),
                        w.landmark_dists@ == witness_list(pd, lm, i as int),
                        w.landmark_dists@.len() == lm.len(),
                        1 <= dim <= w.landmark_dists@.len() + 1,
                        views(simplices@).no_duplicates(),
                        forall|s: Seq<usize>|
                            views(simplices@).contains(s) <==> built_upto(
                                strong,
                                pd,
                                lm,
                                md,
                                i as int,
                                dim as int,
                                s,
                            ),
                    decreases w.landmark_dists@.len() + 1 - dim,
                {
                    let mut sigma = w.nearest_landmarks(dim + 1);
                    let ghost nearest = sigma@;
                    sort_indices(&mut sigma);
                    proof {
                        vstd::seq_lib::to_multiset_len(sigma@);
                        vstd::seq_lib::to_multiset_len(nearest);
                    }
                    let keep = if strong {
                        StrongWitness::certifies(&w, sigma.as_slice())
                    } else {
                        true
                    };
                    let ghost sv = sigma@;
                    proof {
                        assert(vote(strong, pd, lm, md, i as int, dim as int, sv) == keep);
                        lemma_built_upto_step(strong, pd, lm, md, i as int, dim as int);
                    }
                    let ghost prev = views(simplices@);
                    if keep {
                        insert_simplex(&mut simplices, sigma);
                    }
                    proof {
                        assert forall|s: Seq<usize>|
                            views(simplices@).contains(s) <==> built_upto(
                                strong,
                                pd,
                                lm,
                                md,
                                i as int,
                                dim + 1,
                                s,
                            ) by {
                            assert(prev.contains(s) == built_upto(
                                strong,
                                pd,
                                lm,
                                md,
                                i as int,
                                dim as int,
                                s,
                            ));
                            if vote(strong, pd, lm, md, i as int, dim as int, s) {
                                lemma_sorted_permutation_unique(s, sv);
                            }
                        }
                    }
                    dim = dim + 1;
                }
                proof {
                    assert forall|s: Seq<usize>, d2: int|
                        d2 >= dim implies !#[trigger] vote(strong, pd, lm, md, i as int, d2, s) by {}
                    lemma_built_upto_next_point(strong, pd, lm, md, i as int, dim as int);
                }
            } else {
                proof {
                    assert forall|s: Seq<usize>, d2: int|
                        d2 >= 0 implies !#[trigger] vote(strong, pd, lm, md, i as int, d2, s) by {}
                    lemma_built_upto_next_point(strong, pd, lm, md, i as int, 0);
                }
            }
            i = i + 1;
        }
        WitnessComplex { vertices: vstd::slice::slice_to_vec(landmarks), simplices }
    }
}

impl Clone for WitnessComplex {
    /// A copy with the same vertices and simplices.
    fn clone(&self) -> (c: Self)
        ensures
            c.vertex_seq() == self.vertex_seq(),
            c.simplex_set() == self.simplex_set(),
    {
        proof {
            use_type_invariant(self);
        }
        let vertices = vstd::slice::slice_to_vec(self.vertices.as_slice());
        let mut simplices: Vec<Vec<usize>> = Vec::new();
        let mut i: usize = 0;
        while i < self.simplices.len()
            invariant
                i <= self.simplices@.len(),
                views(simplices@) == views(self.simplices@).take(i as int),
            decreases self.simplices@.len() - i,
        {
            let ghost before = views(simplices@);
            let v = vstd::slice::slice_to_vec(self.simplices[i].as_slice());
            let ghost vv = v@;
            assert(vv == views(self.simplices@)[i as int]);
            simplices.push(v);
            assert(views(simplices@) == before.push(vv));
            i = i + 1;
            assert(views(simplices@) =~= views(self.simplices@).take(i as int));
        }
        assert(views(self.simplices@).take(i as int) == views(self.simplices@));
        WitnessComplex { vertices, simplices }
    }
}

/// Every landmark's 0-simplex is in the weak and in the strong complex.
pub proof fn lemma_landmarks_are_vertices(
    point_dists: Seq<Vec<u64>>,
    landmarks: Seq<usize>,
    max_dim: nat,
    j: int,
)
    requires
        0 <= j < landmarks.len(),
    ensures
        in_weak_complex(point_dists, landmarks, max_dim, seq![landmarks[j]]),
        in_strong_complex(point_dists, landmarks, max_dim, seq![landmarks[j]]),
{
    assert(is_vertex_simplex(landmarks, seq![landmarks[j]]));
}

/// Every point that is not a landmark is a witness. For every such point
/// `i` and every `dim` in `1..=max_dim` with `dim + 1` landmarks to choose
/// from, the `dim + 1` nearest landmarks of `i`, in ascending order, form a
/// simplex of the weak complex; they form one of the strong complex too
/// when no landmark is left over or the next nearest landmark is strictly
/// farther than the farthest of them.
pub proof fn lemma_every_witness_votes(
    point_dists: Seq<Vec<u64>>,
    landmarks: Seq<usize>,
    max_dim: nat,
    i: int,
    dim: int,
    s: Seq<usize>,
)
    requires
        0 <= i < point_dists.len(),
        !landmarks.contains(i as usize),
        1 <= dim <= max_dim,
        dim + 1 <= landmarks.len(),
        is_sorted_permutation(
            s,
            Seq::new(
                (dim + 1) as nat,
                |m: int| witness_list(point_dists, landmarks, i)[m].0,
            ),
        ),
    ensures
        in_weak_complex(point_dists, landmarks, max_dim, s),
        dim + 1 == landmarks.len() || crate::order::dist_lt(
            witness_list(point_dists, landmarks, i)[dim].1,
            witness_list(point_dists, landmarks, i)[dim + 1].1,
        ) ==> in_strong_complex(point_dists, landmarks, max_dim, s),
{
    broadcast use vstd::seq_lib::group_to_multiset_ensures;

    let entries0 = witness_entries(landmarks, point_dists[i]@);
    crate::witness::lemma_sort_by_dist_sorted(entries0);
    assert(nearest_of(witness_list(point_dists, landmarks, i), (dim + 1) as nat) =~= Seq::new(
        (dim + 1) as nat,
        |m: int| witness_list(point_dists, landmarks, i)[m].0,
    ));
    assert(is_witness(point_dists.len(), landmarks, i));
    assert(weak_vote(point_dists, landmarks, max_dim, i, dim, s));
    lemma_vote_shape(point_dists, landmarks, max_dim, i, dim, s);
    let list = witness_list(point_dists, landmarks, i);
    assert forall|m: int| 0 <= m < s.len() implies nearest_of(list, s.len()).contains(
        #[trigger] s[m],
    ) by {
        assert(s.to_multiset().count(s[m]) > 0);
    }
    if dim + 1 == landmarks.len() || crate::order::dist_lt(list[dim].1, list[dim + 1].1) {
        assert(strongly_witnesses(list, s));
        assert(strong_vote(point_dists, landmarks, max_dim, i, dim, s));
    }
}

/// The strong complex is a subcomplex of the weak one: the strong rule only
/// removes simplices.
pub proof fn lemma_strong_complex_in_weak(
    point_dists: Seq<Vec<u64>>,
    landmarks: Seq<usize>,
    max_dim: nat,
    s: Seq<usize>,
)
    requires
        in_strong_complex(point_dists, landmarks, max_dim, s),
    ensures
        in_weak_complex(point_dists, landmarks, max_dim, s),
{
    if !is_vertex_simplex(landmarks, s) {
        let (i, dim) = choose|i: int, dim: int|
            #[trigger] strong_vote(point_dists, landmarks, max_dim, i, dim, s);
        assert(weak_vote(point_dists, landmarks, max_dim, i, dim, s));
    }
}

/// A simplex that a witness votes for as its `dim`-simplex has `dim + 1`
/// vertices, in ascending order, each a landmark.
proof fn lemma_vote_shape(
    point_dists: Seq<Vec<u64>>,
    landmarks: Seq<usize>,
    max_dim: nat,
    i: int,
    dim: int,
    s: Seq<usize>,
)
    requires
        weak_vote(point_dists, landmarks, max_dim, i, dim, s),
    ensures
        s.len() == dim + 1,
        crate::order::is_sorted(s),
        forall|m: int| 0 <= m < s.len() ==> landmarks.contains(#[trigger] s[m]),
{
    broadcast use vstd::seq_lib::group_to_multiset_ensures;

    let entries = witness_entries(landmarks, point_dists[i]@);
    let list = witness_list(point_dists, landmarks, i);
    let nearest = nearest_of(list, (dim + 1) as nat);
    crate::witness::lemma_sort_by_dist_permutes(entries);
    crate::witness::lemma_sort_by_dist_sorted(entries);
    assert(s.to_multiset().len() == nearest.to_multiset().len());
    assert forall|m: int| 0 <= m < s.len() implies landmarks.contains(#[trigger] s[m]) by {
        assert(s.to_multiset().count(s[m]) > 0);
        assert(nearest.contains(s[m]));
        let q = choose|q: int| 0 <= q < nearest.len() && nearest[q] == s[m];
        assert(list.to_multiset().count(list[q]) > 0);
        assert(entries.contains(list[q]));
        let e = choose|e: int| 0 <= e < entries.len() && entries[e] == list[q];
        assert(landmarks[e] == s[m]);
    }
}

/// Every simplex of the weak complex other than a vertex has a weak
/// witness: a point, not a landmark, whose `k` nearest landmarks are the
/// `k` vertices of the simplex.
pub proof fn lemma_weak_simplex_has_witness(
    point_dists: Seq<Vec<u64>>,
    landmarks: Seq<usize>,
    max_dim: nat,
    s: Seq<usize>,
)
    requires
        in_weak_complex(point_dists, landmarks, max_dim, s),
        !is_vertex_simplex(landmarks, s),
    ensures
        exists|i: int|
            #[trigger] is_witness(point_dists.len(), landmarks, i) && weakly_witnesses(
                witness_list(point_dists, landmarks, i),
                s,
                s.len(),
            ),
{
    broadcast use vstd::seq_lib::group_to_multiset_ensures;

    let (i, dim) = choose|i: int, dim: int|
        #[trigger] weak_vote(point_dists, landmarks, max_dim, i, dim, s);
    lemma_vote_shape(point_dists, landmarks, max_dim, i, dim, s);
    let list = witness_list(point_dists, landmarks, i);
    assert forall|m: int| 0 <= m < s.len() implies nearest_of(list, s.len()).contains(
        #[trigger] s[m],
    ) by {
        assert(s.to_multiset().count(s[m]) > 0);
    }
    assert(is_witness(point_dists.len(), landmarks, i));
}

/// Every simplex of the strong complex other than a vertex has a strong
/// witness that certifies it.
pub proof fn lemma_strong_simplex_has_witness(
    point_dists: Seq<Vec<u64>>,
    landmarks: Seq<usize>,
    max_dim: nat,
    s: Seq<usize>,
)
    requires
        in_strong_complex(point_dists, landmarks, max_dim, s),
        !is_vertex_simplex(landmarks, s),
    ensures
        exists|i: int|
            #[trigger] is_witness(point_dists.len(), landmarks, i) && strongly_witnesses(
                witness_list(point_dists, landmarks, i),
                s,
            ),
{
    let (i, dim) = choose|i: int, dim: int|
        #[trigger] strong_vote(point_dists, landmarks, max_dim, i, dim, s);
    assert(is_witness(point_dists.len(), landmarks, i));
}

/// Every simplex of the weak complex (and so of the strong one) has between
/// 1 and `max_dim + 1` vertices, in ascending order, each a landmark.
pub proof fn lemma_weak_simplex_shape(
    point_dists: Seq<Vec<u64>>,
    landmarks: Seq<usize>,
    max_dim: nat,
    s: Seq<usize>,
)
    requires
        in_weak_complex(point_dists, landmarks, max_dim, s),
    ensures
        1 <= s.len() <= max_dim + 1,
        crate::order::is_sorted(s),
        forall|m: int| 0 <= m < s.len() ==> landmarks.contains(#[trigger] s[m]),
{
    if is_vertex_simplex(landmarks, s) {
        let j = choose|j: int| 0 <= j < landmarks.len() && s == seq![landmarks[j]];
        assert forall|m: int| 0 <= m < s.len() implies landmarks.contains(#[trigger] s[m]) by {
            assert(landmarks[j] == s[m]);
        }
    } else {
        let (i, dim) = choose|i: int, dim: int|
            #[trigger] weak_vote(point_dists, landmarks, max_dim, i, dim, s);
        lemma_vote_shape(point_dists, landmarks, max_dim, i, dim, s);
    }
}

/// Raising the dimension bound from `m1` to `m2` keeps every simplex and
/// adds only simplices with more than `m1 + 1` vertices.
pub proof fn lemma_complex_grows_with_max_dim(
    strong: bool,
    point_dists: Seq<Vec<u64>>,
    landmarks: Seq<usize>,
    m1: nat,
    m2: nat,
    s: Seq<usize>,
)
    requires
        m1 <= m2,
    ensures
        in_complex(strong, point_dists, landmarks, m1, s) ==> in_complex(
            strong,
            point_dists,
            landmarks,
            m2,
            s,
        ),
        in_complex(strong, point_dists, landmarks, m2, s) && s.len() <= m1 + 1 ==> in_complex(
            strong,
            point_dists,
            landmarks,
            m1,
            s,
        ),
{
    if !is_vertex_simplex(landmarks, s) {
        if in_complex(strong, point_dists, landmarks, m1, s) {
            let (i, dim) = if strong {
                choose|i: int, dim: int| #[trigger] strong_vote(point_dists, landmarks, m1, i, dim, s)
            } else {
                choose|i: int, dim: int| #[trigger] weak_vote(point_dists, landmarks, m1, i, dim, s)
            };
            assert(vote(strong, point_dists, landmarks, m1, i, dim, s));
            assert(vote(strong, point_dists, landmarks, m2, i, dim, s));
        }
        if in_complex(strong, point_dists, landmarks, m2, s) && s.len() <= m1 + 1 {
            let (i, dim) = if strong {
                choose|i: int, dim: int| #[trigger] strong_vote(point_dists, landmarks, m2, i, dim, s)
            } else {
                choose|i: int, dim: int| #[trigger] weak_vote(point_dists, landmarks, m2, i, dim, s)
            };
            assert(vote(strong, point_dists, landmarks, m2, i, dim, s));
            lemma_vote_shape(point_dists, landmarks, m2, i, dim, s);
            assert(vote(strong, point_dists, landmarks, m1, i, dim, s));
        }
    }
}

/// With distinct landmarks, every simplex of the weak complex (and so of
/// the strong one) lists its vertices in strictly ascending order: no vertex
/// repeats.
pub proof fn lemma_simplices_strictly_sorted(
    point_dists: Seq<Vec<u64>>,
    landmarks: Seq<usize>,
    max_dim: nat,
    s: Seq<usize>,
)
    requires
        landmarks.no_duplicates(),
        in_weak_complex(point_dists, landmarks, max_dim, s),
    ensures
        crate::order::is_strictly_sorted(s),
{
    if !is_vertex_simplex(landmarks, s) {
        let (i, dim) = choose|i: int, dim: int|
            #[trigger] weak_vote(point_dists, landmarks, max_dim, i, dim, s);
        let entries = witness_entries(landmarks, point_dists[i]@);
        let list = witness_list(point_dists, landmarks, i);
        let k = (dim + 1) as nat;
        crate::witness::lemma_sort_by_dist_labels(entries);
        crate::witness::lemma_sort_by_dist_sorted(entries);
        assert(crate::witness::labels(entries) == landmarks);
        crate::order::lemma_no_duplicates_permutation(crate::witness::labels(list), landmarks);
        let nearest = nearest_of(list, k);
        assert(nearest == crate::witness::labels(list).take(k as int));
        assert(nearest.no_duplicates());
        crate::order::lemma_no_duplicates_permutation(s, nearest);
        crate::order::lemma_sorted_distinct_strict(s);
    }
}

/// The simplices of `s` with exactly `len` vertices.
pub open spec fn with_len(s: Set<Seq<usize>>, len: nat) -> Set<Seq<usize>> {
    s.filter(|t: Seq<usize>| t.len() == len)
}

/// The number of simplices of `s` with `1`, `2`, ..., `dims` vertices,
/// summed dimension by dimension.
pub open spec fn count_by_dim(s: Set<Seq<usize>>, dims: nat) -> nat
    decreases dims,
{
    if dims == 0 {
        0
    } else {
        count_by_dim(s, (dims - 1) as nat) + with_len(s, dims).len()
    }
}

proof fn lemma_count_by_dim(s: Set<Seq<usize>>, dims: nat)
    requires
        s.finite(),
    ensures
        s.filter(|t: Seq<usize>| 1 <= t.len() <= dims).len() == count_by_dim(s, dims),
    decreases dims,
{
    let all = s.filter(|t: Seq<usize>| 1 <= t.len() <= dims);
    if dims == 0 {
        assert(all =~= Set::<Seq<usize>>::empty());
    } else {
        let d0 = (dims - 1) as nat;
        lemma_count_by_dim(s, d0);
        let lower = s.filter(|t: Seq<usize>| 1 <= t.len() <= d0);
        let top = with_len(s, dims);
        s.lemma_len_filter(|t: Seq<usize>| 1 <= t.len() <= d0);
        s.lemma_len_filter(|t: Seq<usize>| t.len() == dims);
        assert(all =~= lower + top);
        assert(lower.disjoint(top));
        vstd::set_lib::lemma_set_disjoint_lens(lower, top);
    }
}

/// A complex of dimension up to `max_dim` has as many simplices as the
/// simplices of dimensions `0` to `max_dim` together
/// ([`WitnessComplex::simplices_of_dim`] returns `with_len(.., dim + 1)`).
pub proof fn lemma_simplex_count_by_dim(
    c: WitnessComplex,
    point_dists: Seq<Vec<u64>>,
    landmarks: Seq<usize>,
    max_dim: nat,
)
    requires
        forall|s: Seq<usize>|
            c.simplex_set().contains(s) ==> in_weak_complex(point_dists, landmarks, max_dim, s),
    ensures
        c.simplex_set().len() == count_by_dim(c.simplex_set(), max_dim + 1),
{
    let all = c.simplex_set();
    assert(all.finite());
    lemma_count_by_dim(all, max_dim + 1);
    assert forall|s: Seq<usize>| all.contains(s) implies 1 <= s.len() <= max_dim + 1 by {
        lemma_weak_simplex_shape(point_dists, landmarks, max_dim, s);
    }
    assert(all.filter(|t: Seq<usize>| 1 <= t.len() <= max_dim + 1) =~= all);
}

/// With distinct landmarks, a built complex has exactly one 0-simplex per
/// vertex: [`WitnessComplex::num_vertices`] equals the length of
/// [`WitnessComplex::simplices_of_dim`] at dimension `0`.
pub proof fn lemma_vertex_count(
    c: WitnessComplex,
    strong: bool,
    point_dists: Seq<Vec<u64>>,
    landmarks: Seq<usize>,
    max_dim: nat,
)
    requires
        landmarks.no_duplicates(),
        c.vertex_seq() == landmarks,
        forall|s: Seq<usize>|
            c.simplex_set().contains(s) <==> in_complex(strong, point_dists, landmarks, max_dim, s),
    ensures
        with_len(c.simplex_set(), 1).len() == c.vertex_seq().len(),
{
    let vs = landmarks.map_values(|x: usize| seq![x]);
    assert forall|a: int, b: int| 0 <= a < b < vs.len() implies vs[a] != vs[b] by {
        assert(vs[a][0] == landmarks[a]);
        assert(vs[b][0] == landmarks[b]);
    }
    assert(vs.no_duplicates());
    let ones = with_len(c.simplex_set(), 1);
    assert forall|t: Seq<usize>| vs.to_set().contains(t) <==> ones.contains(t) by {
        if vs.to_set().contains(t) {
            let j = choose|j: int| 0 <= j < vs.len() && vs[j] == t;
            assert(t == seq![landmarks[j]]);
            assert(is_vertex_simplex(landmarks, t));
        }
        if ones.contains(t) {
            if strong {
                lemma_strong_complex_in_weak(point_dists, landmarks, max_dim, t);
            }
            if is_vertex_simplex(landmarks, t) {
                let j = choose|j: int| 0 <= j < landmarks.len() && t == seq![landmarks[j]];
                assert(vs[j] == t);
            } else {
                let (i, dim) = choose|i: int, dim: int|
                    #[trigger] weak_vote(point_dists, landmarks, max_dim, i, dim, t);
                lemma_vote_shape(point_dists, landmarks, max_dim, i, dim, t);
            }
        }
    }
    assert(vs.to_set() =~= ones);
    vs.unique_seq_to_set();
}

/// Whether a simplex is in a complex does not depend on the order in which
/// its vertices are listed.
pub proof fn lemma_simplex_query_any_order(c: WitnessComplex, a: Seq<usize>, b: Seq<usize>)
    requires
        a.to_multiset() == b.to_multiset(),
    ensures
        (exists|s: Seq<usize>| c.simplex_set().contains(s) && is_sorted_permutation(s, a)) == (
        exists|s: Seq<usize>| c.simplex_set().contains(s) && is_sorted_permutation(s, b)),
{
    if exists|s: Seq<usize>| c.simplex_set().contains(s) && is_sorted_permutation(s, a) {
        let s = choose|s: Seq<usize>| c.simplex_set().contains(s) && is_sorted_permutation(s, a);
        assert(is_sorted_permutation(s, b));
    }
    if exists|s: Seq<usize>| c.simplex_set().contains(s) && is_sorted_permutation(s, b) {
        let s = choose|s: Seq<usize>| c.simplex_set().contains(s) && is_sorted_permutation(s, b);
        assert(is_sorted_permutation(s, a));
    }
}

proof fn lemma_built_all(strong: bool, pd: Seq<Vec<u64>>, lm: Seq<usize>, md: nat)
    ensures
        forall|s: Seq<usize>|
            built_upto(strong, pd, lm, md, pd.len() as int, 0, s) == (if strong {
                in_strong_complex(pd, lm, md, s)
            } else {
                in_weak_complex(pd, lm, md, s)
            }),
{
    assert forall|s: Seq<usize>|
        built_upto(strong, pd, lm, md, pd.len() as int, 0, s) == (if strong {
                in_strong_complex(pd, lm, md, s)
            } else {
                in_weak_complex(pd, lm, md, s)
            }) by {
        if !is_vertex_simplex(lm, s) {
            if built_upto(strong, pd, lm, md, pd.len() as int, 0, s) {
                let (i2, d2) = choose|i2: int, d2: int|
                    (i2 < pd.len() || (i2 == pd.len() && d2 < 0)) && #[trigger] vote(
                        strong,
                        pd,
                        lm,
                        md,
                        i2,
                        d2,
                        s,
                    );
                if strong {
                    assert(strong_vote(pd, lm, md, i2, d2, s));
                } else {
                    assert(weak_vote(pd, lm, md, i2, d2, s));
                }
            }
            if strong && in_strong_complex(pd, lm, md, s) {
                let (i2, d2) = choose|i2: int, d2: int|
                    #[trigger] strong_vote(pd, lm, md, i2, d2, s);
                assert(vote(strong, pd, lm, md, i2, d2, s));
            }
            if !strong && in_weak_complex(pd, lm, md, s) {
                let (i2, d2) = choose|i2: int, d2: int|
                    #[trigger] weak_vote(pd, lm, md, i2, d2, s);
                assert(vote(strong, pd, lm, md, i2, d2, s));
            }
        }
    }
}

/// `s` is a vertex simplex, or a simplex that some witness before `i` votes
/// for, or that witness `i` votes for in a dimension below `dim`.
pub open spec fn built_upto(
    strong: bool,
    point_dists: Seq<Vec<u64>>,
    landmarks: Seq<usize>,
    max_dim: nat,
    i: int,
    dim: int,
    s: Seq<usize>,
) -> bool {
    ||| is_vertex_simplex(landmarks, s)
    ||| exists|i2: int, d2: int|
        (i2 < i || (i2 == i && d2 < dim)) && #[trigger] vote(
            strong,
            point_dists,
            landmarks,
            max_dim,
            i2,
            d2,
            s,
        )
}

proof fn lemma_built_upto_no_votes_below(
    strong: bool,
    pd: Seq<Vec<u64>>,
    lm: Seq<usize>,
    md: nat,
    i: int,
    dim: int,
)
    requires
        dim <= 1,
    ensures
        forall|s: Seq<usize>|
            built_upto(strong, pd, lm, md, i, dim, s) == built_upto(strong, pd, lm, md, i, 0, s),
{
    assert forall|s: Seq<usize>|
        built_upto(strong, pd, lm, md, i, dim, s) implies built_upto(
            strong,
            pd,
            lm,
            md,
            i,
            0,
            s,
        ) by {
        if !is_vertex_simplex(lm, s) {
            let (i2, d2) = choose|i2: int, d2: int|
                (i2 < i || (i2 == i && d2 < dim)) && #[trigger] vote(strong, pd, lm, md, i2, d2, s);
            assert(i2 < i);
        }
    }
    assert forall|s: Seq<usize>|
        built_upto(strong, pd, lm, md, i, 0, s) implies built_upto(
            strong,
            pd,
            lm,
            md,
            i,
            dim,
            s,
        ) by {
        if !is_vertex_simplex(lm, s) {
            let (i2, d2) = choose|i2: int, d2: int|
                (i2 < i || (i2 == i && d2 < 0)) && #[trigger] vote(strong, pd, lm, md, i2, d2, s);
            assert(i2 < i);
        }
    }
}

proof fn lemma_built_upto_step(
    strong: bool,
    pd: Seq<Vec<u64>>,
    lm: Seq<usize>,
    md: nat,
    i: int,
    dim: int,
)
    ensures
        forall|s: Seq<usize>|
            built_upto(strong, pd, lm, md, i, dim + 1, s) == (built_upto(
                strong,
                pd,
                lm,
                md,
                i,
                dim,
                s,
            ) || vote(strong, pd, lm, md, i, dim, s)),
{
    assert forall|s: Seq<usize>|
        built_upto(strong, pd, lm, md, i, dim + 1, s) implies (built_upto(
            strong,
            pd,
            lm,
            md,
            i,
            dim,
            s,
        ) || vote(strong, pd, lm, md, i, dim, s)) by {
        if !is_vertex_simplex(lm, s) {
            let (i2, d2) = choose|i2: int, d2: int|
                (i2 < i || (i2 == i && d2 < dim + 1)) && #[trigger] vote(
                    strong,
                    pd,
                    lm,
                    md,
                    i2,
                    d2,
                    s,
                );
            if !(i2 == i && d2 == dim) {
                assert((i2 < i || (i2 == i && d2 < dim)) && vote(
                    strong,
                    pd,
                    lm,
                    md,
                    i2,
                    d2,
                    s,
                ));
            }
        }
    }
    assert forall|s: Seq<usize>|
        (built_upto(strong, pd, lm, md, i, dim, s) || vote(
            strong,
            pd,
            lm,
            md,
            i,
            dim,
            s,
        )) implies built_upto(strong, pd, lm, md, i, dim + 1, s) by {
        if !is_vertex_simplex(lm, s) {
            if built_upto(strong, pd, lm, md, i, dim, s) {
                let (i2, d2) = choose|i2: int, d2: int|
                    (i2 < i || (i2 == i && d2 < dim)) && #[trigger] vote(
                        strong,
                        pd,
                        lm,
                        md,
                        i2,
                        d2,
                        s,
                    );
                assert((i2 < i || (i2 == i && d2 < dim + 1)) && vote(
                    strong,
                    pd,
                    lm,
                    md,
                    i2,
                    d2,
                    s,
                ));
            } else {
                assert((i < i || (i == i && dim < dim + 1)) && vote(
                    strong,
                    pd,
                    lm,
                    md,
                    i,
                    dim,
                    s,
                ));
            }
        }
    }
}

proof fn lemma_built_upto_next_point(
    strong: bool,
    pd: Seq<Vec<u64>>,
    lm: Seq<usize>,
    md: nat,
    i: int,
    dim: int,
)
    requires
        forall|s: Seq<usize>, d2: int|
            d2 >= dim ==> !#[trigger] vote(strong, pd, lm, md, i, d2, s),
    ensures
        forall|s: Seq<usize>|
            built_upto(strong, pd, lm, md, i, dim, s) == built_upto(
                strong,
                pd,
                lm,
                md,
                i + 1,
                0,
                s,
            ),
{
    assert forall|s: Seq<usize>|
        built_upto(strong, pd, lm, md, i, dim, s) implies built_upto(
            strong,
            pd,
            lm,
            md,
            i + 1,
            0,
            s,
        ) by {
        if !is_vertex_simplex(lm, s) {
            let (i2, d2) = choose|i2: int, d2: int|
                (i2 < i || (i2 == i && d2 < dim)) && #[trigger] vote(strong, pd, lm, md, i2, d2, s);
            assert((i2 < i + 1 || (i2 == i + 1 && d2 < 0)) && vote(
                strong,
                pd,
                lm,
                md,
                i2,
                d2,
                s,
            ));
        }
    }
    assert forall|s: Seq<usize>|
        built_upto(strong, pd, lm, md, i + 1, 0, s) implies built_upto(
            strong,
            pd,
            lm,
            md,
            i,
            dim,
            s,
        ) by {
        if !is_vertex_simplex(lm, s) {
            let (i2, d2) = choose|i2: int, d2: int|
                (i2 < i + 1 || (i2 == i + 1 && d2 < 0)) && #[trigger] vote(
                    strong,
                    pd,
                    lm,
                    md,
                    i2,
                    d2,
                    s,
                );
            if i2 == i {
                assert(d2 < dim);
            }
            assert((i2 < i || (i2 == i && d2 < dim)) && vote(strong, pd, lm, md, i2, d2, s));
        }
    }
}

} // verus!
