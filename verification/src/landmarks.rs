//! Landmark selection: pseudo-random and MaxMin.
//!
//! Both return point indices in ascending order. The pseudo-random strategy
//! draws indices from a 64-bit linear congruential generator until it has
//! `k` distinct ones; MaxMin greedily picks the point farthest from the
//! landmarks chosen so far, reading distances from a table of order keys
//! (see [`crate::order`]).
use vstd::prelude::*;
use vstd::set_lib::FiniteRange;
use crate::order::contains_index;
use crate::order::dist_less;
use crate::order::dist_lt;
use crate::order::is_sorted_permutation;
use crate::order::is_strictly_sorted;
use crate::order::sort_indices;

verus! {

/// The LCG multiplier.
pub const LCG_MULTIPLIER: u64 = 6364136223846793005u64;

/// The LCG increment.
pub const LCG_INCREMENT: u64 = 1442695040888963407u64;

/// One step of the generator: `state * LCG_MULTIPLIER + LCG_INCREMENT`
/// modulo 2^64.
pub open spec fn lcg_step(state: u64) -> u64 {
    ((state as nat * LCG_MULTIPLIER as nat + LCG_INCREMENT as nat) % 0x1_0000_0000_0000_0000nat) as u64
}

/// The generator state after `t` steps from `seed` (which it starts from
/// as `seed + 1`, modulo 2^64).
pub open spec fn lcg_state(seed: u64, t: nat) -> u64
    decreases t,
{
    if t == 0 {
        ((seed as nat + 1) % 0x1_0000_0000_0000_0000nat) as u64
    } else {
        lcg_step(lcg_state(seed, (t - 1) as nat))
    }
}

/// The index among `n` points that step `t` draws: the top 31 bits of the
/// state, modulo `n`.
pub open spec fn lcg_draw(seed: u64, n: nat, t: nat) -> usize {
    (((lcg_state(seed, t) >> 33u64) as nat) % n) as usize
}

/// The distinct indices drawn in the first `t` steps.
pub open spec fn drawn(seed: u64, n: nat, t: nat) -> Set<usize>
    decreases t,
{
    if t == 0 {
        Set::empty()
    } else {
        drawn(seed, n, (t - 1) as nat).insert(lcg_draw(seed, n, t))
    }
}

/// Step `t` is the first after which `k` distinct indices have been drawn.
pub open spec fn fills_at(seed: u64, n: nat, k: nat, t: nat) -> bool {
    &&& drawn(seed, n, t).len() == k
    &&& forall|u: nat| u < t ==> #[trigger] drawn(seed, n, u).len() < k
}

/// Advances the generator by one step.
pub fn lcg_next(state: u64) -> (r: u64)
    ensures
        r == lcg_step(state),
{
    let r = state.wrapping_mul(LCG_MULTIPLIER).wrapping_add(LCG_INCREMENT);
    proof {
        let m: int = 0x1_0000_0000_0000_0000;
        let p: int = state as int * LCG_MULTIPLIER as int;
        vstd::arithmetic::div_mod::lemma_add_mod_noop(p, LCG_INCREMENT as int, m);
        vstd::arithmetic::div_mod::lemma_small_mod(LCG_INCREMENT as nat, m as nat);
        vstd::arithmetic::div_mod::lemma_mod_bound(p, m);
        let q = p % m;
        if q + LCG_INCREMENT >= m {
            vstd::arithmetic::div_mod::lemma_mod_sub_multiples_vanish(q + LCG_INCREMENT, m);
            vstd::arithmetic::div_mod::lemma_small_mod((q + LCG_INCREMENT - m) as nat, m as nat);
        } else {
            vstd::arithmetic::div_mod::lemma_small_mod((q + LCG_INCREMENT) as nat, m as nat);
        }
    }
    r
}

pub(crate) proof fn lemma_drawn_bounded(seed: u64, n: nat, t: nat)
    requires
        n > 0,
    ensures
        drawn(seed, n, t).finite(),
        forall|x: usize| drawn(seed, n, t).contains(x) ==> x < n,
    decreases t,
{
    if t > 0 {
        lemma_drawn_bounded(seed, n, (t - 1) as nat);
    }
}

pub(crate) proof fn lemma_drawn_grows(seed: u64, n: nat, t1: nat, t2: nat)
    requires
        n > 0,
        t1 <= t2,
    ensures
        drawn(seed, n, t1).subset_of(drawn(seed, n, t2)),
        drawn(seed, n, t1).len() <= drawn(seed, n, t2).len(),
    decreases t2,
{
    lemma_drawn_bounded(seed, n, t2);
    if t1 < t2 {
        lemma_drawn_grows(seed, n, t1, (t2 - 1) as nat);
    }
    vstd::set_lib::lemma_len_subset(drawn(seed, n, t1), drawn(seed, n, t2));
}

/// Strategies for selecting landmark points from a dataset.
pub struct LandmarkSelector;

impl LandmarkSelector {
    /// Selects `k` landmarks among `points` pseudo-randomly, from `seed`: the
    /// first `k` distinct indices that the generator draws, in ascending
    /// order; all indices when `k` is at least the number of points.
    ///
    /// The generator draws indices below `2^31` only, so the selection ends
    /// only when `k` is at most `2^31` (see [`crate::lcg_period`]).
    pub fn random<P>(points: &[P], k: usize, seed: u64) -> (r: Vec<usize>)
        requires
            k < points@.len() ==> k <= 0x8000_0000,
        ensures
            k >= points@.len() ==> r@ == Seq::new(points@.len() as nat, |i: int| i as usize),
            k < points@.len() ==> exists|t: nat|
                fills_at(seed, points@.len() as nat, k as nat, t) && r@.to_set() == drawn(
                    seed,
                    points@.len() as nat,
                    t,
                ),
            is_strictly_sorted(r@),
            r@.len() == if k < points@.len() {
                k as nat
            } else {
                points@.len() as nat
            },
            forall|i: int| 0 <= i < r@.len() ==> r@[i] < points@.len(),
    {
        let n = points.len();
        if k >= n {
            return all_indices(n);
        }
        let ghost nn = n as nat;
        proof {
            crate::lcg_period::lemma_random_fills(seed, nn, k as nat);
        }
        let ghost stop = choose|t: nat| drawn(seed, nn, t).len() >= k;
        let mut chosen: Vec<bool> = Vec::new();
        let mut x: usize = 0;
        while x < n
            invariant
                x <= n,
                chosen@.len() == x,
                forall|m: int| 0 <= m < x ==> !chosen@[m],
            decreases n - x,
        {
            chosen.push(false);
            x = x + 1;
        }
        let mut rng = seed.wrapping_add(1);
        let mut count: usize = 0;
        let ghost mut t: nat = 0;
        proof {
            lemma_drawn_bounded(seed, nn, 0);
        }
        while count < k
            invariant
                n == nn,
                0 <= k < n,
                drawn(seed, nn, stop).len() >= k,
                rng == lcg_state(seed, t),
                chosen@.len() == n,
                forall|m: int| 0 <= m < n ==> chosen@[m] == drawn(seed, nn, t).contains(m as usize),
                count == drawn(seed, nn, t).len(),
                count <= k,
                forall|u: nat| u < t ==> #[trigger] drawn(seed, nn, u).len() < k,
            decreases stop - t,
        {
            proof {
                if stop <= t {
                    lemma_drawn_grows(seed, nn, stop, t);
                }
                lemma_drawn_bounded(seed, nn, t);
                lemma_drawn_bounded(seed, nn, t + 1);
            }
            rng = lcg_next(rng);
            assert(rng >> 33u64 <= 0x7fff_ffffu64) by (bit_vector);
            let idx = ((rng >> 33u64) as usize) % n;
            proof {
                t = t + 1;
                assert(idx == lcg_draw(seed, nn, t));
            }
            if !chosen[idx] {
                chosen.set(idx, true);
                count = count + 1;
            } else {
                assert(drawn(seed, nn, t) == drawn(seed, nn, (t - 1) as nat));
            }
        }
        proof {
            assert(fills_at(seed, nn, k as nat, t));
        }
        let mut r: Vec<usize> = Vec::new();
        let mut y: usize = 0;
        while y < n
            invariant
                n == nn,
                y <= n,
                chosen@.len() == n,
                forall|m: int| 0 <= m < n ==> chosen@[m] == drawn(seed, nn, t).contains(m as usize),
                is_strictly_sorted(r@),
                forall|i: int| 0 <= i < r@.len() ==> r@[i] < y,
                forall|v: usize| r@.contains(v) <==> (v < y && drawn(seed, nn, t).contains(v)),
            decreases n - y,
        {
            let ghost before = r@;
            assert(chosen@[y as int] == drawn(seed, nn, t).contains(y));
            if chosen[y] {
                r.push(y);
                proof {
                    assert forall|v: usize| r@.contains(v) <==> (before.contains(v) || v == y) by {
                        if before.contains(v) {
                            let q = choose|q: int| 0 <= q < before.len() && before[q] == v;
                            assert(r@[q] == v);
                        }
                        if v == y {
                            assert(r@[before.len() as int] == v);
                        }
                    }
                }
            }
            proof {
                assert forall|v: usize|
                    r@.contains(v) <==> (v < y + 1 && drawn(seed, nn, t).contains(v)) by {
                    if v == y && before.contains(v) {
                        let q = choose|q: int| 0 <= q < before.len() && before[q] == v;
                        assert(before[q] < y);
                    }
                    if v < y {
                        assert(before.contains(v) == drawn(seed, nn, t).contains(v));
                        assert(r@.contains(v) == before.contains(v));
                    } else if v == y {
                        assert(r@.contains(v) == drawn(seed, nn, t).contains(v));
                    } else {
                        assert(!before.contains(v));
                        assert(!r@.contains(v));
                    }
                }
            }
            y = y + 1;
        }
        proof {
            lemma_drawn_bounded(seed, nn, t);
            assert(r@.to_set() == drawn(seed, nn, t));
            assert(r@.no_duplicates());
            r@.unique_seq_to_set();
        }
        r
    }

    /// MaxMin selection: starting from point 0, repeatedly adds the point
    /// whose distance to its nearest chosen landmark is largest (the last
    /// such point on ties), until `k` landmarks are chosen; returns them in
    /// ascending order, or all indices when `k` is at least the number of
    /// points.
    ///
    /// `dists[i][j]` is the order key of the distance between points `i` and
    /// `j`.
    pub fn maxmin(dists: &[Vec<u64>], k: usize) -> (r: Vec<usize>)
        requires
            forall|i: int| 0 <= i < dists@.len() ==> #[trigger] dists@[i]@.len() == dists@.len(),
        ensures
            k >= dists@.len() ==> r@ == Seq::new(dists@.len() as nat, |i: int| i as usize),
            k == 0 ==> r@.len() == 0,
            0 < k < dists@.len() ==> is_sorted_permutation(
                r@,
                maxmin_state(dists@, (k - 1) as nat).0,
            ),
            is_strictly_sorted(r@),
            r@.len() == if k < dists@.len() {
                k as nat
            } else {
                dists@.len() as nat
            },
            forall|i: int| 0 <= i < r@.len() ==> r@[i] < dists@.len(),
            0 < k < dists@.len() ==> r@.contains(0),
    {
        let n = dists.len();
        if k >= n {
            return all_indices(n);
        }
        if k == 0 {
            return Vec::new();
        }
        let ghost d = dists@;
        let mut landmarks: Vec<usize> = Vec::new();
        landmarks.push(0);
        let mut min_dists: Vec<u64> = Vec::new();
        let mut j: usize = 0;
        while j < n
            invariant
                d == dists@,
                n == d.len(),
                0 < n,
                d[0]@.len() == n,
                j <= n,
                min_dists@ == d[0]@.take(j as int),
            decreases n - j,
        {
            min_dists.push(dists[0][j]);
            j = j + 1;
            assert(min_dists@ == d[0]@.take(j as int));
        }
        assert(d[0]@.take(n as int) == d[0]@);
        let ghost mut steps: nat = 0;
        proof {
            lemma_maxmin_state_wf(d, 0);
        }
        while landmarks.len() < k
            invariant
                d == dists@,
                n == d.len(),
                0 < k < n,
                forall|i: int| 0 <= i < n ==> #[trigger] d[i]@.len() == n,
                (landmarks@, min_dists@) == maxmin_state(d, steps),
                landmarks@.len() == steps + 1,
                landmarks@.len() <= k,
                min_dists@.len() == n,
            decreases k - landmarks@.len(),
        {
            let ghost lm = landmarks@;
            let ghost md = min_dists@;
            let mut best: Option<usize> = None;
            let mut c: usize = 0;
            while c < n
                invariant
                    n == md.len(),
                    md == min_dists@,
                    lm == landmarks@,
                    c <= n,
                    best == pick_upto(md, lm, c as nat),
                decreases n - c,
            {
                if !contains_index(landmarks.as_slice(), c) {
                    best = match best {
                        None => Some(c),
                        Some(a) => {
                            proof {
                                lemma_pick_upto_range(md, lm, c as nat);
                            }
                            if dist_less(min_dists[c], min_dists[a]) {
                                Some(a)
                            } else {
                                Some(c)
                            }
                        },
                    };
                }
                c = c + 1;
            }
            let next = match best {
                Some(a) => a,
                None => 0,
            };
            proof {
                lemma_pick_upto_range(md, lm, n as nat);
                lemma_maxmin_state_wf(d, steps);
            }
            assert(next == pick(md, lm));
            landmarks.push(next);
            let mut j: usize = 0;
            while j < n
                invariant
                    d == dists@,
                    n == d.len(),
                    next < n,
                    d[next as int]@.len() == n,
                    md.len() == n,
                    min_dists@.len() == n,
                    j <= n,
                    forall|m: int| 0 <= m < j ==> min_dists@[m] == relax(md, d[next as int]@)[m],
                    forall|m: int| j <= m < n ==> min_dists@[m] == md[m],
                decreases n - j,
            {
                let dj = dists[next][j];
                if dist_less(dj, min_dists[j]) {
                    min_dists.set(j, dj);
                }
                j = j + 1;
            }
            assert(min_dists@ == relax(md, d[next as int]@));
            proof {
                steps = steps + 1;
            }
        }
        let ghost chosen = landmarks@;
        proof {
            lemma_maxmin_state_wf(d, steps);
        }
        sort_indices(&mut landmarks);
        proof {
            lemma_sorted_distinct(landmarks@, chosen, n as nat);
            assert(chosen.contains(0usize)) by {
                assert(chosen[0] == 0);
            }
            vstd::seq_lib::to_multiset_contains(chosen, 0usize);
            vstd::seq_lib::to_multiset_contains(landmarks@, 0usize);
        }
        landmarks
    }
}

/// The pseudo-random selection is a function of the number of points, `k`
/// and the seed: two results that meet the contract of
/// [`LandmarkSelector::random`] for the same arguments are equal.
pub proof fn lemma_random_deterministic(r1: Seq<usize>, r2: Seq<usize>, n: nat, k: nat, seed: u64)
    requires
        k >= n ==> r1 == Seq::new(n, |i: int| i as usize),
        k >= n ==> r2 == Seq::new(n, |i: int| i as usize),
        k < n ==> exists|t: nat| fills_at(seed, n, k, t) && r1.to_set() == drawn(seed, n, t),
        k < n ==> exists|t: nat| fills_at(seed, n, k, t) && r2.to_set() == drawn(seed, n, t),
        is_strictly_sorted(r1),
        is_strictly_sorted(r2),
    ensures
        r1 == r2,
{
    if k < n {
        let t1 = choose|t: nat| fills_at(seed, n, k, t) && r1.to_set() == drawn(seed, n, t);
        let t2 = choose|t: nat| fills_at(seed, n, k, t) && r2.to_set() == drawn(seed, n, t);
        if t1 < t2 {
            assert(drawn(seed, n, t1).len() < k);
        }
        if t2 < t1 {
            assert(drawn(seed, n, t2).len() < k);
        }
        crate::order::lemma_strictly_sorted_unique(r1, r2);
    }
}

/// `0, 1, ..., n - 1`.
fn all_indices(n: usize) -> (r: Vec<usize>)
    ensures
        r@ == Seq::new(n as nat, |i: int| i as usize),
        is_strictly_sorted(r@),
{
    let mut r: Vec<usize> = Vec::new();
    let mut i: usize = 0;
    while i < n
        invariant
            i <= n,
            r@ == Seq::new(i as nat, |m: int| m as usize),
        decreases n - i,
    {
        r.push(i);
        i = i + 1;
    }
    r
}

/// The MaxMin choice among the first `j` points: the last non-landmark with
/// the largest distance key, comparing as floats do (`None` when all of
/// them are landmarks).
pub open spec fn pick_upto(min_dists: Seq<u64>, landmarks: Seq<usize>, j: nat) -> Option<usize>
    decreases j,
{
    if j == 0 {
        None
    } else {
        let prev = pick_upto(min_dists, landmarks, (j - 1) as nat);
        let c = (j - 1) as usize;
        if landmarks.contains(c) {
            prev
        } else {
            match prev {
                None => Some(c),
                Some(a) => if dist_lt(min_dists[c as int], min_dists[a as int]) {
                    Some(a)
                } else {
                    Some(c)
                },
            }
        }
    }
}

/// The next MaxMin landmark (point 0 when every point is a landmark already).
pub open spec fn pick(min_dists: Seq<u64>, landmarks: Seq<usize>) -> usize {
    match pick_upto(min_dists, landmarks, min_dists.len()) {
        Some(a) => a,
        None => 0,
    }
}

/// Each distance replaced by `row`'s where that one is smaller.
pub open spec fn relax(min_dists: Seq<u64>, row: Seq<u64>) -> Seq<u64> {
    Seq::new(
        min_dists.len(),
        |j: int|
            if dist_lt(row[j], min_dists[j]) {
                row[j]
            } else {
                min_dists[j]
            },
    )
}

/// The landmarks and the distance of every point to its nearest landmark
/// after `steps` MaxMin steps.
pub open spec fn maxmin_state(dists: Seq<Vec<u64>>, steps: nat) -> (Seq<usize>, Seq<u64>)
    decreases steps,
{
    if steps == 0 {
        (seq![0usize], dists[0]@)
    } else {
        let (landmarks, min_dists) = maxmin_state(dists, (steps - 1) as nat);
        let next = pick(min_dists, landmarks);
        (landmarks.push(next), relax(min_dists, dists[next as int]@))
    }
}

proof fn lemma_pick_upto_range(min_dists: Seq<u64>, landmarks: Seq<usize>, j: nat)
    ensures
        pick_upto(min_dists, landmarks, j) matches Some(a) ==> a < j && !landmarks.contains(a),
        pick_upto(min_dists, landmarks, j) is None ==> forall|c: usize|
            c < j ==> landmarks.contains(c),
    decreases j,
{
    if j > 0 {
        lemma_pick_upto_range(min_dists, landmarks, (j - 1) as nat);
    }
}

/// After `steps < n` MaxMin steps on `n` points there are `steps + 1`
/// distinct landmarks, all below `n`, and one distance per point.
proof fn lemma_maxmin_state_wf(dists: Seq<Vec<u64>>, steps: nat)
    requires
        steps < dists.len() <= usize::MAX,
        forall|i: int| 0 <= i < dists.len() ==> #[trigger] dists[i]@.len() == dists.len(),
    ensures
        maxmin_state(dists, steps).0.len() == steps + 1,
        maxmin_state(dists, steps).0.no_duplicates(),
        forall|i: int|
            0 <= i < maxmin_state(dists, steps).0.len() ==> maxmin_state(dists, steps).0[i]
                < dists.len(),
        maxmin_state(dists, steps).1.len() == dists.len(),
        maxmin_state(dists, steps).0[0] == 0,
    decreases steps,
{
    if steps > 0 {
        let (lm, md) = maxmin_state(dists, (steps - 1) as nat);
        lemma_maxmin_state_wf(dists, (steps - 1) as nat);
        let n = dists.len();
        lemma_pick_upto_range(md, lm, n);
        if pick_upto(md, lm, n) is None {
            // every index below n would be a landmark, but there are fewer
            // than n distinct landmarks
            let all = Set::<usize>::range(0, n as usize);
            <usize as FiniteRange>::range_properties(0, n as usize);
            assert(all.subset_of(lm.to_set()));
            lm.unique_seq_to_set();
            vstd::set_lib::lemma_len_subset(all, lm.to_set());
            assert(false);
        }
        assert(!lm.contains(pick(md, lm)));
        let next = pick(md, lm);
        assert forall|a: int, b: int|
            0 <= a < lm.push(next).len() && 0 <= b < lm.push(next).len() && a != b implies lm.push(
                next,
            )[a] != lm.push(next)[b] by {
            if b == lm.len() {
                assert(lm.contains(lm[a]));
            }
            if a == lm.len() {
                assert(lm.contains(lm[b]));
            }
        }
    }
}

/// No distance key of the table is undefined.
pub open spec fn all_defined(dists: Seq<Vec<u64>>) -> bool {
    forall|i: int, j: int|
        0 <= i < dists.len() && 0 <= j < dists[i]@.len() ==> #[trigger] dists[i]@[j]
            != crate::order::UNDEFINED_DIST
}

proof fn lemma_pick_upto_max(min_dists: Seq<u64>, landmarks: Seq<usize>, j: nat)
    requires
        j <= min_dists.len(),
        forall|q: int| 0 <= q < min_dists.len() ==> min_dists[q] != crate::order::UNDEFINED_DIST,
    ensures
        pick_upto(min_dists, landmarks, j) matches Some(a) ==> forall|c: usize|
            c < j && !landmarks.contains(c) ==> min_dists[c as int] <= min_dists[a as int],
    decreases j,
{
    if j > 0 {
        lemma_pick_upto_max(min_dists, landmarks, (j - 1) as nat);
        lemma_pick_upto_range(min_dists, landmarks, (j - 1) as nat);
        lemma_pick_upto_range(min_dists, landmarks, j);
    }
}

/// `md[j]` is the smallest of the distances from point `j` to the landmarks
/// `lm`.
pub open spec fn is_nearest_landmark_dist(dists: Seq<Vec<u64>>, lm: Seq<usize>, md: Seq<u64>, j: int) -> bool {
    &&& forall|q: int| 0 <= q < lm.len() ==> md[j] <= #[trigger] dists[lm[q] as int]@[j]
    &&& exists|q: int| 0 <= q < lm.len() && md[j] == #[trigger] dists[lm[q] as int]@[j]
}

/// With every distance key defined, after `steps` MaxMin steps the distance
/// kept for each point is its smallest distance to a landmark.
proof fn lemma_maxmin_min_dists(dists: Seq<Vec<u64>>, steps: nat)
    requires
        steps < dists.len() <= usize::MAX,
        forall|i: int| 0 <= i < dists.len() ==> #[trigger] dists[i]@.len() == dists.len(),
        all_defined(dists),
    ensures
        forall|j: int|
            0 <= j < dists.len() ==> #[trigger] is_nearest_landmark_dist(
                dists,
                maxmin_state(dists, steps).0,
                maxmin_state(dists, steps).1,
                j,
            ),
        forall|j: int|
            0 <= j < dists.len() ==> #[trigger] maxmin_state(dists, steps).1[j]
                != crate::order::UNDEFINED_DIST,
    decreases steps,
{
    lemma_maxmin_state_wf(dists, steps);
    let lm2 = maxmin_state(dists, steps).0;
    let md2 = maxmin_state(dists, steps).1;
    if steps == 0 {
        assert forall|j: int| 0 <= j < dists.len() implies #[trigger] is_nearest_landmark_dist(
            dists,
            lm2,
            md2,
            j,
        ) by {
            assert(lm2[0] == 0);
            assert(md2[j] == dists[lm2[0] as int]@[j]);
        }
        assert forall|j: int| 0 <= j < dists.len() implies #[trigger] md2[j]
            != crate::order::UNDEFINED_DIST by {
            assert(dists[0]@[j] != crate::order::UNDEFINED_DIST);
        }
    } else {
        let prev = (steps - 1) as nat;
        lemma_maxmin_min_dists(dists, prev);
        lemma_maxmin_state_wf(dists, prev);
        let lm = maxmin_state(dists, prev).0;
        let md = maxmin_state(dists, prev).1;
        let nx = pick(md, lm);
        lemma_pick_upto_range(md, lm, md.len());
        let row = dists[nx as int]@;
        assert(lm2 == lm.push(nx));
        assert(md2 == relax(md, row));
        assert forall|j: int| 0 <= j < dists.len() implies #[trigger] md2[j]
            != crate::order::UNDEFINED_DIST by {
            assert(row[j] != crate::order::UNDEFINED_DIST);
            assert(md[j] != crate::order::UNDEFINED_DIST);
        }
        assert forall|j: int| 0 <= j < dists.len() implies #[trigger] is_nearest_landmark_dist(
            dists,
            lm2,
            md2,
            j,
        ) by {
            assert(row[j] != crate::order::UNDEFINED_DIST);
            assert(md[j] != crate::order::UNDEFINED_DIST);
            assert(is_nearest_landmark_dist(dists, lm, md, j));
            assert(lm2[lm.len() as int] == nx);
            assert forall|q: int| 0 <= q < lm2.len() implies md2[j] <= #[trigger] dists[lm2[q]
                as int]@[j] by {
                if q < lm.len() {
                    assert(lm2[q] == lm[q]);
                    assert(md[j] <= dists[lm[q] as int]@[j]);
                }
            }
            if row[j] < md[j] {
                assert(md2[j] == dists[lm2[lm.len() as int] as int]@[j]);
            } else {
                let q = choose|q: int|
                    0 <= q < lm.len() && md[j] == #[trigger] dists[lm[q] as int]@[j];
                assert(lm2[q] == lm[q]);
                assert(md2[j] == dists[lm2[q] as int]@[j]);
            }
        }
    }
}

/// The MaxMin rule: while points remain, the next landmark is a point that
/// is not a landmark yet, and no other such point is farther from its
/// nearest landmark; the distance kept for each point is its distance to
/// its nearest landmark. (With every distance key defined.)
pub proof fn lemma_maxmin_picks_farthest(dists: Seq<Vec<u64>>, steps: nat)
    requires
        steps + 1 < dists.len() <= usize::MAX,
        forall|i: int| 0 <= i < dists.len() ==> #[trigger] dists[i]@.len() == dists.len(),
        all_defined(dists),
    ensures
        pick(maxmin_state(dists, steps).1, maxmin_state(dists, steps).0) < dists.len(),
        !maxmin_state(dists, steps).0.contains(
            pick(maxmin_state(dists, steps).1, maxmin_state(dists, steps).0),
        ),
        forall|c: usize|
            c < dists.len() && !maxmin_state(dists, steps).0.contains(c) ==> #[trigger] maxmin_state(
                dists,
                steps,
            ).1[c as int] <= maxmin_state(dists, steps).1[pick(
                maxmin_state(dists, steps).1,
                maxmin_state(dists, steps).0,
            ) as int],
        forall|j: int|
            0 <= j < dists.len() ==> #[trigger] is_nearest_landmark_dist(
                dists,
                maxmin_state(dists, steps).0,
                maxmin_state(dists, steps).1,
                j,
            ),
{
    lemma_maxmin_state_wf(dists, steps);
    lemma_maxmin_state_wf(dists, steps + 1);
    lemma_maxmin_min_dists(dists, steps);
    let lm = maxmin_state(dists, steps).0;
    let md = maxmin_state(dists, steps).1;
    lemma_pick_upto_range(md, lm, md.len());
    lemma_pick_upto_max(md, lm, md.len());
    let lm2 = maxmin_state(dists, steps + 1).0;
    assert(lm2 == lm.push(pick(md, lm)));
    if lm.contains(pick(md, lm)) {
        let q = choose|q: int| 0 <= q < lm.len() && lm[q] == pick(md, lm);
        assert(lm2[q] == lm2[lm.len() as int]);
    }
}

/// Sorting distinct indices below `n` gives them in strictly ascending order.
proof fn lemma_sorted_distinct(sorted: Seq<usize>, s: Seq<usize>, n: nat)
    requires
        is_sorted_permutation(sorted, s),
        s.no_duplicates(),
        forall|i: int| 0 <= i < s.len() ==> s[i] < n,
    ensures
        is_strictly_sorted(sorted),
        sorted.len() == s.len(),
        forall|i: int| 0 <= i < sorted.len() ==> sorted[i] < n,
{
    broadcast use vstd::seq_lib::group_to_multiset_ensures;

    assert(sorted.to_multiset().len() == s.to_multiset().len());
    assert forall|i: int| 0 <= i < sorted.len() implies sorted[i] < n by {
        assert(sorted.to_multiset().count(sorted[i]) > 0);
        assert(s.contains(sorted[i]));
    }
    assert forall|i: int, j: int| 0 <= i < j < sorted.len() implies sorted[i] < sorted[j] by {
        if sorted[i] == sorted[j] {
            let x = sorted[i];
            assert(sorted.to_multiset().count(x) >= 2) by {
                lemma_count_two(sorted, i, j);
            }
            s.lemma_multiset_has_no_duplicates();
        }
    }
}

proof fn lemma_count_two(s: Seq<usize>, i: int, j: int)
    requires
        0 <= i < j < s.len(),
        s[i] == s[j],
    ensures
        s.to_multiset().count(s[i]) >= 2,
{
    broadcast use vstd::seq_lib::group_to_multiset_ensures;

    let x = s[i];
    let s1 = s.remove(j);
    assert(s1[i] == x);
    assert(s1.contains(x));
    assert(s1.to_multiset().count(x) > 0);
    assert(s.to_multiset().count(x) == s1.to_multiset().count(x) + 1);
}

} // verus!
