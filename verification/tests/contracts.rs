use witness_complex::landmarks::lcg_next;
use witness_complex::order::sort_indices;
use witness_complex::LandmarkSelector;
use witness_complex::StrongWitness;
use witness_complex::WeakWitness;
use witness_complex::Witness;
use witness_complex::WitnessComplex;
use witness_complex::UNDEFINED_DIST;

fn line(n: usize) -> Vec<Vec<f64>> {
    (0..n).map(|i| vec![i as f64]).collect()
}

fn euclidean(a: &[f64], b: &[f64]) -> f64 {
    a.iter()
        .zip(b.iter())
        .map(|(x, y)| (x - y) * (x - y))
        .sum::<f64>()
        .sqrt()
}

fn dist_key(d: f64) -> u64 {
    if d.is_nan() {
        UNDEFINED_DIST
    } else if d == 0.0 {
        0
    } else {
        d.to_bits()
    }
}

fn entry(landmark: usize, d: f64) -> (usize, u64) {
    (landmark, dist_key(d))
}

fn entries(points: &[Vec<f64>], idx: usize, landmarks: &[usize]) -> Vec<(usize, u64)> {
    landmarks
        .iter()
        .map(|&li| entry(li, euclidean(&points[idx], &points[li])))
        .collect()
}

fn distance_table(points: &[Vec<f64>]) -> Vec<Vec<u64>> {
    (0..points.len())
        .map(|i| (0..points.len()).map(|j| dist_key(euclidean(&points[i], &points[j]))).collect())
        .collect()
}

fn witness_table(points: &[Vec<f64>], landmarks: &[usize]) -> Vec<Vec<u64>> {
    (0..points.len())
        .map(|i| {
            if landmarks.contains(&i) {
                vec![]
            } else {
                entries(points, i, landmarks).into_iter().map(|(_, d)| d).collect()
            }
        })
        .collect()
}

fn sorted_dims(wc: &WitnessComplex, dim: usize) -> Vec<Vec<usize>> {
    let mut v: Vec<Vec<usize>> = wc.simplices_of_dim(dim).into_iter().cloned().collect();
    v.sort();
    v
}

#[test]
fn lcg_next_exact_values() {
    assert_eq!(lcg_next(0), 1442695040888963407);
    assert_eq!(lcg_next(1), 7806831264735756412);
    assert_eq!(lcg_next(u64::MAX), 13525302890751722018);
}

#[test]
fn random_exact_selection() {
    assert_eq!(LandmarkSelector::random(&line(10), 3, 42), vec![1, 5, 8]);
    assert_eq!(LandmarkSelector::random(&line(10), 5, 7), vec![0, 2, 3, 4, 7]);
    assert_eq!(LandmarkSelector::random(&line(100), 4, 0), vec![53, 70, 74, 96]);
}

#[test]
fn random_edge_cases() {
    assert_eq!(LandmarkSelector::random(&line(10), 0, 3), Vec::<usize>::new());
    assert_eq!(LandmarkSelector::random(&line(4), 4, 3), vec![0, 1, 2, 3]);
    assert_eq!(LandmarkSelector::random(&line(0), 2, 3), Vec::<usize>::new());
    let lm = LandmarkSelector::random(&line(50), 49, 11);
    assert_eq!(lm.len(), 49);
    assert!(lm.windows(2).all(|w| w[0] < w[1]));
}

#[test]
fn maxmin_exact_selection() {
    let table = distance_table(&line(10));
    assert_eq!(LandmarkSelector::maxmin(&table, 3), vec![0, 5, 9]);
    assert_eq!(LandmarkSelector::maxmin(&table, 2), vec![0, 9]);
    assert_eq!(LandmarkSelector::maxmin(&table, 1), vec![0]);
    assert_eq!(LandmarkSelector::maxmin(&table, 0), Vec::<usize>::new());
    assert_eq!(LandmarkSelector::maxmin(&table, 12), (0..10).collect::<Vec<usize>>());
}

#[test]
fn maxmin_always_keeps_first_point() {
    let pts = vec![vec![5.0, 5.0], vec![0.0, 0.0], vec![9.0, 1.0], vec![4.0, 4.0], vec![0.0, 9.0]];
    let lm = LandmarkSelector::maxmin(&distance_table(&pts), 3);
    assert_eq!(lm.len(), 3);
    assert!(lm.contains(&0));
    assert!(lm.windows(2).all(|w| w[0] < w[1]));
}

#[test]
fn maxmin_undefined_distance_compares_equal() {
    // Point 1 is at an undefined distance from point 0: it neither wins nor
    // loses a comparison, so the later point 2 is taken.
    let table = vec![
        vec![0, UNDEFINED_DIST, dist_key(5.0)],
        vec![UNDEFINED_DIST, 0, UNDEFINED_DIST],
        vec![dist_key(5.0), UNDEFINED_DIST, 0],
    ];
    assert_eq!(LandmarkSelector::maxmin(&table, 2), vec![0, 2]);
}

#[test]
fn witness_sort_is_stable_on_ties() {
    let pts = line(10);
    let w = Witness::new(2, entries(&pts, 2, &[0, 4]));
    assert_eq!(w.index, 2);
    assert_eq!(w.nearest_landmarks(2), vec![0, 4]);
    let w = Witness::new(2, entries(&pts, 2, &[4, 0]));
    assert_eq!(w.nearest_landmarks(2), vec![4, 0]);
    assert_eq!(w.nearest_landmarks(1), vec![4]);
}

#[test]
fn witness_sorts_by_distance() {
    let pts = line(10);
    let w = Witness::new(7, entries(&pts, 7, &[0, 5, 9, 3]));
    assert_eq!(w.nearest_landmarks(10), vec![5, 9, 3, 0]);
    assert_eq!(w.nearest_landmarks(0), Vec::<usize>::new());
    let w = Witness::new(0, vec![(1, UNDEFINED_DIST), entry(2, 3.0), entry(3, 1.0)]);
    assert_eq!(w.nearest_landmarks(3), vec![3, 2, 1]);
}

#[test]
fn weak_votes_need_all_vertices_near() {
    let pts = line(10);
    let w = Witness::new(1, entries(&pts, 1, &[0, 5]));
    assert!(!WeakWitness::votes_for(&w, &[5], 1));
    assert!(WeakWitness::votes_for(&w, &[5], 2));
    assert!(WeakWitness::votes_for(&w, &[5, 0], 2));
    assert!(WeakWitness::votes_for(&w, &[], 0));
    assert!(!WeakWitness::votes_for(&w, &[7], 5));
}

#[test]
fn strong_certification() {
    let pts = line(10);
    let w = Witness::new(1, entries(&pts, 1, &[0, 5]));
    assert!(StrongWitness::certifies(&w, &[0]));
    assert!(!StrongWitness::certifies(&w, &[5]));
    assert!(StrongWitness::certifies(&w, &[0, 5]));
    assert!(!StrongWitness::certifies(&w, &[0, 5, 9]));
    // equal distances to the first and second landmark
    let w = Witness::new(2, entries(&pts, 2, &[0, 4]));
    assert!(!StrongWitness::certifies(&w, &[0]));
}

#[test]
fn strong_certification_strictly_farther() {
    let w = Witness::new(0, vec![entry(1, 0.0), entry(2, 1e-13)]);
    assert!(StrongWitness::certifies(&w, &[1]));
    let w = Witness::new(0, vec![entry(7, 1.0), entry(8, 1.0 + 1e-13)]);
    assert!(StrongWitness::certifies(&w, &[7]));
    let w = Witness::new(0, vec![entry(7, 1.0), entry(8, 1.0)]);
    assert!(!StrongWitness::certifies(&w, &[7]));
    let w = Witness::new(0, vec![entry(7, 1.0), (8, UNDEFINED_DIST)]);
    assert!(!StrongWitness::certifies(&w, &[7]));
    let empty = Witness::new(0, vec![]);
    assert!(StrongWitness::certifies(&empty, &[]));
    // the empty simplex is certified by any witness
    assert!(StrongWitness::certifies(&w, &[]));
    // a strong witness is a weak one with as many nearest landmarks
    let pts = line(10);
    let w = Witness::new(6, entries(&pts, 6, &[0, 5, 9]));
    assert!(StrongWitness::certifies(&w, &[9, 5]));
    assert!(WeakWitness::votes_for(&w, &[9, 5], 2));
}

#[test]
fn complex_holds_only_voted_simplices() {
    let pts = line(10);
    let lm = vec![0usize, 3, 6, 9];
    let table = witness_table(&pts, &lm);
    let wc = WitnessComplex::build_weak(&table, &lm, 2);
    assert_eq!(sorted_dims(&wc, 2), vec![vec![0, 3, 6], vec![3, 6, 9]]);
    assert_eq!(sorted_dims(&wc, 1), vec![vec![0, 3], vec![3, 6], vec![6, 9]]);
    assert_eq!(wc.num_simplices(), 9);
    assert!(!wc.has_simplex(&[6, 0]));
    assert!(!wc.has_simplex(&[3, 9]));
    // every simplex above a vertex has a witness that votes for it
    for dim in 1..3 {
        for s in wc.simplices_of_dim(dim) {
            let voted = (0..pts.len()).filter(|i| !lm.contains(i)).any(|i| {
                WeakWitness::votes_for(&Witness::new(i, entries(&pts, i, &lm)), s, s.len())
            });
            assert!(voted);
        }
    }
    // a lower dimension bound keeps exactly the lower simplices
    let lower = WitnessComplex::build_weak(&table, &lm, 1);
    assert_eq!(sorted_dims(&lower, 0), sorted_dims(&wc, 0));
    assert_eq!(sorted_dims(&lower, 1), sorted_dims(&wc, 1));
    assert_eq!(lower.num_simplices(), 7);
    let total: usize = (0..3).map(|d| wc.simplices_of_dim(d).len()).sum();
    assert_eq!(total, wc.num_simplices());
    assert_eq!(wc.simplices_of_dim(0).len(), wc.num_vertices());
}

#[test]
fn face_of_voted_simplex_left_out() {
    // landmarks at 1, 2, 3 and one witness at 0: it votes for [0, 1] and
    // [0, 1, 2], not for [0, 2] or [1, 2]
    let pts: Vec<Vec<f64>> = vec![vec![1.0], vec![2.0], vec![3.0], vec![0.0]];
    let lm = vec![0usize, 1, 2];
    let table = witness_table(&pts, &lm);
    let weak = WitnessComplex::build_weak(&table, &lm, 2);
    assert_eq!(sorted_dims(&weak, 1), vec![vec![0, 1]]);
    assert_eq!(sorted_dims(&weak, 2), vec![vec![0, 1, 2]]);
    assert!(!weak.has_simplex(&[0, 2]));
    let strong = WitnessComplex::build_strong(&table, &lm, 2);
    assert!(strong.has_simplex(&[2, 1, 0]));
    assert!(!strong.has_simplex(&[0, 2]));
    assert_eq!(strong.num_simplices(), 5);
}

#[test]
fn weak_complex_exact() {
    let pts = line(10);
    let lm = vec![0usize, 5, 9];
    let wc = WitnessComplex::build_weak(&witness_table(&pts, &lm), &lm, 1);
    assert_eq!(wc.num_vertices(), 3);
    assert_eq!(wc.num_simplices(), 5);
    assert_eq!(sorted_dims(&wc, 0), vec![vec![0], vec![5], vec![9]]);
    assert_eq!(sorted_dims(&wc, 1), vec![vec![0, 5], vec![5, 9]]);
    assert!(wc.has_simplex(&[5, 0]));
    assert!(wc.has_simplex(&[9, 5]));
    assert!(!wc.has_simplex(&[0, 9]));
    assert!(!wc.has_simplex(&[1]));
    assert!(!wc.has_simplex(&[]));
}

#[test]
fn weak_complex_dimension_bound() {
    let pts = line(10);
    let lm = vec![0usize, 3, 6, 9];
    let wc = WitnessComplex::build_weak(&witness_table(&pts, &lm), &lm, 2);
    assert!(sorted_dims(&wc, 3).is_empty());
    assert!(!sorted_dims(&wc, 2).is_empty());
    let wc0 = WitnessComplex::build_weak(&witness_table(&pts, &lm), &lm, 0);
    assert_eq!(wc0.num_simplices(), 4);
}

#[test]
fn strong_complex_drops_tied_edge() {
    // The only witness (coordinate 5) is at distance 1 from landmark 1 and at
    // distance 2 from both landmarks 0 and 3.
    let pts = vec![vec![3.0], vec![4.0], vec![5.0], vec![7.0]];
    let lm = vec![0usize, 1, 3];
    let table = witness_table(&pts, &lm);
    let weak = WitnessComplex::build_weak(&table, &lm, 1);
    let strong = WitnessComplex::build_strong(&table, &lm, 1);
    assert!(weak.has_simplex(&[0, 1]));
    assert!(!strong.has_simplex(&[0, 1]));
    assert_eq!(weak.num_simplices(), 4);
    assert_eq!(strong.num_simplices(), 3);
}

#[test]
fn strong_complex_within_weak() {
    let pts = line(10);
    let lm = vec![0usize, 3, 6, 9];
    let table = witness_table(&pts, &lm);
    let weak = WitnessComplex::build_weak(&table, &lm, 2);
    let strong = WitnessComplex::build_strong(&table, &lm, 2);
    for dim in 0..4 {
        for s in strong.simplices_of_dim(dim) {
            assert!(weak.has_simplex(s));
        }
    }
}

#[test]
fn duplicate_landmarks_stored_once() {
    let pts = vec![vec![0.0]];
    let lm = vec![0usize, 0];
    let wc = WitnessComplex::build_weak(&witness_table(&pts, &lm), &lm, 1);
    assert_eq!(wc.num_vertices(), 2);
    assert_eq!(wc.num_simplices(), 1);
    assert_eq!(wc.simplices_of_dim(0).len(), 1);
}

#[test]
fn empty_complex() {
    let wc = WitnessComplex::build_strong(&[], &[], usize::MAX);
    assert_eq!(wc.num_vertices(), 0);
    assert_eq!(wc.num_simplices(), 0);
    assert!(wc.simplices_of_dim(usize::MAX).is_empty());
}

#[test]
fn sort_indices_sorts() {
    let mut v = vec![5usize, 1, 4, 1, 0];
    sort_indices(&mut v);
    assert_eq!(v, vec![0, 1, 1, 4, 5]);
    let mut e: Vec<usize> = vec![];
    sort_indices(&mut e);
    assert!(e.is_empty());
}
