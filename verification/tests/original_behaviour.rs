use witness_complex::LandmarkSelector;
use witness_complex::WeakWitness;
use witness_complex::Witness;
use witness_complex::WitnessComplex;
use witness_complex::UNDEFINED_DIST;

fn sample_points() -> Vec<Vec<f64>> {
    vec![
        vec![0.0], vec![1.0], vec![2.0], vec![3.0], vec![4.0],
        vec![5.0], vec![6.0], vec![7.0], vec![8.0], vec![9.0],
    ]
}

fn euclidean(a: &[f64], b: &[f64]) -> f64 {
    a.iter()
        .zip(b.iter())
        .map(|(x, y)| (x - y) * (x - y))
        .sum::<f64>()
        .sqrt()
}

fn dist_key(d: f64) -> u64 {
    if d.is_nan() {
        UNDEFINED_DIST
    } else if d == 0.0 {
        0
    } else {
        d.to_bits()
    }
}

fn entries(points: &[Vec<f64>], idx: usize, landmarks: &[usize]) -> Vec<(usize, u64)> {
    landmarks
        .iter()
        .map(|&li| (li, dist_key(euclidean(&points[idx], &points[li]))))
        .collect()
}

fn distance_table(points: &[Vec<f64>]) -> Vec<Vec<u64>> {
    (0..points.len())
        .map(|i| (0..points.len()).map(|j| dist_key(euclidean(&points[i], &points[j]))).collect())
        .collect()
}

fn witness_table(points: &[Vec<f64>], landmarks: &[usize]) -> Vec<Vec<u64>> {
    (0..points.len())
        .map(|i| {
            if landmarks.contains(&i) {
                vec![]
            } else {
                entries(points, i, landmarks).into_iter().map(|(_, d)| d).collect()
            }
        })
        .collect()
}

#[test]
fn test_random_landmarks() {
    let pts = sample_points();
    let lm = LandmarkSelector::random(&pts, 3, 42);
    assert_eq!(lm.len(), 3);
    assert!(lm.iter().all(|&i| i < pts.len()));
}

#[test]
fn test_random_landmarks_deterministic() {
    let pts = sample_points();
    let l1 = LandmarkSelector::random(&pts, 3, 42);
    let l2 = LandmarkSelector::random(&pts, 3, 42);
    assert_eq!(l1, l2);
}

#[test]
fn test_maxmin_landmarks() {
    let pts = sample_points();
    let lm = LandmarkSelector::maxmin(&distance_table(&pts), 3);
    assert_eq!(lm.len(), 3);
    // For 10 equally spaced points, maxmin should spread them
    assert!(lm[2] - lm[0] >= 5);
}

#[test]
fn test_witness_nearest() {
    let pts = sample_points();
    let landmarks = vec![0usize, 5, 9];
    let w = Witness::new(2, entries(&pts, 2, &landmarks));
    let nearest = w.nearest_landmarks(1);
    assert_eq!(nearest, vec![0]); // point 2 is closest to landmark 0
}

#[test]
fn test_witness_dists_sorted() {
    let pts = sample_points();
    let landmarks = vec![0usize, 5, 9];
    let w = Witness::new(7, entries(&pts, 7, &landmarks));
    for i in 1..w.landmark_dists.len() {
        assert!(w.landmark_dists[i].1 >= w.landmark_dists[i - 1].1);
    }
}

#[test]
fn test_weak_witness_votes() {
    let pts = sample_points();
    let landmarks = vec![0usize, 5];
    let w = Witness::new(1, entries(&pts, 1, &landmarks));
    assert!(WeakWitness::votes_for(&w, &[0], 1));
}

#[test]
fn test_weak_complex_has_vertices() {
    let pts = sample_points();
    let lm = vec![0usize, 5, 9];
    let wc = WitnessComplex::build_weak(&witness_table(&pts, &lm), &lm, 1);
    assert!(wc.has_simplex(&[0]));
    assert!(wc.has_simplex(&[5]));
    assert!(wc.has_simplex(&[9]));
}

#[test]
fn test_weak_complex_edges() {
    let pts = vec![
        vec![0.0, 0.0], vec![0.1, 0.0], vec![1.0, 0.0], vec![1.1, 0.0],
    ];
    let lm = vec![0usize, 2];
    let wc = WitnessComplex::build_weak(&witness_table(&pts, &lm), &lm, 1);
    // Points 1 and 3 are witnesses; 1 is close to both 0 and 2
    assert!(wc.num_simplices() >= 3); // 2 vertices + at least 1 edge
}

#[test]
fn test_strong_complex() {
    let pts = sample_points();
    let lm = vec![0usize, 5, 9];
    let wc = WitnessComplex::build_strong(&witness_table(&pts, &lm), &lm, 1);
    assert_eq!(wc.num_vertices(), 3);
}

#[test]
fn test_simplices_of_dim() {
    let pts = sample_points();
    let lm = vec![0usize, 3, 6, 9];
    let wc = WitnessComplex::build_weak(&witness_table(&pts, &lm), &lm, 2);
    let dim0 = wc.simplices_of_dim(0);
    assert_eq!(dim0.len(), 4);
}

#[test]
fn test_more_landmarks_than_points() {
    let pts = vec![vec![0.0], vec![1.0]];
    let lm = LandmarkSelector::random(&pts, 5, 1);
    assert_eq!(lm.len(), 2);
}
