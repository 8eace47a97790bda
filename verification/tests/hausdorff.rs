use lau_geometric_measure::hausdorff::{
    epsilon_clusters, greedy_cover, integer_dimension, self_similarity, FractalType,
};

fn within_matrix(coords: &[f64], epsilon: f64) -> Vec<Vec<bool>> {
    coords
        .iter()
        .map(|a| coords.iter().map(|b| (a - b) * (a - b) <= epsilon * epsilon).collect())
        .collect()
}

fn cover(coords: &[f64], epsilon: f64) -> Vec<usize> {
    greedy_cover(&within_matrix(coords, epsilon))
}

fn dimension(f: FractalType) -> f64 {
    let (copies, scale) = self_similarity(f);
    (copies as f64).ln() / (scale as f64).ln()
}

#[test]
fn test_greedy_covering() {
    let centers = cover(&[0.0, 0.01, 0.02, 5.0, 5.01], 0.1);
    assert_eq!(centers.len(), 2); // Two clusters
    assert_eq!(centers, vec![0, 3]);
}

#[test]
fn test_greedy_cover_empty() {
    assert!(greedy_cover(&vec![]).is_empty());
}

#[test]
fn test_greedy_cover_chain_is_not_transitive() {
    // 0 covers 1, 1 covers 2, but 0 does not cover 2: two balls
    assert_eq!(cover(&[0.0, 0.1, 0.2], 0.15), vec![0, 2]);
}

#[test]
fn test_greedy_cover_takes_first_uncovered_point() {
    // the ball at 3.0 covers 2.5 twice; the first uncovered point, 1.0,
    // then covers 1.5 and 0.0
    assert_eq!(cover(&[3.0, 1.0, 2.5, 2.5, 1.5, 0.0], 1.0), vec![0, 1]);
}

#[test]
fn test_greedy_cover_is_not_always_minimal() {
    // one ball at 1.0 would cover all three points; the scan starts at 0.0
    assert_eq!(cover(&[0.0, 1.0, 2.0], 1.0), vec![0, 2]);
}

#[test]
fn test_epsilon_clusters_components() {
    let within = within_matrix(&[0.0, 5.0, 0.1, 0.2, 5.05, 9.0], 0.15);
    let clusters = epsilon_clusters(&within);
    assert_eq!(clusters.len(), 3);
    let mut first: Vec<usize> = clusters[0].clone();
    first.sort();
    assert_eq!(first, vec![0, 2, 3]);
    let mut second: Vec<usize> = clusters[1].clone();
    second.sort();
    assert_eq!(second, vec![1, 4]);
    assert_eq!(clusters[2], vec![5]);
    assert_eq!(clusters[0][0], 0);
    assert_eq!(clusters[1][0], 1);
}

#[test]
fn test_fractal_dimensions() {
    assert!((dimension(FractalType::CantorSet) - 0.6309).abs() < 0.01);
    assert!((dimension(FractalType::SierpinskiTriangle) - 1.5849).abs() < 0.01);
    assert!((dimension(FractalType::KochSnowflake) - 1.2619).abs() < 0.01);
    assert!((dimension(FractalType::MengerSponge) - 2.7268).abs() < 0.01);
    assert!((dimension(FractalType::Line) - 1.0).abs() < 0.01);
    assert!((dimension(FractalType::Plane) - 2.0).abs() < 0.01);
    assert!((dimension(FractalType::PeanoCurve) - 2.0).abs() < 0.01);
    assert!((dimension(FractalType::Volume) - 3.0).abs() < 0.01);
}

#[test]
fn test_self_similarity_table() {
    assert_eq!(self_similarity(FractalType::CantorSet), (2, 3));
    assert_eq!(self_similarity(FractalType::MengerSponge), (20, 3));
}

#[test]
fn test_epsilon_clusters_depth_first_order() {
    // 0 ~ 1, 0 ~ 2, 1 ~ 3, 2 ~ 4: the last point reached is explored first
    let pairs = [(0, 1), (0, 2), (1, 3), (2, 4)];
    let mut within = vec![vec![false; 5]; 5];
    for i in 0..5 {
        within[i][i] = true;
    }
    for &(a, b) in &pairs {
        within[a][b] = true;
        within[b][a] = true;
    }
    assert_eq!(epsilon_clusters(&within), vec![vec![0, 1, 2, 4, 3]]);
}

#[test]
fn test_epsilon_clusters_empty() {
    assert!(epsilon_clusters(&vec![]).is_empty());
}

#[test]
fn test_integer_dimension() {
    assert_eq!(integer_dimension(2, 2), Some(1));
    assert_eq!(integer_dimension(4, 2), Some(2));
    assert_eq!(integer_dimension(8, 2), Some(3));
    assert_eq!(integer_dimension(9, 3), Some(2));
    assert_eq!(integer_dimension(1, 5), Some(0));
    assert_eq!(integer_dimension(1 << 63, 2), Some(63));
    assert_eq!(integer_dimension(2, 3), None);
    assert_eq!(integer_dimension(3, 2), None);
    assert_eq!(integer_dimension(20, 3), None);
    assert_eq!(integer_dimension(0, 2), None);
    assert_eq!(integer_dimension(u64::MAX, 2), None);
    assert_eq!(integer_dimension(u64::MAX, u64::MAX), Some(1));
}

#[test]
fn test_integer_dimension_small_bases() {
    assert_eq!(integer_dimension(1, 1), Some(0));
    assert_eq!(integer_dimension(5, 1), None);
    assert_eq!(integer_dimension(0, 0), Some(1));
    assert_eq!(integer_dimension(1, 0), Some(0));
    assert_eq!(integer_dimension(3, 0), None);
}

#[test]
fn test_known_sets_integer_dimensions() {
    let dim = |f: FractalType| {
        let (copies, scale) = self_similarity(f);
        integer_dimension(copies, scale)
    };
    assert_eq!(dim(FractalType::Line), Some(1));
    assert_eq!(dim(FractalType::Plane), Some(2));
    assert_eq!(dim(FractalType::Volume), Some(3));
    assert_eq!(dim(FractalType::PeanoCurve), Some(2));
    assert_eq!(dim(FractalType::CantorSet), None);
    assert_eq!(dim(FractalType::SierpinskiTriangle), None);
    assert_eq!(dim(FractalType::KochSnowflake), None);
    assert_eq!(dim(FractalType::MengerSponge), None);
}

#[test]
fn test_greedy_cover_single_point() {
    // a single point needs one ball, centered at it
    assert_eq!(greedy_cover(&vec![vec![true]]), vec![0]);
}
