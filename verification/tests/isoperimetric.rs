use lau_geometric_measure::isoperimetric::{cut_count, sparsest_cut, tightest_cut};

fn close_matrix(points: &[(f64, f64)], radius: f64) -> Vec<Vec<bool>> {
    points
        .iter()
        .map(|a| {
            points
                .iter()
                .map(|b| ((a.0 - b.0).powi(2) + (a.1 - b.1).powi(2)).sqrt() < radius)
                .collect()
        })
        .collect()
}

fn orders(points: &[(f64, f64)]) -> Vec<Vec<usize>> {
    let mut by_x: Vec<usize> = (0..points.len()).collect();
    by_x.sort_by(|&a, &b| points[a].0.partial_cmp(&points[b].0).unwrap());
    let mut by_y: Vec<usize> = (0..points.len()).collect();
    by_y.sort_by(|&a, &b| points[a].1.partial_cmp(&points[b].1).unwrap());
    vec![by_x, by_y]
}

#[test]
fn test_cut_count_on_a_path() {
    // a path 0 - 1 - 2 - 3: every split cuts one edge
    let points = [(0.0, 0.0), (1.0, 0.0), (2.0, 0.0), (3.0, 0.0)];
    let close = close_matrix(&points, 1.5);
    let order = vec![0, 1, 2, 3];
    assert_eq!(cut_count(&close, &order, 0), 0);
    assert_eq!(cut_count(&close, &order, 1), 1);
    assert_eq!(cut_count(&close, &order, 2), 1);
    assert_eq!(cut_count(&close, &order, 4), 0);
    // a shuffled order cuts more
    assert_eq!(cut_count(&close, &vec![0, 2, 1, 3], 2), 3);
}

#[test]
fn test_cheeger_constant_grid() {
    // 5 x 5 grid with radius 0.5: no two points are close, so no cut counts
    let points: Vec<(f64, f64)> = (0..5).flat_map(|i| (0..5).map(move |j| (i as f64, j as f64))).collect();
    let close = close_matrix(&points, 0.5);
    assert_eq!(sparsest_cut(&close, &orders(&points)), None);
}

#[test]
fn test_cheeger_constant_empty() {
    assert_eq!(sparsest_cut(&vec![], &vec![]), None);
}

#[test]
fn test_cheeger_single_point() {
    let points = [(0.0, 0.0)];
    let close = close_matrix(&points, 0.5);
    assert_eq!(sparsest_cut(&close, &orders(&points)), None);
}

#[test]
fn test_sparsest_cut_two_clusters() {
    // two tight pairs far apart: splitting between them cuts nothing, every
    // other split of an order cuts at least one pair
    let points = [(0.0, 0.0), (0.2, 0.0), (5.0, 0.0), (5.2, 0.0)];
    let close = close_matrix(&points, 0.5);
    // by x: splits 1, 2, 3 cut 1, 0, 1 with smaller sides 1, 2, 1
    assert_eq!(sparsest_cut(&close, &orders(&points)), Some((1, 1)));
}

#[test]
fn test_sparsest_cut_prefers_smaller_ratio() {
    // a triangle 0, 1, 2 close together and a point 3 close only to 2
    let points = [(0.0, 0.0), (0.3, 0.0), (0.6, 0.0), (1.0, 0.0)];
    let close = close_matrix(&points, 0.45);
    let order = vec![vec![0, 1, 2, 3]];
    // split 1: cut 1 (0-1), side 1 -> 1; split 2: cut 1 (1-2), side 2 -> 1/2;
    // split 3: cut 1 (2-3), side 1 -> 1
    assert_eq!(sparsest_cut(&close, &order), Some((1, 2)));
}

#[test]
fn test_isoperimetric_profile() {
    // 10 x 10 grid with radius 1.0: no two distinct points are close
    let points: Vec<(f64, f64)> = (0..10).flat_map(|i| (0..10).map(move |j| (i as f64, j as f64))).collect();
    let close = close_matrix(&points, 1.0);
    let ord = orders(&points);
    for target in [10, 20, 30, 40, 50] {
        assert_eq!(tightest_cut(&close, &ord, target), Some(0));
    }
}

#[test]
fn test_isoperimetric_profile_empty() {
    assert_eq!(tightest_cut(&vec![], &vec![], 0), None);
}

#[test]
fn test_tightest_cut_takes_minimum_over_orders() {
    // points on a horizontal line, 1 apart, radius 1.5: neighbours are close
    let points = [(0.0, 0.0), (1.0, 0.0), (2.0, 0.0), (3.0, 0.0)];
    let close = close_matrix(&points, 1.5);
    let by_x = vec![0, 1, 2, 3];
    let mixed = vec![0, 2, 1, 3];
    assert_eq!(tightest_cut(&close, &vec![mixed.clone()], 2), Some(3));
    assert_eq!(tightest_cut(&close, &vec![mixed, by_x], 2), Some(1));
}
