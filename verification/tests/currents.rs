use lau_geometric_measure::currents::{
    boundary_faces, checked_factorial, consolidation_groups, factorial, fan_triangles, minor_matrix, path_segments,
    simplex_dimension,
};

/// Sums integer weights of a labelled chain per distinct simplex, dropping zeros.
fn consolidate(chain: &[(Vec<usize>, i64)]) -> Vec<(Vec<usize>, i64)> {
    let keys: Vec<Vec<usize>> = chain.iter().map(|(k, _)| k.clone()).collect();
    let (firsts, group) = consolidation_groups(&keys);
    let mut sums = vec![0i64; firsts.len()];
    for (i, (_, w)) in chain.iter().enumerate() {
        sums[group[i]] += *w;
    }
    firsts
        .iter()
        .zip(sums.iter())
        .filter(|(_, s)| **s != 0)
        .map(|(f, s)| (keys[*f].clone(), *s))
        .collect()
}

fn chain_boundary(chain: &[(Vec<usize>, i64)]) -> Vec<(Vec<usize>, i64)> {
    let mut out = Vec::new();
    for (vertices, weight) in chain {
        for (face, sign) in boundary_faces(vertices) {
            out.push((face, sign * weight));
        }
    }
    out
}

#[test]
fn test_factorial_values() {
    assert_eq!(factorial(0), 1);
    assert_eq!(factorial(1), 1);
    assert_eq!(factorial(2), 2);
    assert_eq!(factorial(3), 6);
    assert_eq!(factorial(5), 120);
    assert_eq!(factorial(10), 3628800);
    assert_eq!(factorial(20), 2432902008176640000);
}

#[test]
fn test_simplex_dimension() {
    assert_eq!(simplex_dimension(1), 0);
    assert_eq!(simplex_dimension(2), 1);
    assert_eq!(simplex_dimension(3), 2);
    assert_eq!(simplex_dimension(0), 0);
}

#[test]
fn test_boundary_of_segment() {
    let faces = boundary_faces(&vec![0, 1]);
    assert_eq!(faces.len(), 2);
    assert_eq!(faces[0], (vec![1], 1));
    assert_eq!(faces[1], (vec![0], -1));
}

#[test]
fn test_boundary_of_point_is_empty() {
    assert!(boundary_faces(&vec![7]).is_empty());
    assert!(boundary_faces(&vec![]).is_empty());
}

#[test]
fn test_boundary_of_triangle_faces() {
    let faces = boundary_faces(&vec![4, 5, 6]);
    assert_eq!(
        faces,
        vec![(vec![5, 6], 1), (vec![4, 6], -1), (vec![4, 5], 1)]
    );
}

#[test]
fn test_boundary_of_boundary_is_zero() {
    let triangle = vec![(vec![0, 1, 2], 1i64)];
    let bdry = consolidate(&chain_boundary(&triangle));
    assert_eq!(bdry.len(), 3);
    let bdry_bdry = consolidate(&chain_boundary(&bdry));
    assert!(bdry_bdry.is_empty());
}

#[test]
fn test_boundary_of_boundary_tetrahedron_with_weight() {
    let tetra = vec![(vec![0, 1, 2, 3], 3i64), (vec![1, 2, 3, 4], -2i64)];
    let bb = consolidate(&chain_boundary(&chain_boundary(&tetra)));
    assert!(bb.is_empty());
}

#[test]
fn test_current_is_cycle() {
    let edges = vec![(vec![0, 1], 1i64), (vec![1, 2], 1), (vec![2, 0], 1)];
    assert!(consolidate(&chain_boundary(&edges)).is_empty());
}

#[test]
fn test_current_not_cycle() {
    let edges = vec![(vec![0, 1], 1i64)];
    let bdry = consolidate(&chain_boundary(&edges));
    assert_eq!(bdry, vec![(vec![1], 1), (vec![0], -1)]);
}

#[test]
fn test_consolidation_groups_first_occurrence() {
    let keys = vec![vec![1, 2], vec![3], vec![1, 2], vec![], vec![3], vec![2, 1]];
    let (firsts, group) = consolidation_groups(&keys);
    assert_eq!(firsts, vec![0, 1, 3, 5]);
    assert_eq!(group, vec![0, 1, 0, 2, 1, 3]);
}

#[test]
fn test_consolidation_groups_empty() {
    let (firsts, group) = consolidation_groups(&vec![]);
    assert!(firsts.is_empty());
    assert!(group.is_empty());
}

#[test]
fn test_triangulate_1d() {
    // points at x = 2, 0, 1 sorted by x give the order 1, 2, 0
    let segments = path_segments(&vec![1, 2, 0]);
    assert_eq!(segments, vec![vec![1, 2], vec![2, 0]]);
    assert!(path_segments(&vec![3]).is_empty());
}

#[test]
fn test_triangulate_2d_fan() {
    let triangles = fan_triangles(4);
    assert_eq!(triangles.len(), 4);
    assert_eq!(triangles[3], vec![3, 0, 4]);
    assert!(fan_triangles(2).is_empty());
}

#[test]
fn test_fan_boundary_is_polygon() {
    let fan: Vec<(Vec<usize>, i64)> = fan_triangles(5).into_iter().map(|t| (t, 1)).collect();
    let bdry = consolidate(&chain_boundary(&fan));
    let polygon: Vec<(Vec<usize>, i64)> = (0..5).map(|i| (vec![i, (i + 1) % 5], 1)).collect();
    assert_eq!(bdry.len(), 5);
    for edge in &polygon {
        assert!(bdry.contains(edge));
    }
    assert!(consolidate(&chain_boundary(&bdry)).is_empty());
}

#[test]
fn test_verify_boundary_boundary_zero() {
    let current = vec![(vec![0, 1, 2], 1i64)];
    let bdry = consolidate(&chain_boundary(&current));
    assert!(consolidate(&chain_boundary(&bdry)).is_empty());
}

#[test]
fn test_minor_matrix_cofactors() {
    let m = vec![vec![1.0, 2.0, 3.0], vec![4.0, 5.0, 6.0], vec![7.0, 8.0, 9.0]];
    assert_eq!(minor_matrix(&m, 0, 0), vec![vec![5.0, 6.0], vec![8.0, 9.0]]);
    assert_eq!(minor_matrix(&m, 0, 2), vec![vec![4.0, 5.0], vec![7.0, 8.0]]);
    assert_eq!(minor_matrix(&m, 1, 1), vec![vec![1.0, 3.0], vec![7.0, 9.0]]);
    let two = vec![vec![1, 2], vec![3, 4]];
    assert_eq!(minor_matrix(&two, 0, 1), vec![vec![3]]);
}

#[test]
fn test_minor_matrix_outside_positions() {
    let m = vec![vec![1, 2], vec![3, 4]];
    // a row or column beyond the matrix leaves nothing out on that side
    assert_eq!(minor_matrix(&m, 5, 0), vec![vec![2], vec![4]]);
    assert_eq!(minor_matrix(&m, 0, 5), vec![vec![3, 4]]);
    // only the first n entries of each row are read
    let wide = vec![vec![1, 2, 99], vec![3, 4, 99]];
    assert_eq!(minor_matrix(&wide, 1, 0), vec![vec![2]]);
    let empty: Vec<Vec<i32>> = vec![];
    assert!(minor_matrix(&empty, 0, 0).is_empty());
}

#[test]
fn test_checked_factorial() {
    assert_eq!(checked_factorial(0), Some(1));
    assert_eq!(checked_factorial(1), Some(1));
    assert_eq!(checked_factorial(4), Some(24));
    assert_eq!(checked_factorial(12), Some(479001600));
    if usize::BITS == 64 {
        assert_eq!(checked_factorial(20), Some(2432902008176640000));
        assert_eq!(checked_factorial(21), None);
    } else {
        assert_eq!(checked_factorial(13), None);
    }
    assert_eq!(checked_factorial(usize::MAX), None);
}

#[test]
fn test_path_boundary_is_end_minus_start() {
    let segments: Vec<(Vec<usize>, i64)> = path_segments(&vec![4, 1, 3, 0]).into_iter().map(|s| (s, 1)).collect();
    let bdry = consolidate(&chain_boundary(&segments));
    assert_eq!(bdry, vec![(vec![4], -1), (vec![0], 1)]);
    // a closed path is a cycle
    let closed: Vec<(Vec<usize>, i64)> = path_segments(&vec![2, 5, 7, 2]).into_iter().map(|s| (s, 1)).collect();
    assert!(consolidate(&chain_boundary(&closed)).is_empty());
}
