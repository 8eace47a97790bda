use lau_geometric_measure::plateau::{relaxation_neighbourhoods, vertex_neighbours};

#[test]
fn test_relax_surface() {
    // a single triangle: every vertex is on its boundary and stays fixed
    let simplices = vec![vec![0, 1, 2]];
    let hoods = relaxation_neighbourhoods(&simplices, &vec![true, true, true]);
    assert_eq!(hoods, vec![Vec::<usize>::new(), vec![], vec![]]);
}

#[test]
fn test_vertex_neighbours_of_fan_apex() {
    // fan over a square 0..4 with apex 4
    let simplices = vec![vec![0, 1, 4], vec![1, 2, 4], vec![2, 3, 4], vec![3, 0, 4]];
    assert_eq!(vertex_neighbours(&simplices, 4), vec![0, 1, 1, 2, 2, 3, 3, 0]);
    assert_eq!(vertex_neighbours(&simplices, 1), vec![0, 4, 2, 4]);
    assert!(vertex_neighbours(&simplices, 9).is_empty());
}

#[test]
fn test_relaxation_moves_only_interior_vertices() {
    let simplices = vec![vec![0, 1, 4], vec![1, 2, 4], vec![2, 3, 4], vec![3, 0, 4]];
    let on_boundary = vec![true, true, true, true, false];
    let hoods = relaxation_neighbourhoods(&simplices, &on_boundary);
    assert_eq!(hoods.len(), 5);
    for v in 0..4 {
        assert!(hoods[v].is_empty());
    }
    assert_eq!(hoods[4], vec![0, 1, 1, 2, 2, 3, 3, 0]);
}

#[test]
fn test_neighbours_are_symmetric() {
    let simplices = vec![vec![0, 1, 2], vec![2, 3], vec![3, 4, 0], vec![5]];
    for v in 0..6 {
        for x in 0..6 {
            let forward = vertex_neighbours(&simplices, v).contains(&x);
            let backward = vertex_neighbours(&simplices, x).contains(&v);
            assert_eq!(forward, backward);
            if v == x {
                assert!(!forward);
            }
        }
    }
    assert!(vertex_neighbours(&simplices, 5).is_empty());
}
