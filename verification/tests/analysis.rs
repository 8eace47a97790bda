use lau_geometric_measure::agent::{covered_count, regime_windows};
use lau_geometric_measure::monotonicity::{classify_singularity_type, SingularityType};
use lau_geometric_measure::rectifiability::sample_indices;

#[test]
fn test_classify_singularity() {
    assert_eq!(
        classify_singularity_type(true, true, true, 2, 2),
        SingularityType::Smooth { dimension: 2 }
    );
    assert_eq!(
        classify_singularity_type(true, true, false, 2, 2),
        SingularityType::Cone { dimension: 2 }
    );
    assert_eq!(
        classify_singularity_type(false, true, true, 2, 3),
        SingularityType::Singular { dimension: 2, codimension: 1 }
    );
    assert_eq!(
        classify_singularity_type(true, false, false, 3, 2),
        SingularityType::Singular { dimension: 3, codimension: 0 }
    );
}

#[test]
fn test_detect_regime_changes_small() {
    assert!(regime_windows(2, 10).is_empty());
}

#[test]
fn test_regime_windows_half_overlap() {
    let windows = regime_windows(30, 10);
    assert_eq!(windows, vec![(0, 10), (5, 15), (10, 20), (15, 25)]);
    let windows = regime_windows(120, 10);
    assert_eq!(windows.len(), 22);
    assert_eq!(windows[21], (105, 115));
}

#[test]
fn test_sample_indices_even_spread() {
    assert_eq!(sample_indices(50, 10), vec![0, 5, 10, 15, 20, 25, 30, 35, 40, 45]);
    assert_eq!(sample_indices(100, 10), vec![0, 10, 20, 30, 40, 50, 60, 70, 80, 90]);
}

#[test]
fn test_sample_indices_ceiling_step() {
    // ⌈7 / 3⌉ = 3
    assert_eq!(sample_indices(7, 3), vec![0, 3, 6]);
    // ⌈10 / 4⌉ = 3: only 4 multiples of 3 below 10
    assert_eq!(sample_indices(10, 4), vec![0, 3, 6, 9]);
    // ⌈5 / 4⌉ = 2: only 3 multiples of 2 below 5
    assert_eq!(sample_indices(5, 4), vec![0, 2, 4]);
}

#[test]
fn test_sample_indices_degenerate() {
    assert!(sample_indices(10, 0).is_empty());
    assert!(sample_indices(0, 10).is_empty());
    assert_eq!(sample_indices(1, 10), vec![0]);
}

/// `within[e][t]` for explored and state points on a line.
fn within_on_line(explored: &[f64], states: &[f64], epsilon: f64) -> Vec<Vec<bool>> {
    explored
        .iter()
        .map(|e| states.iter().map(|t| (e - t) * (e - t) <= epsilon * epsilon).collect())
        .collect()
}

#[test]
fn test_exploration_coverage() {
    let total: Vec<f64> = (0..10).map(|i| i as f64).collect();
    let explored: Vec<f64> = (0..5).map(|i| i as f64).collect();
    let count = covered_count(&within_on_line(&explored, &total, 0.5), total.len());
    assert_eq!(count, 5);
    let cov = count as f64 / total.len() as f64;
    assert!(cov > 0.0);
    assert!(cov <= 1.0);
}

#[test]
fn test_exploration_full_coverage() {
    let pts: Vec<f64> = (0..5).map(|i| i as f64).collect();
    let count = covered_count(&within_on_line(&pts, &pts, 0.5), pts.len());
    assert!((count as f64 / pts.len() as f64 - 1.0).abs() < 1e-10);
}

#[test]
fn test_exploration_coverage_empty() {
    let within = within_on_line(&[0.0], &[], 0.5);
    assert_eq!(covered_count(&within, 0), 0);
}

#[test]
fn test_covered_count_counts_each_state_once() {
    // two explored points cover the same state point
    let within = within_on_line(&[0.0, 0.1, 3.0], &[0.05, 1.0, 3.0, 7.0], 0.2);
    assert_eq!(covered_count(&within, 4), 2);
    assert_eq!(covered_count(&vec![], 3), 0);
}
