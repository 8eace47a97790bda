use lau_geometric_measure::compactness::{convergent_subsequence, flat_limit_index, is_cauchy};

fn all(n: usize, value: bool) -> Vec<Vec<bool>> {
    vec![vec![value; n]; n]
}

/// `close[i][j]` for points on a line whose distance is below `threshold`.
fn close_on_line(xs: &[f64], threshold: f64) -> Vec<Vec<bool>> {
    xs.iter()
        .map(|a| xs.iter().map(|b| (a - b).abs() < threshold).collect())
        .collect()
}

#[test]
fn test_is_cauchy() {
    // the same current three times: no two members are far apart
    assert!(is_cauchy(&all(3, false)));
}

#[test]
fn test_is_cauchy_detects_far_pair() {
    let mut far = all(4, false);
    far[1][3] = true;
    assert!(!is_cauchy(&far));
    // only pairs i < j are looked at
    let mut lower = all(3, false);
    lower[2][0] = true;
    assert!(is_cauchy(&lower));
    assert!(is_cauchy(&vec![]));
}

#[test]
fn test_convergent_subsequence() {
    // five copies of one current: every member is close to every other
    let subseq = convergent_subsequence(&all(5, true));
    assert!(!subseq.is_empty());
    assert_eq!(subseq, vec![0, 1, 2, 3, 4]);
}

#[test]
fn test_convergent_subsequence_greedy_chain() {
    // 0.0, 0.05, 1.0, 0.08, 0.12: the chain goes 0 -> 1 -> 3 -> 4
    let close = close_on_line(&[0.0, 0.05, 1.0, 0.08, 0.12], 0.1);
    assert_eq!(convergent_subsequence(&close), vec![0, 1, 3, 4]);
}

#[test]
fn test_convergent_subsequence_falls_back_to_every_other() {
    let close = close_on_line(&[0.0, 1.0, 2.0, 3.0, 4.0], 0.1);
    assert_eq!(convergent_subsequence(&close), vec![0, 2, 4]);
    let close = close_on_line(&[0.0, 1.0], 0.1);
    assert_eq!(convergent_subsequence(&close), vec![0]);
}

#[test]
fn test_convergent_subsequence_short_sequences() {
    assert!(convergent_subsequence(&vec![]).is_empty());
    assert_eq!(convergent_subsequence(&vec![vec![false]]), vec![0]);
}

#[test]
fn test_flat_limit() {
    // two copies of one current: Cauchy, the limit is the last member
    assert_eq!(flat_limit_index(&all(2, true), true), Some(1));
}

#[test]
fn test_flat_limit_cases() {
    assert_eq!(flat_limit_index(&vec![], true), None);
    assert_eq!(flat_limit_index(&vec![], false), None);
    let close = close_on_line(&[0.0, 0.05, 1.0, 0.08, 2.0], 0.1);
    assert_eq!(flat_limit_index(&close, false), Some(3));
    let close = close_on_line(&[0.0, 1.0, 2.0, 3.0], 0.1);
    assert_eq!(flat_limit_index(&close, false), Some(2));
}
