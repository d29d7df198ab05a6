use ml_basics::knn::{leave_one_out, majority, solve};

fn key(d: f64) -> u64 {
    assert!(d >= 0.0 && !d.is_nan());
    d.to_bits()
}

fn line_table(xs: &[f64]) -> Vec<Vec<u64>> {
    xs.iter()
        .map(|&q| xs.iter().map(|&x| key((x - q).abs())).collect())
        .collect()
}

#[test]
fn knn_tie_break_is_deterministic() {
    let xs = [0.0, 1.0, 2.0, 3.0, 4.0];
    let labels = vec![0, 1, 0, 1, 0];
    let keys: Vec<u64> = xs.iter().map(|&x: &f64| key((x - 2.0f64).abs())).collect();
    for _ in 0..10 {
        assert_eq!(solve(&labels, &keys, 3), 1);
    }
}

#[test]
fn majority_prefers_most_frequent() {
    assert_eq!(majority(&vec![4, 2, 4, 9, 4, 2]), 4);
    assert_eq!(majority(&vec![5]), 5);
}

#[test]
fn majority_tie_goes_to_smallest_label() {
    assert_eq!(majority(&vec![3, 1, 3, 1]), 1);
    assert_eq!(majority(&vec![-2, 7, 0]), -2);
}

#[test]
fn equal_distances_keep_input_order() {
    let keys = vec![5, 5, 5];
    assert_eq!(solve(&vec![7, 8, 9], &keys, 1), 7);
    assert_eq!(solve(&vec![9, 8, 7], &keys, 1), 9);
}

#[test]
fn solve_with_k_beyond_size_uses_all_points() {
    let keys = vec![1, 2, 3];
    assert_eq!(solve(&vec![6, 2, 2], &keys, 10), 2);
}

#[test]
fn solve_picks_nearest_not_first() {
    let keys = vec![9, 8, 1, 2];
    assert_eq!(solve(&vec![5, 5, 3, 3], &keys, 2), 3);
    assert_eq!(solve(&vec![5, 5, 3, 3], &keys, 4), 3);
    assert_eq!(solve(&vec![5, 5, 3, 4], &keys, 1), 3);
}

#[test]
fn leave_one_out_alternating_line() {
    let dist = line_table(&[0.0, 1.0, 2.0, 3.0, 4.0]);
    let labels = vec![0, 1, 0, 1, 0];
    assert_eq!(leave_one_out(&labels, &dist, 1), 0);
    assert_eq!(leave_one_out(&labels, &dist, 2), 2);
}

#[test]
fn leave_one_out_separated_clusters() {
    let dist = line_table(&[0.0, 1.0, 2.0, 10.0, 11.0, 12.0]);
    let labels = vec![0, 0, 0, 1, 1, 1];
    assert_eq!(leave_one_out(&labels, &dist, 1), 6);
    assert_eq!(leave_one_out(&labels, &dist, 2), 6);
}

#[test]
fn leave_one_out_stays_within_size() {
    let xs = [0.3, -1.0, 2.5, 2.5, 7.0, 4.0, -3.0];
    let dist = line_table(&xs);
    let labels = vec![1, 2, 1, 3, 2, 2, 1];
    for k in 1..xs.len() {
        let r = leave_one_out(&labels, &dist, k);
        assert!(r <= xs.len());
    }
}

#[test]
fn leave_one_out_two_points() {
    let dist = line_table(&[0.0, 1.0]);
    assert_eq!(leave_one_out(&vec![4, 4], &dist, 1), 2);
    assert_eq!(leave_one_out(&vec![4, 5], &dist, 1), 0);
}

#[test]
fn exactly_k_neighbours_vote() {
    let keys = vec![1, 2, 3];
    let labels = vec![5, 6, 6];
    assert_eq!(solve(&labels, &keys, 1), 5);
    assert_eq!(solve(&labels, &keys, 2), 5);
    assert_eq!(solve(&labels, &keys, 3), 6);
}

#[test]
fn leave_one_out_ignores_own_distance() {
    let dist = vec![vec![0, 4, 4], vec![4, 0, 1], vec![4, 1, 0]];
    let labels = vec![2, 3, 3];
    assert_eq!(leave_one_out(&labels, &dist, 1), 2);
    assert_eq!(leave_one_out(&labels, &dist, 2), 0);
}
