use phase_router_rs::metrics::{
    loads_per_target, pairwise_overlap_counts, split_routes, support_autocorrelation_counts,
    support_validity_counts,
};

fn jaccard_stats(counts: &[(usize, usize)]) -> (f64, f64, usize) {
    let mut sum = 0.0f64;
    let mut max = 0.0f64;
    for &(inter, union) in counts {
        let j = inter as f64 / union as f64;
        sum += j;
        if j > max {
            max = j;
        }
    }
    let mean = if counts.is_empty() { 0.0 } else { sum / counts.len() as f64 };
    (mean, max, counts.len())
}

#[test]
fn pairwise_overlap_identical_rows_is_one() {
    let row = vec![0i32, 1, 2, 3];
    let routes = vec![row.clone(); 16];
    let (mean, max, samples) = jaccard_stats(&pairwise_overlap_counts(&routes, 32, 7));
    assert!(samples > 0);
    assert!((mean - 1.0).abs() < 1e-12);
    assert!((max - 1.0).abs() < 1e-12);
}

#[test]
fn pairwise_overlap_disjoint_rows_is_zero() {
    let routes: Vec<Vec<i32>> = (0..8).map(|j| vec![j as i32 * 4, j as i32 * 4 + 1]).collect();
    let (mean, max, samples) = jaccard_stats(&pairwise_overlap_counts(&routes, 32, 9));
    assert!(samples > 0);
    assert!(mean < 1e-12);
    assert!(max < 1e-12);
}

#[test]
fn split_and_loads_round_trip() {
    let routes = vec![0i32, 1, 2, -1, 0, 0, 2, 3];
    let n = 4;
    let k = 2;
    let split = split_routes(&routes, n, k);
    assert_eq!(split.len(), 4);
    let l = loads_per_target(&routes, n);
    assert_eq!(l, vec![3, 1, 2, 1]);
}

#[test]
fn support_validity_perfect_when_routed_inside_support() {
    let n = 8;
    let nb = 1;
    let mut s = vec![0u64; n * nb];
    for i in 0..n {
        for b in 0..4 {
            s[i] |= 1u64 << b;
        }
    }
    let routes_per_row: Vec<Vec<i32>> = (0..n).map(|_| vec![0, 1, 2, 3]).collect();
    let (valid, total) = support_validity_counts(&routes_per_row, &s, nb);
    let v = valid as f64 / total as f64;
    assert!((v - 1.0).abs() < 1e-12);

    // One offending route at column 7 (not in support).
    let mut bad = routes_per_row.clone();
    bad[0][0] = 7;
    let (valid2, total2) = support_validity_counts(&bad, &s, nb);
    let v2 = valid2 as f64 / total2 as f64;
    assert!(v2 < 1.0 && v2 > 0.9);
}

#[test]
fn split_routes_keeps_row_order() {
    let routes = vec![5i32, -1, 3, 4, 0, 1];
    let split = split_routes(&routes, 3, 2);
    assert_eq!(split, vec![vec![5, -1], vec![3, 4], vec![0, 1]]);
}

#[test]
fn loads_ignore_unfilled_and_out_of_range() {
    let routes = vec![-1i32, 7, 1, 1, -1, 0];
    assert_eq!(loads_per_target(&routes, 3), vec![1, 2, 0]);
}

#[test]
fn loads_sum_to_in_range_routes() {
    let routes = vec![0i32, 2, 2, -1, 9, 1];
    let l = loads_per_target(&routes, 3);
    let total: u32 = l.iter().sum();
    assert_eq!(total, 4);
}

#[test]
fn support_validity_counts_exact() {
    let s = vec![0b0101u64, 0b1000u64];
    let rows = vec![vec![0i32, 1, -1], vec![3, 2]];
    assert_eq!(support_validity_counts(&rows, &s, 1), (2, 4));
    assert_eq!(support_validity_counts(&[], &s, 1), (0, 0));
}

#[test]
fn support_autocorrelation_counts_exact() {
    // Row 0 supports {0, 1, 2}: routes 0 and 1 have their successor in the
    // support, route 2 does not. Row 1 supports {3} and column 3 wraps to 0.
    let s = vec![0b0111u64, 0b1000u64];
    let rows = vec![vec![0i32, 1, 2], vec![3, -1]];
    assert_eq!(support_autocorrelation_counts(&rows, &s, 4, 1), (2, 4));
    assert_eq!(support_autocorrelation_counts(&rows, &s, 0, 1), (0, 0));
}

#[test]
fn pairwise_overlap_exact_counts() {
    // Two rows: sampling always picks the pair (0, 1) in some order.
    let rows = vec![vec![1i32, 2, 2, -1], vec![2, 3]];
    let counts = pairwise_overlap_counts(&rows, 5, 1);
    assert_eq!(counts, vec![(1, 3); 5]);
    assert!(pairwise_overlap_counts(&rows, 0, 1).is_empty());
    assert!(pairwise_overlap_counts(&rows[..1], 5, 1).is_empty());
    // Both rows empty: every sample is skipped.
    let empty = vec![vec![-1i32], vec![]];
    assert!(pairwise_overlap_counts(&empty, 4, 1).is_empty());
}
