use phase_router_rs::bitops::{permute_columns_bits, rotate_bits_full};
use phase_router_rs::reservoir::reservoir_select;
use phase_router_rs::router::{in_cyclic_interval, phase_router, phase_router_row};
use phase_router_rs::rng::reservoir_draws;
use phase_router_rs::rows::{compute_inverse_perm, compute_offsets, compute_row_ones, in_cyclic_range};

#[test]
fn rotate_single_word_wraps_and_masks() {
    let src = [0b1011u64 | (1u64 << 63)];
    let mut dst = [0u64];
    rotate_bits_full(&src, 8, 1, 2, &mut dst);
    // bit 63 wraps to bit 1; then only the low 8 bits are kept.
    assert_eq!(dst[0], 0b101110);
}

#[test]
fn rotate_offset_zero_masks_first_word_and_copies_rest() {
    let src = [!0u64, 0xABCD, 0x1234];
    let mut dst = [0u64; 3];
    rotate_bits_full(&src, 4, 2, 0, &mut dst);
    assert_eq!(dst, [0b1111, 0xABCD, 0]);
}

#[test]
fn rotate_multi_word_moves_bits_across_words() {
    let src = [1u64, 0u64];
    let mut dst = [7u64, 7u64];
    rotate_bits_full(&src, 128, 2, 65, &mut dst);
    assert_eq!(dst, [0, 2]);
    let src2 = [0u64, 1u64 << 63];
    rotate_bits_full(&src2, 128, 2, 1, &mut dst);
    assert_eq!(dst, [1, 0]);
}

#[test]
fn rotate_with_zero_columns_is_a_no_op() {
    let src = [5u64];
    let mut dst = [9u64];
    rotate_bits_full(&src, 0, 1, 3, &mut dst);
    assert_eq!(dst, [9]);
}

#[test]
fn permute_columns_reads_source_through_the_permutation() {
    let src = [0b0110u64];
    let mut dst = [0xFFu64, 0xFF];
    permute_columns_bits(&src, &mut dst, &[2, 0, 1, 3], 4);
    assert_eq!(dst, [0b0101, 0]);
}

#[test]
fn permute_columns_across_words() {
    let src = [0u64, 1u64 << 6];
    let mut dst = [0u64];
    // column 0 reads source bit 70.
    permute_columns_bits(&src, &mut dst, &[70, 1], 2);
    assert_eq!(dst, [1]);
}

#[test]
fn compute_offsets_and_row_ones_exact() {
    let bits = [0b111u64, 0b11, 0b1111];
    assert_eq!(compute_row_ones(&bits, 3, 1), vec![3, 2, 4]);
    assert_eq!(compute_offsets(&bits, 3, 1), vec![0, 0, 2]);
    assert!(compute_offsets(&bits, 0, 1).is_empty());
    let two_words = [!0u64, 1, 0, 0];
    assert_eq!(compute_row_ones(&two_words, 2, 2), vec![65, 0]);
    assert_eq!(compute_offsets(&two_words, 2, 2), vec![0, 1]);
}

#[test]
fn compute_inverse_perm_inverts() {
    let perm = [2usize, 0, 1, 3];
    let inv = compute_inverse_perm(&perm);
    assert_eq!(inv, vec![1, 2, 0, 3]);
    for i in 0..4 {
        assert_eq!(inv[perm[i]], i);
        assert_eq!(perm[inv[i]], i);
    }
}

#[test]
fn in_cyclic_range_cases() {
    assert!(in_cyclic_range(1, 3, 3, 4));
    assert!(!in_cyclic_range(2, 3, 3, 4));
    assert!(in_cyclic_range(3, 3, 3, 4));
    assert!(!in_cyclic_range(0, 0, 0, 4));
    assert!(in_cyclic_range(2, 1, 4, 4));
    assert!(in_cyclic_range(1, 1, 2, 10));
    assert!(!in_cyclic_range(3, 1, 2, 10));
}

#[test]
fn in_cyclic_interval_cases() {
    assert!(in_cyclic_interval(1, 3, 3, 4));
    assert!(!in_cyclic_interval(2, 3, 3, 4));
    assert!(in_cyclic_interval(3, 3, 1, 4));
    assert!(!in_cyclic_interval(0, 0, 0, 4));
}

#[test]
fn reservoir_fills_then_replaces() {
    let cands = [10i32, 11, 12, 13, 14];
    // draws for candidates 12, 13, 14: 0 (replace slot 0), 3 (skip), 1 (replace slot 1)
    let out = reservoir_select(&cands, 2, &[0, 3, 1]);
    assert_eq!(out, vec![12, 14]);
    // fewer candidates than slots: the rest stay unfilled
    assert_eq!(reservoir_select(&cands[..1], 3, &[]), vec![10, -1, -1]);
    assert_eq!(reservoir_select(&[], 2, &[]), vec![-1, -1]);
}

#[test]
fn phase_router_row_with_dense_target_takes_walked_columns() {
    // Identity inverse permutation; every target window spans all of [0, n).
    let n = 6;
    let inv: Vec<usize> = (0..n).collect();
    let offsets_t = vec![0usize; n];
    let ones_t = vec![n; n];
    // Walk 2 positions from 4: columns 4 and 5; both fit in 3 slots.
    let row = phase_router_row(&inv, &offsets_t, &ones_t, n, 3, 4, 2, 0, 1);
    assert_eq!(row, vec![4, 5, -1]);
    // Walk wraps around: 5, 0, 1.
    let row = phase_router_row(&inv, &offsets_t, &ones_t, n, 3, 5, 3, 0, 1);
    assert_eq!(row, vec![5, 0, 1]);
}

#[test]
fn phase_router_row_skips_columns_whose_window_misses_the_phase() {
    let n = 4;
    let inv: Vec<usize> = (0..n).collect();
    // target windows: column c covers [c, c + 1), so only column p_t hits.
    let offsets_t: Vec<usize> = (0..n).collect();
    let ones_t = vec![1usize; n];
    let row = phase_router_row(&inv, &offsets_t, &ones_t, n, 2, 0, 4, 2, 9);
    assert_eq!(row, vec![2, -1]);
}

#[test]
fn phase_router_empty_source_rows_stay_unfilled() {
    let n = 8;
    let s = vec![0u64; n];
    let t = vec![!0u64; n];
    let perm: Vec<usize> = (0..n).collect();
    let routes = phase_router(&s, &t, n, 1, 2, &perm, &perm, 0);
    assert_eq!(routes, vec![-1; 16]);
}

#[test]
fn reservoir_draws_are_in_range_and_reproducible() {
    let a = reservoir_draws(42, 3, 50);
    let b = reservoir_draws(42, 3, 50);
    assert_eq!(a, b);
    assert_eq!(a.len(), 50);
    for (i, &r) in a.iter().enumerate() {
        assert!(r <= 3 + i);
    }
    assert!(reservoir_draws(42, 3, 0).is_empty());
    assert_ne!(reservoir_draws(1, 3, 50), reservoir_draws(2, 3, 50));
}
