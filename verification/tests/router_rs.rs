use phase_router_rs::bitsupport::popcount_words;
use phase_router_rs::router_rs::{phase_router_rs, phase_router_rs_affine, phase_router_rs_hybrid};
use phase_router_rs::rows::compute_row_ones;

fn dense(n: usize, nb_words: usize) -> Vec<u64> {
    let mut v = vec![0u64; n * nb_words];
    for i in 0..n {
        for b in 0..n {
            v[i * nb_words + b / 64] |= 1u64 << (b % 64);
        }
    }
    v
}

#[test]
fn additive_runs_and_fills_for_dense_input() {
    let n = 64;
    let nb = (n + 63) / 64;
    let s = dense(n, nb);
    let t = dense(n, nb);
    let perm: Vec<usize> = (0..n).collect();
    let k = 4;
    let routes = phase_router_rs(&s, &t, n, nb, k, &perm, &perm, 42);
    assert_eq!(routes.len(), n * k);
    // With dense input, every source row should be filled to k.
    for row in routes.chunks(k) {
        assert!(row.iter().all(|&c| c >= 0 && (c as usize) < n));
    }
}

#[test]
fn affine_runs_and_fills_for_dense_input() {
    let n = 64;
    let nb = (n + 63) / 64;
    let s = dense(n, nb);
    let t = dense(n, nb);
    let perm: Vec<usize> = (0..n).collect();
    let k = 4;
    let routes = phase_router_rs_affine(&s, &t, n, nb, k, &perm, &perm, 42);
    assert_eq!(routes.len(), n * k);
    for row in routes.chunks(k) {
        assert!(row.iter().all(|&c| c >= 0 && (c as usize) < n));
    }
}

#[test]
fn determinism_additive() {
    let n = 32;
    let nb = (n + 63) / 64;
    let s = dense(n, nb);
    let t = dense(n, nb);
    let perm: Vec<usize> = (0..n).collect();
    let a = phase_router_rs(&s, &t, n, nb, 3, &perm, &perm, 99);
    let b = phase_router_rs(&s, &t, n, nb, 3, &perm, &perm, 99);
    assert_eq!(a, b);
}

#[test]
fn determinism_affine() {
    let n = 32;
    let nb = (n + 63) / 64;
    let s = dense(n, nb);
    let t = dense(n, nb);
    let perm: Vec<usize> = (0..n).collect();
    let a = phase_router_rs_affine(&s, &t, n, nb, 3, &perm, &perm, 99);
    let b = phase_router_rs_affine(&s, &t, n, nb, 3, &perm, &perm, 99);
    assert_eq!(a, b);
}

#[test]
fn empty_rows_are_skipped() {
    // Source row 0 has zero ones → no routes for that row.
    let n = 8;
    let nb = 1;
    let mut s = vec![0u64; n * nb];
    for i in 1..n {
        for b in 0..n {
            s[i * nb] |= 1u64 << b;
        }
    }
    let t = dense(n, nb);
    let perm: Vec<usize> = (0..n).collect();
    let routes = phase_router_rs(&s, &t, n, nb, 2, &perm, &perm, 1);
    assert!(routes[0..2].iter().all(|&c| c == -1));
}

#[test]
fn _unused_offsets_s_is_not_called() {
    // Smoke test: the rank/select kernel does not depend on
    // compute_offsets for the source side, because it iterates
    // intrinsic rank-space.
    let n = 16;
    let nb = 1;
    let mut s = vec![0u64; n * nb];
    // Pathological row offsets in physical space: only row 0 has ones.
    s[0] = 0xFFFF;
    let t = dense(n, nb);
    let perm: Vec<usize> = (0..n).collect();
    // Should not panic, should emit some route for row 0.
    let routes = phase_router_rs(&s, &t, n, nb, 1, &perm, &perm, 7);
    assert!(routes[0] >= 0);
}

#[test]
fn popcount_consistency_with_core_row_ones() {
    // Sanity: our bitsupport popcount matches the existing core helper.
    let n = 32;
    let nb = 1;
    let s = dense(n, nb);
    let core_ones = compute_row_ones(&s, n, nb);
    for i in 0..n {
        let row = &s[i * nb..(i + 1) * nb];
        assert_eq!(popcount_words(row) as usize, core_ones[i]);
    }
}

#[test]
fn hybrid_runs_and_fills_for_dense_input() {
    let n = 64;
    let nb = 1;
    let s = dense(n, nb);
    let t = dense(n, nb);
    let perm: Vec<usize> = (0..n).collect();
    let k = 4;
    let routes = phase_router_rs_hybrid(&s, &t, n, nb, k, &perm, &perm, 42);
    assert_eq!(routes.len(), n * k);
    for row in routes.chunks(k) {
        assert!(row.iter().all(|&c| c >= 0 && (c as usize) < n));
    }
}

#[test]
fn all_zero_source_gives_all_unfilled() {
    let n = 16;
    let nb = 1;
    let s = vec![0u64; n * nb];
    let t = dense(n, nb);
    let perm: Vec<usize> = (0..n).collect();
    for routes in [
        phase_router_rs(&s, &t, n, nb, 3, &perm, &perm, 5),
        phase_router_rs_affine(&s, &t, n, nb, 3, &perm, &perm, 5),
        phase_router_rs_hybrid(&s, &t, n, nb, 3, &perm, &perm, 5),
    ] {
        assert_eq!(routes.len(), n * 3);
        assert!(routes.iter().all(|&c| c == -1));
    }
}

#[test]
fn single_bit_rows_route_their_one_column() {
    // Row j supports only column j; with a dense target every window covers
    // every target, so row j's only candidate is column j.
    let n = 8;
    let nb = 1;
    let s: Vec<u64> = (0..n).map(|j| 1u64 << j).collect();
    let t = dense(n, nb);
    let perm: Vec<usize> = (0..n).collect();
    for routes in [
        phase_router_rs(&s, &t, n, nb, 2, &perm, &perm, 11),
        phase_router_rs_affine(&s, &t, n, nb, 2, &perm, &perm, 11),
        phase_router_rs_hybrid(&s, &t, n, nb, 2, &perm, &perm, 11),
    ] {
        for j in 0..n {
            assert_eq!(routes[j * 2], j as i32);
            assert_eq!(routes[j * 2 + 1], -1);
        }
    }
}
