use phase_router_rs::dispatch::{
    build_uniform_bits, dispatch_geometry, phase_router_auto, uniform_dispatch_from_ones,
};
use phase_router_rs::router::phase_router;
use std::collections::HashSet;

/// Density-driven uniform dispatch: converts `base_density` to ones counts
/// for the expert bands and the source rows, then runs the fused kernel.
fn uniform_dispatch(
    n_tokens: usize,
    n_experts: usize,
    k: usize,
    base_density: f64,
    oversample: usize,
    seed: u64,
) -> Vec<i32> {
    assert!(n_tokens > 0 && n_experts > 0 && k > 0);
    let (width, n_pad) = dispatch_geometry(n_tokens, n_experts);
    let ones_e = ((base_density * width as f64).round() as usize).max(1).min(n_pad);
    let s_ones = ((base_density * n_pad as f64).round() as usize).max(1).min(n_pad);
    uniform_dispatch_from_ones(n_tokens, n_experts, k, ones_e, s_ones, oversample, seed)
}

#[test]
fn basic_run() {
    let n = 128;
    let nb = (n + 63) / 64;

    let s_bits = vec![0xFFFFFFFFFFFFFFFF; n * nb];
    let t_bits = vec![0xFFFFFFFFFFFFFFFF; n * nb];

    let col_perm: Vec<usize> = (0..n).collect();

    let routes = phase_router(&s_bits, &t_bits, n, nb, 8, &col_perm, &col_perm, 42);

    assert_eq!(routes.len(), n * 8);
}

#[test]
fn uniform_dispatch_shape_and_uniqueness() {
    let n_tokens = 1024;
    let n_experts = 8;
    let k = 2;
    let routes = uniform_dispatch(n_tokens, n_experts, k, 0.3, 4, 42);

    assert_eq!(routes.len(), n_tokens * k);

    // Per-row uniqueness + range
    for row in 0..n_tokens {
        let mut seen = HashSet::new();
        for j in 0..k {
            let e = routes[row * k + j];
            if e < 0 {
                continue;
            }
            assert!(
                (e as usize) < n_experts,
                "expert id {} >= n_experts {}",
                e,
                n_experts
            );
            assert!(seen.insert(e), "duplicate expert {} in row {}", e, row);
        }
    }

    // Load CV should be very low — kernel balances by construction.
    let mut counts = vec![0u64; n_experts];
    for &e in &routes {
        if e >= 0 {
            counts[e as usize] += 1;
        }
    }
    let total: u64 = counts.iter().sum();
    let mean = total as f64 / n_experts as f64;
    let var: f64 = counts
        .iter()
        .map(|&c| (c as f64 - mean).powi(2))
        .sum::<f64>()
        / n_experts as f64;
    let cv = var.sqrt() / mean.max(1e-9);
    assert!(cv < 0.10, "load CV too high: {}", cv);
}

#[test]
fn uniform_dispatch_determinism() {
    let a = uniform_dispatch(512, 8, 2, 0.3, 4, 123);
    let b = uniform_dispatch(512, 8, 2, 0.3, 4, 123);
    assert_eq!(a, b);
}

#[test]
fn uniform_dispatch_n_not_divisible() {
    // n_tokens not a multiple of n_experts → should still work,
    // padding handled internally.
    let routes = uniform_dispatch(1000, 8, 2, 0.3, 4, 7);
    assert_eq!(routes.len(), 1000 * 2);
}

#[test]
fn dispatch_geometry_pads_to_whole_bands() {
    assert_eq!(dispatch_geometry(1024, 8), (128, 1024));
    assert_eq!(dispatch_geometry(1000, 8), (125, 1000));
    assert_eq!(dispatch_geometry(1001, 8), (126, 1008));
    assert_eq!(dispatch_geometry(3, 8), (1, 8));
}

#[test]
fn build_uniform_bits_sets_low_prefix_of_every_row() {
    let bits = build_uniform_bits(70, 100, 2);
    assert_eq!(bits.len(), 200);
    for row in 0..100 {
        assert_eq!(bits[row * 2], !0u64);
        assert_eq!(bits[row * 2 + 1], (1u64 << 6) - 1);
    }
    // ones are capped at n
    let capped = build_uniform_bits(500, 3, 1);
    assert_eq!(capped, vec![0b111u64; 3]);
}

#[test]
fn phase_router_auto_matches_shape_and_is_deterministic() {
    let n = 64;
    let s_bits = vec![!0u64; n];
    let t_bits = vec![!0u64; n];
    let a = phase_router_auto(&s_bits, &t_bits, n, 3, 9);
    let b = phase_router_auto(&s_bits, &t_bits, n, 3, 9);
    assert_eq!(a.len(), n * 3);
    assert_eq!(a, b);
    for row in a.chunks(3) {
        let mut seen = HashSet::new();
        for &c in row {
            assert!(c >= 0 && (c as usize) < n);
            assert!(seen.insert(c));
        }
    }
}

#[test]
fn uniform_dispatch_single_expert_routes_only_there() {
    let routes = uniform_dispatch(10, 1, 1, 0.5, 2, 3);
    assert_eq!(routes.len(), 10);
    assert!(routes.iter().all(|&e| e == 0 || e == -1));
    assert!(routes.iter().any(|&e| e == 0));
}

#[test]
fn uniform_dispatch_respects_expert_capacity() {
    for &(n_tokens, n_experts, k, density, seed) in
        &[(1000usize, 8usize, 2usize, 0.3f64, 5u64), (300, 7, 3, 0.05, 9), (64, 16, 1, 0.2, 1)]
    {
        let (width, n_pad) = dispatch_geometry(n_tokens, n_experts);
        let ones_e = ((density * width as f64).round() as usize).max(1).min(n_pad);
        let routes = uniform_dispatch(n_tokens, n_experts, k, density, 4, seed);
        let mut tokens_to = vec![0usize; n_experts];
        for row in routes.chunks(k) {
            for &e in row {
                if e >= 0 {
                    tokens_to[e as usize] += 1;
                }
            }
        }
        for e in 0..n_experts {
            assert!(tokens_to[e] <= width * ones_e, "expert {e}: {} > {}", tokens_to[e], width * ones_e);
        }
    }
}

#[test]
fn phase_router_auto_uses_shuffled_permutations() {
    let n = 64;
    let s_bits: Vec<u64> = (0..n).map(|_| (1u64 << 20) - 1).collect();
    let t_bits: Vec<u64> = (0..n).map(|c| (1u64 << (c % 7 + 1)) - 1).collect();
    let identity: Vec<usize> = (0..n).collect();
    let auto = phase_router_auto(&s_bits, &t_bits, n, 2, 3);
    let plain = phase_router(&s_bits, &t_bits, n, 1, 2, &identity, &identity, 3);
    assert_eq!(auto.len(), plain.len());
    assert_ne!(auto, plain);
}
