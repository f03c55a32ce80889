use phase_router_rs::bitsupport::{mix64, popcount_words};
use phase_router_rs::workloads::{
    block_local_bits, dense_diverse_bits, hetero_tiers, prefix_support_bits, shuffle_range,
    sparse_diverse_bits, workload_row_seed, words_per_row, Profile,
};

/// A workload assembled from the library's integer builders; the
/// density-to-count conversions are done here.
struct Workload {
    n: usize,
    nb_words: usize,
    s_bits: Vec<u64>,
    t_bits: Vec<u64>,
    rel_caps: Vec<f64>,
    col_perm_s: Vec<usize>,
    col_perm_t: Vec<usize>,
    label: String,
}

fn degree_of(density: f64, n: usize) -> usize {
    ((density * n as f64).round() as usize).clamp(1, n)
}

fn finish(n: usize, s_bits: Vec<u64>, base_density: f64, seed: u64, label: String) -> Workload {
    let nb_words = words_per_row(n);
    let t1 = (n as f64 * 0.1) as usize;
    let t2 = (n as f64 * 0.2) as usize;
    let rel_caps: Vec<f64> = hetero_tiers(n, t1, t2, seed ^ 0xC0CA_C01A_BEEF_5EED)
        .iter()
        .map(|&c| c as f64)
        .collect();
    let mean = rel_caps.iter().sum::<f64>() / n as f64;
    let t_ones: Vec<usize> = rel_caps
        .iter()
        .map(|&c| {
            ((c / mean) * base_density * n as f64)
                .round()
                .max(1.0)
                .min(n as f64) as usize
        })
        .collect();
    let t_bits = prefix_support_bits(&t_ones, nb_words);
    Workload {
        n,
        nb_words,
        s_bits,
        t_bits,
        rel_caps,
        col_perm_s: shuffle_range(n, seed ^ 0xA1A1_A1A1),
        col_perm_t: shuffle_range(n, seed ^ 0xB2B2_B2B2),
        label,
    }
}

fn dense_uniform(n: usize, density: f64, base_density: f64, seed: u64) -> Workload {
    let d = degree_of(density, n);
    let s_bits = prefix_support_bits(&vec![d; n], words_per_row(n));
    finish(n, s_bits, base_density, seed, format!("dense_uniform(d={d})"))
}

fn dense_diverse(n: usize, density: f64, base_density: f64, seed: u64) -> Workload {
    let d = degree_of(density, n);
    let s_bits = dense_diverse_bits(n, d, seed);
    finish(n, s_bits, base_density, seed, format!("dense_diverse(d={d})"))
}

fn sparse_diverse(n: usize, mean_density: f64, tail_alpha: f64, base_density: f64, seed: u64) -> Workload {
    let target_mean = (mean_density * n as f64).max(1.0);
    let alpha = tail_alpha.max(1.05);
    let x_min = target_mean * (alpha - 1.0) / alpha;
    let degrees: Vec<usize> = (0..n)
        .map(|i| {
            let row_seed = workload_row_seed(seed, i);
            let u = ((row_seed >> 11) as f64 / (1u64 << 53) as f64).clamp(1e-9, 1.0 - 1e-9);
            let xf = x_min / (1.0 - u).powf(1.0 / alpha);
            (xf.round() as usize).clamp(1, n)
        })
        .collect();
    let s_bits = sparse_diverse_bits(&degrees, seed);
    finish(
        n,
        s_bits,
        base_density,
        seed,
        format!("sparse_diverse(mean={target_mean:.0},α={alpha:.2})"),
    )
}

fn block_local(n: usize, density: f64, base_density: f64, seed: u64) -> Workload {
    let d = degree_of(density, n);
    let s_bits = block_local_bits(n, d, seed);
    finish(n, s_bits, base_density, seed, format!("block_local(d={d})"))
}

fn build(p: Profile, n: usize, density: f64, base_density: f64, seed: u64) -> Workload {
    match p {
        Profile::DenseUniform => dense_uniform(n, density, base_density, seed),
        Profile::DenseDiverse => dense_diverse(n, density, base_density, seed),
        Profile::SparseDiverse => sparse_diverse(n, density, 1.5, base_density, seed),
        Profile::BlockLocal => block_local(n, density, base_density, seed),
    }
}

fn assert_basics(w: &Workload) {
    assert_eq!(w.s_bits.len(), w.n * w.nb_words);
    assert_eq!(w.t_bits.len(), w.n * w.nb_words);
    assert_eq!(w.col_perm_s.len(), w.n);
    assert_eq!(w.col_perm_t.len(), w.n);
    assert_eq!(w.rel_caps.len(), w.n);

    // Permutations must be valid.
    let mut seen_s = vec![false; w.n];
    for &p in &w.col_perm_s {
        assert!(p < w.n);
        assert!(!seen_s[p]);
        seen_s[p] = true;
    }
    let mut seen_t = vec![false; w.n];
    for &p in &w.col_perm_t {
        assert!(p < w.n);
        assert!(!seen_t[p]);
        seen_t[p] = true;
    }

    // Every row should have at least one bit set.
    for i in 0..w.n {
        let row = &w.s_bits[i * w.nb_words..(i + 1) * w.nb_words];
        assert!(popcount_words(row) > 0, "row {i} is empty");
    }
}

#[test]
fn dense_uniform_has_identical_supports() {
    let w = dense_uniform(128, 0.3, 0.3, 42);
    assert_basics(&w);
    let row0 = &w.s_bits[0..w.nb_words].to_vec();
    for i in 1..w.n {
        let rowi = &w.s_bits[i * w.nb_words..(i + 1) * w.nb_words];
        assert_eq!(rowi, row0.as_slice());
    }
}

#[test]
fn dense_diverse_has_constant_degree_diverse_supports() {
    let w = dense_diverse(128, 0.3, 0.3, 42);
    assert_basics(&w);
    let d0 = popcount_words(&w.s_bits[0..w.nb_words]);
    let mut equal_count = 0;
    for i in 1..w.n {
        let row = &w.s_bits[i * w.nb_words..(i + 1) * w.nb_words];
        assert_eq!(popcount_words(row), d0, "row {i} degree differs");
        if row == &w.s_bits[0..w.nb_words] {
            equal_count += 1;
        }
    }
    // It would be astronomically unlikely for any row to coincide with row 0.
    assert!(equal_count < w.n / 4, "supports look insufficiently random");
}

#[test]
fn sparse_diverse_has_variable_degree() {
    let w = sparse_diverse(256, 0.3, 1.5, 0.3, 42);
    assert_basics(&w);
    let d0 = popcount_words(&w.s_bits[0..w.nb_words]);
    let mut found_diff = false;
    for i in 1..w.n {
        let row = &w.s_bits[i * w.nb_words..(i + 1) * w.nb_words];
        if popcount_words(row) != d0 {
            found_diff = true;
            break;
        }
    }
    assert!(found_diff, "all rows have the same degree");
}

#[test]
fn block_local_supports_are_contiguous_cyclically() {
    let n = 128;
    let w = block_local(n, 0.25, 0.3, 42);
    assert_basics(&w);
    let d = ((0.25 * n as f64).round()) as usize;
    for i in 0..w.n {
        let row = &w.s_bits[i * w.nb_words..(i + 1) * w.nb_words];
        assert_eq!(popcount_words(row) as usize, d);

        let mut set_positions = Vec::with_capacity(d);
        for b in 0..n {
            if (row[b / 64] >> (b % 64)) & 1 == 1 {
                set_positions.push(b);
            }
        }
        assert_eq!(set_positions.len(), d);
        let mut all = set_positions.clone();
        all.sort_unstable();
        let mut max_gap = 0usize;
        for k in 0..d {
            let cur = all[k];
            let nxt = all[(k + 1) % d];
            let gap = if nxt > cur { nxt - cur } else { nxt + n - cur };
            if gap > max_gap {
                max_gap = gap;
            }
        }
        // The largest gap between set bits, cyclically, must be (n - d) + 1.
        assert_eq!(max_gap, n - d + 1, "row {i}: not cyclically contiguous");
    }
}

#[test]
fn profile_enum_round_trip() {
    for p in Profile::ALL {
        let w = build(p, 64, 0.3, 0.3, 7);
        assert_basics(&w);
        assert!(w.label.starts_with(p.name()));
    }
}

#[test]
fn determinism_same_seed_same_workload() {
    for p in Profile::ALL {
        let a = build(p, 64, 0.25, 0.3, 99);
        let b = build(p, 64, 0.25, 0.3, 99);
        assert_eq!(a.s_bits, b.s_bits);
        assert_eq!(a.t_bits, b.t_bits);
        assert_eq!(a.col_perm_s, b.col_perm_s);
        assert_eq!(a.col_perm_t, b.col_perm_t);
    }
}

// ── the integer builders on their own ───────────────────────────────────

#[test]
fn profile_names_exact() {
    assert_eq!(Profile::DenseUniform.name(), "dense_uniform");
    assert_eq!(Profile::DenseDiverse.name(), "dense_diverse");
    assert_eq!(Profile::SparseDiverse.name(), "sparse_diverse");
    assert_eq!(Profile::BlockLocal.name(), "block_local");
    assert_eq!(Profile::ALL.len(), 4);
    assert_eq!(Profile::ALL[0], Profile::DenseUniform);
    assert_eq!(Profile::ALL[3], Profile::BlockLocal);
}

#[test]
fn shuffle_range_small_cases() {
    assert!(shuffle_range(0, 5).is_empty());
    assert_eq!(shuffle_range(1, 5), vec![0]);
    // One step at i = 1: mix64(0) is odd, so j = 1 and nothing moves.
    assert_eq!(mix64(0) % 2, 1);
    assert_eq!(shuffle_range(2, 0), vec![0, 1]);
}

#[test]
fn shuffle_range_is_a_deterministic_permutation() {
    for n in [3usize, 10, 64, 257] {
        let a = shuffle_range(n, 0xABCD);
        let b = shuffle_range(n, 0xABCD);
        assert_eq!(a, b);
        let mut sorted = a.clone();
        sorted.sort_unstable();
        assert_eq!(sorted, (0..n).collect::<Vec<_>>());
    }
    assert_ne!(shuffle_range(64, 1), shuffle_range(64, 2));
}

#[test]
fn words_per_row_rounds_up() {
    assert_eq!(words_per_row(0), 0);
    assert_eq!(words_per_row(1), 1);
    assert_eq!(words_per_row(64), 1);
    assert_eq!(words_per_row(65), 2);
    assert_eq!(words_per_row(128), 2);
}

#[test]
fn workload_row_seed_formula() {
    assert_eq!(workload_row_seed(0, 0), mix64(0));
    assert_eq!(workload_row_seed(5, 1), mix64(5 ^ 0x9E37_79B9_7F4A_7C15));
    assert_eq!(
        workload_row_seed(7, 3),
        mix64(7 ^ 3u64.wrapping_mul(0x9E37_79B9_7F4A_7C15))
    );
}

#[test]
fn prefix_support_bits_exact_words() {
    let bits = prefix_support_bits(&[0, 1, 64, 70], 2);
    assert_eq!(bits, vec![0, 0, 1, 0, !0u64, 0, !0u64, 0b111111]);
}

#[test]
fn dense_diverse_rows_are_prefixes_of_row_shuffles() {
    let n = 40;
    let d = 7;
    let seed = 11;
    let bits = dense_diverse_bits(n, d, seed);
    for i in 0..n {
        let perm = shuffle_range(n, workload_row_seed(seed, i));
        let mut expected = 0u64;
        for &c in &perm[..d] {
            expected |= 1u64 << c;
        }
        assert_eq!(bits[i], expected, "row {i}");
    }
}

#[test]
fn sparse_diverse_rows_follow_degrees() {
    let degrees = vec![1usize, 5, 0, 4, 3];
    let seed = 2;
    let bits = sparse_diverse_bits(&degrees, seed);
    assert_eq!(bits.len(), 5);
    for i in 0..5 {
        assert_eq!(bits[i].count_ones() as usize, degrees[i]);
        let perm = shuffle_range(5, mix64(workload_row_seed(seed, i)));
        let mut expected = 0u64;
        for &c in &perm[..degrees[i]] {
            expected |= 1u64 << c;
        }
        assert_eq!(bits[i], expected, "row {i}");
    }
}

#[test]
fn block_local_rows_wrap_around() {
    let n = 10;
    let d = 4;
    let seed = 3;
    let bits = block_local_bits(n, d, seed);
    for i in 0..n {
        let o = (workload_row_seed(seed, i) as usize) % n;
        let mut expected = 0u64;
        for off in 0..d {
            expected |= 1u64 << ((o + off) % n);
        }
        assert_eq!(bits[i], expected, "row {i}");
    }
}

#[test]
fn hetero_tiers_counts_and_placement() {
    let n = 20;
    let caps = hetero_tiers(n, 2, 4, 77);
    let perm = shuffle_range(n, 77);
    for i in 0..n {
        let expected = if i < 2 { 8 } else if i < 6 { 2 } else { 1 };
        assert_eq!(caps[perm[i]], expected);
    }
    assert_eq!(caps.iter().filter(|&&c| c == 8).count(), 2);
    assert_eq!(caps.iter().filter(|&&c| c == 2).count(), 4);
    assert_eq!(caps.iter().filter(|&&c| c == 1).count(), 14);
    // Tier counts beyond n are cut off.
    let all_top = hetero_tiers(3, 10, 10, 1);
    assert_eq!(all_top, vec![8, 8, 8]);
}
