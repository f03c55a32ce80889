use phase_router_rs::bitsupport::{
    coprime_multiplier, gcd, mix64, popcount_words, rank1, select1, select_in_word,
    select_in_word_portable, SupportView,
};
use rand::Rng;
use rand::SeedableRng;
use rand_chacha::ChaCha8Rng;

#[test]
fn select_in_word_handpicked() {
    let x: u64 = (1 << 0) | (1 << 5) | (1 << 7) | (1 << 33) | (1 << 63);
    assert_eq!(select_in_word(x, 0), 0);
    assert_eq!(select_in_word(x, 1), 5);
    assert_eq!(select_in_word(x, 2), 7);
    assert_eq!(select_in_word(x, 3), 33);
    assert_eq!(select_in_word(x, 4), 63);
}

#[test]
fn select_in_word_zero_returns_64() {
    assert_eq!(select_in_word_portable(0, 0), 64);
}

#[test]
fn select_in_word_portable_matches_dispatcher() {
    // Both code paths must produce identical results on every bit.
    let mut rng = ChaCha8Rng::seed_from_u64(0xA1A2A3A4);
    for _ in 0..512 {
        let x: u64 = rng.gen();
        let pc = x.count_ones();
        for k in 0..pc {
            let a = select_in_word(x, k);
            let b = select_in_word_portable(x, k);
            assert_eq!(a, b, "mismatch on x={:016x} k={}", x, k);
        }
    }
}

#[test]
fn rank1_handpicked() {
    // bits set at 0, 5, 7, 33, 63
    let words = vec![(1u64 << 0) | (1 << 5) | (1 << 7) | (1 << 33) | (1 << 63)];
    assert_eq!(rank1(&words, 0), 0);
    assert_eq!(rank1(&words, 1), 1);
    assert_eq!(rank1(&words, 5), 1);
    assert_eq!(rank1(&words, 6), 2);
    assert_eq!(rank1(&words, 8), 3);
    assert_eq!(rank1(&words, 33), 3);
    assert_eq!(rank1(&words, 34), 4);
    assert_eq!(rank1(&words, 64), 5);
}

#[test]
fn rank_select_inverse_random() {
    // Core invariant: rank1(select1(x, k)) == k for every k < popcount.
    let mut rng = ChaCha8Rng::seed_from_u64(0xDEADBEEF);
    for trial in 0..32 {
        let nb = 1 + (trial as usize % 16);
        let words: Vec<u64> = (0..nb).map(|_| rng.gen()).collect();
        let pc = popcount_words(&words);
        for k in 0..pc {
            let p = select1(&words, k);
            assert_eq!(rank1(&words, p), k, "k={} p={}", k, p);
            // bit at p is actually set
            assert!(words[p / 64] & (1u64 << (p % 64)) != 0);
        }
    }
}

#[test]
fn select_strictly_increasing() {
    let mut rng = ChaCha8Rng::seed_from_u64(0x1234);
    let words: Vec<u64> = (0..8).map(|_| rng.gen()).collect();
    let pc = popcount_words(&words);
    let mut prev: i64 = -1;
    for k in 0..pc {
        let p = select1(&words, k) as i64;
        assert!(p > prev, "select must be strictly increasing");
        prev = p;
    }
}

#[test]
fn boundary_all_zero_all_one() {
    assert_eq!(rank1(&[], 0), 0);
    assert_eq!(rank1(&[0u64; 4], 256), 0);
    let all = vec![!0u64; 2];
    assert_eq!(popcount_words(&all), 128);
    for k in 0..128 {
        assert_eq!(select1(&all, k), k as usize);
    }
    let single = vec![1u64 << 42, 0u64];
    assert_eq!(select1(&single, 0), 42);
}

#[test]
fn support_view_roundtrip() {
    let mut rng = ChaCha8Rng::seed_from_u64(7);
    let words: Vec<u64> = (0..6).map(|_| rng.gen()).collect();
    let view = SupportView::new(&words);
    for k in 0..view.degree {
        let p = view.select(k);
        assert_eq!(view.rank(p), k);
    }
}

#[test]
fn coprime_multiplier_is_coprime() {
    for d in 1..200usize {
        let a = coprime_multiplier(d, 0x123456);
        assert_eq!(gcd(a, d.max(1)), 1, "a={} d={}", a, d);
        if d > 1 {
            assert!(a >= 1 && a < d);
        }
    }
}

#[test]
fn coprime_multiplier_is_deterministic() {
    for d in [3usize, 16, 64, 97, 128, 1000] {
        let a1 = coprime_multiplier(d, 42);
        let a2 = coprime_multiplier(d, 42);
        assert_eq!(a1, a2);
    }
}

#[test]
fn select_in_word_past_popcount_is_64() {
    let x: u64 = (1 << 3) | (1 << 9);
    assert_eq!(select_in_word(x, 2), 64);
    assert_eq!(select_in_word(!0u64, 63), 63);
    assert_eq!(select_in_word(!0u64, 64), 64);
}

#[test]
fn rank1_past_the_end_counts_every_bit() {
    let words = vec![0b1011u64, 1u64 << 63];
    assert_eq!(rank1(&words, 1000), 4);
    assert_eq!(rank1(&words, 127), 3);
    assert_eq!(popcount_words(&words), 4);
}

#[test]
fn select1_crosses_word_boundaries() {
    let words = vec![1u64 << 63, 0, 1u64 << 1];
    assert_eq!(select1(&words, 0), 63);
    assert_eq!(select1(&words, 1), 129);
}

#[test]
fn support_view_with_degree_keeps_degree() {
    let words = vec![0b110u64];
    let view = SupportView::with_degree(&words, 2);
    assert_eq!(view.degree, 2);
    assert_eq!(view.select(0), 1);
    assert_eq!(view.select(1), 2);
    assert_eq!(view.rank(3), 2);
    assert_eq!(SupportView::new(&words).degree, 2);
}

#[test]
fn mix64_matches_splitmix64_reference() {
    // First SplitMix64 output for the zero state.
    assert_eq!(mix64(0), 0xE220A8397B1DCDAF);
    assert_ne!(mix64(1), mix64(0));
}

#[test]
fn gcd_exact_values() {
    assert_eq!(gcd(12, 18), 6);
    assert_eq!(gcd(17, 5), 1);
    assert_eq!(gcd(0, 9), 9);
    assert_eq!(gcd(9, 0), 9);
    assert_eq!(gcd(0, 0), 0);
}

#[test]
fn coprime_multiplier_small_degrees_are_identity() {
    assert_eq!(coprime_multiplier(0, 5), 1);
    assert_eq!(coprime_multiplier(1, 5), 1);
    // d = 2: the only unit in [1, 2) is 1.
    assert_eq!(coprime_multiplier(2, 5), 1);
}
