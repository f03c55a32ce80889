//! Bit-support primitives: `rank1`, `select1`, `select_in_word`, `SupportView`,
//! and the deterministic mixers used to derive per-row phases.
//!
//! A row's bitvector is an occupancy coordinate space:
//! `rank1(words, p)` maps a physical position to an occupancy index and
//! `select1(words, k)` maps an occupancy index back to a physical position.

use vstd::prelude::*;
use crate::bitspec::{
    bit_at, lemma_clear_lowest, lemma_low_mask, lemma_ones_below_cleared, lemma_ones_below_ext,
    lemma_ones_below_no_bits_after, lemma_ones_below_past_set, lemma_ones_below_witness,
    lemma_rank_in_word, lemma_rank_mono, lemma_rank_next_word, lemma_rank_past_end, lemma_rank_past_set,
    lemma_split_position, lemma_zero_word, ones_below, popcount, rank_of, total_ones, word_bit,
};

verus! {

/// `u64::count_ones` returns the number of ones in the binary representation
/// of its argument (std documentation); stated here over `popcount`.
pub assume_specification[ u64::count_ones ](x: u64) -> (r: u32)
    ensures
        r == popcount(x),
;

/// What `select_in_word(x, k)` returns: the position of the `k`-th set bit
/// (0-indexed) when there is one, 64 otherwise.
pub open spec fn is_word_select(x: u64, k: nat, r: nat) -> bool {
    if k < popcount(x) {
        r < 64 && bit_at(x, r) && ones_below(x, r) == k
    } else {
        r == 64
    }
}

/// Returns the bit position (0..64) of the `k`-th set bit in `x` (0-indexed).
/// Returns 64 if `x` has fewer than `k+1` set bits.
pub fn select_in_word(x: u64, k: u32) -> (r: u32)
    ensures
        is_word_select(x, k as nat, r as nat),
{
    select_in_word_portable(x, k)
}

/// Clears the lowest set bit `k` times, then reads the lowest remaining one.
pub fn select_in_word_portable(x: u64, k: u32) -> (r: u32)
    ensures
        is_word_select(x, k as nat, r as nat),
{
    let ghost x0 = x;
    let ghost k0 = k as nat;
    let mut cur = x;
    let mut left = k;
    while cur != 0
        invariant
            x0 == x,
            k0 == k as nat,
            left <= k0,
            popcount(cur) + (k0 - left) == popcount(x0),
            forall|i: nat| bit_at(cur, i) == (bit_at(x0, i) && ones_below(x0, i) >= k0 - left),
        decreases popcount(cur),
    {
        let ghost j = (k0 - left) as nat;
        let ghost t = vstd::std_specs::bits::u64_trailing_zeros(cur) as nat;
        proof {
            lemma_clear_lowest(cur);
            // the lowest remaining bit is the one with exactly `j` set bits below it
            assert(ones_below(x0, t) == j) by {
                if ones_below(x0, t) > j {
                    let i = lemma_ones_below_witness(x0, t, j);
                    assert(bit_at(cur, i));
                }
            }
        }
        if left == 0 {
            let pos = cur.trailing_zeros();
            proof {
                lemma_ones_below_past_set(x0, t, 64);
                assert(bit_at(x0, t));
                assert(pos as nat == t);
                assert(is_word_select(x0, k0, pos as nat));
            }
            return pos;
        }
        let next = cur & (cur - 1);
        proof {
            lemma_ones_below_cleared(next, cur, t, 64);
            assert forall|i: nat|
                bit_at(next, i) == (bit_at(x0, i) && ones_below(x0, i) >= j + 1) by {
                if bit_at(x0, i) && ones_below(x0, i) == j && i != t {
                    if i < t {
                        assert(bit_at(cur, i));
                    } else {
                        lemma_ones_below_past_set(x0, t, i);
                    }
                }
            }
        }
        cur = next;
        left = left - 1;
    }
    proof {
        lemma_zero_word(64);
    }
    64
}

// ── multi-word rank/select ───────────────────────────────────────────────

/// Total set-bit count of a packed bit slice.
pub fn popcount_words(words: &[u64]) -> (r: u32)
    requires
        total_ones(words@) <= u32::MAX,
    ensures
        r == total_ones(words@),
{
    let mut count: u32 = 0;
    let mut i: usize = 0;
    while i < words.len()
        invariant
            i <= words@.len(),
            count == rank_of(words@, 64 * i as nat),
            total_ones(words@) <= u32::MAX,
        decreases words@.len() - i,
    {
        proof {
            lemma_rank_next_word(words@, i as nat);
            lemma_rank_mono(words@, 64 * (i + 1) as nat, 64 * words@.len());
        }
        count = count + words[i].count_ones();
        i = i + 1;
    }
    count
}

/// `rank1(words, p)` = number of set bits in positions `[0, p)`.
pub fn rank1(words: &[u64], pos: usize) -> (r: u32)
    requires
        rank_of(words@, pos as nat) <= u32::MAX,
    ensures
        r == rank_of(words@, pos as nat),
{
    let full_words = pos / 64;
    let rem_bits = pos % 64;
    let mut count: u32 = 0;
    let limit = if full_words < words.len() {
        full_words
    } else {
        words.len()
    };
    proof {
        lemma_split_position(full_words as nat, rem_bits as nat);
        lemma_rank_mono(words@, 64 * limit as nat, pos as nat);
    }
    let mut i: usize = 0;
    while i < limit
        invariant
            i <= limit <= words@.len(),
            64 * limit <= pos,
            count == rank_of(words@, 64 * i as nat),
            rank_of(words@, 64 * limit as nat) <= u32::MAX,
        decreases limit - i,
    {
        proof {
            lemma_rank_next_word(words@, i as nat);
            lemma_rank_mono(words@, 64 * (i + 1) as nat, 64 * limit as nat);
        }
        count = count + words[i].count_ones();
        i = i + 1;
    }
    if rem_bits > 0 && full_words < words.len() {
        let w = words[full_words];
        assert(1u64 << (rem_bits as u64) >= 1u64) by (bit_vector)
            requires
                rem_bits < 64,
        ;
        let masked = w & ((1u64 << (rem_bits as u64)) - 1);
        proof {
            lemma_low_mask(w, rem_bits as u64);
            lemma_ones_below_ext(masked, w, rem_bits as nat);
            lemma_ones_below_no_bits_after(masked, rem_bits as nat, 64);
            lemma_rank_in_word(words@, full_words as nat, rem_bits as nat);
        }
        count = count + masked.count_ones();
    } else if full_words >= words.len() {
        proof {
            lemma_rank_past_end(words@, pos as nat);
            lemma_rank_past_end(words@, 64 * limit as nat);
        }
    }
    count
}

/// `select1(words, k)` = position of the `k`-th set bit (0-indexed).
///
/// `k` must be below the popcount of `words`.
pub fn select1(words: &[u64], k: u32) -> (p: usize)
    requires
        k < total_ones(words@),
        64 * words@.len() <= usize::MAX,
    ensures
        p < 64 * words@.len(),
        word_bit(words@, p as nat),
        rank_of(words@, p as nat) == k,
{
    let mut kk = k;
    let mut w_idx: usize = 0;
    proof {
        if words@.len() == 0 {
            assert(total_ones(words@) == 0);
        }
    }
    loop
        invariant
            w_idx < words@.len(),
            kk + rank_of(words@, 64 * w_idx as nat) == k,
            k < total_ones(words@),
            64 * words@.len() <= usize::MAX,
        decreases words@.len() - w_idx,
    {
        let w = words[w_idx];
        let pc = w.count_ones();
        proof {
            lemma_rank_next_word(words@, w_idx as nat);
        }
        if pc > kk {
            let s = select_in_word(w, kk);
            proof {
                lemma_rank_in_word(words@, w_idx as nat, s as nat);
                lemma_split_position(w_idx as nat, s as nat);
                assert(64 * w_idx + s < 64 * words@.len()) by (nonlinear_arith)
                    requires
                        w_idx < words@.len(),
                        s < 64,
                ;
            }
            return w_idx * 64 + s as usize;
        }
        kk = kk - pc;
        proof {
            if w_idx + 1 == words@.len() {
                assert(64 * (w_idx + 1) == 64 * words@.len());
            }
        }
        w_idx = w_idx + 1;
    }
}


/// Position of the set bit of rank `k` (meaningful when `k < total_ones`).
pub open spec fn select_spec(words: Seq<u64>, k: nat) -> nat {
    choose|p: nat| word_bit(words, p) && rank_of(words, p) == k
}

/// Below the total, every rank is the rank of some set bit.
pub proof fn lemma_select_exists(words: Seq<u64>, k: nat, q: nat)
    requires
        rank_of(words, q) > k,
    ensures
        word_bit(words, select_spec(words, k)),
        rank_of(words, select_spec(words, k)) == k,
        select_spec(words, k) < q,
    decreases q,
{
    let q1 = (q - 1) as nat;
    if rank_of(words, q1) > k {
        lemma_select_exists(words, k, q1);
    } else {
        assert(word_bit(words, q1) && rank_of(words, q1) == k);
        lemma_select_is_select_spec(words, k, q1);
    }
}

/// `select1`'s result is `select_spec`.
pub proof fn lemma_select_is_select_spec(words: Seq<u64>, k: nat, p: nat)
    requires
        word_bit(words, p),
        rank_of(words, p) == k,
    ensures
        select_spec(words, k) == p,
        word_bit(words, select_spec(words, k)),
{
    let q = select_spec(words, k);
    assert(word_bit(words, q) && rank_of(words, q) == k);
    lemma_select_unique(words, p, q);
}

/// The set bit with a given rank is unique, so `select1`'s contract pins its
/// result down.
pub proof fn lemma_select_unique(words: Seq<u64>, p1: nat, p2: nat)
    requires
        word_bit(words, p1),
        word_bit(words, p2),
        rank_of(words, p1) == rank_of(words, p2),
    ensures
        p1 == p2,
{
    if p1 < p2 {
        lemma_rank_past_set(words, p1, p2);
    } else if p2 < p1 {
        lemma_rank_past_set(words, p2, p1);
    }
}

/// `select1` is strictly increasing in its occupancy index: set bits of
/// smaller rank lie at smaller positions.
pub proof fn law_select_strictly_increasing(words: Seq<u64>, p1: nat, p2: nat)
    requires
        word_bit(words, p1),
        word_bit(words, p2),
        rank_of(words, p1) < rank_of(words, p2),
    ensures
        p1 < p2,
{
    if p2 <= p1 {
        lemma_rank_mono(words, p2, p1);
    }
}

/// Every set bit has a rank below the total, so it is the image of `select1`
/// of that rank: rank and select are inverse bijections between the set
/// positions and `[0, total_ones)`.
pub proof fn law_rank_of_set_bit_in_range(words: Seq<u64>, p: nat)
    requires
        word_bit(words, p),
    ensures
        rank_of(words, p) < total_ones(words),
{
    lemma_rank_past_set(words, p, 64 * words.len());
}

// ── SupportView ──────────────────────────────────────────────────────────

/// A borrowed view over a row's packed bit support, exposing
/// occupancy-domain operations.
///
/// The `degree` is cached at construction so that hot loops can iterate
/// `0..degree` without repeated popcounts.
#[derive(Copy, Clone)]
pub struct SupportView<'a> {
    pub words: &'a [u64],
    pub degree: u32,
}

impl<'a> SupportView<'a> {
    pub fn new(words: &'a [u64]) -> (v: Self)
        requires
            total_ones(words@) <= u32::MAX,
        ensures
            v.words@ == words@,
            v.degree == total_ones(words@),
    {
        Self { words, degree: popcount_words(words) }
    }

    /// Construct from a precomputed degree (avoids redundant popcount).
    pub fn with_degree(words: &'a [u64], degree: u32) -> (v: Self)
        ensures
            v.words@ == words@,
            v.degree == degree,
    {
        Self { words, degree }
    }

    /// Occupancy → physical.
    pub fn select(&self, k: u32) -> (p: usize)
        requires
            k < self.degree,
            k < total_ones(self.words@),
            64 * self.words@.len() <= usize::MAX,
        ensures
            p < 64 * self.words@.len(),
            word_bit(self.words@, p as nat),
            rank_of(self.words@, p as nat) == k,
    {
        select1(self.words, k)
    }

    /// Physical → occupancy (count of 1s strictly before `pos`).
    pub fn rank(&self, pos: usize) -> (r: u32)
        requires
            rank_of(self.words@, pos as nat) <= u32::MAX,
        ensures
            r == rank_of(self.words@, pos as nat),
    {
        rank1(self.words, pos)
    }
}

// ── affine helpers (consumed by the rank/select routers) ────────────────

/// The SplitMix64 finalizer applied to `x + 0x9E3779B97F4A7C15`, all
/// arithmetic modulo 2^64.
pub open spec fn mix64_spec(x: u64) -> u64 {
    let z0 = vstd::wrapping::u64_specs::wrapping_add(x, 0x9E3779B97F4A7C15u64);
    let z1 = vstd::wrapping::u64_specs::wrapping_mul(z0 ^ (z0 >> 30u64), 0xBF58476D1CE4E5B9u64);
    let z2 = vstd::wrapping::u64_specs::wrapping_mul(z1 ^ (z1 >> 27u64), 0x94D049BB133111EBu64);
    z2 ^ (z2 >> 31u64)
}

/// Splitmix64 — fast deterministic mixing. Used for per-row phase / multiplier
/// derivation so that rank-space transport does not need a global permutation.
pub fn mix64(x: u64) -> (r: u64)
    ensures
        r == mix64_spec(x),
{
    let mut z = x.wrapping_add(0x9E3779B97F4A7C15);
    z = (z ^ (z >> 30)).wrapping_mul(0xBF58476D1CE4E5B9);
    z = (z ^ (z >> 27)).wrapping_mul(0x94D049BB133111EB);
    z ^ (z >> 31)
}

/// Greatest common divisor, by Euclid's recursion.
pub open spec fn gcd_spec(a: nat, b: nat) -> nat
    decreases b,
{
    if b == 0 {
        a
    } else {
        gcd_spec(b, a % b)
    }
}

pub fn gcd(a: usize, b: usize) -> (g: usize)
    ensures
        g == gcd_spec(a as nat, b as nat),
{
    let ghost g0 = gcd_spec(a as nat, b as nat);
    let mut a = a;
    let mut b = b;
    while b != 0
        invariant
            gcd_spec(a as nat, b as nat) == g0,
        decreases b,
    {
        let t = b;
        b = a % b;
        a = t;
    }
    a
}


/// `d` divides `x`.
pub open spec fn divides(d: nat, x: nat) -> bool {
    exists|q: nat| x == #[trigger] (d * q)
}

/// `gcd_spec(a, b)` divides both `a` and `b`, and every common divisor of
/// `a` and `b` divides it.
pub proof fn law_gcd_is_greatest_common_divisor(a: nat, b: nat)
    ensures
        divides(gcd_spec(a, b), a),
        divides(gcd_spec(a, b), b),
        forall|d: nat| divides(d, a) && divides(d, b) ==> divides(d, gcd_spec(a, b)),
    decreases b,
{
    if b == 0 {
        assert(a == a * 1);
        assert(0 == a * 0);
    } else {
        let r = a % b;
        let q = a / b;
        law_gcd_is_greatest_common_divisor(b, r);
        let g = gcd_spec(b, r);
        assert(a == b * q + r) by {
            vstd::arithmetic::div_mod::lemma_fundamental_div_mod(a as int, b as int);
        }
        let s = choose|s: nat| b == #[trigger] (g * s);
        let t = choose|t: nat| r == #[trigger] (g * t);
        assert(a == g * (s * q + t)) by (nonlinear_arith)
            requires
                a == b * q + r,
                b == g * s,
                r == g * t,
        ;
        assert forall|d: nat| divides(d, a) && divides(d, b) implies divides(d, g) by {
            let qa = choose|qa: nat| a == #[trigger] (d * qa);
            let qb = choose|qb: nat| b == #[trigger] (d * qb);
            assert(d > 0) by (nonlinear_arith)
                requires
                    b == d * qb,
                    b > 0,
            ;
            assert(qa >= qb * q) by (nonlinear_arith)
                requires
                    a == d * qa,
                    b == d * qb,
                    a == b * q + r,
                    d > 0,
                    r >= 0,
            ;
            let m = (qa - qb * q) as nat;
            assert(r == d * m) by (nonlinear_arith)
                requires
                    a == d * qa,
                    b == d * qb,
                    a == b * q + r,
                    m == qa - qb * q,
            ;
        }
    }
}

/// Scaling both arguments scales the gcd.
pub proof fn lemma_gcd_scale(a: nat, b: nat, m: nat)
    requires
        m > 0,
    ensures
        gcd_spec(a * m, b * m) == gcd_spec(a, b) * m,
    decreases b,
{
    if b > 0 {
        let q = a / b;
        let r = a % b;
        vstd::arithmetic::div_mod::lemma_fundamental_div_mod(a as int, b as int);
        assert(a * m == q * (b * m) + r * m) by (nonlinear_arith)
            requires
                a == b * q + r,
        ;
        assert(r * m < b * m) by (nonlinear_arith)
            requires
                r < b,
                m > 0,
        ;
        assert(b * m > 0) by (nonlinear_arith)
            requires
                b > 0,
                m > 0,
        ;
        vstd::arithmetic::div_mod::lemma_fundamental_div_mod_converse(
            (a * m) as int,
            (b * m) as int,
            q as int,
            (r * m) as int,
        );
        lemma_gcd_scale(b, r, m);
        assert((a * m) % (b * m) == r * m);
        assert(gcd_spec(a * m, b * m) == gcd_spec(b * m, (a * m) % (b * m)));
        assert(gcd_spec(a, b) == gcd_spec(b, r));
    } else {
        assert(b * m == 0) by (nonlinear_arith)
            requires
                b == 0,
        ;
    }
}

/// Euclid's lemma: if `d` divides `a * x` and `gcd(a, d) == 1`, then `d`
/// divides `x`.
pub proof fn lemma_euclid(a: nat, d: nat, x: nat)
    requires
        gcd_spec(a, d) == 1,
        divides(d, a * x),
    ensures
        divides(d, x),
{
    if x == 0 {
        assert(0 == d * 0);
    } else {
        lemma_gcd_scale(a, d, x);
        assert(gcd_spec(a * x, d * x) == x);
        assert(divides(d, d * x)) by {
            assert(d * x == d * x);
        }
        law_gcd_is_greatest_common_divisor(a * x, d * x);
    }
}

/// `gcd_spec(1, d) == 1` for every `d`.
pub proof fn lemma_gcd_one(d: nat)
    ensures
        gcd_spec(1, d) == 1,
{
    reveal_with_fuel(gcd_spec, 3);
    if d == 1 {
        assert(1nat % 1nat == 0);
    } else if d > 1 {
        vstd::arithmetic::div_mod::lemma_small_mod(1, d);
        assert(d % 1 == 0);
    }
}

/// The multiplier that `coprime_multiplier(d, s)` settles on when it may draw
/// at most `fuel` more values: the first `mix64` iterate of `s` whose residue
/// modulo `d` is a unit in `[1, d)`, or 1 when none is found.
pub open spec fn coprime_search(d: nat, s: u64, fuel: nat) -> nat
    decreases fuel,
{
    if fuel == 0 {
        1
    } else {
        let s1 = mix64_spec(s);
        let a = ((s1 as usize) as nat) % d;
        if a >= 1 && gcd_spec(a, d) == 1 {
            a
        } else {
            coprime_search(d, s1, (fuel - 1) as nat)
        }
    }
}

pub proof fn lemma_coprime_search_is_unit(d: nat, s: u64, fuel: nat)
    requires
        d > 1,
    ensures
        1 <= coprime_search(d, s, fuel) < d,
        gcd_spec(coprime_search(d, s, fuel), d) == 1,
    decreases fuel,
{
    if fuel == 0 {
        lemma_gcd_one(d);
    } else {
        let s1 = mix64_spec(s);
        let a = ((s1 as usize) as nat) % d;
        if !(a >= 1 && gcd_spec(a, d) == 1) {
            lemma_coprime_search_is_unit(d, s1, (fuel - 1) as nat);
        }
    }
}

/// Returns an `a` in `[1, d)` with `gcd(a, d) == 1`. Deterministic given `seed`.
///
/// For `d <= 1` returns 1 (the identity multiplier). Candidates are the
/// residues modulo `d` of the successive `mix64` iterates of `seed`; the
/// search gives up after `u64::MAX` draws and then returns 1.
pub fn coprime_multiplier(d: usize, seed: u64) -> (a: usize)
    ensures
        d <= 1 ==> a == 1,
        d > 1 ==> a == coprime_search(d as nat, seed, u64::MAX as nat),
        d > 1 ==> 1 <= a < d && gcd_spec(a as nat, d as nat) == 1,
{
    if d <= 1 {
        return 1;
    }
    proof {
        lemma_coprime_search_is_unit(d as nat, seed, u64::MAX as nat);
    }
    let mut s = seed;
    let mut tries: u64 = 0;
    while tries < u64::MAX
        invariant
            d > 1,
            coprime_search(d as nat, s, (u64::MAX - tries) as nat) == coprime_search(
                d as nat,
                seed,
                u64::MAX as nat,
            ),
        decreases u64::MAX - tries,
    {
        s = mix64(s);
        let a = (s as usize) % d;
        if a >= 1 && gcd(a, d) == 1 {
            return a;
        }
        tries = tries + 1;
    }
    1
}

} // verus!
