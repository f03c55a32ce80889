//! Mathematical model of packed bit words: which bits are set, and how many
//! set bits lie below a position.

use vstd::prelude::*;

verus! {

/// Bit `i` (counted from the least significant end) of `w` is set.
pub open spec fn bit_at(w: u64, i: nat) -> bool {
    i < 64 && (w >> (i as u64)) & 1u64 == 1u64
}

/// Number of set bits of `w` among positions `[0, i)`.
pub open spec fn ones_below(w: u64, i: nat) -> nat
    decreases i,
{
    if i == 0 {
        0
    } else {
        ones_below(w, (i - 1) as nat) + if bit_at(w, (i - 1) as nat) {
            1nat
        } else {
            0nat
        }
    }
}

/// Number of set bits of `w`.
pub open spec fn popcount(w: u64) -> nat {
    ones_below(w, 64)
}

pub proof fn lemma_ones_below_le(w: u64, i: nat)
    ensures
        ones_below(w, i) <= i,
    decreases i,
{
    if i > 0 {
        lemma_ones_below_le(w, (i - 1) as nat);
    }
}

pub proof fn lemma_ones_below_mono(w: u64, i: nat, j: nat)
    requires
        i <= j,
    ensures
        ones_below(w, i) <= ones_below(w, j),
    decreases j,
{
    if i < j {
        lemma_ones_below_mono(w, i, (j - 1) as nat);
    }
}

/// A set bit at `t` makes every later prefix count strictly larger.
pub proof fn lemma_ones_below_past_set(w: u64, t: nat, i: nat)
    requires
        bit_at(w, t),
        t < i,
    ensures
        ones_below(w, i) >= ones_below(w, t) + 1,
{
    lemma_ones_below_mono(w, t + 1, i);
}

/// Positions at or past 64 add nothing.
pub proof fn lemma_ones_below_saturates(w: u64, i: nat)
    requires
        i >= 64,
    ensures
        ones_below(w, i) == popcount(w),
    decreases i,
{
    if i > 64 {
        lemma_ones_below_saturates(w, (i - 1) as nat);
    }
}

/// Words that agree on `[0, m)` have the same prefix counts there.
pub proof fn lemma_ones_below_ext(a: u64, b: u64, m: nat)
    requires
        forall|i: nat| i < m ==> bit_at(a, i) == bit_at(b, i),
    ensures
        ones_below(a, m) == ones_below(b, m),
    decreases m,
{
    if m > 0 {
        lemma_ones_below_ext(a, b, (m - 1) as nat);
    }
}

/// `a` is `b` with the set bit `t` cleared.
pub proof fn lemma_ones_below_cleared(a: u64, b: u64, t: nat, m: nat)
    requires
        bit_at(b, t),
        forall|i: nat| bit_at(a, i) == (bit_at(b, i) && i != t),
    ensures
        ones_below(a, m) == ones_below(b, m) - (if m > t { 1int } else { 0int }),
    decreases m,
{
    if m > 0 {
        lemma_ones_below_cleared(a, b, t, (m - 1) as nat);
    }
}

/// If more than `m` set bits lie below `t`, one of them has exactly `m` set
/// bits below it.
pub proof fn lemma_ones_below_witness(w: u64, t: nat, m: nat) -> (i: nat)
    requires
        ones_below(w, t) > m,
    ensures
        i < t,
        bit_at(w, i),
        ones_below(w, i) == m,
    decreases t,
{
    let t1 = (t - 1) as nat;
    if ones_below(w, t1) > m {
        lemma_ones_below_witness(w, t1, m)
    } else {
        t1
    }
}

/// `x & (x - 1)` clears exactly the lowest set bit of a nonzero `x`.
pub proof fn lemma_clear_lowest(x: u64)
    requires
        x != 0,
    ensures
        (vstd::std_specs::bits::u64_trailing_zeros(x) as nat) < 64,
        bit_at(x, vstd::std_specs::bits::u64_trailing_zeros(x) as nat),
        forall|i: nat|
            i < vstd::std_specs::bits::u64_trailing_zeros(x) ==> !bit_at(x, i),
        forall|i: nat|
            #![trigger bit_at(x & ((x - 1u64) as u64), i)]
            bit_at(x & ((x - 1u64) as u64), i) == (bit_at(x, i) && i
                != vstd::std_specs::bits::u64_trailing_zeros(x) as nat),
{
    vstd::std_specs::bits::axiom_u64_trailing_zeros(x);
    let t = vstd::std_specs::bits::u64_trailing_zeros(x) as u64;
    assert(forall|i: u64|
        i < 64 ==> ((((x & ((x - 1u64) as u64)) >> i) & 1u64 == 1u64) == (((x >> i) & 1u64 == 1u64) && i
            != t))) by (bit_vector)
        requires
            t < 64,
            (x >> t) & 1u64 == 1u64,
            x << ((64 - t) as u64) == 0,
    ;
    assert forall|i: nat| i < t implies !bit_at(x, i) by {
        let iu = i as u64;
        assert((x >> iu) & 1u64 == 0u64);
    }
    assert forall|i: nat| bit_at(x & ((x - 1u64) as u64), i) == (bit_at(x, i) && i != t as nat) by {
        if i < 64 {
            let iu = i as u64;
            assert(iu == i);
        }
    }
}

/// Masking with the low `r` bits keeps exactly the bits below `r`.
pub proof fn lemma_low_mask(w: u64, r: u64)
    requires
        r < 64,
    ensures
        forall|i: nat|
            #![trigger bit_at(w & (((1u64 << r) - 1u64) as u64), i)]
            bit_at(w & (((1u64 << r) - 1u64) as u64), i) == (bit_at(w, i) && i < r),
{
    assert(forall|i: u64|
        i < 64 ==> ((((w & (((1u64 << r) - 1u64) as u64)) >> i) & 1u64 == 1u64) == (((w >> i) & 1u64
            == 1u64) && i < r))) by (bit_vector)
        requires
            r < 64,
    ;
    assert forall|i: nat| bit_at(w & (((1u64 << r) - 1u64) as u64), i) == (bit_at(w, i) && i < r) by {
        if i < 64 {
            let iu = i as u64;
            assert(iu == i);
        }
    }
}


/// No bit of the zero word is set.
pub proof fn lemma_zero_word(m: nat)
    ensures
        forall|i: nat| !bit_at(0u64, i),
        ones_below(0u64, m) == 0,
    decreases m,
{
    assert(forall|i: u64| (0u64 >> i) & 1u64 == 0u64) by (bit_vector);
    if m > 0 {
        lemma_zero_word((m - 1) as nat);
    }
}

/// When no bit at or past `m` is set, prefix counts stop growing at `m`.
pub proof fn lemma_ones_below_no_bits_after(a: u64, m: nat, j: nat)
    requires
        m <= j,
        forall|i: nat| i >= m ==> !bit_at(a, i),
    ensures
        ones_below(a, j) == ones_below(a, m),
    decreases j,
{
    if j > m {
        lemma_ones_below_no_bits_after(a, m, (j - 1) as nat);
    }
}

/// `64 * w + r` splits into word `w` and bit `r`.
pub proof fn lemma_split_position(w: nat, r: nat)
    requires
        r < 64,
    ensures
        (64 * w + r) / 64 == w,
        (64 * w + r) % 64 == r,
{
    vstd::arithmetic::div_mod::lemma_fundamental_div_mod_converse(
        (64 * w + r) as int,
        64,
        w as int,
        r as int,
    );
}

// ── packed bit strings made of several words ────────────────────────────

/// Bit `p` of the little-endian bit string held by `words`.
pub open spec fn word_bit(words: Seq<u64>, p: nat) -> bool {
    p < 64 * words.len() && bit_at(words[(p / 64) as int], p % 64)
}

/// Number of set bits of `words` among positions `[0, p)`.
pub open spec fn rank_of(words: Seq<u64>, p: nat) -> nat
    decreases p,
{
    if p == 0 {
        0
    } else {
        rank_of(words, (p - 1) as nat) + if word_bit(words, (p - 1) as nat) {
            1nat
        } else {
            0nat
        }
    }
}

/// Number of set bits of the whole bit string.
pub open spec fn total_ones(words: Seq<u64>) -> nat {
    rank_of(words, 64 * words.len())
}

pub proof fn lemma_rank_le(words: Seq<u64>, p: nat)
    ensures
        rank_of(words, p) <= p,
    decreases p,
{
    if p > 0 {
        lemma_rank_le(words, (p - 1) as nat);
    }
}

pub proof fn lemma_rank_mono(words: Seq<u64>, p: nat, q: nat)
    requires
        p <= q,
    ensures
        rank_of(words, p) <= rank_of(words, q),
    decreases q,
{
    if p < q {
        lemma_rank_mono(words, p, (q - 1) as nat);
    }
}

/// Inside word `w`, the rank grows by the word's own prefix counts.
pub proof fn lemma_rank_in_word(words: Seq<u64>, w: nat, r: nat)
    requires
        w < words.len(),
        r <= 64,
    ensures
        rank_of(words, 64 * w + r) == rank_of(words, 64 * w) + ones_below(words[w as int], r),
    decreases r,
{
    if r > 0 {
        let r1 = (r - 1) as nat;
        lemma_rank_in_word(words, w, r1);
        lemma_split_position(w, r1);
        assert(64 * w + r1 < 64 * words.len()) by (nonlinear_arith)
            requires
                w < words.len(),
                r1 < 64,
        ;
        assert((64 * w + r - 1) as nat == 64 * w + r1);
    }
}

/// The rank after a whole word adds that word's popcount.
pub proof fn lemma_rank_next_word(words: Seq<u64>, w: nat)
    requires
        w < words.len(),
    ensures
        rank_of(words, 64 * (w + 1)) == rank_of(words, 64 * w) + popcount(words[w as int]),
{
    lemma_rank_in_word(words, w, 64);
    assert(64 * (w + 1) == 64 * w + 64);
}

/// Past the end of the bit string the rank is the total.
pub proof fn lemma_rank_past_end(words: Seq<u64>, p: nat)
    requires
        p >= 64 * words.len(),
    ensures
        rank_of(words, p) == total_ones(words),
    decreases p,
{
    if p > 64 * words.len() {
        lemma_rank_past_end(words, (p - 1) as nat);
    }
}

/// A set bit at `p` makes every later rank strictly larger.
pub proof fn lemma_rank_past_set(words: Seq<u64>, p: nat, q: nat)
    requires
        word_bit(words, p),
        p < q,
    ensures
        rank_of(words, q) >= rank_of(words, p) + 1,
{
    lemma_rank_mono(words, p + 1, q);
}

/// Bit strings that agree everywhere have the same ranks.
pub proof fn lemma_rank_ext(a: Seq<u64>, b: Seq<u64>, p: nat)
    requires
        forall|q: nat| q < p ==> word_bit(a, q) == word_bit(b, q),
    ensures
        rank_of(a, p) == rank_of(b, p),
    decreases p,
{
    if p > 0 {
        lemma_rank_ext(a, b, (p - 1) as nat);
    }
}

/// Words with the same bits are equal.
pub proof fn lemma_word_ext(a: u64, b: u64)
    requires
        forall|i: nat| i < 64 ==> bit_at(a, i) == bit_at(b, i),
    ensures
        a == b,
{
    if a != b {
        let x = a ^ b;
        assert(x != 0) by (bit_vector)
            requires
                a != b,
                x == a ^ b,
        ;
        lemma_clear_lowest(x);
        let t = vstd::std_specs::bits::u64_trailing_zeros(x) as u64;
        assert(bit_at(x, t as nat));
        assert(((a >> t) & 1u64 == 1u64) != ((b >> t) & 1u64 == 1u64)) by (bit_vector)
            requires
                x == a ^ b,
                t < 64,
                (x >> t) & 1u64 == 1u64,
        ;
        assert(bit_at(a, t as nat) == bit_at(b, t as nat));
    }
}

/// A bit string whose set bits are exactly the positions below `ones` has
/// `min(m, ones)` set bits below `m`.
pub proof fn lemma_prefix_rank(words: Seq<u64>, ones: nat, m: nat)
    requires
        ones <= 64 * words.len(),
        m <= 64 * words.len(),
        forall|p: nat| p < 64 * words.len() ==> #[trigger] word_bit(words, p) == (p < ones),
    ensures
        rank_of(words, m) == if m <= ones {
            m
        } else {
            ones
        },
    decreases m,
{
    if m > 0 {
        lemma_prefix_rank(words, ones, (m - 1) as nat);
        assert(word_bit(words, (m - 1) as nat) == (m - 1 < ones));
    }
}

} // verus!
