//! Fused uniform MoE dispatch: uniform source/target matrices built
//! internally, seeded permutations, the phase-routing kernel over the padded
//! token range, and the mapping of kernel columns to the first `k` distinct
//! experts of every token.

use vstd::prelude::*;
use crate::bitops::tail_mask;
use crate::bitspec::{bit_at, lemma_split_position, lemma_zero_word, word_bit};
use crate::rng::{chacha_shuffle, seeded_rng, shuffle_in_place, RngUse, SeededRng};
use crate::router::{is_phase_routing, phase_router};
use crate::rows::{identity_seq, is_permutation, lemma_reordered_identity_is_permutation, row_words};

verus! {

/// Builds `n` rows of `nb_words` words each, every row holding the
/// `min(ones_per_row, n)` lowest bits.
pub fn build_uniform_bits(ones_per_row: usize, n: usize, nb_words: usize) -> (bits: Vec<u64>)
    requires
        n * nb_words <= usize::MAX,
        (if ones_per_row < n { ones_per_row } else { n }) <= 64 * nb_words,
    ensures
        bits@.len() == n * nb_words,
        forall|i: nat, b: nat|
            i < n && b < 64 * nb_words ==> #[trigger] word_bit(row_words(bits@, nb_words as nat, i), b)
                == (b < if ones_per_row < n {
                ones_per_row
            } else {
                n
            }),
{
    let ones = if ones_per_row < n {
        ones_per_row
    } else {
        n
    };
    let full = ones / 64;
    let tail = ones - full * 64;
    assert(full <= nb_words) by (nonlinear_arith)
        requires
            ones <= 64 * nb_words,
            full == ones / 64,
    ;
    let mut proto: Vec<u64> = Vec::new();
    let mut w: usize = 0;
    while w < nb_words
        invariant
            w <= nb_words,
            full <= nb_words,
            proto@.len() == w,
            forall|x: int| 0 <= x < w ==> proto@[x] == if x < full {
                !0u64
            } else {
                0u64
            },
        decreases nb_words - w,
    {
        if w < full {
            proto.push(!0u64);
        } else {
            proto.push(0);
        }
        w = w + 1;
    }
    if tail > 0 {
        assert(full < nb_words) by (nonlinear_arith)
            requires
                ones <= 64 * nb_words,
                full == ones / 64,
                tail == ones - full * 64,
                tail > 0,
        ;
        assert(1u64 << (tail as u64) >= 1u64) by (bit_vector)
            requires
                tail < 64,
        ;
        proto.set(full, (1u64 << (tail as u64)) - 1);
    }
    proof {
        lemma_zero_word(0);
        crate::bitops::lemma_tail_mask_bits(0);
        crate::bitops::lemma_tail_mask_bits(ones as nat);
        assert(ones % 64 == tail);
        assert forall|b: nat| b < 64 * nb_words implies #[trigger] word_bit(proto@, b) == (b < ones) by {
            let bw = b / 64;
            let bb = b % 64;
            lemma_split_position(bw, bb);
            assert(bw < nb_words) by (nonlinear_arith)
                requires
                    b < 64 * nb_words,
                    bw == b / 64,
            ;
            assert(b == 64 * bw + bb);
            if bw < full {
                assert(proto@[bw as int] == tail_mask(0));
                assert(b < ones) by (nonlinear_arith)
                    requires
                        b == 64 * bw + bb,
                        bw < full,
                        bb < 64,
                        ones == 64 * full + tail,
                ;
            } else if bw == full && tail > 0 {
                assert(proto@[bw as int] == tail_mask(ones as nat));
            } else {
                assert(proto@[bw as int] == 0u64);
                assert(b >= ones) by (nonlinear_arith)
                    requires
                        b == 64 * bw + bb,
                        bw >= full,
                        bw == full ==> tail == 0,
                        tail < 64,
                        ones == 64 * full + tail,
                ;
            }
        }
    }
    let mut out: Vec<u64> = Vec::new();
    let mut row: usize = 0;
    while row < n
        invariant
            row <= n,
            n * nb_words <= usize::MAX,
            proto@.len() == nb_words,
            out@.len() == row * nb_words,
            forall|i: int, x: int| 0 <= i < row && 0 <= x < nb_words ==> #[trigger] out@[i * nb_words + x] == proto@[x],
        decreases n - row,
    {
        assert((row + 1) * nb_words <= n * nb_words) by (nonlinear_arith)
            requires
                row < n,
        ;
        assert((row + 1) * nb_words == row * nb_words + nb_words) by (nonlinear_arith);
        let mut x: usize = 0;
        let ghost base = out@;
        while x < nb_words
            invariant
                x <= nb_words,
                proto@.len() == nb_words,
                out@.len() == row * nb_words + x,
                (row + 1) * nb_words <= n * nb_words,
                n * nb_words <= usize::MAX,
                forall|q: int| 0 <= q < row * nb_words ==> out@[q] == base[q],
                forall|y: int| 0 <= y < x ==> out@[row * nb_words + y] == proto@[y],
            decreases nb_words - x,
        {
            out.push(proto[x]);
            x = x + 1;
        }
        proof {
            assert forall|i: int, y: int| 0 <= i < row + 1 && 0 <= y < nb_words implies #[trigger] out@[i
                * nb_words + y] == proto@[y] by {
                if i < row {
                    assert(i * nb_words + y < row * nb_words) by (nonlinear_arith)
                        requires
                            i < row,
                            y < nb_words,
                    ;
                    assert(out@[i * nb_words + y] == base[i * nb_words + y]);
                }
            }
        }
        row = row + 1;
    }
    proof {
        assert forall|i: nat, b: nat| i < n && b < 64 * nb_words implies #[trigger] word_bit(
            row_words(out@, nb_words as nat, i),
            b,
        ) == (b < ones) by {
            let r = row_words(out@, nb_words as nat, i);
            assert(i * nb_words + nb_words <= n * nb_words) by (nonlinear_arith)
                requires
                    i < n,
            ;
            assert(r =~= proto@) by {
                assert forall|x: int| 0 <= x < nb_words implies r[x] == proto@[x] by {
                    assert(out@[i * nb_words + x] == proto@[x]);
                }
            }
            assert(word_bit(proto@, b) == (b < ones));
        }
    }
    out
}


/// `n` rows of `nb_words` words, every row holding exactly the `ones`
/// lowest bits.
pub open spec fn is_uniform_bits(bits: Seq<u64>, ones: nat, n: nat, nb_words: nat) -> bool {
    &&& bits.len() == n * nb_words
    &&& forall|i: nat, b: nat|
        i < n && b < 64 * nb_words ==> #[trigger] word_bit(row_words(bits, nb_words, i), b) == (b
            < ones)
}

/// The two permutations derived from `seed`: `0..n` shuffled twice in turn
/// by one generator seeded with `seed`.
pub open spec fn seeded_perms(seed: u64, n: nat) -> (Seq<usize>, Seq<usize>) {
    (
        chacha_shuffle(seed, Seq::empty(), identity_seq(n), usize::BITS),
        chacha_shuffle(seed, seq![RngUse::Shuffle(n as usize)], identity_seq(n), usize::BITS),
    )
}

/// `0..n` reordered by the generator: a permutation of `0..n`.
fn shuffled_identity(n: usize, rng: &mut SeededRng) -> (perm: Vec<usize>)
    ensures
        perm@ == chacha_shuffle(old(rng).seed(), old(rng).uses(), identity_seq(n as nat), usize::BITS),
        is_permutation(perm@, n as nat),
        final(rng).seed() == old(rng).seed(),
        final(rng).uses() == old(rng).uses().push(RngUse::Shuffle(n)),
{
    let mut perm: Vec<usize> = Vec::new();
    let mut i: usize = 0;
    while i < n
        invariant
            i <= n,
            perm@ == identity_seq(i as nat),
        decreases n - i,
    {
        perm.push(i);
        i = i + 1;
        proof {
            assert(perm@ =~= identity_seq(i as nat));
        }
    }
    shuffle_in_place(&mut perm, rng);
    proof {
        lemma_reordered_identity_is_permutation(perm@, n as nat);
    }
    perm
}

/// The permutations `seeded_perms(seed, n)`, computed.
fn seeded_perms_vec(seed: u64, n: usize) -> (res: (Vec<usize>, Vec<usize>))
    ensures
        res.0@ == seeded_perms(seed, n as nat).0,
        res.1@ == seeded_perms(seed, n as nat).1,
        is_permutation(res.0@, n as nat),
        is_permutation(res.1@, n as nat),
{
    let mut rng = seeded_rng(seed);
    let col_perm_s = shuffled_identity(n, &mut rng);
    proof {
        assert(Seq::<RngUse>::empty().push(RngUse::Shuffle(n)) =~= seq![RngUse::Shuffle(n)]);
    }
    let col_perm_t = shuffled_identity(n, &mut rng);
    (col_perm_s, col_perm_t)
}

/// Phase router with permutations derived from the seed: `col_perm_s` and
/// then `col_perm_t` are `0..n` shuffled by a generator seeded with `seed`
/// (`seeded_perms`), and rows have `(n + 63) / 64` words.
pub fn phase_router_auto(s_bits: &[u64], t_bits: &[u64], n: usize, k: usize, seed: u64) -> (routes:
    Vec<i32>)
    requires
        k > 0,
        n + 63 <= usize::MAX,
        n * ((n + 63) / 64) <= s_bits@.len(),
        n * ((n + 63) / 64) <= t_bits@.len(),
        n + 64 * ((n + 63) / 64) <= usize::MAX,
        n * k <= usize::MAX,
        n == 0 || seed + (n - 1) <= u64::MAX,
    ensures
        is_permutation(seeded_perms(seed, n as nat).0, n as nat),
        is_permutation(seeded_perms(seed, n as nat).1, n as nat),
        is_phase_routing(
            routes@,
            s_bits@,
            t_bits@,
            n as nat,
            ((n + 63) / 64) as nat,
            k as nat,
            seeded_perms(seed, n as nat).0,
            seeded_perms(seed, n as nat).1,
            seed,
        ),
{
    let nb_words = (n + 63) / 64;
    let (col_perm_s, col_perm_t) = seeded_perms_vec(seed, n);
    phase_router(
        s_bits,
        t_bits,
        n,
        nb_words,
        k,
        col_perm_s.as_slice(),
        col_perm_t.as_slice(),
        seed,
    )
}

// ── uniform MoE dispatch ────────────────────────────────────────────────

/// Columns per expert band: `max(ceil(n_tokens / n_experts), 1)`.
pub open spec fn dispatch_width(n_tokens: nat, n_experts: nat) -> nat {
    let w = (n_tokens + n_experts - 1) / (n_experts as int);
    if w >= 1 {
        w as nat
    } else {
        1
    }
}

/// Padded kernel size: a whole number of expert bands covering the tokens.
pub open spec fn dispatch_pad(n_tokens: nat, n_experts: nat) -> nat {
    dispatch_width(n_tokens, n_experts) * n_experts
}

/// `(width, n_pad)`: `n_tokens` padded up to a multiple of `n_experts`, with
/// at least one column per expert.
pub fn dispatch_geometry(n_tokens: usize, n_experts: usize) -> (res: (usize, usize))
    requires
        n_experts > 0,
        dispatch_pad(n_tokens as nat, n_experts as nat) <= usize::MAX,
    ensures
        res.0 == dispatch_width(n_tokens as nat, n_experts as nat),
        res.1 == dispatch_pad(n_tokens as nat, n_experts as nat),
        res.1 >= n_tokens,
{
    let q = n_tokens / n_experts;
    let mut width = if q > 1 {
        q
    } else {
        1
    };
    proof {
        vstd::arithmetic::div_mod::lemma_fundamental_div_mod(n_tokens as int, n_experts as int);
        vstd::arithmetic::div_mod::lemma_mod_pos_bound(n_tokens as int, n_experts as int);
        let r = n_tokens % n_experts;
        if r == 0 {
            assert(n_tokens + n_experts - 1 == q * n_experts + (n_experts - 1)) by (nonlinear_arith)
                requires
                    n_tokens == n_experts * q + r,
                    r == 0,
            ;
            vstd::arithmetic::div_mod::lemma_fundamental_div_mod_converse(
                n_tokens + n_experts - 1,
                n_experts as int,
                q as int,
                n_experts - 1,
            );
        } else {
            assert(n_tokens + n_experts - 1 == (q + 1) * n_experts + (r - 1)) by (nonlinear_arith)
                requires
                    n_tokens == n_experts * q + r,
            ;
            vstd::arithmetic::div_mod::lemma_fundamental_div_mod_converse(
                n_tokens + n_experts - 1,
                n_experts as int,
                q + 1,
                r - 1,
            );
        }
        assert(q * n_experts <= n_tokens) by (nonlinear_arith)
            requires
                n_tokens == n_experts * q + r,
                r >= 0,
        ;
        assert(width * n_experts <= dispatch_pad(n_tokens as nat, n_experts as nat)) by (nonlinear_arith)
            requires
                width <= dispatch_width(n_tokens as nat, n_experts as nat),
                n_experts > 0,
        ;
    }
    let mut n_pad = width * n_experts;
    let ghost w0 = width;
    let ghost took = n_pad < n_tokens;
    if n_pad < n_tokens {
        proof {
            assert(n_tokens % n_experts != 0 || q <= 1) by (nonlinear_arith)
                requires
                    n_tokens == n_experts * (n_tokens / n_experts) + n_tokens % n_experts,
                    q == n_tokens / n_experts,
                    width == (if q > 1 { q } else { 1 }),
                    n_pad == width * n_experts,
                    n_pad < n_tokens,
            ;
            assert(q + 1 <= dispatch_width(n_tokens as nat, n_experts as nat));
            assert((q + 1) * n_experts <= usize::MAX) by (nonlinear_arith)
                requires
                    (q + 1) <= dispatch_width(n_tokens as nat, n_experts as nat),
                    dispatch_width(n_tokens as nat, n_experts as nat) * n_experts <= usize::MAX,
                    n_experts > 0,
            ;
        }
        n_pad = (q + 1) * n_experts;
        width = n_pad / n_experts;
        proof {
            vstd::arithmetic::div_mod::lemma_fundamental_div_mod_converse(
                n_pad as int,
                n_experts as int,
                q + 1,
                0,
            );
            assert(n_pad >= n_tokens) by (nonlinear_arith)
                requires
                    n_tokens == n_experts * q + n_tokens % n_experts,
                    n_tokens % n_experts < n_experts,
                    n_pad == (q + 1) * n_experts,
            ;
        }
    }
    proof {
        let r = n_tokens % n_experts;
        if took {
            if r == 0 {
                assert(w0 * n_experts >= n_tokens) by (nonlinear_arith)
                    requires
                        n_tokens == n_experts * q,
                        w0 >= q,
                        n_experts > 0,
                ;
            }
            assert(width == q + 1);
        } else {
            if q >= 1 {
                assert(w0 == q);
                assert(r == 0) by (nonlinear_arith)
                    requires
                        n_tokens == n_experts * q + r,
                        w0 * n_experts >= n_tokens,
                        w0 == q,
                        r >= 0,
                ;
            }
        }
    }
    (width, n_pad)
}


/// The distinct experts a kernel row yields, in order: a column `c` in
/// `[0, n_pad)` belongs to expert `c / width`; experts at or past
/// `n_experts`, and experts already taken, are skipped; at most `k` are
/// taken.
pub open spec fn pick_experts(cols: Seq<i32>, width: nat, n_pad: nat, n_experts: nat, k: nat) -> Seq<
    usize,
>
    decreases cols.len(),
{
    if cols.len() == 0 {
        Seq::empty()
    } else {
        let prev = pick_experts(cols.drop_last(), width, n_pad, n_experts, k);
        let c = cols.last();
        if prev.len() >= k || c < 0 || c >= n_pad {
            prev
        } else {
            let e = ((c as int) / (width as int)) as usize;
            if e >= n_experts || prev.contains(e) {
                prev
            } else {
                prev.push(e)
            }
        }
    }
}

/// A token's `k` output slots: its picked experts, then -1.
pub open spec fn dispatch_row(cols: Seq<i32>, width: nat, n_pad: nat, n_experts: nat, k: nat) -> Seq<
    i32,
> {
    let p = pick_experts(cols, width, n_pad, n_experts, k);
    Seq::new(k, |s: int| if s < p.len() { p[s] as i32 } else { -1i32 })
}

/// Picked experts are distinct, below `n_experts`, and at most `k`.
pub proof fn lemma_pick_experts(cols: Seq<i32>, width: nat, n_pad: nat, n_experts: nat, k: nat)
    ensures
        pick_experts(cols, width, n_pad, n_experts, k).len() <= k,
        forall|i: int|
            0 <= i < pick_experts(cols, width, n_pad, n_experts, k).len() ==> #[trigger] pick_experts(
                cols,
                width,
                n_pad,
                n_experts,
                k,
            )[i] < n_experts,
        forall|i: int, j: int|
            0 <= i < j < pick_experts(cols, width, n_pad, n_experts, k).len() ==> pick_experts(
                cols,
                width,
                n_pad,
                n_experts,
                k,
            )[i] != pick_experts(cols, width, n_pad, n_experts, k)[j],
    decreases cols.len(),
{
    if cols.len() > 0 {
        lemma_pick_experts(cols.drop_last(), width, n_pad, n_experts, k);
        let prev = pick_experts(cols.drop_last(), width, n_pad, n_experts, k);
        let cur = pick_experts(cols, width, n_pad, n_experts, k);
        if cur.len() > prev.len() {
            assert forall|i: int, j: int| 0 <= i < j < cur.len() implies cur[i] != cur[j] by {
                if j == prev.len() {
                    assert(cur[i] == prev[i]);
                    assert(!prev.contains(cur[j]));
                }
            }
        }
    }
}

/// Once `k` experts are taken, later columns change nothing.
proof fn lemma_pick_saturated(cols: Seq<i32>, width: nat, n_pad: nat, n_experts: nat, k: nat, i: nat)
    requires
        i <= cols.len(),
        pick_experts(cols.take(i as int), width, n_pad, n_experts, k).len() >= k,
    ensures
        pick_experts(cols, width, n_pad, n_experts, k) == pick_experts(
            cols.take(i as int),
            width,
            n_pad,
            n_experts,
            k,
        ),
    decreases cols.len() - i,
{
    if i < cols.len() {
        let m = (cols.len() - 1) as nat;
        assert(cols.drop_last().take(i as int) =~= cols.take(i as int));
        lemma_pick_saturated(cols.drop_last(), width, n_pad, n_experts, k, i);
    } else {
        assert(cols.take(i as int) =~= cols);
    }
}

/// Maps one kernel row to its token's `k` expert slots.
fn pick_row(row_in: &[i32], width: usize, n_pad: usize, n_experts: usize, k: usize) -> (out: Vec<i32>)
    requires
        width > 0,
        k > 0,
    ensures
        out@ == dispatch_row(row_in@, width as nat, n_pad as nat, n_experts as nat, k as nat),
{
    let mut out: Vec<i32> = Vec::new();
    let mut z: usize = 0;
    while z < k
        invariant
            z <= k,
            out@ == Seq::new(z as nat, |s: int| -1i32),
        decreases k - z,
    {
        out.push(-1);
        z = z + 1;
    }
    let mut seen: Vec<bool> = Vec::new();
    let mut z: usize = 0;
    while z < n_experts
        invariant
            z <= n_experts,
            seen@ == Seq::new(z as nat, |e: int| false),
        decreases n_experts - z,
    {
        seen.push(false);
        z = z + 1;
    }
    let mut j: usize = 0;
    let mut idx: usize = 0;
    assert(row_in@.take(0) =~= Seq::<i32>::empty());
    while idx < row_in.len()
        invariant
            width > 0,
            idx <= row_in@.len(),
            out@.len() == k,
            seen@.len() == n_experts,
            j == pick_experts(row_in@.take(idx as int), width as nat, n_pad as nat, n_experts as nat, k as nat).len(),
            j < k,
            forall|s: int|
                0 <= s < k ==> #[trigger] out@[s] == if s < j {
                    pick_experts(row_in@.take(idx as int), width as nat, n_pad as nat, n_experts as nat, k as nat)[s] as i32
                } else {
                    -1i32
                },
            forall|e: int|
                0 <= e < n_experts ==> #[trigger] seen@[e] == pick_experts(
                    row_in@.take(idx as int),
                    width as nat,
                    n_pad as nat,
                    n_experts as nat,
                    k as nat,
                ).contains(e as usize),
        decreases row_in@.len() - idx,
    {
        let ghost prefix = row_in@.take(idx as int);
        let ghost next = row_in@.take(idx + 1);
        let ghost prev = pick_experts(prefix, width as nat, n_pad as nat, n_experts as nat, k as nat);
        proof {
            assert(next.drop_last() =~= prefix);
            assert(next.last() == row_in@[idx as int]);
            lemma_pick_experts(prefix, width as nat, n_pad as nat, n_experts as nat, k as nat);
        }
        let col = row_in[idx];
        idx = idx + 1;
        if col < 0 {
            continue;
        }
        let c = col as usize;
        if c >= n_pad {
            continue;
        }
        let e = c / width;
        if e >= n_experts || seen[e] {
            continue;
        }
        seen.set(e, true);
        out.set(j, #[verifier::truncate] (e as i32));
        j = j + 1;
        proof {
            let cur = pick_experts(next, width as nat, n_pad as nat, n_experts as nat, k as nat);
            assert(cur == prev.push(e));
            assert forall|x: int| 0 <= x < n_experts implies #[trigger] seen@[x] == cur.contains(
                x as usize,
            ) by {
                let xu = x as usize;
                if xu != e {
                    if cur.contains(xu) {
                        let q = choose|q: int| 0 <= q < cur.len() && cur[q] == xu;
                        assert(q < prev.len());
                        assert(prev[q] == xu);
                    }
                    if prev.contains(xu) {
                        let q = choose|q: int| 0 <= q < prev.len() && prev[q] == xu;
                        assert(cur[q] == xu);
                    }
                } else {
                    assert(cur[prev.len() as int] == e);
                }
            }
        }
        if j == k {
            proof {
                lemma_pick_saturated(row_in@, width as nat, n_pad as nat, n_experts as nat, k as nat, idx as nat);
            }
            return out;
        }
    }
    assert(row_in@.take(row_in@.len() as int) =~= row_in@);
    out
}


/// Words per padded row.
pub open spec fn dispatch_nb(n_pad: nat) -> nat {
    (n_pad + 63) / 64
}

/// Kernel fan-out: `max(k * oversample, k + 1)` (the product saturating),
/// capped at `n_pad`.
pub open spec fn dispatch_k_kernel(k: nat, oversample: nat, n_pad: nat) -> nat {
    let m = if k * oversample <= usize::MAX {
        k * oversample
    } else {
        usize::MAX as nat
    };
    let lo = if m >= k + 1 {
        m
    } else {
        k + 1
    };
    if lo <= n_pad {
        lo
    } else {
        n_pad
    }
}

/// A ones count clamped to `[1, n_pad]`.
pub open spec fn clamp_ones(raw: nat, n_pad: nat) -> nat {
    let a = if raw >= 1 {
        raw
    } else {
        1
    };
    if a <= n_pad {
        a
    } else {
        n_pad
    }
}

/// The sizes the fused dispatch works with fit the machine.
pub open spec fn dispatch_fits(n_tokens: nat, n_experts: nat, k: nat, oversample: nat, seed: u64) -> bool {
    let n_pad = dispatch_pad(n_tokens, n_experts);
    let nb = dispatch_nb(n_pad);
    &&& n_pad + 64 * nb <= usize::MAX
    &&& n_pad * nb <= usize::MAX
    &&& n_pad * dispatch_k_kernel(k, oversample, n_pad) <= usize::MAX
    &&& n_tokens * k <= usize::MAX
    &&& k < usize::MAX
    &&& seed + (n_pad - 1) <= u64::MAX
}

/// `out` is the fused dispatch of the kernel routing `routes` of the
/// uniform matrices `s_bits`, `t_bits` under the permutations `col_perm_s`,
/// `col_perm_t`.
pub open spec fn is_dispatch_of(
    out: Seq<i32>,
    n_tokens: nat,
    n_experts: nat,
    k: nat,
    expert_ones: nat,
    source_ones: nat,
    oversample: nat,
    seed: u64,
    s_bits: Seq<u64>,
    t_bits: Seq<u64>,
    routes: Seq<i32>,
) -> bool {
    let n_pad = dispatch_pad(n_tokens, n_experts);
    let nb = dispatch_nb(n_pad);
    let k_kernel = dispatch_k_kernel(k, oversample, n_pad);
    let width = dispatch_width(n_tokens, n_experts);
    &&& is_uniform_bits(t_bits, clamp_ones(expert_ones, n_pad), n_pad, nb)
    &&& is_uniform_bits(s_bits, clamp_ones(source_ones, n_pad), n_pad, nb)
    &&& is_permutation(seeded_perms(seed, n_pad).0, n_pad)
    &&& is_permutation(seeded_perms(seed, n_pad).1, n_pad)
    &&& is_phase_routing(
        routes,
        s_bits,
        t_bits,
        n_pad,
        nb,
        k_kernel,
        seeded_perms(seed, n_pad).0,
        seeded_perms(seed, n_pad).1,
        seed,
    )
    &&& out.len() == n_tokens * k
    &&& forall|row: nat|
        row < n_tokens ==> #[trigger] crate::reservoir::row_slots(out, k, row) == dispatch_row(
            crate::reservoir::row_slots(routes, k_kernel, row),
            width,
            n_pad,
            n_experts,
            k,
        )
}

/// Fused uniform MoE dispatch, given the ones counts of the expert bands
/// (`expert_ones`) and of the source rows (`source_ones`), both clamped to
/// `[1, n_pad]`: pads the tokens to `n_pad` (a multiple of `n_experts`),
/// builds uniform target and source matrices, shuffles `0..n_pad` twice with
/// a generator seeded by `seed` for the permutations, runs the phase router
/// with `k_kernel` columns, and keeps, for each of the first `n_tokens` rows,
/// the first `k` distinct experts (`column / width`) it routes to, -1 for
/// unfilled slots.
pub fn uniform_dispatch_from_ones(
    n_tokens: usize,
    n_experts: usize,
    k: usize,
    expert_ones: usize,
    source_ones: usize,
    oversample: usize,
    seed: u64,
) -> (out: Vec<i32>)
    requires
        n_tokens > 0,
        n_experts > 0,
        k > 0,
        dispatch_pad(n_tokens as nat, n_experts as nat) <= usize::MAX,
        dispatch_fits(n_tokens as nat, n_experts as nat, k as nat, oversample as nat, seed),
    ensures
        exists|s_bits: Seq<u64>, t_bits: Seq<u64>, routes: Seq<i32>|
            #[trigger] is_dispatch_of(
                out@,
                n_tokens as nat,
                n_experts as nat,
                k as nat,
                expert_ones as nat,
                source_ones as nat,
                oversample as nat,
                seed,
                s_bits,
                t_bits,
                routes,
            ),
{
    let (width, n_pad) = dispatch_geometry(n_tokens, n_experts);
    let nb_words = (n_pad + 63) / 64;
    assert(n_pad <= 64 * nb_words) by (nonlinear_arith)
        requires
            nb_words == (n_pad + 63) / 64,
    ;
    let ones_e1 = if expert_ones >= 1 {
        expert_ones
    } else {
        1
    };
    let ones_e = if ones_e1 <= n_pad {
        ones_e1
    } else {
        n_pad
    };
    let s_ones1 = if source_ones >= 1 {
        source_ones
    } else {
        1
    };
    let s_ones = if s_ones1 <= n_pad {
        s_ones1
    } else {
        n_pad
    };
    let t_bits = build_uniform_bits(ones_e, n_pad, nb_words);
    let s_bits = build_uniform_bits(s_ones, n_pad, nb_words);
    let (col_perm_s, col_perm_t) = seeded_perms_vec(seed, n_pad);
    let prod = match k.checked_mul(oversample) {
        Some(v) => v,
        None => usize::MAX,
    };
    let lo = if prod >= k + 1 {
        prod
    } else {
        k + 1
    };
    let k_kernel = if lo <= n_pad {
        lo
    } else {
        n_pad
    };
    assert(k_kernel == dispatch_k_kernel(k as nat, oversample as nat, n_pad as nat));
    assert(n_tokens >= 1 && n_pad >= n_tokens);
    let routes = phase_router(
        s_bits.as_slice(),
        t_bits.as_slice(),
        n_pad,
        nb_words,
        k_kernel,
        col_perm_s.as_slice(),
        col_perm_t.as_slice(),
        seed,
    );
    let mut out: Vec<i32> = Vec::new();
    let mut row: usize = 0;
    while row < n_tokens
        invariant
            row <= n_tokens <= n_pad,
            width > 0,
            k > 0,
            k_kernel > 0,
            routes@.len() == n_pad * k_kernel,
            n_pad * k_kernel <= usize::MAX,
            n_tokens * k <= usize::MAX,
            out@.len() == row * k,
            forall|r: nat|
                r < row ==> #[trigger] crate::reservoir::row_slots(out@, k as nat, r) == dispatch_row(
                    crate::reservoir::row_slots(routes@, k_kernel as nat, r),
                    width as nat,
                    n_pad as nat,
                    n_experts as nat,
                    k as nat,
                ),
        decreases n_tokens - row,
    {
        assert(row * k_kernel + k_kernel <= n_pad * k_kernel) by (nonlinear_arith)
            requires
                row < n_pad,
        ;
        assert(row * k_kernel + k_kernel == (row + 1) * k_kernel) by (nonlinear_arith);
        let row_in = &routes[row * k_kernel..(row + 1) * k_kernel];
        let slots = pick_row(row_in, width, n_pad, n_experts, k);
        let ghost before = out@;
        proof {
            crate::router::lemma_append_row_slots(out@, slots@, k as nat, row as nat);
            assert((row + 1) * k <= n_tokens * k) by (nonlinear_arith)
                requires
                    row < n_tokens,
            ;
        }
        crate::router::append_row(&mut out, &slots);
        proof {
            assert forall|r: nat| r < row + 1 implies #[trigger] crate::reservoir::row_slots(
                out@,
                k as nat,
                r,
            ) == dispatch_row(
                crate::reservoir::row_slots(routes@, k_kernel as nat, r),
                width as nat,
                n_pad as nat,
                n_experts as nat,
                k as nat,
            ) by {
                if r < row {
                    assert(crate::reservoir::row_slots(out@, k as nat, r)
                        == crate::reservoir::row_slots(before, k as nat, r));
                }
            }
        }
        row = row + 1;
    }
    assert(is_dispatch_of(
        out@,
        n_tokens as nat,
        n_experts as nat,
        k as nat,
        expert_ones as nat,
        source_ones as nat,
        oversample as nat,
        seed,
        s_bits@,
        t_bits@,
        routes@,
    ));
    out
}

/// Every token row of the fused dispatch holds `k` slots: its distinct
/// experts in `[0, n_experts)` first, then -1.
pub proof fn law_dispatch_row(cols: Seq<i32>, width: nat, n_pad: nat, n_experts: nat, k: nat)
    requires
        n_experts <= i32::MAX,
    ensures
        dispatch_row(cols, width, n_pad, n_experts, k).len() == k,
        forall|s: int|
            0 <= s < k ==> (#[trigger] dispatch_row(cols, width, n_pad, n_experts, k)[s] == -1
                || 0 <= dispatch_row(cols, width, n_pad, n_experts, k)[s] < n_experts),
        forall|s: int, t: int|
            0 <= s < t < k && #[trigger] dispatch_row(cols, width, n_pad, n_experts, k)[s] != -1
                ==> dispatch_row(cols, width, n_pad, n_experts, k)[s] != #[trigger] dispatch_row(
                cols,
                width,
                n_pad,
                n_experts,
                k,
            )[t],
        forall|s: int, t: int|
            0 <= s < t < k && #[trigger] dispatch_row(cols, width, n_pad, n_experts, k)[s] == -1
                ==> #[trigger] dispatch_row(cols, width, n_pad, n_experts, k)[t] == -1,
{
    lemma_pick_experts(cols, width, n_pad, n_experts, k);
}

/// Two matrices with the same uniform rows are equal.
proof fn lemma_uniform_bits_unique(a: Seq<u64>, b: Seq<u64>, ones: nat, n: nat, nb: nat)
    requires
        is_uniform_bits(a, ones, n, nb),
        is_uniform_bits(b, ones, n, nb),
    ensures
        a == b,
{
    assert forall|q: int| 0 <= q < a.len() implies a[q] == b[q] by {
        let i = q / (nb as int);
        let w = q % (nb as int);
        assert(nb > 0) by (nonlinear_arith)
            requires
                0 <= q < n * nb,
        ;
        assert(q == i * nb + w && 0 <= w < nb && 0 <= i) by (nonlinear_arith)
            requires
                nb > 0,
                0 <= q,
                i == q / (nb as int),
                w == q % (nb as int),
        ;
        assert(i < n) by (nonlinear_arith)
            requires
                q == i * nb + w,
                0 <= w,
                q < n * nb,
                nb > 0,
        ;
        assert(i * nb + nb <= n * nb) by (nonlinear_arith)
            requires
                i < n,
        ;
        let ra = row_words(a, nb, i as nat);
        let rb = row_words(b, nb, i as nat);
        assert(ra[w] == a[q]);
        assert(rb[w] == b[q]);
        assert forall|x: nat| x < 64 implies bit_at(a[q], x) == bit_at(b[q], x) by {
            let p = 64 * (w as nat) + x;
            crate::bitspec::lemma_split_position(w as nat, x);
            assert(p < 64 * nb) by (nonlinear_arith)
                requires
                    p == 64 * w + x,
                    w < nb,
                    x < 64,
            ;
            assert(word_bit(ra, p) == (p < ones));
            assert(word_bit(rb, p) == (p < ones));
        }
        crate::bitspec::lemma_word_ext(a[q], b[q]);
    }
    assert(a =~= b);
}

/// Determinism: on the same arguments and seed, the fused uniform dispatch
/// gives the same expert table.
pub proof fn law_uniform_dispatch_deterministic(
    out1: Seq<i32>,
    out2: Seq<i32>,
    n_tokens: nat,
    n_experts: nat,
    k: nat,
    expert_ones: nat,
    source_ones: nat,
    oversample: nat,
    seed: u64,
    s_bits1: Seq<u64>,
    t_bits1: Seq<u64>,
    routes1: Seq<i32>,
    s_bits2: Seq<u64>,
    t_bits2: Seq<u64>,
    routes2: Seq<i32>,
)
    requires
        is_dispatch_of(
            out1,
            n_tokens,
            n_experts,
            k,
            expert_ones,
            source_ones,
            oversample,
            seed,
            s_bits1,
            t_bits1,
            routes1,
        ),
        is_dispatch_of(
            out2,
            n_tokens,
            n_experts,
            k,
            expert_ones,
            source_ones,
            oversample,
            seed,
            s_bits2,
            t_bits2,
            routes2,
        ),
    ensures
        out1 == out2,
{
    let n_pad = dispatch_pad(n_tokens, n_experts);
    let nb = dispatch_nb(n_pad);
    let k_kernel = dispatch_k_kernel(k, oversample, n_pad);
    lemma_uniform_bits_unique(t_bits1, t_bits2, clamp_ones(expert_ones, n_pad), n_pad, nb);
    lemma_uniform_bits_unique(s_bits1, s_bits2, clamp_ones(source_ones, n_pad), n_pad, nb);
    crate::router::law_phase_router_deterministic(
        routes1,
        routes2,
        s_bits1,
        t_bits1,
        n_pad,
        nb,
        k_kernel,
        seeded_perms(seed, n_pad).0,
        seeded_perms(seed, n_pad).1,
        seed,
    );
    crate::reservoir::lemma_rows_determine_table(out1, out2, n_tokens, k);
}

/// A picked expert comes from a kernel column in `[0, n_pad)` of its band.
proof fn lemma_picked_from(cols: Seq<i32>, width: nat, n_pad: nat, n_experts: nat, k: nat, e: usize)
    requires
        width > 0,
        pick_experts(cols, width, n_pad, n_experts, k).contains(e),
    ensures
        exists|x: int|
            0 <= x < cols.len() && 0 <= #[trigger] cols[x] < n_pad && (cols[x] as int) / (
            width as int) == e,
    decreases cols.len(),
{
    let rest = cols.drop_last();
    let prev = pick_experts(rest, width, n_pad, n_experts, k);
    let cur = pick_experts(cols, width, n_pad, n_experts, k);
    if prev.contains(e) {
        lemma_picked_from(rest, width, n_pad, n_experts, k, e);
        let x = choose|x: int|
            0 <= x < rest.len() && 0 <= #[trigger] rest[x] < n_pad && (rest[x] as int) / (
            width as int) == e;
        assert(cols[x] == rest[x]);
    } else {
        let last = (cols.len() - 1) as int;
        let c = cols.last();
        assert(cols[last] == c);
        assert(cur != prev);
        assert(!(prev.len() >= k || c < 0 || c >= n_pad));
        let q = (c as int) / (width as int);
        assert(0 <= q <= c) by (nonlinear_arith)
            requires
                width > 0,
                c >= 0,
                q == (c as int) / (width as int),
        ;
        let e2 = q as usize;
        assert(e2 == q);
        assert(!(e2 >= n_experts || prev.contains(e2)));
        assert(cur == prev.push(e2));
        let i = choose|i: int| 0 <= i < cur.len() && cur[i] == e;
        if i < prev.len() {
            assert(prev[i] == e);
        }
        assert(e == e2);
    }
}

/// The rows of `routes` (rows `< m` of `k` slots) routed to some column of
/// `start, start + 1, ..., start + i - 1`.
pub open spec fn band_rows(routes: Seq<i32>, m: nat, k: nat, start: nat, i: nat) -> Set<int>
    decreases i,
{
    if i == 0 {
        Set::empty()
    } else {
        band_rows(routes, m, k, start, (i - 1) as nat).union(
            crate::capacity::rows_routed_to(routes, m, k, (start + i - 1) as i32),
        )
    }
}

/// A band of `i` columns that each take at most `cap` rows takes at most
/// `i * cap` rows.
proof fn lemma_band_rows_len(routes: Seq<i32>, m: nat, k: nat, start: nat, i: nat, cap: nat)
    requires
        forall|x: nat|
            x < i ==> (#[trigger] crate::capacity::rows_routed_to(
                routes,
                m,
                k,
                (start + x) as i32,
            )).finite() && crate::capacity::rows_routed_to(routes, m, k, (start + x) as i32).len()
                <= cap,
    ensures
        band_rows(routes, m, k, start, i).finite(),
        band_rows(routes, m, k, start, i).len() <= i * cap,
    decreases i,
{
    if i > 0 {
        let j = (i - 1) as nat;
        lemma_band_rows_len(routes, m, k, start, j, cap);
        let last = crate::capacity::rows_routed_to(routes, m, k, (start + j) as i32);
        assert(last.finite() && last.len() <= cap);
        vstd::set_lib::lemma_len_union(band_rows(routes, m, k, start, j), last);
        assert(j * cap + cap == i * cap) by (nonlinear_arith)
            requires
                i == j + 1,
        ;
    }
}

/// Capacity respected by the fused dispatch: at most `width * ones_e` token
/// rows are dispatched to expert `e`, where `ones_e` is the clamped
/// per-column capacity of the expert band and `width` its number of columns.
pub proof fn law_uniform_dispatch_capacity(
    out: Seq<i32>,
    n_tokens: nat,
    n_experts: nat,
    k: nat,
    expert_ones: nat,
    source_ones: nat,
    oversample: nat,
    seed: u64,
    s_bits: Seq<u64>,
    t_bits: Seq<u64>,
    routes: Seq<i32>,
    e: nat,
)
    requires
        is_dispatch_of(
            out,
            n_tokens,
            n_experts,
            k,
            expert_ones,
            source_ones,
            oversample,
            seed,
            s_bits,
            t_bits,
            routes,
        ),
        dispatch_fits(n_tokens, n_experts, k, oversample, seed),
        n_experts > 0,
        dispatch_pad(n_tokens, n_experts) <= i32::MAX,
        e < n_experts,
    ensures
        crate::capacity::rows_routed_to(out, n_tokens, k, e as i32).finite(),
        crate::capacity::rows_routed_to(out, n_tokens, k, e as i32).len() <= dispatch_width(
            n_tokens,
            n_experts,
        ) * clamp_ones(expert_ones, dispatch_pad(n_tokens, n_experts)),
{
    let n_pad = dispatch_pad(n_tokens, n_experts);
    let nb = dispatch_nb(n_pad);
    let kk = dispatch_k_kernel(k, oversample, n_pad);
    let width = dispatch_width(n_tokens, n_experts);
    let cap = clamp_ones(expert_ones, n_pad);
    let perms = seeded_perms(seed, n_pad);
    let start = e * width;
    let te = crate::capacity::rows_routed_to(out, n_tokens, k, e as i32);
    assert(n_pad <= 64 * nb) by (nonlinear_arith)
        requires
            nb == (n_pad + 63) / 64,
    ;
    assert(start + width <= n_pad) by (nonlinear_arith)
        requires
            start == e * width,
            e < n_experts,
            n_pad == width * n_experts,
    ;
    assert(width >= 1);
    assert(n_experts <= n_pad) by (nonlinear_arith)
        requires
            width >= 1,
            n_pad == width * n_experts,
    ;
    assert forall|x: nat| x < width implies (#[trigger] crate::capacity::rows_routed_to(
        routes,
        n_pad,
        kk,
        (start + x) as i32,
    )).finite() && crate::capacity::rows_routed_to(routes, n_pad, kk, (start + x) as i32).len()
        <= cap by {
        let c = start + x;
        crate::router::law_phase_router_capacity(
            routes,
            s_bits,
            t_bits,
            n_pad,
            nb,
            kk,
            perms.0,
            perms.1,
            seed,
            c,
        );
        assert(c * nb + nb <= n_pad * nb) by (nonlinear_arith)
            requires
                c < n_pad,
        ;
        let row = row_words(t_bits, nb, c);
        assert(row.len() == nb);
        crate::bitspec::lemma_prefix_rank(row, cap, 64 * nb);
    }
    lemma_band_rows_len(routes, n_pad, kk, start, width, cap);
    let band = band_rows(routes, n_pad, kk, start, width);
    assert forall|r: int| #[trigger] te.contains(r) implies band.contains(r) by {
        let orow = crate::reservoir::row_slots(out, k, r as nat);
        assert(0 <= r < n_tokens);
        assert(out.subrange(r * k, r * k + k) == orow);
        let cols = crate::reservoir::row_slots(routes, kk, r as nat);
        assert(orow == dispatch_row(cols, width, n_pad, n_experts, k));
        let s = choose|s: int| 0 <= s < orow.len() && orow[s] == e as i32;
        let p = pick_experts(cols, width, n_pad, n_experts, k);
        lemma_pick_experts(cols, width, n_pad, n_experts, k);
        assert(orow.len() == k);
        assert(s < p.len());
        assert(p[s] < n_experts);
        assert(p[s] as i32 == e as i32);
        assert(p[s] == e);
        assert(p.contains(e as usize));
        lemma_picked_from(cols, width, n_pad, n_experts, k, e as usize);
        let x = choose|x: int|
            0 <= x < cols.len() && 0 <= #[trigger] cols[x] < n_pad && (cols[x] as int) / (
            width as int) == e;
        let c = cols[x] as nat;
        assert(start <= c < start + width) by (nonlinear_arith)
            requires
                width > 0,
                c / width == e,
                start == e * width,
        ;
        let off = (c - start) as nat;
        lemma_pad_covers(n_tokens, n_experts);
        assert(r < n_pad);
        assert(routes.subrange(r * kk, r * kk + kk) == cols);
        assert(cols.contains(cols[x]));
        assert(crate::capacity::rows_routed_to(routes, n_pad, kk, (start + off) as i32).contains(r));
        lemma_band_contains(routes, n_pad, kk, start, width, off, r);
    }
    vstd::set_lib::lemma_len_subset(te, band);
}

/// A row routed to column `start + off` of the band belongs to the band's rows.
proof fn lemma_band_contains(routes: Seq<i32>, m: nat, k: nat, start: nat, i: nat, off: nat, r: int)
    requires
        off < i,
        crate::capacity::rows_routed_to(routes, m, k, (start + off) as i32).contains(r),
    ensures
        band_rows(routes, m, k, start, i).contains(r),
    decreases i,
{
    if off < i - 1 {
        lemma_band_contains(routes, m, k, start, (i - 1) as nat, off, r);
    }
}

/// The padded kernel covers every token.
proof fn lemma_pad_covers(n_tokens: nat, n_experts: nat)
    requires
        n_experts > 0,
    ensures
        dispatch_pad(n_tokens, n_experts) >= n_tokens,
{
    let x = n_tokens + n_experts - 1;
    let w0 = x / (n_experts as int);
    vstd::arithmetic::div_mod::lemma_fundamental_div_mod(x as int, n_experts as int);
    vstd::arithmetic::div_mod::lemma_mod_pos_bound(x as int, n_experts as int);
    assert(w0 * n_experts >= n_tokens) by (nonlinear_arith)
        requires
            x == n_experts * w0 + x % (n_experts as int),
            x % (n_experts as int) < n_experts,
            x == n_tokens + n_experts - 1,
    ;
    assert(dispatch_width(n_tokens, n_experts) * n_experts >= w0 * n_experts) by (nonlinear_arith)
        requires
            dispatch_width(n_tokens, n_experts) >= w0,
            n_experts > 0,
    ;
}

/// The two seeded permutations come from one generator used twice: the
/// source permutation is the generator's first shuffle of `0..n`, and the
/// target permutation is its second, made after the first (its earlier uses
/// are exactly that one shuffle of `n` entries), not by a fresh generator.
pub proof fn law_seeded_perms_one_stream(seed: u64, n: nat)
    requires
        n <= usize::MAX,
    ensures
        seeded_perms(seed, n).0 == chacha_shuffle(seed, Seq::<RngUse>::empty(), identity_seq(n), usize::BITS),
        seeded_perms(seed, n).1 == chacha_shuffle(
            seed,
            Seq::<RngUse>::empty().push(RngUse::Shuffle(n as usize)),
            identity_seq(n),
            usize::BITS,
        ),
{
    assert(Seq::<RngUse>::empty().push(RngUse::Shuffle(n as usize)) =~= seq![RngUse::Shuffle(n as usize)]);
}

/// Kernel column `c` names an expert: it lies in `[0, n_pad)` and its band
/// `c / width` is below `n_experts`.
pub open spec fn valid_col(c: i32, width: nat, n_pad: nat, n_experts: nat) -> bool {
    0 <= c < n_pad && (c as int) / (width as int) < n_experts
}

/// The expert of kernel column `c`: its band `c / width`.
pub open spec fn expert_of(c: i32, width: nat) -> usize {
    ((c as int) / (width as int)) as usize
}

/// Picking over a prefix of the kernel row gives a prefix of the picks.
proof fn lemma_pick_prefix(cols: Seq<i32>, width: nat, n_pad: nat, n_experts: nat, k: nat, i: nat)
    requires
        i <= cols.len(),
    ensures
        pick_experts(cols.take(i as int), width, n_pad, n_experts, k).len() <= pick_experts(
            cols,
            width,
            n_pad,
            n_experts,
            k,
        ).len(),
        forall|t: int|
            0 <= t < pick_experts(cols.take(i as int), width, n_pad, n_experts, k).len() ==> #[trigger] pick_experts(
                cols.take(i as int),
                width,
                n_pad,
                n_experts,
                k,
            )[t] == pick_experts(cols, width, n_pad, n_experts, k)[t],
    decreases cols.len(),
{
    if i == cols.len() {
        assert(cols.take(i as int) =~= cols);
    } else {
        let rest = cols.drop_last();
        lemma_pick_prefix(rest, width, n_pad, n_experts, k, i);
        assert(rest.take(i as int) =~= cols.take(i as int));
    }
}

/// With no column naming an expert, nothing is picked.
proof fn lemma_pick_none(cols: Seq<i32>, width: nat, n_pad: nat, n_experts: nat, k: nat)
    requires
        width > 0,
        forall|y: int| 0 <= y < cols.len() ==> !valid_col(#[trigger] cols[y], width, n_pad, n_experts),
    ensures
        pick_experts(cols, width, n_pad, n_experts, k).len() == 0,
    decreases cols.len(),
{
    if cols.len() > 0 {
        let rest = cols.drop_last();
        assert forall|y: int| 0 <= y < rest.len() implies !valid_col(#[trigger] rest[y], width, n_pad, n_experts) by {
            assert(rest[y] == cols[y]);
        }
        lemma_pick_none(rest, width, n_pad, n_experts, k);
        assert(!valid_col(cols[cols.len() - 1], width, n_pad, n_experts));
    }
}

/// The expert of the first kernel column that names one is always the
/// token's first pick (when `k > 0`).
pub proof fn law_pick_takes_first_valid_column(
    cols: Seq<i32>,
    width: nat,
    n_pad: nat,
    n_experts: nat,
    k: nat,
    x: int,
)
    requires
        width > 0,
        k > 0,
        0 <= x < cols.len(),
        valid_col(cols[x], width, n_pad, n_experts),
        forall|y: int| 0 <= y < x ==> !valid_col(#[trigger] cols[y], width, n_pad, n_experts),
    ensures
        pick_experts(cols, width, n_pad, n_experts, k).len() >= 1,
        pick_experts(cols, width, n_pad, n_experts, k)[0] == expert_of(cols[x], width),
{
    let head = cols.take(x);
    assert forall|y: int| 0 <= y < head.len() implies !valid_col(#[trigger] head[y], width, n_pad, n_experts) by {
        assert(head[y] == cols[y]);
    }
    lemma_pick_none(head, width, n_pad, n_experts, k);
    let upto = cols.take(x + 1);
    assert(upto.drop_last() =~= head);
    assert(upto.last() == cols[x]);
    let c = cols[x];
    assert(0 <= (c as int) / (width as int) <= c) by (nonlinear_arith)
        requires
            width > 0,
            c >= 0,
    ;
    assert(pick_experts(upto, width, n_pad, n_experts, k) =~= seq![expert_of(c, width)]);
    lemma_pick_prefix(cols, width, n_pad, n_experts, k, (x + 1) as nat);
    assert(pick_experts(upto, width, n_pad, n_experts, k)[0] == expert_of(c, width));
}

/// No expert is passed over: the expert of every kernel column that names
/// one is picked, unless the token already holds `k` experts.
pub proof fn law_pick_misses_no_expert(cols: Seq<i32>, width: nat, n_pad: nat, n_experts: nat, k: nat)
    requires
        width > 0,
    ensures
        forall|x: int|
            0 <= x < cols.len() && valid_col(#[trigger] cols[x], width, n_pad, n_experts) ==> pick_experts(
                cols,
                width,
                n_pad,
                n_experts,
                k,
            ).contains(expert_of(cols[x], width)) || pick_experts(cols, width, n_pad, n_experts, k).len()
                == k,
    decreases cols.len(),
{
    lemma_pick_experts(cols, width, n_pad, n_experts, k);
    if cols.len() > 0 {
        let rest = cols.drop_last();
        law_pick_misses_no_expert(rest, width, n_pad, n_experts, k);
        lemma_pick_experts(rest, width, n_pad, n_experts, k);
        let prev = pick_experts(rest, width, n_pad, n_experts, k);
        let cur = pick_experts(cols, width, n_pad, n_experts, k);
        assert(cols.take(rest.len() as int) =~= rest);
        lemma_pick_prefix(cols, width, n_pad, n_experts, k, rest.len());
        assert forall|x: int|
            0 <= x < cols.len() && valid_col(#[trigger] cols[x], width, n_pad, n_experts) implies cur.contains(
            expert_of(cols[x], width)) || cur.len() == k by {
            let e = expert_of(cols[x], width);
            if x < rest.len() {
                assert(rest[x] == cols[x]);
                if prev.contains(e) {
                    let t = choose|t: int| 0 <= t < prev.len() && prev[t] == e;
                    assert(cur[t] == prev[t]);
                } else {
                    assert(prev.len() == k);
                    assert(cur == prev);
                }
            } else {
                assert(cols.last() == cols[x]);
                let c = cols[x];
                assert(0 <= (c as int) / (width as int) <= c) by (nonlinear_arith)
                    requires
                        width > 0,
                        c >= 0,
                ;
                if prev.len() >= k {
                    assert(cur == prev);
                } else if prev.contains(e) {
                    let t = choose|t: int| 0 <= t < prev.len() && prev[t] == e;
                    assert(cur[t] == prev[t]);
                } else {
                    assert(cur == prev.push(e));
                    assert(cur[prev.len() as int] == e);
                }
            }
        }
    }
}

/// Picks follow the kernel row's order: for `a < b`, every column naming
/// a token's `b`-th expert comes after some column naming its `a`-th.
pub proof fn law_pick_in_column_order(
    cols: Seq<i32>,
    width: nat,
    n_pad: nat,
    n_experts: nat,
    k: nat,
    a: int,
    b: int,
    y: int,
)
    requires
        width > 0,
        0 <= a < b < pick_experts(cols, width, n_pad, n_experts, k).len(),
        0 <= y < cols.len(),
        valid_col(cols[y], width, n_pad, n_experts),
        expert_of(cols[y], width) == pick_experts(cols, width, n_pad, n_experts, k)[b],
    ensures
        exists|x: int|
            0 <= x < y && valid_col(#[trigger] cols[x], width, n_pad, n_experts) && expert_of(cols[x], width)
                == pick_experts(cols, width, n_pad, n_experts, k)[a],
    decreases cols.len(),
{
    let rest = cols.drop_last();
    let m = rest.len() as int;
    law_pick_misses_no_expert(rest, width, n_pad, n_experts, k);
    lemma_pick_experts(rest, width, n_pad, n_experts, k);
    lemma_pick_experts(cols, width, n_pad, n_experts, k);
    let prev = pick_experts(rest, width, n_pad, n_experts, k);
    let cur = pick_experts(cols, width, n_pad, n_experts, k);
    assert(cols.take(m) =~= rest);
    lemma_pick_prefix(cols, width, n_pad, n_experts, k, m as nat);
    assert(cur.len() == prev.len() || cur.len() == prev.len() + 1);
    assert(cur[a] == prev[a]);
    if y < m {
        assert(rest[y] == cols[y]);
        if b == prev.len() {
            assert(cur == prev.push(cur[b]));
            assert(prev.len() < k);
            assert(valid_col(rest[y], width, n_pad, n_experts));
            assert(prev.contains(expert_of(rest[y], width)));
            let t = choose|t: int| 0 <= t < prev.len() && prev[t] == expert_of(rest[y], width);
            assert(cur[t] == prev[t]);
            assert(false);
        }
        assert(cur[b] == prev[b]);
        law_pick_in_column_order(rest, width, n_pad, n_experts, k, a, b, y);
        let x = choose|x: int|
            0 <= x < y && valid_col(#[trigger] rest[x], width, n_pad, n_experts) && expert_of(rest[x], width)
                == prev[a];
        assert(rest[x] == cols[x]);
    } else {
        assert(prev.contains(prev[a]));
        lemma_picked_from(rest, width, n_pad, n_experts, k, prev[a]);
        let x = choose|x: int|
            0 <= x < rest.len() && 0 <= #[trigger] rest[x] < n_pad && (rest[x] as int) / (width as int)
                == prev[a];
        assert(rest[x] == cols[x]);
        let c = cols[x];
        assert(0 <= (c as int) / (width as int) <= c) by (nonlinear_arith)
            requires
                width > 0,
                c >= 0,
        ;
        assert(prev[a] < n_experts);
        assert(valid_col(cols[x], width, n_pad, n_experts));
    }
}

/// A token's dispatch slots: slot 0 holds the expert of its kernel row's
/// first column that names one (when `k > 0`), and the expert of every
/// column that names one appears among its slots unless all `k` slots hold
/// experts.
pub proof fn law_dispatch_row_takes_experts(
    cols: Seq<i32>,
    width: nat,
    n_pad: nat,
    n_experts: nat,
    k: nat,
)
    requires
        width > 0,
        n_experts <= i32::MAX,
    ensures
        forall|x: int|
            0 <= x < cols.len() && valid_col(#[trigger] cols[x], width, n_pad, n_experts) && k > 0 && (forall|y: int|
                0 <= y < x ==> !valid_col(#[trigger] cols[y], width, n_pad, n_experts)) ==> dispatch_row(
                cols,
                width,
                n_pad,
                n_experts,
                k,
            )[0] == expert_of(cols[x], width) as i32,
        forall|x: int|
            0 <= x < cols.len() && valid_col(#[trigger] cols[x], width, n_pad, n_experts) ==> dispatch_row(
                cols,
                width,
                n_pad,
                n_experts,
                k,
            ).contains(expert_of(cols[x], width) as i32) || (forall|s: int|
                0 <= s < k ==> #[trigger] dispatch_row(cols, width, n_pad, n_experts, k)[s] != -1),
{
    let p = pick_experts(cols, width, n_pad, n_experts, k);
    let row = dispatch_row(cols, width, n_pad, n_experts, k);
    lemma_pick_experts(cols, width, n_pad, n_experts, k);
    law_pick_misses_no_expert(cols, width, n_pad, n_experts, k);
    assert forall|x: int|
        0 <= x < cols.len() && valid_col(#[trigger] cols[x], width, n_pad, n_experts) && k > 0 && (forall|y: int|
            0 <= y < x ==> !valid_col(#[trigger] cols[y], width, n_pad, n_experts)) implies row[0]
        == expert_of(cols[x], width) as i32 by {
        law_pick_takes_first_valid_column(cols, width, n_pad, n_experts, k, x);
    }
    assert forall|x: int|
        0 <= x < cols.len() && valid_col(#[trigger] cols[x], width, n_pad, n_experts) implies row.contains(
        expert_of(cols[x], width) as i32) || (forall|s: int| 0 <= s < k ==> #[trigger] row[s] != -1) by {
        let e = expert_of(cols[x], width);
        if p.contains(e) {
            let t = choose|t: int| 0 <= t < p.len() && p[t] == e;
            assert(row[t] == e as i32);
        } else {
            assert(p.len() == k);
            assert forall|s: int| 0 <= s < k implies #[trigger] row[s] != -1 by {
                assert(p[s] < n_experts);
            }
        }
    }
}

} // verus!
