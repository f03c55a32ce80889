//! Whole-row bit manipulations on packed rows: cyclic rotation and column
//! permutation.

use vstd::prelude::*;
use crate::bitspec::{bit_at, lemma_split_position, word_bit};

verus! {

/// The mask `rotate_bits_full` applies: all ones when `n` is a multiple of
/// 64, else the low `n % 64` bits.
pub open spec fn tail_mask(n: nat) -> u64 {
    if n % 64 == 0 {
        !0u64
    } else {
        ((1u64 << ((n % 64) as u64)) - 1u64) as u64
    }
}

/// Word `w` of a left rotation by `64 * ws + bs` bits of an `nb`-word row,
/// before masking.
pub open spec fn rotated_word(src: Seq<u64>, nb: nat, ws: nat, bs: nat, w: nat) -> u64 {
    let s1 = ((w + nb - ws) % (nb as int)) as int;
    let s2 = ((w + nb - ws - 1 + nb) % (nb as int)) as int;
    shift_pair(src[s1], src[s2], bs)
}

/// `(x << bs) | (y >> (64 - bs))`, the second part absent when `bs == 0`.
pub open spec fn shift_pair(x: u64, y: u64, bs: nat) -> u64 {
    let hi: u64 = if bs == 0 {
        0
    } else {
        y >> ((64 - bs) as u64)
    };
    (x << (bs as u64)) | hi
}

/// Bit `b` of the rotated row survives the tail mask: the mask is applied to
/// the last word (`offset > 0`) or to word 0 (`offset == 0`).
pub open spec fn rotate_keeps(n: nat, nb: nat, offset: nat, b: nat) -> bool {
    let masked_word = if offset == 0 {
        0
    } else {
        (nb - 1) as nat
    };
    b / 64 != masked_word || bit_at(tail_mask(n), b % 64)
}

pub proof fn lemma_tail_mask_bits(n: nat)
    ensures
        forall|i: nat| i < 64 ==> #[trigger] bit_at(tail_mask(n), i) == (n % 64 == 0 || i < n % 64),
{
    let m = (n % 64) as u64;
    assert(forall|i: u64|
        i < 64 ==> (((#[trigger] ((((1u64 << m) - 1u64) as u64) >> i)) & 1u64 == 1u64) == (i < m)))
        by (bit_vector)
        requires
            m < 64,
    ;
    assert(forall|i: u64| i < 64 ==> ((#[trigger] ((!0u64) >> i)) & 1u64 == 1u64)) by (bit_vector);
    assert forall|i: nat| i < 64 implies #[trigger] bit_at(tail_mask(n), i) == (n % 64 == 0 || i < n
        % 64) by {
        let iu = i as u64;
        assert(iu == i);
    }
}

proof fn lemma_and_bits(x: u64, y: u64)
    ensures
        forall|i: nat| #[trigger] bit_at(x & y, i) == (bit_at(x, i) && bit_at(y, i)),
{
    assert(forall|i: u64|
        i < 64 ==> (((#[trigger] ((x & y) >> i)) & 1u64 == 1u64) == (((x >> i) & 1u64 == 1u64)
            && ((y >> i) & 1u64 == 1u64)))) by (bit_vector);
    assert forall|i: nat| #[trigger] bit_at(x & y, i) == (bit_at(x, i) && bit_at(y, i)) by {
        if i < 64 {
            let iu = i as u64;
            assert(iu == i);
        }
    }
}

/// Bits of `(x << bs) | (y >> (64 - bs))`.
proof fn lemma_shift_pair_bits(x: u64, y: u64, bs: nat)
    requires
        bs < 64,
    ensures
        forall|i: nat|
            i < 64 ==> #[trigger] bit_at(shift_pair(x, y, bs), i) == if i >= bs {
                bit_at(x, (i - bs) as nat)
            } else {
                bit_at(y, (64 - bs + i) as nat)
            },
{
    let b = bs as u64;
    let v = shift_pair(x, y, bs);
    if b == 0 {
        assert(v == (x << 0u64) | 0u64);
        assert(forall|i: u64|
            i < 64 ==> (((#[trigger] (v >> i)) & 1u64 == 1u64) == ((x >> i) & 1u64 == 1u64)))
            by (bit_vector)
            requires
                v == (x << 0u64) | 0u64,
        ;
    } else {
        assert(v == (x << b) | (y >> ((64 - b) as u64)));
        assert(forall|i: u64|
            i < 64 && i >= b ==> (((#[trigger] (v >> i)) & 1u64 == 1u64) == ((x >> ((i - b) as u64))
                & 1u64 == 1u64))) by (bit_vector)
            requires
                0 < b < 64,
                v == (x << b) | (y >> ((64 - b) as u64)),
        ;
        assert(forall|i: u64|
            i < 64 && i < b ==> (((#[trigger] (v >> i)) & 1u64 == 1u64) == ((y >> ((64 - b + i) as u64))
                & 1u64 == 1u64))) by (bit_vector)
            requires
                0 < b < 64,
                v == (x << b) | (y >> ((64 - b) as u64)),
        ;
    }
    assert forall|i: nat| i < 64 implies #[trigger] bit_at(shift_pair(x, y, bs), i) == if i >= bs {
        bit_at(x, (i - bs) as nat)
    } else {
        bit_at(y, (64 - bs + i) as nat)
    } by {
        let iu = i as u64;
        assert(iu == i);
        if i >= bs {
            assert(((i - bs) as nat) as u64 == (iu - b) as u64);
        } else {
            assert(((64 - bs + i) as nat) as u64 == (64 - b + iu) as u64);
        }
    }
}

/// `(64 x + r) mod 64 nb = 64 (x mod nb) + r` for `r < 64`.
proof fn lemma_mod_blocks(x: int, r: int, nb: int)
    requires
        x >= 0,
        0 <= r < 64,
        nb > 0,
    ensures
        (64 * x + r) % (64 * nb) == 64 * (x % nb) + r,
{
    vstd::arithmetic::div_mod::lemma_fundamental_div_mod(x, nb);
    let q = x / nb;
    let rr = x % nb;
    vstd::arithmetic::div_mod::lemma_mod_pos_bound(x, nb);
    assert(64 * x + r == q * (64 * nb) + (64 * rr + r)) by (nonlinear_arith)
        requires
            x == nb * q + rr,
    ;
    assert(64 * rr + r < 64 * nb) by (nonlinear_arith)
        requires
            rr < nb,
            r < 64,
    ;
    vstd::arithmetic::div_mod::lemma_fundamental_div_mod_converse(
        64 * x + r,
        64 * nb,
        q,
        64 * rr + r,
    );
}

/// Rotated words, bit by bit: bit `b` of the rotated row is bit
/// `(b - offset) mod 64 nb` of the source.
proof fn lemma_rotated_bits(src: Seq<u64>, nb: nat, offset: nat, w: nat, i: nat)
    requires
        nb > 0,
        src.len() >= nb,
        offset < 64 * nb,
        w < nb,
        i < 64,
    ensures
        bit_at(rotated_word(src, nb, offset / 64, offset % 64, w), i) == word_bit(
            src.take(nb as int),
            ((64 * w + i + 64 * nb - offset) % (64 * nb as int)) as nat,
        ),
{
    let ws = offset / 64;
    let bs = offset % 64;
    assert(ws < nb) by (nonlinear_arith)
        requires
            offset < 64 * nb,
            ws == offset / 64,
    ;
    assert(offset == 64 * ws + bs);
    let s1 = ((w + nb - ws) % (nb as int)) as int;
    let s2 = ((w + nb - ws - 1 + nb) % (nb as int)) as int;
    vstd::arithmetic::div_mod::lemma_mod_pos_bound((w + nb - ws) as int, nb as int);
    vstd::arithmetic::div_mod::lemma_mod_pos_bound((w + nb - ws - 1 + nb) as int, nb as int);
    lemma_shift_pair_bits(src[s1], src[s2], bs);
    let pos = 64 * w + i + 64 * nb - offset;
    if i >= bs {
        assert(pos == 64 * (w + nb - ws) + (i - bs));
        lemma_mod_blocks((w + nb - ws) as int, (i - bs) as int, nb as int);
        lemma_split_position(s1 as nat, (i - bs) as nat);
        assert(64 * s1 + (i - bs) < 64 * nb) by (nonlinear_arith)
            requires
                s1 < nb,
                i - bs < 64,
        ;
    } else {
        assert(pos == 64 * (w + nb - ws - 1) + (64 + i - bs));
        lemma_mod_blocks((w + nb - ws - 1) as int, (64 + i - bs) as int, nb as int);
        vstd::arithmetic::div_mod::lemma_mod_add_multiples_vanish((w + nb - ws - 1) as int, nb as int);
        assert((w + nb - ws - 1 + nb) % (nb as int) == (w + nb - ws - 1) % (nb as int));
        lemma_split_position(s2 as nat, (64 + i - bs) as nat);
        assert(64 * s2 + (64 + i - bs) < 64 * nb) by (nonlinear_arith)
            requires
                s2 < nb,
                64 + i - bs < 64,
        ;
    }
}


/// Word `w` of the rotated row after masking.
pub open spec fn rotated_masked_word(src: Seq<u64>, n: nat, nb: nat, offset: nat, w: nat) -> u64 {
    if offset == 0 {
        if w == 0 {
            src[0] & tail_mask(n)
        } else {
            src[w as int]
        }
    } else {
        let v = rotated_word(src, nb, offset / 64, offset % 64, w);
        if w == nb - 1 {
            v & tail_mask(n)
        } else {
            v
        }
    }
}

/// The masked rotated words, bit by bit.
proof fn lemma_rotated_masked_bits(src: Seq<u64>, n: nat, nb: nat, offset: nat, dst: Seq<u64>)
    requires
        nb > 0,
        src.len() >= nb,
        dst.len() >= nb,
        offset < 64 * nb,
        forall|w: int| 0 <= w < nb ==> dst[w] == rotated_masked_word(src, n, nb, offset, w as nat),
    ensures
        forall|b: nat|
            b < 64 * nb ==> #[trigger] word_bit(dst, b) == (rotate_keeps(n, nb, offset, b)
                && word_bit(src.take(nb as int), ((b + 64 * nb - offset) % (64 * nb as int)) as nat)),
{
    lemma_tail_mask_bits(n);
    assert forall|b: nat| b < 64 * nb implies #[trigger] word_bit(dst, b) == (rotate_keeps(
        n,
        nb,
        offset,
        b,
    ) && word_bit(src.take(nb as int), ((b + 64 * nb - offset) % (64 * nb as int)) as nat)) by {
        let w = b / 64;
        let i = b % 64;
        assert(b == 64 * w + i);
        assert(w < nb) by (nonlinear_arith)
            requires
                b < 64 * nb,
                w == b / 64,
        ;
        assert(64 * w + i < 64 * dst.len()) by (nonlinear_arith)
            requires
                w < nb,
                nb <= dst.len(),
                i < 64,
        ;
        if offset == 0 {
            lemma_and_bits(src[0], tail_mask(n));
            lemma_mod_blocks(w as int, i as int, nb as int);
            vstd::arithmetic::div_mod::lemma_mod_add_multiples_vanish(w as int, nb as int);
            vstd::arithmetic::div_mod::lemma_small_mod(w, nb);
            assert((b + 64 * nb - offset) % (64 * nb as int) == b) by {
                assert(b + 64 * nb - offset == 64 * (w + nb) + i);
                lemma_mod_blocks((w + nb) as int, i as int, nb as int);
            }
            lemma_split_position(w, i);
        } else {
            lemma_rotated_bits(src, nb, offset, w, i);
            lemma_and_bits(rotated_word(src, nb, offset / 64, offset % 64, w), tail_mask(n));
            assert(64 * w + i + 64 * nb - offset == b + 64 * nb - offset);
        }
    }
}

/// Rotates an `nb_words`-word row left by `offset` bits (cyclically over
/// its `64 * nb_words` bits) and clears the bits of the masked word at or
/// past `n % 64` (when `n % 64 != 0`). The masked word is the last one,
/// except for `offset == 0`, where the row is copied and word 0 is masked.
pub fn rotate_bits_full(src: &[u64], n: usize, nb_words: usize, offset: usize, dst: &mut [u64])
    requires
        n > 0 ==> nb_words <= src@.len() && nb_words <= old(dst)@.len(),
        n > 0 && offset == 0 ==> 1 <= src@.len() && 1 <= old(dst)@.len(),
        n > 0 && offset > 0 && nb_words == 1 ==> offset < 64,
        n > 0 && offset > 0 && nb_words > 1 ==> offset < 64 * nb_words && 64 * nb_words
            <= usize::MAX,
    ensures
        final(dst)@.len() == old(dst)@.len(),
        n == 0 ==> final(dst)@ == old(dst)@,
        n > 0 ==> forall|w: int|
            nb_words <= w < old(dst)@.len() && !(w == 0 && offset == 0) ==> final(dst)@[w] == old(
                dst,
            )@[w],
        n > 0 && offset == 0 ==> final(dst)@[0] == src@[0] & tail_mask(n as nat),
        n > 0 ==> forall|b: nat|
            b < 64 * nb_words ==> #[trigger] word_bit(final(dst)@, b) == (rotate_keeps(
                n as nat,
                nb_words as nat,
                offset as nat,
                b,
            ) && word_bit(
                src@.take(nb_words as int),
                ((b + 64 * nb_words - offset) % (64 * nb_words as int)) as nat,
            )),
{
    if n == 0 {
        return;
    }
    let mask = if n % 64 == 0 {
        !0u64
    } else {
        assert(1u64 << ((n % 64) as u64) >= 1u64) by (bit_vector)
            requires
                n % 64 < 64,
        ;
        (1u64 << ((n % 64) as u64)) - 1
    };
    assert(mask == tail_mask(n as nat));
    if offset == 0 {
        dst[0] = src[0] & mask;
        let mut w: usize = 1;
        while w < nb_words
            invariant
                1 <= w,
                w <= nb_words || w == 1,
                nb_words <= src@.len(),
                nb_words <= old(dst)@.len(),
                dst@.len() == old(dst)@.len(),
                dst@[0] == src@[0] & tail_mask(n as nat),
                forall|x: int| 1 <= x < w && x < nb_words ==> dst@[x] == src@[x],
                forall|x: int| w <= x < dst@.len() && x >= 1 ==> dst@[x] == old(dst)@[x],
            decreases nb_words - w,
        {
            dst[w] = src[w];
            w = w + 1;
        }
        proof {
            if nb_words > 0 {
                lemma_rotated_masked_bits(src@, n as nat, nb_words as nat, 0, dst@);
            }
        }
        return;
    }
    if nb_words == 1 {
        let v = (src[0] << offset) | (src[0] >> (64 - offset));
        proof {
            assert(((0 + 1 - 0) % 1int) == 0);
            assert(((0 + 1 - 0 - 1 + 1) % 1int) == 0);
            assert(offset / 64 == 0 && offset % 64 == offset);
            assert(v == rotated_word(src@, 1, 0, offset as nat, 0));
        }
        let ghost before = dst@;
        dst[0] = v & mask;
        proof {
            assert(dst@ == before.update(0, v & mask));
            lemma_rotated_masked_bits(src@, n as nat, 1, offset as nat, dst@);
        }
        return;
    }
    let word_shift = offset / 64;
    let bit_shift = offset % 64;
    if nb_words == 0 {
        return;
    }
    assert(word_shift < nb_words) by (nonlinear_arith)
        requires
            offset < 64 * nb_words,
            word_shift == offset / 64,
    ;
    let mut w: usize = 0;
    while w < nb_words
        invariant
            0 <= w <= nb_words,
            1 < nb_words,
            nb_words <= src@.len(),
            nb_words <= old(dst)@.len(),
            64 * nb_words <= usize::MAX,
            word_shift == offset / 64,
            bit_shift == offset % 64,
            0 < offset < 64 * nb_words,
            word_shift < nb_words,
            mask == tail_mask(n as nat),
            dst@.len() == old(dst)@.len(),
            forall|x: int|
                0 <= x < w ==> dst@[x] == rotated_masked_word(
                    src@,
                    n as nat,
                    nb_words as nat,
                    offset as nat,
                    x as nat,
                ),
            forall|x: int| w <= x < dst@.len() ==> dst@[x] == old(dst)@[x],
        decreases nb_words - w,
    {
        let src1 = (w + nb_words - word_shift) % nb_words;
        let src2 = (w + nb_words - word_shift - 1 + nb_words) % nb_words;
        let hi = if bit_shift == 0 {
            0
        } else {
            src[src2] >> (64 - bit_shift)
        };
        let lo = src[src1] << bit_shift;
        let mut v = lo | hi;
        proof {
            assert(v == rotated_word(
                src@,
                nb_words as nat,
                word_shift as nat,
                bit_shift as nat,
                w as nat,
            ));
        }
        if w == nb_words - 1 {
            v = v & mask;
        }
        dst[w] = v;
        w = w + 1;
    }
    proof {
        lemma_rotated_masked_bits(src@, n as nat, nb_words as nat, offset as nat, dst@);
    }
}


/// Setting bit `i` of a word changes no other bit.
pub proof fn lemma_set_bit(w: u64, i: u64)
    requires
        i < 64,
    ensures
        forall|x: nat| #[trigger] bit_at(w | (1u64 << i), x) == (bit_at(w, x) || x == i),
{
    assert(forall|x: u64|
        x < 64 ==> (((#[trigger] ((w | (1u64 << i)) >> x)) & 1u64 == 1u64) == (((w >> x) & 1u64
            == 1u64) || x == i))) by (bit_vector)
        requires
            i < 64,
    ;
    assert forall|x: nat| #[trigger] bit_at(w | (1u64 << i), x) == (bit_at(w, x) || x == i) by {
        if x < 64 {
            let xu = x as u64;
            assert(xu == x);
        }
    }
}

/// Permutes the columns of a packed row: bit `j` of `dst` (for `j < n`) is
/// bit `col_perm[j]` of `src`; every other bit of `dst` is cleared.
pub fn permute_columns_bits(src: &[u64], dst: &mut [u64], col_perm: &[usize], n: usize)
    requires
        n <= col_perm@.len(),
        n <= 64 * old(dst)@.len(),
        forall|j: int| 0 <= j < n ==> col_perm@[j] < 64 * src@.len(),
    ensures
        final(dst)@.len() == old(dst)@.len(),
        forall|b: nat|
            b < 64 * final(dst)@.len() ==> #[trigger] word_bit(final(dst)@, b) == (b < n
                && word_bit(src@, col_perm@[b as int] as nat)),
{
    let mut z: usize = 0;
    while z < dst.len()
        invariant
            z <= dst@.len(),
            dst@.len() == old(dst)@.len(),
            forall|x: int| 0 <= x < z ==> dst@[x] == 0,
        decreases dst@.len() - z,
    {
        dst[z] = 0;
        z = z + 1;
    }
    proof {
        crate::bitspec::lemma_zero_word(0);
    }
    let mut j: usize = 0;
    while j < n
        invariant
            j <= n,
            n <= col_perm@.len(),
            n <= 64 * dst@.len(),
            dst@.len() == old(dst)@.len(),
            forall|x: int| 0 <= x < n ==> col_perm@[x] < 64 * src@.len(),
            forall|b: nat|
                b < 64 * dst@.len() ==> #[trigger] word_bit(dst@, b) == (b < j && word_bit(
                    src@,
                    col_perm@[b as int] as nat,
                )),
        decreases n - j,
    {
        let src_j = col_perm[j];
        let src_w = src_j / 64;
        let src_b = src_j % 64;
        proof {
            lemma_split_position(src_w as nat, src_b as nat);
            assert(src_w < src@.len()) by (nonlinear_arith)
                requires
                    src_j < 64 * src@.len(),
                    src_w == src_j / 64,
            ;
        }
        let bit = (src[src_w] >> (src_b as u64)) & 1 == 1;
        assert(bit == word_bit(src@, src_j as nat));
        let dst_w = j / 64;
        let dst_b = j % 64;
        proof {
            lemma_split_position(dst_w as nat, dst_b as nat);
            assert(dst_w < dst@.len()) by (nonlinear_arith)
                requires
                    j < n,
                    n <= 64 * dst@.len(),
                    dst_w == j / 64,
            ;
        }
        if bit {
            let old_word = dst[dst_w];
            let ghost before = dst@;
            dst[dst_w] = old_word | (1u64 << (dst_b as u64));
            proof {
                lemma_set_bit(old_word, dst_b as u64);
                assert forall|b: nat| b < 64 * dst@.len() implies #[trigger] word_bit(dst@, b) == (b
                    < j + 1 && word_bit(src@, col_perm@[b as int] as nat)) by {
                    let bw = b / 64;
                    let bb = b % 64;
                    lemma_split_position(bw, bb);
                    assert(b == 64 * bw + bb);
                    assert(word_bit(before, b) == (b < j && word_bit(src@, col_perm@[b as int] as nat)));
                    if bw == dst_w {
                        assert(dst@[bw as int] == old_word | (1u64 << (dst_b as u64)));
                    } else {
                        assert(dst@[bw as int] == before[bw as int]);
                        assert(b != j);
                    }
                }
            }
        } else {
            proof {
                assert forall|b: nat| b < 64 * dst@.len() implies #[trigger] word_bit(dst@, b) == (b
                    < j + 1 && word_bit(src@, col_perm@[b as int] as nat)) by {
                    if b == j {
                        assert(!word_bit(src@, col_perm@[j as int] as nat));
                    }
                }
            }
        }
        j = j + 1;
    }
}

} // verus!
