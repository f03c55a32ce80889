//! Workload taxonomy for diagnostic benchmarking: deterministic source
//! supports (identical, diverse, heavy-tailed, block-local), heterogeneous
//! capacity tiers, and SplitMix64 permutations. Degrees and capacity tiers
//! derived from floating-point densities are computed by callers and passed
//! in as counts.
//!
//! Row `i` of a packed matrix is `bits[i * nb_words .. (i + 1) * nb_words]`.

use vstd::prelude::*;
use crate::bitspec::{lemma_split_position, lemma_zero_word, word_bit};
use crate::bitsupport::{mix64, mix64_spec};
use crate::rows::{identity_seq, is_permutation, row_ones_spec, row_words};
use crate::bitspec::{rank_of, total_ones};
use vstd::set_lib::{lemma_int_range, set_int_range};

verus! {

/// Sets bit `b` of row `i`.
fn set_bit(bits: &mut [u64], i: usize, nb_words: usize, b: usize)
    requires
        i * nb_words + b / 64 < old(bits)@.len(),
    ensures
        final(bits)@ == old(bits)@.update(
            (i * nb_words + b / 64) as int,
            old(bits)@[(i * nb_words + b / 64) as int] | (1u64 << ((b % 64) as u64)),
        ),
{
    let len = bits.len();
    assert(i * nb_words <= i * nb_words + b / 64);
    let idx = i * nb_words + b / 64;
    let w = bits[idx];
    bits[idx] = w | (1u64 << ((b % 64) as u64));
}

/// Column `p` occurs among the first `count` entries of `cols`.
pub open spec fn lists_col(cols: Seq<usize>, count: int, p: int) -> bool {
    exists|y: int| 0 <= y < count && cols[y] == p
}

/// Sets the bits `cols[0..count]` in row `i` of a packed matrix; other rows
/// keep their words.
fn set_row_bits(bits: &mut Vec<u64>, i: usize, nb_words: usize, cols: &[usize], count: usize)
    requires
        (i + 1) * nb_words <= old(bits)@.len(),
        count <= cols@.len(),
        forall|x: int| 0 <= x < count ==> cols@[x] < 64 * nb_words,
    ensures
        final(bits)@.len() == old(bits)@.len(),
        forall|q: int|
            0 <= q < old(bits)@.len() && !(i * nb_words <= q < (i + 1) * nb_words) ==> final(bits)@[q]
                == old(bits)@[q],
        forall|p: nat|
            p < 64 * nb_words ==> #[trigger] word_bit(row_words(final(bits)@, nb_words as nat, i as nat), p)
                == (word_bit(row_words(old(bits)@, nb_words as nat, i as nat), p) || lists_col(
                cols@,
                count as int,
                p as int,
            )),
{
    let ghost start = bits@;
    let mut x: usize = 0;
    assert((i + 1) * nb_words == i * nb_words + nb_words) by (nonlinear_arith);
    while x < count
        invariant
            x <= count,
            count <= cols@.len(),
            (i + 1) * nb_words <= bits@.len(),
            (i + 1) * nb_words == i * nb_words + nb_words,
            bits@.len() == start.len(),
            forall|y: int| 0 <= y < count ==> cols@[y] < 64 * nb_words,
            forall|q: int|
                0 <= q < start.len() && !(i * nb_words <= q < (i + 1) * nb_words) ==> bits@[q]
                    == start[q],
            forall|p: nat|
                p < 64 * nb_words ==> #[trigger] word_bit(row_words(bits@, nb_words as nat, i as nat), p)
                    == (word_bit(row_words(start, nb_words as nat, i as nat), p) || lists_col(
                    cols@,
                    x as int,
                    p as int,
                )),
        decreases count - x,
    {
        let b = cols[x];
        let ghost before = bits@;
        let w = b / 64;
        let r = b % 64;
        proof {
            lemma_split_position(w as nat, r as nat);
            assert(w < nb_words) by (nonlinear_arith)
                requires
                    b < 64 * nb_words,
                    w == b / 64,
            ;
        }
        set_bit(bits.as_mut_slice(), i, nb_words, b);
        proof {
            crate::bitops::lemma_set_bit(before[(i * nb_words + w) as int], r as u64);
            let rb = row_words(before, nb_words as nat, i as nat);
            let ra = row_words(bits@, nb_words as nat, i as nat);
            assert forall|p: nat| p < 64 * nb_words implies #[trigger] word_bit(ra, p) == (word_bit(
                row_words(start, nb_words as nat, i as nat),
                p,
            ) || lists_col(cols@, x + 1, p as int)) by {
                let pw = p / 64;
                let pr = p % 64;
                lemma_split_position(pw, pr);
                assert(p == 64 * pw + pr);
                assert(pw < nb_words) by (nonlinear_arith)
                    requires
                        p < 64 * nb_words,
                        pw == p / 64,
                ;
                assert(word_bit(rb, p) == (word_bit(row_words(start, nb_words as nat, i as nat), p)
                    || lists_col(cols@, x as int, p as int)));
                assert(lists_col(cols@, x + 1, p as int) == (lists_col(cols@, x as int, p as int)
                    || p == b)) by {
                    if lists_col(cols@, x + 1, p as int) {
                        let q = choose|q: int| 0 <= q < x + 1 && cols@[q] == p;
                        if q < x {
                            assert(lists_col(cols@, x as int, p as int));
                        }
                    }
                    if p == b {
                        assert(cols@[x as int] == b);
                    }
                }
                if pw == w {
                    assert(ra[pw as int] == rb[pw as int] | (1u64 << (r as u64)));
                    if pr == r {
                        assert(p == b);
                    } else {
                        assert(p != b);
                    }
                } else {
                    assert(ra[pw as int] == rb[pw as int]);
                    assert(p != b);
                }
            }
        }
        x = x + 1;
    }
}

/// `len` zero words.
pub open spec fn zero_words_spec(len: nat) -> Seq<u64> {
    Seq::new(len, |q: int| 0u64)
}

/// `len` zero words.
fn zero_words(len: usize) -> (bits: Vec<u64>)
    ensures
        bits@ == zero_words_spec(len as nat),
{
    let mut bits: Vec<u64> = Vec::new();
    let mut q: usize = 0;
    while q < len
        invariant
            q <= len,
            bits@ == Seq::new(q as nat, |x: int| 0u64),
        decreases len - q,
    {
        bits.push(0);
        q = q + 1;
    }
    bits
}

/// `[0, 1, ..., n - 1]`.
fn identity_vec(n: usize) -> (v: Vec<usize>)
    ensures
        v@ == identity_seq(n as nat),
{
    let mut v: Vec<usize> = Vec::new();
    let mut q: usize = 0;
    while q < n
        invariant
            q <= n,
            v@ == identity_seq(q as nat),
        decreases n - q,
    {
        v.push(q);
        q = q + 1;
        assert(v@ =~= identity_seq(q as nat));
    }
    v
}

/// One Fisher–Yates step at position `i`: advance the seed with `mix64`,
/// draw `j = seed mod (i + 1)` and swap entries `i` and `j`.
pub open spec fn shuffle_step(v: Seq<usize>, seed: u64, i: int) -> (Seq<usize>, u64) {
    let s = mix64_spec(seed);
    let j = (s as usize) as int % (i + 1);
    (v.update(i, v[j]).update(j, v[i]), s)
}

/// The sequence and seed after the first `k` steps of the shuffle of `0..n`,
/// which visits positions `n - 1, n - 2, ...` in turn.
pub open spec fn shuffle_steps(n: nat, seed: u64, k: nat) -> (Seq<usize>, u64)
    decreases k,
{
    if k == 0 {
        (identity_seq(n), seed)
    } else {
        let prev = shuffle_steps(n, seed, (k - 1) as nat);
        shuffle_step(prev.0, prev.1, n - k)
    }
}

/// The deterministic shuffle of `0..n` driven by `seed`.
pub open spec fn shuffle_range_spec(n: nat, seed: u64) -> Seq<usize> {
    if n <= 1 {
        identity_seq(n)
    } else {
        shuffle_steps(n, seed, (n - 1) as nat).0
    }
}

/// Swapping two entries keeps a permutation a permutation.
proof fn lemma_swap_keeps_permutation(v: Seq<usize>, n: nat, i: int, j: int)
    requires
        is_permutation(v, n),
        0 <= i < n,
        0 <= j < n,
    ensures
        is_permutation(v.update(i, v[j]).update(j, v[i]), n),
{
    let w = v.update(i, v[j]).update(j, v[i]);
    assert forall|a: int| 0 <= a < n implies w[a] == v[if a == j {
        i
    } else if a == i {
        j
    } else {
        a
    }] by {}
    assert forall|a: int, b: int| 0 <= a < b < n implies w[a] != w[b] by {
        let sa = if a == j {
            i
        } else if a == i {
            j
        } else {
            a
        };
        let sb = if b == j {
            i
        } else if b == i {
            j
        } else {
            b
        };
        assert(sa != sb);
        if sa < sb {
            assert(v[sa] != v[sb]);
        } else {
            assert(v[sb] != v[sa]);
        }
    }
}

/// Deterministic Fisher–Yates shuffle of `0..n` using SplitMix64: for `i`
/// from `n - 1` down to `1`, the seed is advanced with `mix64` and entry `i`
/// is swapped with entry `seed mod (i + 1)`.
pub fn shuffle_range(n: usize, seed: u64) -> (v: Vec<usize>)
    ensures
        v@ == shuffle_range_spec(n as nat, seed),
        is_permutation(v@, n as nat),
{
    let mut v = identity_vec(n);
    assert(is_permutation(v@, n as nat));
    if n <= 1 {
        return v;
    }
    let mut s: u64 = seed;
    let mut i: usize = n - 1;
    while i >= 1
        invariant
            i < n,
            n >= 2,
            v@ == shuffle_steps(n as nat, seed, (n - 1 - i) as nat).0,
            s == shuffle_steps(n as nat, seed, (n - 1 - i) as nat).1,
            is_permutation(v@, n as nat),
        decreases i,
    {
        let ghost before = v@;
        s = mix64(s);
        let j = (s as usize) % (i + 1);
        proof {
            lemma_swap_keeps_permutation(before, n as nat, i as int, j as int);
        }
        let a = v[i];
        let b = v[j];
        v.set(i, b);
        v.set(j, a);
        proof {
            let k = (n - 1 - i + 1) as nat;
            assert(n - k == i);
            assert(v@ == shuffle_steps(n as nat, seed, k).0);
        }
        i = i - 1;
    }
    v
}

/// Words per row for `n` columns: `ceil(n / 64)`.
pub open spec fn words_for(n: nat) -> nat {
    if n % 64 == 0 {
        n / 64
    } else {
        n / 64 + 1
    }
}

/// Number of 64-bit words that hold `n` columns.
pub fn words_per_row(n: usize) -> (r: usize)
    ensures
        r == words_for(n as nat),
        64 * r >= n,
        64 * r < n + 64,
{
    if n % 64 == 0 {
        n / 64
    } else {
        n / 64 + 1
    }
}

/// A row of `nb_words` zero words.
pub open spec fn zero_row(nb_words: nat) -> Seq<u64> {
    Seq::new(nb_words, |w: int| 0u64)
}

/// Word `w` of row `r` lies inside an `n`-row matrix, and outside every
/// other row.
proof fn lemma_row_position(n: nat, nb: nat, r: nat, w: nat, i: nat)
    requires
        r < n,
    ensures
        r * nb + nb == (r + 1) * nb,
        (r + 1) * nb <= n * nb,
        w < nb ==> r * nb + w < n * nb,
        w < nb && r != i ==> !(i * nb <= r * nb + w < i * nb + nb),
{
    assert(r * nb + nb == (r + 1) * nb) by (nonlinear_arith);
    assert((r + 1) * nb <= n * nb) by (nonlinear_arith)
        requires
            r < n,
    ;
    if w < nb {
        if r < i {
            assert(r * nb + w < i * nb) by (nonlinear_arith)
                requires
                    r < i,
                    w < nb,
            ;
        } else if r > i {
            assert(i * nb + nb <= r * nb) by (nonlinear_arith)
                requires
                    r > i,
            ;
        }
    }
}

/// Fills the all-zero row `i` with the columns `cols[0..count]`; every other
/// row keeps its words.
fn fill_row(bits: &mut Vec<u64>, n: usize, nb_words: usize, i: usize, cols: &[usize], count: usize)
    requires
        i < n,
        old(bits)@.len() == n * nb_words,
        count <= cols@.len(),
        forall|x: int| 0 <= x < count ==> cols@[x] < 64 * nb_words,
        row_words(old(bits)@, nb_words as nat, i as nat) == zero_row(nb_words as nat),
    ensures
        final(bits)@.len() == n * nb_words,
        forall|r: nat|
            r < n && r != i ==> #[trigger] row_words(final(bits)@, nb_words as nat, r) == row_words(
                old(bits)@,
                nb_words as nat,
                r,
            ),
        forall|p: nat|
            p < 64 * nb_words ==> #[trigger] word_bit(
                row_words(final(bits)@, nb_words as nat, i as nat),
                p,
            ) == lists_col(cols@, count as int, p as int),
{
    let ghost start = bits@;
    proof {
        lemma_row_position(n as nat, nb_words as nat, i as nat, 0, i as nat);
        assert((i + 1) * nb_words == i * nb_words + nb_words) by (nonlinear_arith);
    }
    set_row_bits(bits, i, nb_words, cols, count);
    proof {
        lemma_zero_word(0);
        assert forall|r: nat| r < n && r != i implies #[trigger] row_words(
            bits@,
            nb_words as nat,
            r,
        ) == row_words(start, nb_words as nat, r) by {
            assert forall|w: int| 0 <= w < nb_words implies #[trigger] bits@[r * nb_words + w]
                == start[r * nb_words + w] by {
                lemma_row_position(n as nat, nb_words as nat, r, w as nat, i as nat);
            }
            lemma_row_position(n as nat, nb_words as nat, r, 0, i as nat);
            let ra = row_words(bits@, nb_words as nat, r);
            let rb = row_words(start, nb_words as nat, r);
            assert forall|w: int| 0 <= w < nb_words implies ra[w] == rb[w] by {
                assert(ra[w] == bits@[r * nb_words + w]);
                assert(rb[w] == start[r * nb_words + w]);
            }
            assert(ra =~= rb);
        }
        assert forall|p: nat| p < 64 * nb_words implies !word_bit(
            row_words(start, nb_words as nat, i as nat),
            p,
        ) by {
            let z = row_words(start, nb_words as nat, i as nat);
            assert(z[(p / 64) as int] == 0u64);
        }
    }
}

/// The seed of row `i` in the diverse and block-local workloads.
pub open spec fn row_seed_spec(seed: u64, i: usize) -> u64 {
    mix64_spec(seed ^ vstd::wrapping::u64_specs::wrapping_mul(i as u64, 0x9E3779B97F4A7C15u64))
}

/// Per-row seed: `mix64(seed ^ i * 0x9E3779B97F4A7C15)`, multiplication
/// modulo 2^64.
pub fn workload_row_seed(seed: u64, i: usize) -> (r: u64)
    ensures
        r == row_seed_spec(seed, i),
{
    mix64(seed ^ (i as u64).wrapping_mul(0x9E37_79B9_7F4A_7C15))
}

/// Indices `y < count` whose column `cols[y]` lies below `m`.
spec fn listed_below(cols: Seq<usize>, count: nat, m: nat) -> Set<int> {
    Set::new(|y: int| 0 <= y < count && cols[y] < m)
}

/// Below `m`, the set bits of a row whose set bits are exactly the distinct
/// listed columns are counted by the listed indices below `m`.
proof fn lemma_listed_count(words: Seq<u64>, cols: Seq<usize>, count: nat, m: nat)
    requires
        m <= 64 * words.len(),
        count <= cols.len(),
        forall|x: int, y: int| 0 <= x < y < count ==> cols[x] != cols[y],
        forall|p: nat|
            p < 64 * words.len() ==> #[trigger] word_bit(words, p) == lists_col(
                cols,
                count as int,
                p as int,
            ),
    ensures
        listed_below(cols, count, m).finite(),
        rank_of(words, m) == listed_below(cols, count, m).len(),
    decreases m,
{
    if m == 0 {
        assert(listed_below(cols, count, 0) =~= Set::empty());
    } else {
        let k = (m - 1) as nat;
        lemma_listed_count(words, cols, count, k);
        let cur = listed_below(cols, count, k);
        let next = listed_below(cols, count, m);
        if word_bit(words, k) {
            let y0 = choose|y: int| 0 <= y < count && cols[y] == k;
            assert(next =~= cur.insert(y0)) by {
                assert forall|y: int| next.contains(y) implies cur.insert(y0).contains(y) by {
                    if cols[y] == k && y != y0 {
                        if y < y0 {
                            assert(cols[y] != cols[y0]);
                        } else {
                            assert(cols[y0] != cols[y]);
                        }
                    }
                }
            }
            assert(!cur.contains(y0));
        } else {
            assert(next =~= cur) by {
                assert forall|y: int| next.contains(y) implies cur.contains(y) by {
                    if cols[y] == k {
                        assert(lists_col(cols, count as int, k as int));
                    }
                }
            }
        }
    }
}

/// A row whose set bits are exactly `count` distinct listed columns has
/// `count` set bits.
proof fn lemma_listed_row_ones(words: Seq<u64>, cols: Seq<usize>, count: nat)
    requires
        count <= cols.len(),
        forall|x: int| 0 <= x < count ==> cols[x] < 64 * words.len(),
        forall|x: int, y: int| 0 <= x < y < count ==> cols[x] != cols[y],
        forall|p: nat|
            p < 64 * words.len() ==> #[trigger] word_bit(words, p) == lists_col(
                cols,
                count as int,
                p as int,
            ),
    ensures
        total_ones(words) == count,
{
    let top = 64 * words.len();
    lemma_listed_count(words, cols, count, top);
    assert(listed_below(cols, count, top) =~= set_int_range(0, count as int));
    lemma_int_range(0, count as int);
}

/// The columns `[0, c)` are listed, in order, by `identity_seq(c)`.
proof fn lemma_identity_lists(c: nat)
    requires
        c <= usize::MAX,
    ensures
        forall|p: int| #[trigger] lists_col(identity_seq(c), c as int, p) == (0 <= p < c),
        forall|x: int, y: int| 0 <= x < y < c ==> identity_seq(c)[x] != identity_seq(c)[y],
{
    assert forall|p: int| #[trigger] lists_col(identity_seq(c), c as int, p) == (0 <= p < c) by {
        if 0 <= p < c {
            assert(identity_seq(c)[p] == p);
        }
    }
}

/// The all-zero matrix of `n` rows has zero rows.
proof fn lemma_zero_rows(n: nat, nb: nat)
    ensures
        forall|r: nat| r < n ==> #[trigger] row_words(zero_words_spec(n * nb), nb, r)
            == zero_row(nb),
{
    assert forall|r: nat| r < n implies #[trigger] row_words(zero_words_spec(n * nb), nb, r)
        == zero_row(nb) by {
        lemma_row_position(n, nb, r, 0, 0);
        assert(row_words(zero_words_spec(n * nb), nb, r) =~= zero_row(nb));
    }
}

/// Prefix supports: row `r` holds exactly the columns `[0, counts[r])`.
/// With equal counts this is the identical-support source matrix; with
/// capacity-shaped counts it is the target matrix.
pub fn prefix_support_bits(counts: &[usize], nb_words: usize) -> (bits: Vec<u64>)
    requires
        counts@.len() * nb_words <= usize::MAX,
        forall|r: int| 0 <= r < counts@.len() ==> counts@[r] <= 64 * nb_words,
    ensures
        bits@.len() == counts@.len() * nb_words,
        forall|r: nat, p: nat|
            r < counts@.len() && p < 64 * nb_words ==> #[trigger] word_bit(
                row_words(bits@, nb_words as nat, r),
                p,
            ) == (p < counts@[r as int]),
        forall|r: nat|
            r < counts@.len() ==> #[trigger] row_ones_spec(bits@, nb_words as nat, r)
                == counts@[r as int],
{
    let n = counts.len();
    let mut bits = zero_words(n * nb_words);
    proof {
        lemma_zero_rows(n as nat, nb_words as nat);
        assert(bits@ == zero_words_spec(n as nat * nb_words as nat));
    }
    let mut i: usize = 0;
    while i < n
        invariant
            i <= n,
            n == counts@.len(),
            forall|r: int| 0 <= r < n ==> counts@[r] <= 64 * nb_words,
            bits@.len() == n * nb_words,
            forall|r: nat, p: nat|
                r < i && p < 64 * nb_words ==> #[trigger] word_bit(
                    row_words(bits@, nb_words as nat, r),
                    p,
                ) == (p < counts@[r as int]),
            forall|r: nat|
                r < i ==> #[trigger] row_ones_spec(bits@, nb_words as nat, r) == counts@[r as int],
            forall|r: nat| i <= r < n ==> #[trigger] row_words(bits@, nb_words as nat, r) == zero_row(
                nb_words as nat,
            ),
        decreases n - i,
    {
        let c = counts[i];
        let cols = identity_vec(c);
        proof {
            lemma_identity_lists(c as nat);
        }
        let ghost before = bits@;
        fill_row(&mut bits, n, nb_words, i, cols.as_slice(), c);
        proof {
            let row = row_words(bits@, nb_words as nat, i as nat);
            lemma_row_position(n as nat, nb_words as nat, i as nat, 0, 0);
            lemma_listed_row_ones(row, cols@, c as nat);
            assert forall|r: nat| r < i implies #[trigger] row_ones_spec(bits@, nb_words as nat, r)
                == counts@[r as int] by {
                assert(row_ones_spec(before, nb_words as nat, r) == counts@[r as int]);
                assert(row_words(bits@, nb_words as nat, r) == row_words(before, nb_words as nat, r));
            }
        }
        i = i + 1;
    }
    bits
}

/// Seed of the shuffle that picks the columns of row `r` in the
/// constant-degree diverse workload.
pub open spec fn dense_diverse_seed(seed: u64, r: usize) -> u64 {
    row_seed_spec(seed, r)
}

/// Seed of the shuffle that picks the columns of row `r` in the
/// heavy-tailed diverse workload.
pub open spec fn sparse_diverse_seed(seed: u64, r: usize) -> u64 {
    mix64_spec(row_seed_spec(seed, r))
}

/// Row `r` holds the first `degrees[r]` entries of a per-row shuffle of
/// `0..n`; `remix` selects the heavy-tailed variant's shuffle seed.
fn diverse_rows(n: usize, degrees: &[usize], seed: u64, remix: bool) -> (bits: Vec<u64>)
    requires
        degrees@.len() == n,
        forall|r: int| 0 <= r < n ==> degrees@[r] <= n,
        n * words_for(n as nat) <= usize::MAX,
    ensures
        bits@.len() == n * words_for(n as nat),
        forall|r: nat, p: nat|
            r < n && p < 64 * words_for(n as nat) ==> #[trigger] word_bit(
                row_words(bits@, words_for(n as nat), r),
                p,
            ) == lists_col(
                shuffle_range_spec(
                    n as nat,
                    if remix {
                        sparse_diverse_seed(seed, r as usize)
                    } else {
                        dense_diverse_seed(seed, r as usize)
                    },
                ),
                degrees@[r as int] as int,
                p as int,
            ),
        forall|r: nat|
            r < n ==> #[trigger] row_ones_spec(bits@, words_for(n as nat), r) == degrees@[r as int],
{
    let nb_words = words_per_row(n);
    let mut bits = zero_words(n * nb_words);
    proof {
        lemma_zero_rows(n as nat, nb_words as nat);
        assert(bits@ == zero_words_spec(n as nat * nb_words as nat));
    }
    let mut i: usize = 0;
    while i < n
        invariant
            i <= n,
            nb_words == words_for(n as nat),
            64 * nb_words >= n,
            degrees@.len() == n,
            forall|r: int| 0 <= r < n ==> degrees@[r] <= n,
            bits@.len() == n * nb_words,
            forall|r: nat, p: nat|
                r < i && p < 64 * nb_words ==> #[trigger] word_bit(
                    row_words(bits@, nb_words as nat, r),
                    p,
                ) == lists_col(
                    shuffle_range_spec(
                        n as nat,
                        if remix {
                            sparse_diverse_seed(seed, r as usize)
                        } else {
                            dense_diverse_seed(seed, r as usize)
                        },
                    ),
                    degrees@[r as int] as int,
                    p as int,
                ),
            forall|r: nat|
                r < i ==> #[trigger] row_ones_spec(bits@, nb_words as nat, r) == degrees@[r as int],
            forall|r: nat| i <= r < n ==> #[trigger] row_words(bits@, nb_words as nat, r) == zero_row(
                nb_words as nat,
            ),
        decreases n - i,
    {
        let row_seed = workload_row_seed(seed, i);
        let shuffle_seed = if remix {
            mix64(row_seed)
        } else {
            row_seed
        };
        let perm = shuffle_range(n, shuffle_seed);
        let d = degrees[i];
        let ghost before = bits@;
        fill_row(&mut bits, n, nb_words, i, perm.as_slice(), d);
        proof {
            let row = row_words(bits@, nb_words as nat, i as nat);
            lemma_row_position(n as nat, nb_words as nat, i as nat, 0, 0);
            lemma_listed_row_ones(row, perm@, d as nat);
            assert forall|r: nat| r < i implies #[trigger] row_ones_spec(bits@, nb_words as nat, r)
                == degrees@[r as int] by {
                assert(row_ones_spec(before, nb_words as nat, r) == degrees@[r as int]);
                assert(row_words(bits@, nb_words as nat, r) == row_words(before, nb_words as nat, r));
            }
        }
        i = i + 1;
    }
    bits
}

/// Constant degree, diverse supports: row `r` holds the first `d` entries of
/// the shuffle of `0..n` seeded by `dense_diverse_seed(seed, r)`, so every
/// row has exactly `d` set bits. Rows use `words_per_row(n)` words.
pub fn dense_diverse_bits(n: usize, d: usize, seed: u64) -> (bits: Vec<u64>)
    requires
        d <= n,
        n * words_for(n as nat) <= usize::MAX,
    ensures
        bits@.len() == n * words_for(n as nat),
        forall|r: nat, p: nat|
            r < n && p < 64 * words_for(n as nat) ==> #[trigger] word_bit(
                row_words(bits@, words_for(n as nat), r),
                p,
            ) == lists_col(
                shuffle_range_spec(n as nat, dense_diverse_seed(seed, r as usize)),
                d as int,
                p as int,
            ),
        forall|r: nat| r < n ==> #[trigger] row_ones_spec(bits@, words_for(n as nat), r) == d,
{
    let mut degrees: Vec<usize> = Vec::new();
    let mut i: usize = 0;
    while i < n
        invariant
            i <= n,
            degrees@ == Seq::new(i as nat, |r: int| d),
        decreases n - i,
    {
        degrees.push(d);
        i = i + 1;
        assert(degrees@ =~= Seq::new(i as nat, |r: int| d));
    }
    diverse_rows(n, degrees.as_slice(), seed, false)
}

/// Heavy-tailed degrees, diverse supports: for `n = degrees.len()`, row `r`
/// holds the first `degrees[r]` entries of the shuffle of `0..n` seeded by
/// `sparse_diverse_seed(seed, r)`, and has exactly `degrees[r]` set bits.
pub fn sparse_diverse_bits(degrees: &[usize], seed: u64) -> (bits: Vec<u64>)
    requires
        forall|r: int| 0 <= r < degrees@.len() ==> degrees@[r] <= degrees@.len(),
        degrees@.len() * words_for(degrees@.len()) <= usize::MAX,
    ensures
        bits@.len() == degrees@.len() * words_for(degrees@.len()),
        forall|r: nat, p: nat|
            r < degrees@.len() && p < 64 * words_for(degrees@.len()) ==> #[trigger] word_bit(
                row_words(bits@, words_for(degrees@.len()), r),
                p,
            ) == lists_col(
                shuffle_range_spec(degrees@.len(), sparse_diverse_seed(seed, r as usize)),
                degrees@[r as int] as int,
                p as int,
            ),
        forall|r: nat|
            r < degrees@.len() ==> #[trigger] row_ones_spec(bits@, words_for(degrees@.len()), r)
                == degrees@[r as int],
{
    diverse_rows(degrees.len(), degrees, seed, true)
}

/// Distance from `o` forward to `p` around the cycle `0..n`.
pub open spec fn cyclic_distance(n: int, o: int, p: int) -> int {
    if p >= o {
        p - o
    } else {
        p + n - o
    }
}

/// `p` lies in the cyclic block `[o, o + d) mod n`.
pub open spec fn in_block(n: nat, o: nat, d: nat, p: int) -> bool {
    0 <= p < n && cyclic_distance(n as int, o as int, p) < d
}

/// Column `o + off` taken modulo `n`, for `o < n` and `off < n`.
pub open spec fn block_col(n: nat, o: nat, off: nat) -> nat {
    if off < n - o {
        o + off
    } else {
        (off - (n - o)) as nat
    }
}

/// Start of the block of row `r` in the block-local workload.
pub open spec fn block_offset(seed: u64, n: nat, r: usize) -> nat {
    (row_seed_spec(seed, r) as usize) as nat % n
}

/// The columns `(o + off) mod n` for `off` in `0..d`.
fn block_cols(n: usize, o: usize, d: usize) -> (v: Vec<usize>)
    requires
        o < n,
        d <= n,
    ensures
        v@.len() == d,
        forall|off: int| 0 <= off < d ==> v@[off] == block_col(n as nat, o as nat, off as nat),
{
    let mut v: Vec<usize> = Vec::new();
    let mut off: usize = 0;
    while off < d
        invariant
            off <= d,
            d <= n,
            o < n,
            v@.len() == off,
            forall|x: int| 0 <= x < off ==> v@[x] == block_col(n as nat, o as nat, x as nat),
        decreases d - off,
    {
        let col = if off < n - o {
            o + off
        } else {
            off - (n - o)
        };
        v.push(col);
        off = off + 1;
    }
    v
}

/// The block columns are distinct, lie below `n`, and list exactly the
/// cyclic block `[o, o + d) mod n`.
proof fn lemma_block_lists(cols: Seq<usize>, n: nat, o: nat, d: nat)
    requires
        o < n,
        d <= n,
        cols.len() == d,
        forall|off: int| 0 <= off < d ==> cols[off] == block_col(n, o, off as nat),
    ensures
        forall|x: int| 0 <= x < d ==> cols[x] < n,
        forall|x: int, y: int| 0 <= x < y < d ==> cols[x] != cols[y],
        forall|p: int| #[trigger] lists_col(cols, d as int, p) == in_block(n, o, d, p),
{
    assert forall|x: int| 0 <= x < d implies cols[x] < n && cyclic_distance(
        n as int,
        o as int,
        cols[x] as int,
    ) == x by {}
    assert forall|x: int, y: int| 0 <= x < y < d implies cols[x] != cols[y] by {
        assert(cyclic_distance(n as int, o as int, cols[x] as int) == x);
        assert(cyclic_distance(n as int, o as int, cols[y] as int) == y);
    }
    assert forall|p: int| #[trigger] lists_col(cols, d as int, p) == in_block(n, o, d, p) by {
        if in_block(n, o, d, p) {
            let off = cyclic_distance(n as int, o as int, p);
            assert(cols[off] == p);
        }
    }
}

/// Constant degree, cyclically contiguous supports: row `r` holds exactly
/// the `d` columns `[o, o + d) mod n` with `o = block_offset(seed, n, r)`.
/// Rows use `words_per_row(n)` words.
pub fn block_local_bits(n: usize, d: usize, seed: u64) -> (bits: Vec<u64>)
    requires
        d <= n,
        n * words_for(n as nat) <= usize::MAX,
    ensures
        bits@.len() == n * words_for(n as nat),
        forall|r: nat, p: nat|
            r < n && p < 64 * words_for(n as nat) ==> #[trigger] word_bit(
                row_words(bits@, words_for(n as nat), r),
                p,
            ) == in_block(n as nat, block_offset(seed, n as nat, r as usize), d as nat, p as int),
        forall|r: nat| r < n ==> #[trigger] row_ones_spec(bits@, words_for(n as nat), r) == d,
{
    let nb_words = words_per_row(n);
    let mut bits = zero_words(n * nb_words);
    proof {
        lemma_zero_rows(n as nat, nb_words as nat);
        assert(bits@ == zero_words_spec(n as nat * nb_words as nat));
    }
    let mut i: usize = 0;
    while i < n
        invariant
            i <= n,
            d <= n,
            nb_words == words_for(n as nat),
            64 * nb_words >= n,
            bits@.len() == n * nb_words,
            forall|r: nat, p: nat|
                r < i && p < 64 * nb_words ==> #[trigger] word_bit(
                    row_words(bits@, nb_words as nat, r),
                    p,
                ) == in_block(n as nat, block_offset(seed, n as nat, r as usize), d as nat, p as int),
            forall|r: nat| r < i ==> #[trigger] row_ones_spec(bits@, nb_words as nat, r) == d,
            forall|r: nat| i <= r < n ==> #[trigger] row_words(bits@, nb_words as nat, r) == zero_row(
                nb_words as nat,
            ),
        decreases n - i,
    {
        let row_seed = workload_row_seed(seed, i);
        let o = (row_seed as usize) % n;
        let cols = block_cols(n, o, d);
        proof {
            lemma_block_lists(cols@, n as nat, o as nat, d as nat);
        }
        let ghost before = bits@;
        fill_row(&mut bits, n, nb_words, i, cols.as_slice(), d);
        proof {
            let row = row_words(bits@, nb_words as nat, i as nat);
            lemma_row_position(n as nat, nb_words as nat, i as nat, 0, 0);
            lemma_listed_row_ones(row, cols@, d as nat);
            assert forall|r: nat| r < i implies #[trigger] row_ones_spec(bits@, nb_words as nat, r)
                == d by {
                assert(row_ones_spec(before, nb_words as nat, r) == d);
                assert(row_words(bits@, nb_words as nat, r) == row_words(before, nb_words as nat, r));
            }
        }
        i = i + 1;
    }
    bits
}

/// Capacity tier of position `i`: 8 for the first `t1`, 2 for the next
/// `t2`, 1 for the rest.
pub open spec fn tier_of(i: int, t1: int, t2: int) -> u32 {
    if i < t1 {
        8
    } else if i < t1 + t2 {
        2
    } else {
        1
    }
}

/// Heterogeneous capacity tiers: positions `0..t1` get 8, the next `t2`
/// get 2, the rest 1, and the tiers are scattered over `0..n` by the
/// shuffle seeded by `seed`: the result at `shuffle[i]` is the tier of `i`.
pub fn hetero_tiers(n: usize, t1: usize, t2: usize, seed: u64) -> (caps: Vec<u32>)
    ensures
        caps@.len() == n,
        forall|i: int|
            0 <= i < n ==> caps@[#[trigger] shuffle_range_spec(n as nat, seed)[i] as int] == tier_of(
                i,
                t1 as int,
                t2 as int,
            ),
{
    let perm = shuffle_range(n, seed);
    let mut caps: Vec<u32> = Vec::new();
    let mut q: usize = 0;
    while q < n
        invariant
            q <= n,
            caps@.len() == q,
        decreases n - q,
    {
        caps.push(0);
        q = q + 1;
    }
    let mut i: usize = 0;
    while i < n
        invariant
            i <= n,
            caps@.len() == n,
            perm@ == shuffle_range_spec(n as nat, seed),
            is_permutation(perm@, n as nat),
            forall|x: int| 0 <= x < i ==> caps@[#[trigger] perm@[x] as int] == tier_of(
                x,
                t1 as int,
                t2 as int,
            ),
        decreases n - i,
    {
        let tier: u32 = if i < t1 {
            8
        } else if i - t1 < t2 {
            2
        } else {
            1
        };
        let slot = perm[i];
        caps.set(slot, tier);
        proof {
            assert forall|x: int| 0 <= x < i + 1 implies caps@[#[trigger] perm@[x] as int] == tier_of(
                x,
                t1 as int,
                t2 as int,
            ) by {
                if x < i {
                    assert(perm@[x] != perm@[i as int]);
                }
            }
        }
        i = i + 1;
    }
    caps
}

/// The four canonical workload profiles.
#[derive(Debug, Clone, Copy, PartialEq, Eq, Structural)]
pub enum Profile {
    DenseUniform,
    DenseDiverse,
    SparseDiverse,
    BlockLocal,
}

/// The name of each profile.
pub open spec fn profile_name(p: Profile) -> Seq<char> {
    match p {
        Profile::DenseUniform => "dense_uniform"@,
        Profile::DenseDiverse => "dense_diverse"@,
        Profile::SparseDiverse => "sparse_diverse"@,
        Profile::BlockLocal => "block_local"@,
    }
}

impl Profile {
    /// Every profile, in declaration order.
    pub const ALL: [Profile; 4] = [
        Profile::DenseUniform,
        Profile::DenseDiverse,
        Profile::SparseDiverse,
        Profile::BlockLocal,
    ];

    /// The profile's name, which also prefixes its workload labels.
    pub fn name(self) -> (r: &'static str)
        ensures
            r@ == profile_name(self),
    {
        match self {
            Profile::DenseUniform => "dense_uniform",
            Profile::DenseDiverse => "dense_diverse",
            Profile::SparseDiverse => "sparse_diverse",
            Profile::BlockLocal => "block_local",
        }
    }
}

} // verus!
