//! Rank/select routers (intrinsic occupancy transport).
//!
//! The source side walks a row's own occupancy space: for `r` in
//! `0..d_j` (`d_j` = degree of source row `j`) the row visits the occupancy
//! index `r'` given by a per-row bijection of `[0, d_j)` and decodes it to
//! the physical column `select1(s_bits[j], r')`. The target side is the
//! cyclic window test of the phase router. Three transports are provided:
//!
//! - `phase_router_rs`        — additive `r' = (r + φ_j) mod d_j`,
//!   `φ_j = mix64(seed + j + col_perm_s[j]) mod d_j`;
//! - `phase_router_rs_affine` — affine `r' = (a_j·r + b_j) mod d_j` with
//!   `gcd(a_j, d_j) = 1`;
//! - `phase_router_rs_hybrid` — additive with the cumulative-degree phase
//!   `φ_j = offsets_s[j] mod d_j`.
//!
//! `col_perm_s` only perturbs the per-row seeds.

use vstd::prelude::*;
use crate::bitspec::{lemma_rank_le, rank_of, total_ones, word_bit};
use crate::bitsupport::{
    coprime_multiplier, lemma_select_exists, lemma_select_is_select_spec, mix64, mix64_spec,
    select1, select_spec,
};
use crate::reservoir::{
    draws_needed, lemma_reservoir_len, reservoir, reservoir_select, row_slots, sampled_from,
};
use crate::rng::{reservoir_draws, seeded_draws};
use crate::router::{
    cyclic_hit, in_cyclic_interval, lemma_append_row_slots, lemma_mod_distinct, target_ok,
};
use crate::rows::{
    compute_offsets, compute_row_ones, is_permutation, offset_spec, offsets_seq, row_ones_seq,
    row_ones_spec, row_words,
};

verus! {

/// The columns a rank/select row offers, in visit order: the `i`-th visited
/// occupancy index `order[i]` decodes to `col = select(words, order[i])`,
/// kept when `p_t` lies in the target window `(offsets_t[col], ones_t[col])`.
pub open spec fn rs_candidates(
    words: Seq<u64>,
    order: Seq<usize>,
    offsets_t: Seq<usize>,
    ones_t: Seq<usize>,
    n: nat,
    p_t: usize,
    t: nat,
) -> Seq<i32>
    decreases t,
{
    if t == 0 {
        Seq::empty()
    } else {
        let prev = rs_candidates(words, order, offsets_t, ones_t, n, p_t, (t - 1) as nat);
        let col = select_spec(words, (order[t - 1] as u32) as nat);
        if cyclic_hit(p_t, offsets_t[col as int], ones_t[col as int], n as usize) {
            prev.push(col as i32)
        } else {
            prev
        }
    }
}

/// Every set bit of `words` lies below `n`.
pub open spec fn bits_below(words: Seq<u64>, n: nat) -> bool {
    forall|p: nat| #[trigger] word_bit(words, p) ==> p < n
}

/// One rank/select row: decode the occupancy indices of `order` in turn,
/// collect the columns whose target window holds `p_t`, and sample `k` of
/// them with a generator seeded by `rng_seed`.
pub fn rs_router_row(
    row_words: &[u64],
    order: &[usize],
    offsets_t: &[usize],
    ones_t: &[usize],
    n: usize,
    k: usize,
    p_t: usize,
    rng_seed: u64,
) -> (row: Vec<i32>)
    requires
        64 * row_words@.len() <= usize::MAX,
        bits_below(row_words@, n as nat),
        forall|i: int| 0 <= i < order@.len() ==> order@[i] < total_ones(row_words@),
        offsets_t@.len() == n,
        ones_t@.len() == n,
    ensures
        ({
            let cands = rs_candidates(
                row_words@,
                order@,
                offsets_t@,
                ones_t@,
                n as nat,
                p_t,
                order@.len(),
            );
            sampled_from(
                row@,
                cands,
                k as nat,
                seeded_draws(rng_seed, k as nat, draws_needed(k as nat, cands.len())),
            )
        }),
{
    let mut cands: Vec<i32> = Vec::new();
    let mut i: usize = 0;
    while i < order.len()
        invariant
            i <= order@.len(),
            64 * row_words@.len() <= usize::MAX,
            bits_below(row_words@, n as nat),
            forall|q: int| 0 <= q < order@.len() ==> order@[q] < total_ones(row_words@),
            offsets_t@.len() == n,
            ones_t@.len() == n,
            cands@ == rs_candidates(
                row_words@,
                order@,
                offsets_t@,
                ones_t@,
                n as nat,
                p_t,
                i as nat,
            ),
            cands@.len() <= i,
        decreases order@.len() - i,
    {
        let r = order[i];
        assert((r as u32) as usize <= r) by (bit_vector);
        let col = select1(row_words, r as u32);
        proof {
            lemma_select_is_select_spec(row_words@, (r as u32) as nat, col as nat);
        }
        if in_cyclic_interval(p_t, offsets_t[col], ones_t[col], n) {
            cands.push(#[verifier::truncate] (col as i32));
        }
        i = i + 1;
    }
    let m = cands.len();
    let extra = if m > k {
        m - k
    } else {
        0
    };
    let draws = reservoir_draws(rng_seed, k, extra);
    let row = reservoir_select(cands.as_slice(), k, draws.as_slice());
    assert(sampled_from(row@, cands@, k as nat, draws@));
    row
}


/// The rank-space transport of a rank/select router.
#[derive(PartialEq, Eq, Structural, Clone, Copy)]
pub enum Transport {
    /// `r' = (r + φ_j) mod d_j` with a hashed phase.
    Additive,
    /// `r' = (a_j·r + b_j) mod d_j` with `gcd(a_j, d_j) = 1`.
    Affine,
    /// `r' = (r + offsets_s[j]) mod d_j`.
    Hybrid,
}

/// `[(r + phi) mod d for r in 0..d]`.
pub open spec fn shift_order(d: nat, phi: nat) -> Seq<usize> {
    Seq::new(d, |r: int| ((r + phi) % (d as int)) as usize)
}

/// `[(a·r + b) mod d for r in 0..d]`, the product and sum wrapping in `usize`.
pub open spec fn affine_order(d: usize, a: usize, b: usize) -> Seq<usize> {
    Seq::new(
        d as nat,
        |r: int|
            (vstd::wrapping::usize_specs::wrapping_add(
                vstd::wrapping::usize_specs::wrapping_mul(a, r as usize),
                b,
            ) % d) as usize,
    )
}

/// Per-row seed of the rank/select routers: `seed + j + col_perm_s[j]`,
/// wrapping.
pub open spec fn rs_row_seed(seed: u64, j: nat, cps_j: usize) -> u64 {
    vstd::wrapping::u64_specs::wrapping_add(
        vstd::wrapping::u64_specs::wrapping_add(seed, j as u64),
        cps_j as u64,
    )
}

/// The affine multiplier of a row of degree `d` with row seed `row_seed`.
pub open spec fn affine_multiplier(d: usize, row_seed: u64) -> usize {
    if d <= 1 {
        1
    } else {
        crate::bitsupport::coprime_search(d as nat, row_seed ^ 0xA1F1_F2F3_F4F5_F6F7u64, u64::MAX as nat)
            as usize
    }
}

/// The seed of the reservoir generator of a row with row seed `row_seed`.
pub open spec fn rs_rng_seed(tr: Transport, row_seed: u64) -> u64 {
    match tr {
        Transport::Additive => vstd::wrapping::u64_specs::wrapping_add(row_seed, 0xC0FFEEu64),
        Transport::Affine => row_seed ^ 0xC0FF_EE_C0FFEEu64,
        Transport::Hybrid => row_seed ^ 0xC0FF_EE_C0FFEEu64,
    }
}

/// The occupancy order of a row of degree `d` under transport `tr`, given
/// the row seed and the row's cumulative-degree offset.
pub open spec fn transport_order(tr: Transport, d: nat, row_seed: u64, offset: nat) -> Seq<usize> {
    match tr {
        Transport::Additive => shift_order(d, ((mix64_spec(row_seed) as usize) as nat) % d),
        Transport::Affine => affine_order(
            d as usize,
            affine_multiplier(d as usize, row_seed),
            ((mix64_spec(row_seed ^ 0xB0B1_B2B3_B4B5_B6B7u64) as usize) as nat % d) as usize,
        ),
        Transport::Hybrid => shift_order(d, offset % d),
    }
}

/// The order in which row `j` visits its occupancy indices.
pub open spec fn rs_row_order(
    tr: Transport,
    s_bits: Seq<u64>,
    n: nat,
    nb_words: nat,
    col_perm_s: Seq<usize>,
    seed: u64,
    j: nat,
) -> Seq<usize> {
    transport_order(
        tr,
        row_ones_spec(s_bits, nb_words, j),
        rs_row_seed(seed, j, col_perm_s[j as int]),
        offset_spec(s_bits, n, nb_words, j),
    )
}

/// Candidates of row `j` of the rank/select router with transport `tr`.
pub open spec fn rs_row_candidates(
    tr: Transport,
    s_bits: Seq<u64>,
    t_bits: Seq<u64>,
    n: nat,
    nb_words: nat,
    col_perm_s: Seq<usize>,
    col_perm_t: Seq<usize>,
    seed: u64,
    j: nat,
) -> Seq<i32> {
    rs_candidates(
        row_words(s_bits, nb_words, j),
        rs_row_order(tr, s_bits, n, nb_words, col_perm_s, seed, j),
        offsets_seq(t_bits, n, nb_words),
        row_ones_seq(t_bits, n, nb_words),
        n,
        col_perm_t[j as int],
        row_ones_spec(s_bits, nb_words, j),
    )
}

/// The draws row `j` takes: those of the generator seeded with
/// `rs_rng_seed(tr, seed + j + col_perm_s[j])`.
pub open spec fn rs_row_draws(
    tr: Transport,
    cands: Seq<i32>,
    k: nat,
    col_perm_s: Seq<usize>,
    seed: u64,
    j: nat,
) -> Seq<usize> {
    seeded_draws(
        rs_rng_seed(tr, rs_row_seed(seed, j, col_perm_s[j as int])),
        k,
        draws_needed(k, cands.len()),
    )
}

/// Row `j` of `routes` is Algorithm R over row `j`'s candidates with the
/// draws of row `j`'s generator.
pub open spec fn rs_row_ok(
    tr: Transport,
    routes: Seq<i32>,
    s_bits: Seq<u64>,
    t_bits: Seq<u64>,
    n: nat,
    nb_words: nat,
    k: nat,
    col_perm_s: Seq<usize>,
    col_perm_t: Seq<usize>,
    seed: u64,
    j: nat,
) -> bool {
    let cands = rs_row_candidates(tr, s_bits, t_bits, n, nb_words, col_perm_s, col_perm_t, seed, j);
    sampled_from(row_slots(routes, k, j), cands, k, rs_row_draws(tr, cands, k, col_perm_s, seed, j))
}

/// `routes` is the output of the rank/select router with transport `tr`:
/// `n` rows of `k` slots, row `j` sampled from row `j`'s candidates with
/// row `j`'s generator.
pub open spec fn is_rs_routing(
    tr: Transport,
    routes: Seq<i32>,
    s_bits: Seq<u64>,
    t_bits: Seq<u64>,
    n: nat,
    nb_words: nat,
    k: nat,
    col_perm_s: Seq<usize>,
    col_perm_t: Seq<usize>,
    seed: u64,
) -> bool {
    &&& routes.len() == n * k
    &&& forall|j: nat|
        j < n ==> #[trigger] rs_row_ok(
            tr,
            routes,
            s_bits,
            t_bits,
            n,
            nb_words,
            k,
            col_perm_s,
            col_perm_t,
            seed,
            j,
        )
}

/// What the rank/select routers require: the dimensions of the inputs, and
/// every set bit of every source row inside `[0, n)`.
pub open spec fn rs_inputs_ok(
    s_bits: Seq<u64>,
    t_bits: Seq<u64>,
    n: nat,
    nb_words: nat,
    k: nat,
    col_perm_s: Seq<usize>,
    col_perm_t: Seq<usize>,
) -> bool {
    &&& k > 0
    &&& s_bits.len() == n * nb_words
    &&& t_bits.len() == n * nb_words
    &&& n + 64 * nb_words <= usize::MAX
    &&& n * k <= usize::MAX
    &&& col_perm_s.len() == n
    &&& col_perm_t.len() == n
    &&& forall|j: nat| j < n ==> #[trigger] bits_below(row_words(s_bits, nb_words, j), n)
}

/// `[(r + phi) mod d for r in 0..d]`.
fn shift_order_vec(d: usize, phi: usize) -> (order: Vec<usize>)
    requires
        phi < d,
        d + d <= usize::MAX,
    ensures
        order@ == shift_order(d as nat, phi as nat),
        forall|i: int| 0 <= i < order@.len() ==> order@[i] < d,
{
    let mut order: Vec<usize> = Vec::new();
    let mut r: usize = 0;
    while r < d
        invariant
            r <= d,
            phi < d,
            d + d <= usize::MAX,
            order@ == shift_order(d as nat, phi as nat).take(r as int),
        decreases d - r,
    {
        let mut rp = r + phi;
        if rp >= d {
            rp = rp - d;
        }
        proof {
            if r + phi >= d {
                vstd::arithmetic::div_mod::lemma_fundamental_div_mod_converse(
                    (r + phi) as int,
                    d as int,
                    1,
                    (r + phi - d) as int,
                );
            } else {
                vstd::arithmetic::div_mod::lemma_small_mod((r + phi) as nat, d as nat);
            }
            assert(shift_order(d as nat, phi as nat).take(r + 1) =~= order@.push(rp));
        }
        order.push(rp);
        r = r + 1;
    }
    assert(shift_order(d as nat, phi as nat).take(d as int) =~= shift_order(d as nat, phi as nat));
    order
}

/// `[(a·r + b) mod d for r in 0..d]`, the product and sum wrapping.
fn affine_order_vec(d: usize, a: usize, b: usize) -> (order: Vec<usize>)
    requires
        d > 0,
    ensures
        order@ == affine_order(d, a, b),
        forall|i: int| 0 <= i < order@.len() ==> order@[i] < d,
{
    let mut order: Vec<usize> = Vec::new();
    let mut r: usize = 0;
    while r < d
        invariant
            r <= d,
            d > 0,
            order@ == affine_order(d, a, b).take(r as int),
        decreases d - r,
    {
        let rp = (a.wrapping_mul(r).wrapping_add(b)) % d;
        proof {
            assert(affine_order(d, a, b).take(r + 1) =~= order@.push(rp));
        }
        order.push(rp);
        r = r + 1;
    }
    assert(affine_order(d, a, b).take(d as int) =~= affine_order(d, a, b));
    order
}

/// The set-bit count of a row bounds below `n` when all its bits do.
proof fn lemma_degree_below_n(words: Seq<u64>, n: nat)
    requires
        bits_below(words, n),
    ensures
        total_ones(words) <= n,
{
    let end = 64 * words.len();
    if end <= n {
        lemma_rank_le(words, end);
    } else {
        lemma_rank_le(words, n);
        lemma_rank_beyond(words, n, end);
    }
}

/// With no set bit at or past `m`, ranks stop growing at `m`.
proof fn lemma_rank_beyond(words: Seq<u64>, m: nat, q: nat)
    requires
        m <= q,
        bits_below(words, m),
    ensures
        rank_of(words, q) == rank_of(words, m),
    decreases q,
{
    if q > m {
        lemma_rank_beyond(words, m, (q - 1) as nat);
    }
}

/// The occupancy order of a row of degree `d` and the seed of its
/// reservoir generator.
fn visit_order(tr: Transport, d: usize, row_seed: u64, offset: usize) -> (res: (Vec<usize>, u64))
    requires
        d > 0,
        d + d <= usize::MAX,
    ensures
        res.0@ == transport_order(tr, d as nat, row_seed, offset as nat),
        res.1 == rs_rng_seed(tr, row_seed),
        forall|i: int| 0 <= i < res.0@.len() ==> res.0@[i] < d,
{
    match tr {
        Transport::Additive => {
            let phi = (#[verifier::truncate] (mix64(row_seed) as usize)) % d;
            (shift_order_vec(d, phi), row_seed.wrapping_add(0xC0FFEE))
        },
        Transport::Affine => {
            let a = coprime_multiplier(d, row_seed ^ 0xA1F1_F2F3_F4F5_F6F7);
            let b = (#[verifier::truncate] (mix64(row_seed ^ 0xB0B1_B2B3_B4B5_B6B7) as usize)) % d;
            (affine_order_vec(d, a, b), row_seed ^ 0xC0FF_EE_C0FFEE)
        },
        Transport::Hybrid => {
            let phi = offset % d;
            (shift_order_vec(d, phi), row_seed ^ 0xC0FF_EE_C0FFEE)
        },
    }
}

/// The candidates row `j` offers, over the given target windows.
pub open spec fn rs_row_candidates_over(
    tr: Transport,
    s_bits: Seq<u64>,
    n: nat,
    nb_words: nat,
    col_perm_s: Seq<usize>,
    col_perm_t: Seq<usize>,
    seed: u64,
    offsets_t: Seq<usize>,
    ones_t: Seq<usize>,
    j: nat,
) -> Seq<i32> {
    rs_candidates(
        row_words(s_bits, nb_words, j),
        rs_row_order(tr, s_bits, n, nb_words, col_perm_s, seed, j),
        offsets_t,
        ones_t,
        n,
        col_perm_t[j as int],
        row_ones_spec(s_bits, nb_words, j),
    )
}

/// Row `j` of the rank/select router with transport `tr`.
fn rs_route_row_j(
    tr: Transport,
    s_bits: &[u64],
    offsets_s: &[usize],
    ones_s: &[usize],
    offsets_t: &[usize],
    ones_t: &[usize],
    n: usize,
    nb_words: usize,
    k: usize,
    col_perm_s: &[usize],
    col_perm_t: &[usize],
    seed: u64,
    j: usize,
) -> (row: Vec<i32>)
    requires
        j < n,
        s_bits@.len() == n * nb_words,
        n + 64 * nb_words <= usize::MAX,
        col_perm_s@.len() == n,
        col_perm_t@.len() == n,
        bits_below(row_words(s_bits@, nb_words as nat, j as nat), n as nat),
        offsets_s@.len() == n,
        ones_s@.len() == n,
        offsets_s@[j as int] == offset_spec(s_bits@, n as nat, nb_words as nat, j as nat),
        ones_s@[j as int] == row_ones_spec(s_bits@, nb_words as nat, j as nat),
        offsets_t@.len() == n,
        ones_t@.len() == n,
    ensures
        ({
            let cands = rs_row_candidates_over(
                tr,
                s_bits@,
                n as nat,
                nb_words as nat,
                col_perm_s@,
                col_perm_t@,
                seed,
                offsets_t@,
                ones_t@,
                j as nat,
            );
            sampled_from(row@, cands, k as nat, rs_row_draws(tr, cands, k as nat, col_perm_s@, seed, j as nat))
        }),
{
    let ghost cands = rs_row_candidates_over(
        tr,
        s_bits@,
        n as nat,
        nb_words as nat,
        col_perm_s@,
        col_perm_t@,
        seed,
        offsets_t@,
        ones_t@,
        j as nat,
    );
    let degree = ones_s[j];
    let total = s_bits.len();
    let row: Vec<i32>;
    if degree == 0 {
        let none: Vec<i32> = Vec::new();
        let no_draws: Vec<usize> = Vec::new();
        row = reservoir_select(none.as_slice(), k, no_draws.as_slice());
        proof {
            assert(cands =~= none@);
            assert(no_draws@ =~= rs_row_draws(tr, cands, k as nat, col_perm_s@, seed, j as nat));
            assert(sampled_from(row@, cands, k as nat, no_draws@));
        }
    } else {
        assert(j * nb_words + nb_words <= n * nb_words) by (nonlinear_arith)
            requires
                j < n,
        ;
        assert(j * nb_words + nb_words == (j + 1) * nb_words) by (nonlinear_arith);
        let row_words_s = &s_bits[j * nb_words..(j + 1) * nb_words];
        proof {
            assert(row_words_s@ == row_words(s_bits@, nb_words as nat, j as nat));
            assert(bits_below(row_words(s_bits@, nb_words as nat, j as nat), n as nat));
            lemma_degree_below_n(row_words_s@, n as nat);
            assert(64 * row_words_s@.len() <= usize::MAX) by (nonlinear_arith)
                requires
                    row_words_s@.len() == nb_words,
                    n + 64 * nb_words <= usize::MAX,
            ;
            lemma_rank_le(row_words_s@, 64 * row_words_s@.len());
        }
        let row_seed = seed.wrapping_add(j as u64).wrapping_add(col_perm_s[j] as u64);
        let p_t = col_perm_t[j];
        let (order, rng_seed) = visit_order(tr, degree, row_seed, offsets_s[j]);
        proof {
            assert(row_seed == rs_row_seed(seed, j as nat, col_perm_s@[j as int]));
            assert(order@ == rs_row_order(tr, s_bits@, n as nat, nb_words as nat, col_perm_s@, seed, j as nat));
            assert(order@.len() == degree);
        }
        row = rs_router_row(
            row_words_s,
            order.as_slice(),
            offsets_t,
            ones_t,
            n,
            k,
            p_t,
            rng_seed,
        );
        proof {
            assert(rs_candidates(row_words_s@, order@, offsets_t@, ones_t@, n as nat, p_t, order@.len())
                == cands);
        }
    }
    row
}

/// The shared driver of the three rank/select routers.
fn route_rank_select(
    tr: Transport,
    s_bits: &[u64],
    t_bits: &[u64],
    n: usize,
    nb_words: usize,
    k: usize,
    col_perm_s: &[usize],
    col_perm_t: &[usize],
    seed: u64,
) -> (routes: Vec<i32>)
    requires
        rs_inputs_ok(s_bits@, t_bits@, n as nat, nb_words as nat, k as nat, col_perm_s@, col_perm_t@),
    ensures
        is_rs_routing(
            tr,
            routes@,
            s_bits@,
            t_bits@,
            n as nat,
            nb_words as nat,
            k as nat,
            col_perm_s@,
            col_perm_t@,
            seed,
        ),
{
    assert(n > 0 ==> (n - 1) * nb_words <= n * nb_words) by (nonlinear_arith);
    let offsets_s = compute_offsets(s_bits, n, nb_words);
    let offsets_t = compute_offsets(t_bits, n, nb_words);
    let ones_t = compute_row_ones(t_bits, n, nb_words);
    let ones_s = compute_row_ones(s_bits, n, nb_words);
    proof {
        assert(offsets_t@ =~= offsets_seq(t_bits@, n as nat, nb_words as nat));
        assert(ones_t@ =~= row_ones_seq(t_bits@, n as nat, nb_words as nat));
    }
    let mut routes: Vec<i32> = Vec::new();
    assert(0 * k == 0);
    let mut j: usize = 0;
    while j < n
        invariant
            j <= n,
            rs_inputs_ok(s_bits@, t_bits@, n as nat, nb_words as nat, k as nat, col_perm_s@, col_perm_t@),
            offsets_s@.len() == n,
            forall|i: int| 0 <= i < n ==> offsets_s@[i] == offset_spec(s_bits@, n as nat, nb_words as nat, i as nat),
            ones_s@.len() == n,
            forall|i: int| 0 <= i < n ==> ones_s@[i] == row_ones_spec(s_bits@, nb_words as nat, i as nat),
            offsets_t@ == offsets_seq(t_bits@, n as nat, nb_words as nat),
            ones_t@ == row_ones_seq(t_bits@, n as nat, nb_words as nat),
            offsets_t@.len() == n,
            ones_t@.len() == n,
            routes@.len() == j * k,
            forall|jj: nat|
                jj < j ==> #[trigger] rs_row_ok(
                    tr,
                    routes@,
                    s_bits@,
                    t_bits@,
                    n as nat,
                    nb_words as nat,
                    k as nat,
                    col_perm_s@,
                    col_perm_t@,
                    seed,
                    jj,
                ),
        decreases n - j,
    {
        let ghost cands = rs_row_candidates(
            tr,
            s_bits@,
            t_bits@,
            n as nat,
            nb_words as nat,
            col_perm_s@,
            col_perm_t@,
            seed,
            j as nat,
        );
        let row = rs_route_row_j(
            tr,
            s_bits,
            offsets_s.as_slice(),
            ones_s.as_slice(),
            offsets_t.as_slice(),
            ones_t.as_slice(),
            n,
            nb_words,
            k,
            col_perm_s,
            col_perm_t,
            seed,
            j,
        );
        assert(cands == rs_row_candidates_over(
            tr,
            s_bits@,
            n as nat,
            nb_words as nat,
            col_perm_s@,
            col_perm_t@,
            seed,
            offsets_t@,
            ones_t@,
            j as nat,
        ));
        proof {
            lemma_reservoir_len(cands, k as nat, rs_row_draws(tr, cands, k as nat, col_perm_s@, seed, j as nat));
            lemma_append_row_slots(routes@, row@, k as nat, j as nat);
            assert((j + 1) * k <= n * k) by (nonlinear_arith)
                requires
                    j < n,
            ;
        }
        let ghost before = routes@;
        crate::router::append_row(&mut routes, &row);
        proof {
            assert forall|jj: nat| jj < j + 1 implies #[trigger] rs_row_ok(
                tr,
                routes@,
                s_bits@,
                t_bits@,
                n as nat,
                nb_words as nat,
                k as nat,
                col_perm_s@,
                col_perm_t@,
                seed,
                jj,
            ) by {
                if jj < j {
                    assert(row_slots(routes@, k as nat, jj) == row_slots(before, k as nat, jj));
                    assert(rs_row_ok(
                        tr,
                        before,
                        s_bits@,
                        t_bits@,
                        n as nat,
                        nb_words as nat,
                        k as nat,
                        col_perm_s@,
                        col_perm_t@,
                        seed,
                        jj,
                    ));
                }
            }
        }
        j = j + 1;
    }
    routes
}

/// Rank/select router with **additive** rank-space transport:
/// `r' = (r + φ_j) mod d_j`, `φ_j = mix64(seed + j + col_perm_s[j]) mod d_j`.
/// Rows of degree 0 stay empty (-1).
pub fn phase_router_rs(
    s_bits: &[u64],
    t_bits: &[u64],
    n: usize,
    nb_words: usize,
    k: usize,
    col_perm_s: &[usize],
    col_perm_t: &[usize],
    seed: u64,
) -> (routes: Vec<i32>)
    requires
        rs_inputs_ok(s_bits@, t_bits@, n as nat, nb_words as nat, k as nat, col_perm_s@, col_perm_t@),
    ensures
        is_rs_routing(
            Transport::Additive,
            routes@,
            s_bits@,
            t_bits@,
            n as nat,
            nb_words as nat,
            k as nat,
            col_perm_s@,
            col_perm_t@,
            seed,
        ),
{
    route_rank_select(Transport::Additive, s_bits, t_bits, n, nb_words, k, col_perm_s, col_perm_t, seed)
}

/// Rank/select router with **affine** rank-space transport:
/// `r' = (a_j · r + b_j) mod d_j`, with `gcd(a_j, d_j) = 1`. Per-row affine
/// mixers replace the global source-side permutation; `col_perm_s` only
/// perturbs the `(a_j, b_j)` seed.
pub fn phase_router_rs_affine(
    s_bits: &[u64],
    t_bits: &[u64],
    n: usize,
    nb_words: usize,
    k: usize,
    col_perm_s: &[usize],
    col_perm_t: &[usize],
    seed: u64,
) -> (routes: Vec<i32>)
    requires
        rs_inputs_ok(s_bits@, t_bits@, n as nat, nb_words as nat, k as nat, col_perm_s@, col_perm_t@),
    ensures
        is_rs_routing(
            Transport::Affine,
            routes@,
            s_bits@,
            t_bits@,
            n as nat,
            nb_words as nat,
            k as nat,
            col_perm_s@,
            col_perm_t@,
            seed,
        ),
{
    route_rank_select(Transport::Affine, s_bits, t_bits, n, nb_words, k, col_perm_s, col_perm_t, seed)
}

/// **Hybrid** rank/select router: the phase of row `j` is its cumulative
/// degree `offsets_s[j] mod d_j`, and the walk `r = (i + phase) mod d_j`
/// decodes intrinsically via `select1`.
pub fn phase_router_rs_hybrid(
    s_bits: &[u64],
    t_bits: &[u64],
    n: usize,
    nb_words: usize,
    k: usize,
    col_perm_s: &[usize],
    col_perm_t: &[usize],
    seed: u64,
) -> (routes: Vec<i32>)
    requires
        rs_inputs_ok(s_bits@, t_bits@, n as nat, nb_words as nat, k as nat, col_perm_s@, col_perm_t@),
    ensures
        is_rs_routing(
            Transport::Hybrid,
            routes@,
            s_bits@,
            t_bits@,
            n as nat,
            nb_words as nat,
            k as nat,
            col_perm_s@,
            col_perm_t@,
            seed,
        ),
{
    route_rank_select(Transport::Hybrid, s_bits, t_bits, n, nb_words, k, col_perm_s, col_perm_t, seed)
}


// ── laws of the rank/select routers ──────────────────────────────────────

/// Column decoded at visit `i`.
pub open spec fn rs_decoded(words: Seq<u64>, order: Seq<usize>, i: int) -> i32 {
    select_spec(words, (order[i] as u32) as nat) as i32
}

/// `v` is the column decoded at one of the first `t` visits.
pub open spec fn in_rs_walk(v: i32, words: Seq<u64>, order: Seq<usize>, t: nat) -> bool {
    exists|tp: int| 0 <= tp < t && v == #[trigger] rs_decoded(words, order, tp)
}

proof fn lemma_rs_cands_facts(
    words: Seq<u64>,
    order: Seq<usize>,
    offsets_t: Seq<usize>,
    ones_t: Seq<usize>,
    n: nat,
    p_t: usize,
    t: nat,
)
    requires
        n <= i32::MAX,
        bits_below(words, n),
        t <= order.len(),
        forall|i: int| 0 <= i < order.len() ==> order[i] < total_ones(words),
    ensures
        forall|i: int|
            0 <= i < rs_candidates(words, order, offsets_t, ones_t, n, p_t, t).len() ==> {
                let v = #[trigger] rs_candidates(words, order, offsets_t, ones_t, n, p_t, t)[i];
                &&& target_ok(v, p_t, offsets_t, ones_t, n)
                &&& word_bit(words, v as nat)
                &&& in_rs_walk(v, words, order, t)
            },
    decreases t,
{
    if t > 0 {
        let t1 = (t - 1) as nat;
        lemma_rs_cands_facts(words, order, offsets_t, ones_t, n, p_t, t1);
        let prev = rs_candidates(words, order, offsets_t, ones_t, n, p_t, t1);
        let cur = rs_candidates(words, order, offsets_t, ones_t, n, p_t, t);
        lemma_degree_below_n(words, n);
        let x = order[t1 as int];
        assert((x as u32) as nat == x);
        lemma_select_exists(words, x as nat, 64 * words.len());
        let col = select_spec(words, x as nat);
        assert(col < n);
        assert forall|i: int| 0 <= i < cur.len() implies {
            let v = #[trigger] cur[i];
            &&& target_ok(v, p_t, offsets_t, ones_t, n)
            &&& word_bit(words, v as nat)
            &&& in_rs_walk(v, words, order, t)
        } by {
            if i < prev.len() {
                assert(cur[i] == prev[i]);
                assert(in_rs_walk(prev[i], words, order, t1));
                let tp = choose|tp: int| 0 <= tp < t1 && prev[i] == #[trigger] rs_decoded(words, order, tp);
                assert(0 <= tp < t && cur[i] == rs_decoded(words, order, tp));
            } else {
                assert(cur[i] == rs_decoded(words, order, t1 as int));
                assert(cur[i] == col as i32);
            }
        }
    }
}

/// Distinct occupancy indices decode to distinct columns.
proof fn lemma_rs_cands_distinct(
    words: Seq<u64>,
    order: Seq<usize>,
    offsets_t: Seq<usize>,
    ones_t: Seq<usize>,
    n: nat,
    p_t: usize,
    t: nat,
)
    requires
        n <= i32::MAX,
        bits_below(words, n),
        t <= order.len(),
        forall|i: int| 0 <= i < order.len() ==> order[i] < total_ones(words),
        forall|a: int, b: int| 0 <= a < b < order.len() ==> order[a] != order[b],
    ensures
        forall|i: int, j: int|
            0 <= i < j < rs_candidates(words, order, offsets_t, ones_t, n, p_t, t).len()
                ==> rs_candidates(words, order, offsets_t, ones_t, n, p_t, t)[i]
                != rs_candidates(words, order, offsets_t, ones_t, n, p_t, t)[j],
    decreases t,
{
    if t > 0 {
        let t1 = (t - 1) as nat;
        lemma_rs_cands_distinct(words, order, offsets_t, ones_t, n, p_t, t1);
        lemma_rs_cands_facts(words, order, offsets_t, ones_t, n, p_t, t1);
        lemma_degree_below_n(words, n);
        let prev = rs_candidates(words, order, offsets_t, ones_t, n, p_t, t1);
        let cur = rs_candidates(words, order, offsets_t, ones_t, n, p_t, t);
        if cur.len() > prev.len() {
            let x = order[t1 as int];
            assert((x as u32) as nat == x);
            lemma_select_exists(words, x as nat, 64 * words.len());
            let col = select_spec(words, x as nat);
            assert forall|i: int| 0 <= i < prev.len() implies prev[i] != col as i32 by {
                assert(in_rs_walk(prev[i], words, order, t1));
                let tp = choose|tp: int| 0 <= tp < t1 && prev[i] == #[trigger] rs_decoded(words, order, tp);
                let y = order[tp];
                assert((y as u32) as nat == y);
                lemma_select_exists(words, y as nat, 64 * words.len());
                let other = select_spec(words, y as nat);
                assert(y != x);
                assert(other != col);
                assert(other < n && col < n);
            }
            assert forall|i: int, j: int| 0 <= i < j < cur.len() implies cur[i] != cur[j] by {
                if j == prev.len() {
                    assert(cur[j] == col as i32);
                    assert(cur[i] == prev[i]);
                }
            }
        }
    }
}

/// Every transport visits exactly `d` occupancy indices, all below `d`.
proof fn lemma_transport_order_bounded(tr: Transport, d: nat, row_seed: u64, offset: nat)
    requires
        d <= usize::MAX,
    ensures
        transport_order(tr, d, row_seed, offset).len() == d,
        forall|i: int|
            0 <= i < d ==> #[trigger] transport_order(tr, d, row_seed, offset)[i] < d,
{
    if d > 0 {
        assert forall|i: int| 0 <= i < d implies #[trigger] transport_order(tr, d, row_seed, offset)[i]
            < d by {
            match tr {
                Transport::Affine => {},
                _ => {},
            }
        }
    }
}

/// The additive and hybrid transports visit every occupancy index once.
proof fn lemma_shift_order_distinct(d: nat, phi: nat)
    requires
        phi < d,
        d <= usize::MAX,
    ensures
        forall|a: int, b: int|
            0 <= a < b < d ==> shift_order(d, phi)[a] != shift_order(d, phi)[b],
{
    assert forall|a: int, b: int| 0 <= a < b < d implies shift_order(d, phi)[a] != shift_order(
        d,
        phi,
    )[b] by {
        lemma_mod_distinct(phi as int, a, b, d as int);
        vstd::arithmetic::div_mod::lemma_mod_pos_bound(phi + a, d as int);
        vstd::arithmetic::div_mod::lemma_mod_pos_bound(phi + b, d as int);
    }
}

/// With a multiplier coprime to `d` and no wrap-around, the affine walk
/// visits every occupancy index once.
proof fn lemma_affine_order_distinct(d: usize, a: usize, b: usize)
    requires
        d > 0,
        a < d,
        b < d,
        crate::bitsupport::gcd_spec(a as nat, d as nat) == 1,
        d * d <= usize::MAX,
    ensures
        forall|x: int, y: int|
            0 <= x < y < d ==> affine_order(d, a, b)[x] != affine_order(d, a, b)[y],
{
    assert forall|x: int, y: int| 0 <= x < y < d implies affine_order(d, a, b)[x] != affine_order(
        d,
        a,
        b,
    )[y] by {
        let m = (usize::MAX as int) + 1;
        assert(a * x + b < d * d && a * y + b < d * d) by (nonlinear_arith)
            requires
                0 <= a < d,
                0 <= b < d,
                0 <= x < y < d,
        ;
        assert(a * x >= 0 && a * y >= 0) by (nonlinear_arith)
            requires
                a >= 0,
                x >= 0,
                y >= 0,
        ;
        vstd::arithmetic::div_mod::lemma_small_mod((a * x) as nat, m as nat);
        vstd::arithmetic::div_mod::lemma_small_mod((a * y) as nat, m as nat);
        let vx = a * x + b;
        let vy = a * y + b;
        assert(affine_order(d, a, b)[x] == vx % (d as int));
        assert(affine_order(d, a, b)[y] == vy % (d as int));
        if vx % (d as int) == vy % (d as int) {
            vstd::arithmetic::div_mod::lemma_fundamental_div_mod(vx, d as int);
            vstd::arithmetic::div_mod::lemma_fundamental_div_mod(vy, d as int);
            let q1 = vx / (d as int);
            let q2 = vy / (d as int);
            assert(a * (y - x) == d * (q2 - q1)) by (nonlinear_arith)
                requires
                    vx == d * q1 + vx % (d as int),
                    vy == d * q2 + vy % (d as int),
                    vx % (d as int) == vy % (d as int),
                    vx == a * x + b,
                    vy == a * y + b,
            ;
            assert(q2 - q1 >= 0) by (nonlinear_arith)
                requires
                    a * (y - x) == d * (q2 - q1),
                    a >= 0,
                    y - x > 0,
                    d > 0,
            ;
            let w = (q2 - q1) as nat;
            assert(((a as nat) * ((y - x) as nat)) == (d as nat) * w) by (nonlinear_arith)
                requires
                    a * (y - x) == d * (q2 - q1),
                    w == q2 - q1,
                    y - x > 0,
            ;
            assert(crate::bitsupport::divides(d as nat, (a as nat) * ((y - x) as nat)));
            crate::bitsupport::lemma_euclid(a as nat, d as nat, (y - x) as nat);
            let q = choose|q: nat| ((y - x) as nat) == #[trigger] ((d as nat) * q);
            assert(false) by (nonlinear_arith)
                requires
                    y - x == d * q,
                    0 < y - x < d,
            ;
        }
    }
}

/// Fan-out, range and support validity of the rank/select routers: each row
/// holds `k` slots, and every filled slot is a target column in `[0, n)`
/// whose capacity window holds the row's target phase and which is a set bit
/// of the row's own source support.
pub proof fn law_rs_router_fanout(
    tr: Transport,
    routes: Seq<i32>,
    s_bits: Seq<u64>,
    t_bits: Seq<u64>,
    n: nat,
    nb_words: nat,
    k: nat,
    col_perm_s: Seq<usize>,
    col_perm_t: Seq<usize>,
    seed: u64,
    j: nat,
)
    requires
        is_rs_routing(tr, routes, s_bits, t_bits, n, nb_words, k, col_perm_s, col_perm_t, seed),
        rs_inputs_ok(s_bits, t_bits, n, nb_words, k, col_perm_s, col_perm_t),
        n <= i32::MAX,
        j < n,
    ensures
        row_slots(routes, k, j).len() == k,
        forall|s: int|
            0 <= s < k && #[trigger] row_slots(routes, k, j)[s] != -1 ==> {
                &&& target_ok(
                    row_slots(routes, k, j)[s],
                    col_perm_t[j as int],
                    offsets_seq(t_bits, n, nb_words),
                    row_ones_seq(t_bits, n, nb_words),
                    n,
                )
                &&& word_bit(row_words(s_bits, nb_words, j), row_slots(routes, k, j)[s] as nat)
            },
{
    assert(rs_row_ok(tr, routes, s_bits, t_bits, n, nb_words, k, col_perm_s, col_perm_t, seed, j));
    let words = row_words(s_bits, nb_words, j);
    let order = rs_row_order(tr, s_bits, n, nb_words, col_perm_s, seed, j);
    let offs = offsets_seq(t_bits, n, nb_words);
    let ones = row_ones_seq(t_bits, n, nb_words);
    let p_t = col_perm_t[j as int];
    crate::rows::lemma_row_ones_bound(s_bits, n, nb_words, j);
    lemma_transport_order_bounded(
        tr,
        row_ones_spec(s_bits, nb_words, j),
        rs_row_seed(seed, j, col_perm_s[j as int]),
        offset_spec(s_bits, n, nb_words, j),
    );
    assert(bits_below(words, n));
    lemma_rs_cands_facts(words, order, offs, ones, n, p_t, row_ones_spec(s_bits, nb_words, j));
    let cands = rs_row_candidates(tr, s_bits, t_bits, n, nb_words, col_perm_s, col_perm_t, seed, j);
    let draws = rs_row_draws(tr, cands, k, col_perm_s, seed, j);
    assert(sampled_from(row_slots(routes, k, j), cands, k, draws));
    crate::reservoir::lemma_sampled_slots_good(
        row_slots(routes, k, j),
        cands,
        k,
        draws,
        |v: i32| target_ok(v, p_t, offs, ones, n) && word_bit(words, v as nat),
    );
}

/// Distinct columns per row: the rank-space walks are bijections of
/// `[0, d_j)` (for the affine transport, when `a_j·r + b_j` cannot wrap,
/// which `n * n <= usize::MAX` guarantees), and distinct occupancy indices
/// decode to distinct columns.
pub proof fn law_rs_router_distinct(
    tr: Transport,
    routes: Seq<i32>,
    s_bits: Seq<u64>,
    t_bits: Seq<u64>,
    n: nat,
    nb_words: nat,
    k: nat,
    col_perm_s: Seq<usize>,
    col_perm_t: Seq<usize>,
    seed: u64,
    j: nat,
)
    requires
        is_rs_routing(tr, routes, s_bits, t_bits, n, nb_words, k, col_perm_s, col_perm_t, seed),
        rs_inputs_ok(s_bits, t_bits, n, nb_words, k, col_perm_s, col_perm_t),
        tr == Transport::Affine ==> n * n <= usize::MAX,
        n <= i32::MAX,
        j < n,
    ensures
        forall|s: int, t: int|
            0 <= s < t < k && #[trigger] row_slots(routes, k, j)[s] != -1 ==> row_slots(
                routes,
                k,
                j,
            )[s] != #[trigger] row_slots(routes, k, j)[t],
{
    assert(rs_row_ok(tr, routes, s_bits, t_bits, n, nb_words, k, col_perm_s, col_perm_t, seed, j));
    let words = row_words(s_bits, nb_words, j);
    let d = row_ones_spec(s_bits, nb_words, j);
    let order = rs_row_order(tr, s_bits, n, nb_words, col_perm_s, seed, j);
    crate::rows::lemma_row_ones_bound(s_bits, n, nb_words, j);
    let row_seed = rs_row_seed(seed, j, col_perm_s[j as int]);
    let off = offset_spec(s_bits, n, nb_words, j);
    lemma_transport_order_bounded(tr, d, row_seed, off);
    if d > 0 {
        match tr {
            Transport::Additive => {
                lemma_shift_order_distinct(d, ((mix64_spec(row_seed) as usize) as nat) % d);
            },
            Transport::Hybrid => {
                lemma_shift_order_distinct(d, off % d);
            },
            Transport::Affine => {
                assert(bits_below(words, n));
                lemma_degree_below_n(words, n);
                assert(d * d <= n * n) by (nonlinear_arith)
                    requires
                        d <= n,
                ;
                let a = affine_multiplier(d as usize, row_seed);
                if d > 1 {
                    crate::bitsupport::lemma_coprime_search_is_unit(
                        d,
                        row_seed ^ 0xA1F1_F2F3_F4F5_F6F7u64,
                        u64::MAX as nat,
                    );
                    lemma_affine_order_distinct(
                        d as usize,
                        a,
                        ((mix64_spec(row_seed ^ 0xB0B1_B2B3_B4B5_B6B7u64) as usize) as nat % d) as usize,
                    );
                }
            },
        }
    }
    assert(bits_below(words, n));
    lemma_rs_cands_distinct(
        words,
        order,
        offsets_seq(t_bits, n, nb_words),
        row_ones_seq(t_bits, n, nb_words),
        n,
        col_perm_t[j as int],
        d,
    );
    let cands = rs_row_candidates(tr, s_bits, t_bits, n, nb_words, col_perm_s, col_perm_t, seed, j);
    let draws = rs_row_draws(tr, cands, k, col_perm_s, seed, j);
    assert(sampled_from(row_slots(routes, k, j), cands, k, draws));
    crate::reservoir::lemma_sampled_slots_distinct(row_slots(routes, k, j), cands, k, draws);
}

/// Capacity respected by the rank/select routers: when `col_perm_t` is a
/// permutation of `0..n`, at most `ones(t_bits[c])` rows (and at most `n`)
/// are routed to target column `c`.
pub proof fn law_rs_router_capacity(
    tr: Transport,
    routes: Seq<i32>,
    s_bits: Seq<u64>,
    t_bits: Seq<u64>,
    n: nat,
    nb_words: nat,
    k: nat,
    col_perm_s: Seq<usize>,
    col_perm_t: Seq<usize>,
    seed: u64,
    c: nat,
)
    requires
        is_rs_routing(tr, routes, s_bits, t_bits, n, nb_words, k, col_perm_s, col_perm_t, seed),
        rs_inputs_ok(s_bits, t_bits, n, nb_words, k, col_perm_s, col_perm_t),
        is_permutation(col_perm_t, n),
        n <= i32::MAX,
        c < n,
    ensures
        crate::capacity::rows_routed_to(routes, n, k, c as i32).finite(),
        crate::capacity::rows_routed_to(routes, n, k, c as i32).len() <= row_ones_spec(
            t_bits,
            nb_words,
            c,
        ),
        crate::capacity::rows_routed_to(routes, n, k, c as i32).len() <= n,
{
    let rows = crate::capacity::rows_routed_to(routes, n, k, c as i32);
    let offs = offsets_seq(t_bits, n, nb_words);
    let ones = row_ones_seq(t_bits, n, nb_words);
    crate::rows::lemma_offset_below(t_bits, n, nb_words, c);
    crate::rows::lemma_row_ones_bound(t_bits, n, nb_words, c);
    assert forall|j: int| #[trigger] rows.contains(j) implies 0 <= j < n && cyclic_hit(
        col_perm_t[j],
        offs[c as int],
        ones[c as int],
        n as usize,
    ) by {
        law_rs_router_fanout(
            tr,
            routes,
            s_bits,
            t_bits,
            n,
            nb_words,
            k,
            col_perm_s,
            col_perm_t,
            seed,
            j as nat,
        );
        let row = row_slots(routes, k, j as nat);
        assert(row.contains(c as i32));
        let s = choose|s: int| 0 <= s < row.len() && row[s] == c as i32;
        assert(row[s] != -1);
    }
    crate::capacity::lemma_window_count(col_perm_t, n, offs[c as int], ones[c as int], rows);
}

/// Determinism: on the same inputs and seed, a rank/select router gives the
/// same routes, slot for slot.
pub proof fn law_rs_router_deterministic(
    tr: Transport,
    routes1: Seq<i32>,
    routes2: Seq<i32>,
    s_bits: Seq<u64>,
    t_bits: Seq<u64>,
    n: nat,
    nb_words: nat,
    k: nat,
    col_perm_s: Seq<usize>,
    col_perm_t: Seq<usize>,
    seed: u64,
)
    requires
        is_rs_routing(tr, routes1, s_bits, t_bits, n, nb_words, k, col_perm_s, col_perm_t, seed),
        is_rs_routing(tr, routes2, s_bits, t_bits, n, nb_words, k, col_perm_s, col_perm_t, seed),
    ensures
        routes1 == routes2,
{
    assert forall|j: nat| j < n implies #[trigger] row_slots(routes1, k, j) == row_slots(
        routes2,
        k,
        j,
    ) by {
        assert(rs_row_ok(tr, routes1, s_bits, t_bits, n, nb_words, k, col_perm_s, col_perm_t, seed, j));
        assert(rs_row_ok(tr, routes2, s_bits, t_bits, n, nb_words, k, col_perm_s, col_perm_t, seed, j));
    }
    crate::reservoir::lemma_rows_determine_table(routes1, routes2, n, k);
}

/// Every routed entry of a rank/select routing is a hit: split into its
/// rows, as `split_routes` does, the routing scores as many support hits
/// (`support_validity_counts`) as it has routed entries, so its support
/// validity is 1 whenever anything is routed.
pub proof fn law_rs_router_support_validity(
    tr: Transport,
    routes: Seq<i32>,
    s_bits: Seq<u64>,
    t_bits: Seq<u64>,
    n: nat,
    nb_words: nat,
    k: nat,
    col_perm_s: Seq<usize>,
    col_perm_t: Seq<usize>,
    seed: u64,
    rows: Seq<Seq<i32>>,
)
    requires
        is_rs_routing(tr, routes, s_bits, t_bits, n, nb_words, k, col_perm_s, col_perm_t, seed),
        rs_inputs_ok(s_bits, t_bits, n, nb_words, k, col_perm_s, col_perm_t),
        n <= i32::MAX,
        rows.len() == n,
        forall|j: int| 0 <= j < n ==> #[trigger] rows[j] == row_slots(routes, k, j as nat),
    ensures
        crate::metrics::rows_hits(rows, s_bits, nb_words, 0, false, n) == crate::metrics::rows_nonneg(
            rows,
            n,
        ),
{
    lemma_rows_all_hits(tr, routes, s_bits, t_bits, n, nb_words, k, col_perm_s, col_perm_t, seed, rows, n);
}

proof fn lemma_rows_all_hits(
    tr: Transport,
    routes: Seq<i32>,
    s_bits: Seq<u64>,
    t_bits: Seq<u64>,
    n: nat,
    nb_words: nat,
    k: nat,
    col_perm_s: Seq<usize>,
    col_perm_t: Seq<usize>,
    seed: u64,
    rows: Seq<Seq<i32>>,
    m: nat,
)
    requires
        is_rs_routing(tr, routes, s_bits, t_bits, n, nb_words, k, col_perm_s, col_perm_t, seed),
        rs_inputs_ok(s_bits, t_bits, n, nb_words, k, col_perm_s, col_perm_t),
        n <= i32::MAX,
        rows.len() == n,
        forall|j: int| 0 <= j < n ==> #[trigger] rows[j] == row_slots(routes, k, j as nat),
        m <= n,
    ensures
        crate::metrics::rows_hits(rows, s_bits, nb_words, 0, false, m) == crate::metrics::rows_nonneg(
            rows,
            m,
        ),
    decreases m,
{
    if m > 0 {
        let j = (m - 1) as nat;
        lemma_rows_all_hits(tr, routes, s_bits, t_bits, n, nb_words, k, col_perm_s, col_perm_t, seed, rows, j);
        law_rs_router_fanout(tr, routes, s_bits, t_bits, n, nb_words, k, col_perm_s, col_perm_t, seed, j);
        let row = rows[j as int];
        let words = row_words(s_bits, nb_words, j);
        assert(row == row_slots(routes, k, j));
        assert forall|x: int| 0 <= x < row.len() && row[x] >= 0 implies word_bit(
            words,
            #[trigger] crate::metrics::probe(row[x], 0, false),
        ) by {
            assert(row_slots(routes, k, j)[x] != -1);
        }
        crate::metrics::lemma_row_all_hits(row, words, 0, false);
    }
}

/// The per-row seed of the rank/select routers is `seed + j + col_perm_s[j]`
/// modulo 2^64, so changing `col_perm_s[j]` changes row `j`'s seed (and with
/// it the row's phase, multiplier and reservoir generator).
pub proof fn law_rs_row_seed_mixes_source_perm(seed: u64, j: nat, a: usize, b: usize)
    requires
        j <= u64::MAX,
    ensures
        rs_row_seed(seed, j, a) as int == (seed + j + a) % 0x1_0000_0000_0000_0000int,
        a != b ==> rs_row_seed(seed, j, a) != rs_row_seed(seed, j, b),
{
    let x = vstd::wrapping::u64_specs::wrapping_add(seed, j as u64);
    assert(x as int == (seed + j) % 0x1_0000_0000_0000_0000int);
    assert((a as u64) as int == a as int);
    assert((b as u64) as int == b as int);
    vstd::arithmetic::div_mod::lemma_add_mod_noop(seed + j, a as int, 0x1_0000_0000_0000_0000int);
    vstd::arithmetic::div_mod::lemma_mod_twice(seed + j, 0x1_0000_0000_0000_0000int);
    if a != b {
        let ra = rs_row_seed(seed, j, a) as int;
        let rb = rs_row_seed(seed, j, b) as int;
        assert(ra == (x + a) % 0x1_0000_0000_0000_0000int);
        assert(rb == (x + b) % 0x1_0000_0000_0000_0000int);
        if ra == rb {
            assert(x + a < 0x2_0000_0000_0000_0000int);
            assert(x + b < 0x2_0000_0000_0000_0000int);
            if x + a < 0x1_0000_0000_0000_0000int && x + b < 0x1_0000_0000_0000_0000int {
                vstd::arithmetic::div_mod::lemma_small_mod((x + a) as nat, 0x1_0000_0000_0000_0000nat);
                vstd::arithmetic::div_mod::lemma_small_mod((x + b) as nat, 0x1_0000_0000_0000_0000nat);
            } else if x + a >= 0x1_0000_0000_0000_0000int && x + b >= 0x1_0000_0000_0000_0000int {
                vstd::arithmetic::div_mod::lemma_fundamental_div_mod_converse(x + a, 0x1_0000_0000_0000_0000int, 1, x + a - 0x1_0000_0000_0000_0000int);
                vstd::arithmetic::div_mod::lemma_fundamental_div_mod_converse(x + b, 0x1_0000_0000_0000_0000int, 1, x + b - 0x1_0000_0000_0000_0000int);
            } else if x + a < 0x1_0000_0000_0000_0000int {
                vstd::arithmetic::div_mod::lemma_small_mod((x + a) as nat, 0x1_0000_0000_0000_0000nat);
                vstd::arithmetic::div_mod::lemma_fundamental_div_mod_converse(x + b, 0x1_0000_0000_0000_0000int, 1, x + b - 0x1_0000_0000_0000_0000int);
            } else {
                vstd::arithmetic::div_mod::lemma_small_mod((x + b) as nat, 0x1_0000_0000_0000_0000nat);
                vstd::arithmetic::div_mod::lemma_fundamental_div_mod_converse(x + a, 0x1_0000_0000_0000_0000int, 1, x + a - 0x1_0000_0000_0000_0000int);
            }
        }
    }
}

} // verus!
