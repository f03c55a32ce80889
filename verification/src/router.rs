//! The phase router: every source row walks its cumulative-degree window of
//! physical positions, maps each position through the inverse source
//! permutation to a target column, keeps the columns whose cyclic capacity
//! window holds the row's target phase, and samples `k` of them.

use vstd::prelude::*;
use crate::reservoir::{
    draws_needed, lemma_reservoir_len, reservoir, reservoir_select, row_slots, sampled_from,
};
use crate::rng::{reservoir_draws, seeded_draws};
use crate::rows::{
    compute_inverse_perm, compute_offsets, compute_row_ones, inverse_perm_spec, is_permutation,
    offset_spec, offsets_seq, row_ones_seq, row_ones_spec,
};

verus! {

/// The target-side test `in_cyclic_interval(p_t, start, len, n)` as the
/// kernels compute it, in wrapping `usize` arithmetic:
/// `d = p_t - start`, plus `n` when `p_t < start`, then `d < len`.
pub open spec fn cyclic_hit(p_t: usize, start: usize, len: usize, n: usize) -> bool {
    let d0 = vstd::wrapping::usize_specs::wrapping_sub(p_t, start);
    let d = if p_t < start {
        vstd::wrapping::usize_specs::wrapping_add(d0, n)
    } else {
        d0
    };
    d < len
}

/// For a phase and a window start inside `[0, n)`, the test is membership of
/// `p_t` in the cyclic window `[start, start + len) mod n`.
pub proof fn lemma_cyclic_hit_window(p_t: usize, start: usize, len: usize, n: usize)
    requires
        p_t < n,
        start < n,
    ensures
        cyclic_hit(p_t, start, len, n) == ((p_t - start + n) % (n as int) < len),
{
    crate::rows::lemma_cyclic_distance(p_t as int, start as int, n as int);
}

/// Stepping a position by one, wrapping at `n`.
pub proof fn lemma_step_mod(x: int, p: int, n: int)
    requires
        x >= 0,
        n > 0,
        p == x % n,
    ensures
        (x + 1) % n == if p + 1 == n { 0 } else { p + 1 },
{
    vstd::arithmetic::div_mod::lemma_fundamental_div_mod(x, n);
    let q = x / n;
    vstd::arithmetic::div_mod::lemma_mod_pos_bound(x, n);
    if p + 1 == n {
        assert(x + 1 == (q + 1) * n + 0) by (nonlinear_arith)
            requires
                x == n * q + p,
                p + 1 == n,
        ;
        vstd::arithmetic::div_mod::lemma_fundamental_div_mod_converse(x + 1, n, q + 1, 0);
    } else {
        assert(x + 1 == q * n + (p + 1)) by (nonlinear_arith)
            requires
                x == n * q + p,
        ;
        vstd::arithmetic::div_mod::lemma_fundamental_div_mod_converse(x + 1, n, q, p + 1);
    }
}

/// Branchless cyclic interval membership: is `p_t` in `[start, start+len) mod n`?
pub fn in_cyclic_interval(p_t: usize, start: usize, len: usize, n: usize) -> (r: bool)
    ensures
        r == cyclic_hit(p_t, start, len, n),
{
    let mut d = p_t.wrapping_sub(start);
    if p_t < start {
        d = d.wrapping_add(n);
    }
    d < len
}

/// The columns row `j` of the phase router offers, in walk order: for
/// `t < s_len`, position `p = (s_start + t) % n` maps to column `inv[p]`,
/// which is kept when `p_t` lies in its target window
/// `(offsets_t[col], ones_t[col])`.
pub open spec fn phase_candidates(
    inv: Seq<usize>,
    offsets_t: Seq<usize>,
    ones_t: Seq<usize>,
    n: nat,
    s_start: nat,
    p_t: usize,
    t: nat,
) -> Seq<i32>
    decreases t,
{
    if t == 0 {
        Seq::empty()
    } else {
        let prev = phase_candidates(inv, offsets_t, ones_t, n, s_start, p_t, (t - 1) as nat);
        let p = (s_start + t - 1) % (n as int);
        let col = inv[p];
        if cyclic_hit(p_t, offsets_t[col as int], ones_t[col as int], n as usize) {
            prev.push(col as i32)
        } else {
            prev
        }
    }
}

/// Candidates of row `j` of `phase_router` on the given inputs.
pub open spec fn phase_row_candidates(
    s_bits: Seq<u64>,
    t_bits: Seq<u64>,
    n: nat,
    nb_words: nat,
    col_perm_s: Seq<usize>,
    col_perm_t: Seq<usize>,
    j: nat,
) -> Seq<i32> {
    phase_candidates(
        inverse_perm_spec(col_perm_s, n),
        offsets_seq(t_bits, n, nb_words),
        row_ones_seq(t_bits, n, nb_words),
        n,
        offset_spec(s_bits, n, nb_words, j),
        col_perm_t[j as int],
        row_ones_spec(s_bits, nb_words, j),
    )
}

/// One row of the phase router: walk `s_len` positions from `s_start`,
/// collect the columns whose target window holds `p_t`, and sample `k` of
/// them with a generator seeded by `row_seed`.
pub fn phase_router_row(
    inv_perm_s: &[usize],
    offsets_t: &[usize],
    ones_t: &[usize],
    n: usize,
    k: usize,
    s_start: usize,
    s_len: usize,
    p_t: usize,
    row_seed: u64,
) -> (row: Vec<i32>)
    requires
        s_start < n,
        inv_perm_s@.len() == n,
        forall|i: int| 0 <= i < n ==> inv_perm_s@[i] < n,
        offsets_t@.len() == n,
        ones_t@.len() == n,
    ensures
        ({
            let cands = phase_candidates(
                inv_perm_s@,
                offsets_t@,
                ones_t@,
                n as nat,
                s_start as nat,
                p_t,
                s_len as nat,
            );
            sampled_from(
                row@,
                cands,
                k as nat,
                seeded_draws(row_seed, k as nat, draws_needed(k as nat, cands.len())),
            )
        }),
{
    let mut cands: Vec<i32> = Vec::new();
    let mut p = s_start;
    let mut t: usize = 0;
    proof {
        vstd::arithmetic::div_mod::lemma_small_mod(s_start as nat, n as nat);
    }
    while t < s_len
        invariant
            t <= s_len,
            s_start < n,
            p < n,
            p == (s_start + t) % (n as int),
            inv_perm_s@.len() == n,
            forall|i: int| 0 <= i < n ==> inv_perm_s@[i] < n,
            offsets_t@.len() == n,
            ones_t@.len() == n,
            cands@ == phase_candidates(
                inv_perm_s@,
                offsets_t@,
                ones_t@,
                n as nat,
                s_start as nat,
                p_t,
                t as nat,
            ),
            cands@.len() <= t,
        decreases s_len - t,
    {
        let col = inv_perm_s[p];
        if in_cyclic_interval(p_t, offsets_t[col], ones_t[col], n) {
            cands.push(#[verifier::truncate] (col as i32));
        }
        proof {
            lemma_step_mod(s_start + t, p as int, n as int);
        }
        p = p + 1;
        if p == n {
            p = 0;
        }
        t = t + 1;
    }
    let m = cands.len();
    let extra = if m > k {
        m - k
    } else {
        0
    };
    let draws = reservoir_draws(row_seed, k, extra);
    let row = reservoir_select(cands.as_slice(), k, draws.as_slice());
    assert(sampled_from(row@, cands@, k as nat, draws@));
    row
}


/// Appends `row` to the flat route table.
pub(crate) fn append_row(routes: &mut Vec<i32>, row: &Vec<i32>)
    ensures
        final(routes)@ == old(routes)@ + row@,
{
    let mut i: usize = 0;
    let ghost start = routes@;
    while i < row.len()
        invariant
            i <= row@.len(),
            routes@ == start + row@.take(i as int),
        decreases row@.len() - i,
    {
        routes.push(row[i]);
        i = i + 1;
        proof {
            assert(row@.take(i as int) =~= row@.take((i - 1) as int).push(row@[i - 1]));
        }
    }
    assert(row@.take(row@.len() as int) =~= row@);
}

/// Appending a row of `k` slots keeps the earlier rows and adds row `j`.
pub proof fn lemma_append_row_slots(
    before: Seq<i32>,
    row: Seq<i32>,
    k: nat,
    j: nat,
)
    requires
        before.len() == j * k,
        row.len() == k,
    ensures
        (before + row).len() == (j + 1) * k,
        row_slots(before + row, k, j) == row,
        forall|jj: nat| jj < j ==> row_slots(before + row, k, jj) == row_slots(before, k, jj),
{
    assert((j + 1) * k == j * k + k) by (nonlinear_arith);
    assert(row_slots(before + row, k, j) =~= row);
    assert forall|jj: nat| jj < j implies row_slots(before + row, k, jj) == row_slots(
        before,
        k,
        jj,
    ) by {
        assert(jj * k + k <= j * k) by (nonlinear_arith)
            requires
                jj < j,
        ;
        assert(row_slots(before + row, k, jj) =~= row_slots(before, k, jj));
    }
}

/// The draws row `j` takes: those of a generator seeded with `seed + j`.
pub open spec fn phase_row_draws(cands: Seq<i32>, k: nat, seed: u64, j: nat) -> Seq<usize> {
    seeded_draws((seed + j) as u64, k, draws_needed(k, cands.len()))
}

/// Row `j` of `routes` is Algorithm R over row `j`'s candidates with the
/// draws of the generator seeded with `seed + j`.
pub open spec fn phase_row_ok(
    routes: Seq<i32>,
    s_bits: Seq<u64>,
    t_bits: Seq<u64>,
    n: nat,
    nb_words: nat,
    k: nat,
    col_perm_s: Seq<usize>,
    col_perm_t: Seq<usize>,
    seed: u64,
    j: nat,
) -> bool {
    let cands = phase_row_candidates(s_bits, t_bits, n, nb_words, col_perm_s, col_perm_t, j);
    sampled_from(row_slots(routes, k, j), cands, k, phase_row_draws(cands, k, seed, j))
}

/// `routes` is the output of `phase_router`: `n` rows of `k` slots, row `j`
/// sampled from row `j`'s candidates with the generator seeded by `seed + j`.
pub open spec fn is_phase_routing(
    routes: Seq<i32>,
    s_bits: Seq<u64>,
    t_bits: Seq<u64>,
    n: nat,
    nb_words: nat,
    k: nat,
    col_perm_s: Seq<usize>,
    col_perm_t: Seq<usize>,
    seed: u64,
) -> bool {
    &&& routes.len() == n * k
    &&& forall|j: nat|
        j < n ==> #[trigger] phase_row_ok(
            routes,
            s_bits,
            t_bits,
            n,
            nb_words,
            k,
            col_perm_s,
            col_perm_t,
            seed,
            j,
        )
}

/// Fully fused phase router.
///
/// Row `j` walks the `ones(s_bits[j])` physical positions starting at its
/// cumulative-degree offset, maps each through the inverse of `col_perm_s`,
/// keeps the columns whose target window `[offsets_t[col], offsets_t[col] +
/// ones_t[col]) mod n` holds `col_perm_t[j]`, and samples `k` of them
/// (Algorithm R, generator seeded with `seed + j`). Unfilled slots hold -1.
/// The result is `n * k` slots, row by row.
///
/// The source side enters only through its cyclic embedding: row `j` is the
/// interval of its degree at its cumulative-degree offset, so the routing
/// depends on the source rows' degrees alone (`law_phase_router_support_agnostic`),
/// not on which columns they hold; the emitted columns are scrambled by
/// `col_perm_s` and need not lie in the row's own support. Only the first
/// `n` entries of `col_perm_t` are read.
pub fn phase_router(
    s_bits: &[u64],
    t_bits: &[u64],
    n: usize,
    nb_words: usize,
    k: usize,
    col_perm_s: &[usize],
    col_perm_t: &[usize],
    seed: u64,
) -> (routes: Vec<i32>)
    requires
        k > 0,
        n * nb_words <= s_bits@.len(),
        n * nb_words <= t_bits@.len(),
        n + 64 * nb_words <= usize::MAX,
        n * k <= usize::MAX,
        col_perm_s@.len() == n,
        forall|i: int| 0 <= i < n ==> col_perm_s@[i] < n,
        col_perm_t@.len() >= n,
        n == 0 || seed + (n - 1) <= u64::MAX,
    ensures
        is_phase_routing(
            routes@,
            s_bits@,
            t_bits@,
            n as nat,
            nb_words as nat,
            k as nat,
            col_perm_s@,
            col_perm_t@,
            seed,
        ),
{
    assert(n > 0 ==> (n - 1) * nb_words <= n * nb_words) by (nonlinear_arith);
    let offsets_s = compute_offsets(s_bits, n, nb_words);
    let offsets_t = compute_offsets(t_bits, n, nb_words);
    let ones_s = compute_row_ones(s_bits, n, nb_words);
    let ones_t = compute_row_ones(t_bits, n, nb_words);
    let inv_perm_s = compute_inverse_perm(col_perm_s);
    let ghost offs_t_spec = offsets_seq(t_bits@, n as nat, nb_words as nat);
    let ghost ones_t_spec = row_ones_seq(t_bits@, n as nat, nb_words as nat);
    proof {
        assert(offsets_t@ =~= offs_t_spec);
        assert(ones_t@ =~= ones_t_spec);
        if n > 0 {
            crate::rows::lemma_inverse_entries_bounded(col_perm_s@, n as nat);
        }
    }
    let mut routes: Vec<i32> = Vec::new();
    let mut j: usize = 0;
    while j < n
        invariant
            j <= n,
            k > 0,
            n * k <= usize::MAX,
            n == 0 || seed + (n - 1) <= u64::MAX,
            offsets_s@.len() == n,
            forall|i: int| 0 <= i < n ==> offsets_s@[i] == offset_spec(s_bits@, n as nat, nb_words as nat, i as nat),
            forall|i: int| 0 <= i < n ==> offsets_s@[i] < n,
            ones_s@.len() == n,
            forall|i: int| 0 <= i < n ==> ones_s@[i] == row_ones_spec(s_bits@, nb_words as nat, i as nat),
            offsets_t@ == offsets_seq(t_bits@, n as nat, nb_words as nat),
            ones_t@ == row_ones_seq(t_bits@, n as nat, nb_words as nat),
            offsets_t@.len() == n,
            ones_t@.len() == n,
            inv_perm_s@ == inverse_perm_spec(col_perm_s@, n as nat),
            inv_perm_s@.len() == n,
            forall|i: int| 0 <= i < n ==> inv_perm_s@[i] < n,
            col_perm_t@.len() >= n,
            routes@.len() == j * k,
            forall|jj: nat|
                jj < j ==> #[trigger] phase_row_ok(
                    routes@,
                    s_bits@,
                    t_bits@,
                    n as nat,
                    nb_words as nat,
                    k as nat,
                    col_perm_s@,
                    col_perm_t@,
                    seed,
                    jj,
                ),
        decreases n - j,
    {
        let row = phase_router_row(
            inv_perm_s.as_slice(),
            offsets_t.as_slice(),
            ones_t.as_slice(),
            n,
            k,
            offsets_s[j],
            ones_s[j],
            col_perm_t[j],
            seed + j as u64,
        );
        let ghost cands = phase_row_candidates(
            s_bits@,
            t_bits@,
            n as nat,
            nb_words as nat,
            col_perm_s@,
            col_perm_t@,
            j as nat,
        );
        assert(offsets_s@[j as int] as nat == offset_spec(s_bits@, n as nat, nb_words as nat, j as nat));
        assert(ones_s@[j as int] as nat == row_ones_spec(s_bits@, nb_words as nat, j as nat));
        assert(offsets_t@ == offsets_seq(t_bits@, n as nat, nb_words as nat));
        assert(ones_t@ == row_ones_seq(t_bits@, n as nat, nb_words as nat));
        assert(cands == phase_candidates(
            inv_perm_s@,
            offsets_t@,
            ones_t@,
            n as nat,
            offsets_s@[j as int] as nat,
            col_perm_t@[j as int],
            ones_s@[j as int] as nat,
        ));
        proof {
            lemma_reservoir_len(cands, k as nat, phase_row_draws(cands, k as nat, seed, j as nat));
            lemma_append_row_slots(routes@, row@, k as nat, j as nat);
            assert((j + 1) * k <= n * k) by (nonlinear_arith)
                requires
                    j < n,
            ;
        }
        let ghost before = routes@;
        append_row(&mut routes, &row);
        proof {
            assert forall|jj: nat| jj < j + 1 implies #[trigger] phase_row_ok(
                routes@,
                s_bits@,
                t_bits@,
                n as nat,
                nb_words as nat,
                k as nat,
                col_perm_s@,
                col_perm_t@,
                seed,
                jj,
            ) by {
                if jj < j {
                    assert(row_slots(routes@, k as nat, jj) == row_slots(before, k as nat, jj));
                    assert(phase_row_ok(
                        before,
                        s_bits@,
                        t_bits@,
                        n as nat,
                        nb_words as nat,
                        k as nat,
                        col_perm_s@,
                        col_perm_t@,
                        seed,
                        jj,
                    ));
                }
            }
        }
        j = j + 1;
    }
    routes
}


// ── laws of the phase router ─────────────────────────────────────────────

/// Column `v` is a target column whose cyclic window holds the phase `p_t`.
pub open spec fn target_ok(
    v: i32,
    p_t: usize,
    offsets_t: Seq<usize>,
    ones_t: Seq<usize>,
    n: nat,
) -> bool {
    0 <= v < n && cyclic_hit(p_t, offsets_t[v as int], ones_t[v as int], n as usize)
}

/// Two positions less than `n` apart fall in different residues mod `n`.
pub proof fn lemma_mod_distinct(s: int, a: int, b: int, n: int)
    requires
        s >= 0,
        0 <= a < b < a + n,
    ensures
        (s + a) % n != (s + b) % n,
{
    vstd::arithmetic::div_mod::lemma_fundamental_div_mod(s + a, n);
    vstd::arithmetic::div_mod::lemma_fundamental_div_mod(s + b, n);
    let q1 = (s + a) / n;
    let q2 = (s + b) / n;
    if (s + a) % n == (s + b) % n {
        assert(b - a == n * (q2 - q1)) by (nonlinear_arith)
            requires
                s + a == n * q1 + (s + a) % n,
                s + b == n * q2 + (s + b) % n,
                (s + a) % n == (s + b) % n,
        ;
        assert(false) by (nonlinear_arith)
            requires
                b - a == n * (q2 - q1),
                0 < b - a < n,
        ;
    }
}

/// Column reached at step `tp` of a walk from `s_start`.
pub open spec fn walk_col(inv: Seq<usize>, s_start: nat, n: nat, tp: int) -> i32 {
    inv[(s_start + tp) % (n as int)] as i32
}

/// `v` is the column reached at one of the first `t` steps of the walk.
pub open spec fn in_walk(v: i32, inv: Seq<usize>, s_start: nat, n: nat, t: nat) -> bool {
    exists|tp: int| 0 <= tp < t && v == #[trigger] walk_col(inv, s_start, n, tp)
}

proof fn lemma_phase_cands_facts(
    inv: Seq<usize>,
    offsets_t: Seq<usize>,
    ones_t: Seq<usize>,
    n: nat,
    s_start: nat,
    p_t: usize,
    t: nat,
)
    requires
        0 < n <= i32::MAX,
        inv.len() == n,
        forall|i: int| 0 <= i < n ==> inv[i] < n,
    ensures
        forall|i: int|
            0 <= i < phase_candidates(inv, offsets_t, ones_t, n, s_start, p_t, t).len()
                ==> target_ok(
                #[trigger] phase_candidates(inv, offsets_t, ones_t, n, s_start, p_t, t)[i],
                p_t,
                offsets_t,
                ones_t,
                n,
            ),
        forall|i: int|
            0 <= i < phase_candidates(inv, offsets_t, ones_t, n, s_start, p_t, t).len()
                ==> in_walk(
                #[trigger] phase_candidates(inv, offsets_t, ones_t, n, s_start, p_t, t)[i],
                inv,
                s_start,
                n,
                t,
            ),
    decreases t,
{
    if t > 0 {
        lemma_phase_cands_facts(inv, offsets_t, ones_t, n, s_start, p_t, (t - 1) as nat);
        let prev = phase_candidates(inv, offsets_t, ones_t, n, s_start, p_t, (t - 1) as nat);
        let cur = phase_candidates(inv, offsets_t, ones_t, n, s_start, p_t, t);
        assert forall|i: int| 0 <= i < cur.len() implies in_walk(
            #[trigger] cur[i],
            inv,
            s_start,
            n,
            t,
        ) by {
            if i < prev.len() {
                assert(cur[i] == prev[i]);
                assert(in_walk(prev[i], inv, s_start, n, (t - 1) as nat));
                let tp = choose|tp: int|
                    0 <= tp < t - 1 && prev[i] == #[trigger] walk_col(inv, s_start, n, tp);
                assert(0 <= tp < t && cur[i] == walk_col(inv, s_start, n, tp));
            } else {
                assert(cur[i] == walk_col(inv, s_start, n, t - 1));
            }
        }
    }
}

/// Within a walk of at most `n` positions, an injective inverse permutation
/// yields distinct candidates.
proof fn lemma_phase_cands_distinct(
    inv: Seq<usize>,
    offsets_t: Seq<usize>,
    ones_t: Seq<usize>,
    n: nat,
    s_start: nat,
    p_t: usize,
    t: nat,
)
    requires
        0 < n <= i32::MAX,
        t <= n,
        inv.len() == n,
        forall|i: int| 0 <= i < n ==> inv[i] < n,
        forall|p: int, q: int| 0 <= p < q < n ==> inv[p] != inv[q],
    ensures
        forall|i: int, j: int|
            0 <= i < j < phase_candidates(inv, offsets_t, ones_t, n, s_start, p_t, t).len()
                ==> phase_candidates(inv, offsets_t, ones_t, n, s_start, p_t, t)[i]
                != phase_candidates(inv, offsets_t, ones_t, n, s_start, p_t, t)[j],
    decreases t,
{
    if t > 0 {
        lemma_phase_cands_distinct(inv, offsets_t, ones_t, n, s_start, p_t, (t - 1) as nat);
        lemma_phase_cands_facts(inv, offsets_t, ones_t, n, s_start, p_t, (t - 1) as nat);
        let prev = phase_candidates(inv, offsets_t, ones_t, n, s_start, p_t, (t - 1) as nat);
        let cur = phase_candidates(inv, offsets_t, ones_t, n, s_start, p_t, t);
        let p = (s_start + t - 1) % (n as int);
        if cur.len() > prev.len() {
            assert forall|i: int| 0 <= i < prev.len() implies prev[i] != inv[p] as i32 by {
                assert(in_walk(prev[i], inv, s_start, n, (t - 1) as nat));
                let tp = choose|tp: int|
                    0 <= tp < t - 1 && prev[i] == #[trigger] walk_col(inv, s_start, n, tp);
                let q = (s_start + tp) % (n as int);
                lemma_mod_distinct(s_start as int, tp, t - 1, n as int);
                assert(q != p);
                if q < p {
                    assert(inv[q] != inv[p]);
                } else {
                    assert(inv[p] != inv[q]);
                }
            }
            assert forall|i: int, j: int| 0 <= i < j < cur.len() implies cur[i] != cur[j] by {
                if j == prev.len() {
                    assert(cur[j] == inv[p] as i32);
                    assert(cur[i] == prev[i]);
                }
            }
        }
    }
}

/// Fan-out and range: each row of a phase routing holds `k` slots, and every
/// filled slot is a target column in `[0, n)` whose capacity window holds the
/// row's target phase `col_perm_t[j]`.
pub proof fn law_phase_router_fanout(
    routes: Seq<i32>,
    s_bits: Seq<u64>,
    t_bits: Seq<u64>,
    n: nat,
    nb_words: nat,
    k: nat,
    col_perm_s: Seq<usize>,
    col_perm_t: Seq<usize>,
    seed: u64,
    j: nat,
)
    requires
        is_phase_routing(routes, s_bits, t_bits, n, nb_words, k, col_perm_s, col_perm_t, seed),
        col_perm_s.len() == n,
        forall|i: int| 0 <= i < n ==> col_perm_s[i] < n,
        n <= i32::MAX,
        j < n,
    ensures
        row_slots(routes, k, j).len() == k,
        forall|s: int|
            0 <= s < k && #[trigger] row_slots(routes, k, j)[s] != -1 ==> target_ok(
                row_slots(routes, k, j)[s],
                col_perm_t[j as int],
                offsets_seq(t_bits, n, nb_words),
                row_ones_seq(t_bits, n, nb_words),
                n,
            ),
{
    let d = phase_row_draws(
        phase_row_candidates(s_bits, t_bits, n, nb_words, col_perm_s, col_perm_t, j),
        k,
        seed,
        j,
    );
    assert(phase_row_ok(routes, s_bits, t_bits, n, nb_words, k, col_perm_s, col_perm_t, seed, j));
    crate::rows::lemma_inverse_entries_bounded(col_perm_s, n);
    let inv = inverse_perm_spec(col_perm_s, n);
    let offs = offsets_seq(t_bits, n, nb_words);
    let ones = row_ones_seq(t_bits, n, nb_words);
    let p_t = col_perm_t[j as int];
    lemma_phase_cands_facts(
        inv,
        offs,
        ones,
        n,
        offset_spec(s_bits, n, nb_words, j),
        p_t,
        row_ones_spec(s_bits, nb_words, j),
    );
    assert(sampled_from(
        row_slots(routes, k, j),
        phase_row_candidates(s_bits, t_bits, n, nb_words, col_perm_s, col_perm_t, j),
        k,
        d,
    ));
    crate::reservoir::lemma_sampled_slots_good(
        row_slots(routes, k, j),
        phase_row_candidates(s_bits, t_bits, n, nb_words, col_perm_s, col_perm_t, j),
        k,
        d,
        |v: i32| target_ok(v, p_t, offs, ones, n),
    );
}


/// Distinct columns per row: when `col_perm_s` is a permutation of `0..n`
/// and row `j` has at most `n` set bits, the filled slots of row `j` are
/// pairwise distinct.
pub proof fn law_phase_router_distinct(
    routes: Seq<i32>,
    s_bits: Seq<u64>,
    t_bits: Seq<u64>,
    n: nat,
    nb_words: nat,
    k: nat,
    col_perm_s: Seq<usize>,
    col_perm_t: Seq<usize>,
    seed: u64,
    j: nat,
)
    requires
        is_phase_routing(routes, s_bits, t_bits, n, nb_words, k, col_perm_s, col_perm_t, seed),
        is_permutation(col_perm_s, n),
        n <= i32::MAX,
        j < n,
        row_ones_spec(s_bits, nb_words, j) <= n,
    ensures
        forall|s: int, t: int|
            0 <= s < t < k && #[trigger] row_slots(routes, k, j)[s] != -1 ==> row_slots(
                routes,
                k,
                j,
            )[s] != #[trigger] row_slots(routes, k, j)[t],
{
    let d = phase_row_draws(
        phase_row_candidates(s_bits, t_bits, n, nb_words, col_perm_s, col_perm_t, j),
        k,
        seed,
        j,
    );
    assert(phase_row_ok(routes, s_bits, t_bits, n, nb_words, k, col_perm_s, col_perm_t, seed, j));
    crate::rows::law_inverse_perm_inverts(col_perm_s, n);
    let inv = inverse_perm_spec(col_perm_s, n);
    lemma_phase_cands_distinct(
        inv,
        offsets_seq(t_bits, n, nb_words),
        row_ones_seq(t_bits, n, nb_words),
        n,
        offset_spec(s_bits, n, nb_words, j),
        col_perm_t[j as int],
        row_ones_spec(s_bits, nb_words, j),
    );
    assert(sampled_from(
        row_slots(routes, k, j),
        phase_row_candidates(s_bits, t_bits, n, nb_words, col_perm_s, col_perm_t, j),
        k,
        d,
    ));
    crate::reservoir::lemma_sampled_slots_distinct(
        row_slots(routes, k, j),
        phase_row_candidates(s_bits, t_bits, n, nb_words, col_perm_s, col_perm_t, j),
        k,
        d,
    );
}

/// Capacity respected: when `col_perm_t` is a permutation of `0..n`, the
/// number of rows routed to target column `c` is at most the capacity
/// `ones(t_bits[c])` of that column (and at most `n`).
pub proof fn law_phase_router_capacity(
    routes: Seq<i32>,
    s_bits: Seq<u64>,
    t_bits: Seq<u64>,
    n: nat,
    nb_words: nat,
    k: nat,
    col_perm_s: Seq<usize>,
    col_perm_t: Seq<usize>,
    seed: u64,
    c: nat,
)
    requires
        is_phase_routing(routes, s_bits, t_bits, n, nb_words, k, col_perm_s, col_perm_t, seed),
        col_perm_s.len() == n,
        forall|i: int| 0 <= i < n ==> col_perm_s[i] < n,
        is_permutation(col_perm_t, n),
        n <= i32::MAX,
        n * nb_words <= t_bits.len(),
        n + 64 * nb_words <= usize::MAX,
        c < n,
    ensures
        crate::capacity::rows_routed_to(routes, n, k, c as i32).finite(),
        crate::capacity::rows_routed_to(routes, n, k, c as i32).len() <= row_ones_spec(
            t_bits,
            nb_words,
            c,
        ),
        crate::capacity::rows_routed_to(routes, n, k, c as i32).len() <= n,
{
    let rows = crate::capacity::rows_routed_to(routes, n, k, c as i32);
    let offs = offsets_seq(t_bits, n, nb_words);
    let ones = row_ones_seq(t_bits, n, nb_words);
    crate::rows::lemma_offset_below(t_bits, n, nb_words, c);
    crate::rows::lemma_row_ones_bound(t_bits, n, nb_words, c);
    assert forall|j: int| #[trigger] rows.contains(j) implies 0 <= j < n && cyclic_hit(
        col_perm_t[j],
        offs[c as int],
        ones[c as int],
        n as usize,
    ) by {
        law_phase_router_fanout(routes, s_bits, t_bits, n, nb_words, k, col_perm_s, col_perm_t, seed, j as nat);
        let row = row_slots(routes, k, j as nat);
        assert(row.contains(c as i32));
        let s = choose|s: int| 0 <= s < row.len() && row[s] == c as i32;
        assert(row[s] != -1);
    }
    crate::capacity::lemma_window_count(col_perm_t, n, offs[c as int], ones[c as int], rows);
}

/// Determinism: on the same inputs and seed, the phase router gives the same
/// routes, slot for slot.
pub proof fn law_phase_router_deterministic(
    routes1: Seq<i32>,
    routes2: Seq<i32>,
    s_bits: Seq<u64>,
    t_bits: Seq<u64>,
    n: nat,
    nb_words: nat,
    k: nat,
    col_perm_s: Seq<usize>,
    col_perm_t: Seq<usize>,
    seed: u64,
)
    requires
        is_phase_routing(routes1, s_bits, t_bits, n, nb_words, k, col_perm_s, col_perm_t, seed),
        is_phase_routing(routes2, s_bits, t_bits, n, nb_words, k, col_perm_s, col_perm_t, seed),
    ensures
        routes1 == routes2,
{
    assert forall|j: nat| j < n implies #[trigger] row_slots(routes1, k, j) == row_slots(
        routes2,
        k,
        j,
    ) by {
        assert(phase_row_ok(routes1, s_bits, t_bits, n, nb_words, k, col_perm_s, col_perm_t, seed, j));
        assert(phase_row_ok(routes2, s_bits, t_bits, n, nb_words, k, col_perm_s, col_perm_t, seed, j));
    }
    crate::reservoir::lemma_rows_determine_table(routes1, routes2, n, k);
}

/// The cumulative-degree offsets depend on the row degrees alone.
proof fn lemma_offsets_follow_degrees(s1: Seq<u64>, s2: Seq<u64>, n: nat, nb_words: nat, i: nat)
    requires
        i <= n,
        forall|j: nat| j < n ==> #[trigger] row_ones_spec(s1, nb_words, j) == row_ones_spec(
            s2,
            nb_words,
            j,
        ),
    ensures
        offset_spec(s1, n, nb_words, i) == offset_spec(s2, n, nb_words, i),
    decreases i,
{
    if i > 0 {
        lemma_offsets_follow_degrees(s1, s2, n, nb_words, (i - 1) as nat);
        assert(row_ones_spec(s1, nb_words, (i - 1) as nat) == row_ones_spec(
            s2,
            nb_words,
            (i - 1) as nat,
        ));
    }
}

/// Cyclic embedding: the phase router sees each source row only as an
/// interval of its degree, so two source matrices whose rows have the same
/// degrees are routed identically, whichever columns those rows hold.
pub proof fn law_phase_router_support_agnostic(
    routes1: Seq<i32>,
    routes2: Seq<i32>,
    s_bits1: Seq<u64>,
    s_bits2: Seq<u64>,
    t_bits: Seq<u64>,
    n: nat,
    nb_words: nat,
    k: nat,
    col_perm_s: Seq<usize>,
    col_perm_t: Seq<usize>,
    seed: u64,
)
    requires
        is_phase_routing(routes1, s_bits1, t_bits, n, nb_words, k, col_perm_s, col_perm_t, seed),
        is_phase_routing(routes2, s_bits2, t_bits, n, nb_words, k, col_perm_s, col_perm_t, seed),
        forall|j: nat| j < n ==> #[trigger] row_ones_spec(s_bits1, nb_words, j) == row_ones_spec(
            s_bits2,
            nb_words,
            j,
        ),
    ensures
        routes1 == routes2,
{
    assert forall|j: nat| j < n implies #[trigger] row_slots(routes1, k, j) == row_slots(
        routes2,
        k,
        j,
    ) by {
        lemma_offsets_follow_degrees(s_bits1, s_bits2, n, nb_words, j);
        assert(row_ones_spec(s_bits1, nb_words, j) == row_ones_spec(s_bits2, nb_words, j));
        assert(phase_row_candidates(s_bits1, t_bits, n, nb_words, col_perm_s, col_perm_t, j)
            == phase_row_candidates(s_bits2, t_bits, n, nb_words, col_perm_s, col_perm_t, j));
        assert(phase_row_ok(routes1, s_bits1, t_bits, n, nb_words, k, col_perm_s, col_perm_t, seed, j));
        assert(phase_row_ok(routes2, s_bits2, t_bits, n, nb_words, k, col_perm_s, col_perm_t, seed, j));
    }
    crate::reservoir::lemma_rows_determine_table(routes1, routes2, n, k);
}

} // verus!
