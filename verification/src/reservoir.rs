//! Reservoir sampling (Vitter's Algorithm R) of a row's candidate columns
//! into `k` output slots, and the layout of per-row slots in a flat route
//! table.

use vstd::prelude::*;

verus! {

/// The `k` slots that Algorithm R leaves after streaming `cands`, where the
/// `i`-th draw (`draws[i]`, in `[0, k + i]`) is taken when candidate `k + i`
/// arrives: the first `k` candidates fill slots `0..k` in order, and a later
/// candidate replaces slot `draws[i]` when that draw is below `k`. Slots that
/// are never filled hold -1.
pub open spec fn reservoir(cands: Seq<i32>, k: nat, draws: Seq<usize>) -> Seq<i32>
    decreases cands.len(),
{
    if cands.len() == 0 {
        Seq::new(k, |i: int| -1i32)
    } else {
        let m = cands.len() - 1;
        let prev = reservoir(cands.take(m), k, draws);
        if m < k {
            prev.update(m, cands[m])
        } else {
            let r = draws[m - k];
            if r < k {
                prev.update(r as int, cands[m])
            } else {
                prev
            }
        }
    }
}

/// Number of draws Algorithm R takes for `m` candidates and `k` slots.
pub open spec fn draws_needed(k: nat, m: nat) -> nat {
    if m > k {
        (m - k) as nat
    } else {
        0
    }
}

/// The draws a generator may hand out for `m` candidates: one per candidate
/// past the first `k`, the `i`-th in `[0, k + i]`.
pub open spec fn valid_draws(draws: Seq<usize>, k: nat, m: nat) -> bool {
    &&& draws.len() == draws_needed(k, m)
    &&& forall|i: int| 0 <= i < draws.len() ==> draws[i] <= k + i
}

/// `row` is what Algorithm R leaves for `cands` with draws `draws` that a
/// generator may hand out.
pub open spec fn sampled_from(row: Seq<i32>, cands: Seq<i32>, k: nat, draws: Seq<usize>) -> bool {
    valid_draws(draws, k, cands.len()) && row == reservoir(cands, k, draws)
}

/// Row `j` of a flat table with `k` slots per row.
pub open spec fn row_slots(routes: Seq<i32>, k: nat, j: nat) -> Seq<i32> {
    routes.subrange((j * k) as int, (j * k + k) as int)
}

/// Algorithm R over `cands` with the given draws.
pub fn reservoir_select(cands: &[i32], k: usize, draws: &[usize]) -> (out: Vec<i32>)
    requires
        draws@.len() >= draws_needed(k as nat, cands@.len()),
    ensures
        out@ == reservoir(cands@, k as nat, draws@),
{
    let mut out: Vec<i32> = Vec::new();
    let mut z: usize = 0;
    while z < k
        invariant
            z <= k,
            out@ == Seq::new(z as nat, |i: int| -1i32),
        decreases k - z,
    {
        out.push(-1);
        z = z + 1;
    }
    assert(cands@.take(0) =~= Seq::<i32>::empty());
    let mut idx: usize = 0;
    while idx < cands.len()
        invariant
            idx <= cands@.len(),
            draws@.len() >= draws_needed(k as nat, cands@.len()),
            out@ == reservoir(cands@.take(idx as int), k as nat, draws@),
            out@.len() == k,
        decreases cands@.len() - idx,
    {
        proof {
            let next = cands@.take(idx + 1);
            assert(next.take(idx as int) =~= cands@.take(idx as int));
            assert(next[idx as int] == cands@[idx as int]);
            assert(next.len() == idx + 1);
        }
        if idx < k {
            out.set(idx, cands[idx]);
        } else {
            let r = draws[idx - k];
            if r < k {
                out.set(r, cands[idx]);
            }
        }
        idx = idx + 1;
    }
    assert(cands@.take(cands@.len() as int) =~= cands@);
    out
}

/// Every reservoir has exactly `k` slots.
pub proof fn lemma_reservoir_len(cands: Seq<i32>, k: nat, draws: Seq<usize>)
    ensures
        reservoir(cands, k, draws).len() == k,
    decreases cands.len(),
{
    if cands.len() > 0 {
        lemma_reservoir_len(cands.take(cands.len() - 1), k, draws);
    }
}

/// Every slot holds -1 or one of the candidates.
pub proof fn lemma_reservoir_from_candidates(cands: Seq<i32>, k: nat, draws: Seq<usize>)
    ensures
        forall|s: int|
            0 <= s < k ==> #[trigger] reservoir(cands, k, draws)[s] == -1 || cands.contains(
                reservoir(cands, k, draws)[s],
            ),
    decreases cands.len(),
{
    if cands.len() > 0 {
        let m = cands.len() - 1;
        let pre = cands.take(m);
        lemma_reservoir_from_candidates(pre, k, draws);
        lemma_reservoir_len(pre, k, draws);
        assert forall|s: int| 0 <= s < k implies #[trigger] reservoir(cands, k, draws)[s] == -1
            || cands.contains(reservoir(cands, k, draws)[s]) by {
            let v = reservoir(cands, k, draws)[s];
            if v != -1 && v != cands[m] {
                assert(reservoir(pre, k, draws)[s] == v);
                let i = choose|i: int| 0 <= i < pre.len() && pre[i] == v;
                assert(cands[i] == v);
            } else if v != -1 {
                assert(cands[m] == v);
            }
        }
    }
}

/// The number of filled slots is `min(k, m)`: the first `min(k, m)` slots
/// are filled and the rest hold -1, provided no candidate is -1.
pub proof fn lemma_reservoir_fill(cands: Seq<i32>, k: nat, draws: Seq<usize>)
    requires
        forall|i: int| 0 <= i < cands.len() ==> cands[i] != -1,
    ensures
        forall|s: int|
            0 <= s < k ==> (#[trigger] reservoir(cands, k, draws)[s] != -1 <==> s < cands.len()),
    decreases cands.len(),
{
    if cands.len() > 0 {
        let m = cands.len() - 1;
        let pre = cands.take(m);
        lemma_reservoir_fill(pre, k, draws);
        lemma_reservoir_len(pre, k, draws);
    }
}

/// Distinct candidates give distinct filled slots.
pub proof fn lemma_reservoir_distinct(cands: Seq<i32>, k: nat, draws: Seq<usize>)
    requires
        forall|i: int, j: int| 0 <= i < j < cands.len() ==> cands[i] != cands[j],
    ensures
        forall|s: int, t: int|
            0 <= s < t < k && #[trigger] reservoir(cands, k, draws)[s] != -1 ==> reservoir(
                cands,
                k,
                draws,
            )[s] != #[trigger] reservoir(cands, k, draws)[t],
    decreases cands.len(),
{
    if cands.len() > 0 {
        let m = cands.len() - 1;
        let pre = cands.take(m);
        lemma_reservoir_distinct(pre, k, draws);
        lemma_reservoir_len(pre, k, draws);
        lemma_reservoir_from_candidates(pre, k, draws);
        let res = reservoir(cands, k, draws);
        let prev = reservoir(pre, k, draws);
        assert(!pre.contains(cands[m])) by {
            if pre.contains(cands[m]) {
                let i = choose|i: int| 0 <= i < pre.len() && pre[i] == cands[m];
                assert(cands[i] == cands[m]);
            }
        }
        assert forall|s: int, t: int| 0 <= s < t < k && res[s] != -1 implies res[s] != res[t] by {
            assert(prev[s] == -1 || pre.contains(prev[s]));
            assert(prev[t] == -1 || pre.contains(prev[t]));
        }
    }
}


/// Whatever holds of every candidate holds of every filled slot.
pub proof fn lemma_sampled_slots_good(
    row: Seq<i32>,
    cands: Seq<i32>,
    k: nat,
    draws: Seq<usize>,
    good: spec_fn(i32) -> bool,
)
    requires
        sampled_from(row, cands, k, draws),
        forall|i: int| 0 <= i < cands.len() ==> good(#[trigger] cands[i]),
    ensures
        row.len() == k,
        forall|s: int| 0 <= s < k && #[trigger] row[s] != -1 ==> good(row[s]),
{
    lemma_reservoir_len(cands, k, draws);
    lemma_reservoir_from_candidates(cands, k, draws);
    assert forall|s: int| 0 <= s < k && #[trigger] row[s] != -1 implies good(row[s]) by {
        assert(cands.contains(row[s]));
        let i = choose|i: int| 0 <= i < cands.len() && cands[i] == row[s];
    }
}

/// Distinct candidates give a row whose filled slots are distinct.
pub proof fn lemma_sampled_slots_distinct(
    row: Seq<i32>,
    cands: Seq<i32>,
    k: nat,
    draws: Seq<usize>,
)
    requires
        sampled_from(row, cands, k, draws),
        forall|i: int, j: int| 0 <= i < j < cands.len() ==> cands[i] != cands[j],
    ensures
        forall|s: int, t: int|
            0 <= s < t < k && #[trigger] row[s] != -1 ==> row[s] != #[trigger] row[t],
{
    lemma_reservoir_distinct(cands, k, draws);
}

/// Two tables of `n` rows of `k` slots with the same rows are equal.
pub proof fn lemma_rows_determine_table(a: Seq<i32>, b: Seq<i32>, n: nat, k: nat)
    requires
        a.len() == n * k,
        b.len() == n * k,
        forall|j: nat| j < n ==> #[trigger] row_slots(a, k, j) == row_slots(b, k, j),
    ensures
        a == b,
{
    assert forall|i: int| 0 <= i < a.len() implies a[i] == b[i] by {
        let j = i / (k as int);
        let s = i % (k as int);
        assert(k > 0) by (nonlinear_arith)
            requires
                0 <= i < n * k,
        ;
        assert(i == j * k + s && 0 <= s < k) by (nonlinear_arith)
            requires
                k > 0,
                j == i / (k as int),
                s == i % (k as int),
        ;
        assert(j < n) by (nonlinear_arith)
            requires
                i == j * k + s,
                0 <= s,
                i < n * k,
                k > 0,
        ;
        assert(j >= 0) by (nonlinear_arith)
            requires
                i >= 0,
                k > 0,
                j == i / (k as int),
        ;
        assert(j * k + k <= n * k) by (nonlinear_arith)
            requires
                j < n,
        ;
        assert(row_slots(a, k, j as nat) == row_slots(b, k, j as nat));
        assert(row_slots(a, k, j as nat)[s] == a[i]);
        assert(row_slots(b, k, j as nat)[s] == b[i]);
    }
    assert(a =~= b);
}

/// Candidate `i` is written to slot `s` when it arrives: the first `k`
/// candidates fill slots `0..k` in order, and a later candidate `i` goes to
/// slot `draws[i - k]` exactly when that draw equals `s`.
pub open spec fn writes_slot(draws: Seq<usize>, k: nat, i: int, s: int) -> bool {
    if i < k {
        i == s
    } else {
        draws[i - k] == s
    }
}

/// Algorithm R keeps, in each slot `s < k`, the last candidate written to
/// it: slot `s` holds `cands[i]` for the last `i` with `writes_slot(i, s)`,
/// and -1 when no candidate is ever written there. In particular a later
/// candidate whose draw is `k` or more replaces nothing.
pub proof fn law_reservoir_keeps_last_writer(cands: Seq<i32>, k: nat, draws: Seq<usize>)
    requires
        draws.len() >= draws_needed(k, cands.len()),
    ensures
        reservoir(cands, k, draws).len() == k,
        forall|s: int|
            0 <= s < k && (forall|i: int| 0 <= i < cands.len() ==> !#[trigger] writes_slot(draws, k, i, s))
                ==> reservoir(cands, k, draws)[s] == -1,
        forall|s: int, i: int|
            0 <= s < k && 0 <= i < cands.len() && #[trigger] writes_slot(draws, k, i, s) && (forall|i2: int|
                i < i2 < cands.len() ==> !#[trigger] writes_slot(draws, k, i2, s)) ==> reservoir(
                cands,
                k,
                draws,
            )[s] == cands[i],
    decreases cands.len(),
{
    lemma_reservoir_len(cands, k, draws);
    if cands.len() > 0 {
        let m = cands.len() - 1;
        let head = cands.take(m);
        law_reservoir_keeps_last_writer(head, k, draws);
        lemma_reservoir_len(head, k, draws);
        let prev = reservoir(head, k, draws);
        let cur = reservoir(cands, k, draws);
        assert forall|s: int| 0 <= s < k implies (writes_slot(draws, k, m, s) ==> cur[s] == cands[m]) && (
        !writes_slot(draws, k, m, s) ==> cur[s] == prev[s]) by {}
        assert forall|s: int|
            0 <= s < k && (forall|i: int| 0 <= i < cands.len() ==> !#[trigger] writes_slot(draws, k, i, s))
                implies cur[s] == -1 by {
            assert(!writes_slot(draws, k, m, s));
            assert forall|i: int| 0 <= i < head.len() implies !#[trigger] writes_slot(draws, k, i, s) by {
                assert(!writes_slot(draws, k, i, s));
            }
        }
        assert forall|s: int, i: int|
            0 <= s < k && 0 <= i < cands.len() && #[trigger] writes_slot(draws, k, i, s) && (forall|i2: int|
                i < i2 < cands.len() ==> !#[trigger] writes_slot(draws, k, i2, s)) implies cur[s] == cands[i] by {
            if i < m {
                assert(!writes_slot(draws, k, m, s));
                assert(head[i] == cands[i]);
                assert forall|i2: int| i < i2 < head.len() implies !#[trigger] writes_slot(draws, k, i2, s) by {
                    assert(!writes_slot(draws, k, i2, s));
                }
            }
        }
    }
}

} // verus!
