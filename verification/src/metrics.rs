//! Integer diagnostics of routing results: per-row splitting, per-target
//! loads, support hit counts and pairwise candidate overlap counts. The
//! ratios and averages built from these counts are floating point and are
//! formed by callers.

use vstd::prelude::*;
use crate::reservoir::row_slots;

verus! {

/// Number of entries of `s` equal to `v`.
pub open spec fn count_in(s: Seq<i32>, v: int) -> nat
    decreases s.len(),
{
    if s.len() == 0 {
        0
    } else {
        count_in(s.drop_last(), v) + if s.last() == v {
            1nat
        } else {
            0nat
        }
    }
}

/// Number of entries of `s` inside `[0, n)`.
pub open spec fn in_range_count(s: Seq<i32>, n: nat) -> nat
    decreases s.len(),
{
    if s.len() == 0 {
        0
    } else {
        in_range_count(s.drop_last(), n) + if 0 <= s.last() < n {
            1nat
        } else {
            0nat
        }
    }
}

/// `count_in(s, 0) + ... + count_in(s, m - 1)`.
pub open spec fn sum_counts(s: Seq<i32>, m: nat) -> nat
    decreases m,
{
    if m == 0 {
        0
    } else {
        sum_counts(s, (m - 1) as nat) + count_in(s, m - 1)
    }
}

/// Builds `routes_per_row` from a flat table of `n` rows of `k` slots.
pub fn split_routes(routes: &[i32], n: usize, k: usize) -> (rows: Vec<Vec<i32>>)
    requires
        routes@.len() == n * k,
        k > 0,
    ensures
        rows@.len() == n,
        forall|j: int| 0 <= j < n ==> #[trigger] rows@[j]@ == row_slots(routes@, k as nat, j as nat),
{
    let mut rows: Vec<Vec<i32>> = Vec::new();
    let total = routes.len();
    let mut j: usize = 0;
    while j < n
        invariant
            j <= n,
            k > 0,
            total == routes@.len(),
            routes@.len() == n * k,
            rows@.len() == j,
            forall|x: int| 0 <= x < j ==> #[trigger] rows@[x]@ == row_slots(routes@, k as nat, x as nat),
        decreases n - j,
    {
        assert(j * k + k <= n * k) by (nonlinear_arith)
            requires
                j < n,
        ;
        let mut row: Vec<i32> = Vec::new();
        let mut x: usize = 0;
        while x < k
            invariant
                x <= k,
                total == routes@.len(),
                j * k + k <= routes@.len(),
                row@ == row_slots(routes@, k as nat, j as nat).take(x as int),
            decreases k - x,
        {
            row.push(routes[j * k + x]);
            x = x + 1;
            proof {
                assert(row@ =~= row_slots(routes@, k as nat, j as nat).take(x as int));
            }
        }
        assert(row@ =~= row_slots(routes@, k as nat, j as nat));
        rows.push(row);
        j = j + 1;
    }
    rows
}

proof fn lemma_count_prefix_mono(s: Seq<i32>, v: int, i: nat)
    requires
        i <= s.len(),
    ensures
        count_in(s.take(i as int), v) <= count_in(s, v),
    decreases s.len() - i,
{
    if i < s.len() {
        let m = (s.len() - 1) as nat;
        assert(s.drop_last().take(i as int) =~= s.take(i as int));
        lemma_count_prefix_mono(s.drop_last(), v, i);
    } else {
        assert(s.take(i as int) =~= s);
    }
}

/// Per-target loads: `loads[c]` counts the entries equal to `c`, for `c` in
/// `[0, n)`; other entries are ignored.
pub fn loads_per_target(routes: &[i32], n: usize) -> (loads: Vec<u32>)
    requires
        forall|c: int| 0 <= c < n ==> count_in(routes@, c) <= u32::MAX,
    ensures
        loads@.len() == n,
        forall|c: int| 0 <= c < n ==> #[trigger] loads@[c] == count_in(routes@, c),
{
    let mut loads: Vec<u32> = Vec::new();
    let mut z: usize = 0;
    while z < n
        invariant
            z <= n,
            loads@ == Seq::new(z as nat, |c: int| 0u32),
        decreases n - z,
    {
        loads.push(0);
        z = z + 1;
    }
    assert(routes@.take(0) =~= Seq::<i32>::empty());
    let mut i: usize = 0;
    while i < routes.len()
        invariant
            i <= routes@.len(),
            loads@.len() == n,
            forall|c: int| 0 <= c < n ==> count_in(routes@, c) <= u32::MAX,
            forall|c: int| 0 <= c < n ==> #[trigger] loads@[c] == count_in(routes@.take(i as int), c),
        decreases routes@.len() - i,
    {
        let ghost next = routes@.take(i + 1);
        proof {
            assert(next.drop_last() =~= routes@.take(i as int));
        }
        let c = routes[i];
        if c >= 0 && (c as usize) < n {
            let cu = c as usize;
            proof {
                lemma_count_prefix_mono(routes@, cu as int, (i + 1) as nat);
            }
            let cur = loads[cu];
            loads.set(cu, cur + 1);
        }
        i = i + 1;
    }
    assert(routes@.take(routes@.len() as int) =~= routes@);
    loads
}

proof fn lemma_sum_counts_step(s: Seq<i32>, m: nat)
    requires
        s.len() > 0,
    ensures
        sum_counts(s, m) == sum_counts(s.drop_last(), m) + if 0 <= s.last() < m {
            1nat
        } else {
            0nat
        },
    decreases m,
{
    if m > 0 {
        lemma_sum_counts_step(s, (m - 1) as nat);
    }
}

/// The loads account for every routed entry: summed over all targets in
/// `[0, n)`, they equal the number of entries that lie in `[0, n)`.
pub proof fn law_loads_account_for_routes(routes: Seq<i32>, n: nat)
    ensures
        sum_counts(routes, n) == in_range_count(routes, n),
    decreases routes.len(),
{
    if routes.len() > 0 {
        law_loads_account_for_routes(routes.drop_last(), n);
        lemma_sum_counts_step(routes, n);
    } else {
        lemma_sum_counts_empty(routes, n);
    }
}

proof fn lemma_sum_counts_empty(s: Seq<i32>, m: nat)
    requires
        s.len() == 0,
    ensures
        sum_counts(s, m) == 0,
    decreases m,
{
    if m > 0 {
        lemma_sum_counts_empty(s, (m - 1) as nat);
    }
}


// ── support hit counts ───────────────────────────────────────────────────

/// The entries of every row, as sequences.
pub open spec fn row_views(rows: Seq<Vec<i32>>) -> Seq<Seq<i32>> {
    rows.map_values(|r: Vec<i32>| r@)
}

/// The column whose bit is tested for entry `c`: `c` itself, or its cyclic
/// successor `(c + 1) % n` when `next` holds.
pub open spec fn probe(c: i32, n: nat, next: bool) -> nat {
    if next {
        ((c + 1) % (n as int)) as nat
    } else {
        c as nat
    }
}

/// Entries of `row` that are `>= 0`.
pub open spec fn nonneg_count(row: Seq<i32>) -> nat
    decreases row.len(),
{
    if row.len() == 0 {
        0
    } else {
        nonneg_count(row.drop_last()) + if row.last() >= 0 {
            1nat
        } else {
            0nat
        }
    }
}

/// Entries `c >= 0` of `row` whose probed bit is set in `words`.
pub open spec fn hit_count(row: Seq<i32>, words: Seq<u64>, n: nat, next: bool) -> nat
    decreases row.len(),
{
    if row.len() == 0 {
        0
    } else {
        hit_count(row.drop_last(), words, n, next) + if row.last() >= 0 && crate::bitspec::word_bit(
            words,
            probe(row.last(), n, next),
        ) {
            1nat
        } else {
            0nat
        }
    }
}

/// Entries `>= 0` over the first `m` rows.
pub open spec fn rows_nonneg(rows: Seq<Seq<i32>>, m: nat) -> nat
    decreases m,
{
    if m == 0 {
        0
    } else {
        rows_nonneg(rows, (m - 1) as nat) + nonneg_count(rows[m - 1])
    }
}

/// Hits over the first `m` rows, row `j` probed against source row `j`.
pub open spec fn rows_hits(
    rows: Seq<Seq<i32>>,
    s_bits: Seq<u64>,
    nb_words: nat,
    n: nat,
    next: bool,
    m: nat,
) -> nat
    decreases m,
{
    if m == 0 {
        0
    } else {
        rows_hits(rows, s_bits, nb_words, n, next, (m - 1) as nat) + hit_count(
            rows[m - 1],
            crate::rows::row_words(s_bits, nb_words, (m - 1) as nat),
            n,
            next,
        )
    }
}

/// Total number of entries over the first `m` rows.
pub open spec fn rows_len(rows: Seq<Seq<i32>>, m: nat) -> nat
    decreases m,
{
    if m == 0 {
        0
    } else {
        rows_len(rows, (m - 1) as nat) + rows[m - 1].len()
    }
}

proof fn lemma_counts_le_len(row: Seq<i32>, words: Seq<u64>, n: nat, next: bool)
    ensures
        hit_count(row, words, n, next) <= nonneg_count(row) <= row.len(),
    decreases row.len(),
{
    if row.len() > 0 {
        lemma_counts_le_len(row.drop_last(), words, n, next);
    }
}

proof fn lemma_rows_counts_le(
    rows: Seq<Seq<i32>>,
    s_bits: Seq<u64>,
    nb_words: nat,
    n: nat,
    next: bool,
    m: nat,
)
    requires
        m <= rows.len(),
    ensures
        rows_hits(rows, s_bits, nb_words, n, next, m) <= rows_nonneg(rows, m) <= rows_len(rows, m),
    decreases m,
{
    if m > 0 {
        lemma_rows_counts_le(rows, s_bits, nb_words, n, next, (m - 1) as nat);
        lemma_counts_le_len(
            rows[m - 1],
            crate::rows::row_words(s_bits, nb_words, (m - 1) as nat),
            n,
            next,
        );
    }
}

proof fn lemma_rows_len_mono(rows: Seq<Seq<i32>>, m: nat, q: nat)
    requires
        m <= q <= rows.len(),
    ensures
        rows_len(rows, m) <= rows_len(rows, q),
    decreases q,
{
    if m < q {
        lemma_rows_len_mono(rows, m, (q - 1) as nat);
    }
}

/// A row whose entries `c >= 0` all have their probed bit set scores a hit
/// for each of them.
pub(crate) proof fn lemma_row_all_hits(row: Seq<i32>, words: Seq<u64>, n: nat, next: bool)
    requires
        forall|x: int|
            0 <= x < row.len() && row[x] >= 0 ==> crate::bitspec::word_bit(
                words,
                #[trigger] probe(row[x], n, next),
            ),
    ensures
        hit_count(row, words, n, next) == nonneg_count(row),
    decreases row.len(),
{
    if row.len() > 0 {
        let rest = row.drop_last();
        assert forall|x: int| 0 <= x < rest.len() && rest[x] >= 0 implies crate::bitspec::word_bit(
            words,
            #[trigger] probe(rest[x], n, next),
        ) by {
            assert(rest[x] == row[x]);
        }
        lemma_row_all_hits(rest, words, n, next);
        if row.last() >= 0 {
            assert(probe(row[row.len() - 1], n, next) == probe(row.last(), n, next));
        }
    }
}

/// Counts, over all rows `j`, the entries `c >= 0` and those whose probed
/// bit is set in source row `j`.
fn count_support_hits(
    routes_per_row: &[Vec<i32>],
    s_bits: &[u64],
    n: usize,
    nb_words: usize,
    next: bool,
) -> (res: (usize, usize))
    requires
        next ==> n > 0,
        routes_per_row@.len() * nb_words <= s_bits@.len(),
        rows_len(row_views(routes_per_row@), routes_per_row@.len() as nat) <= usize::MAX,
        forall|j: int, x: int|
            0 <= j < routes_per_row@.len() && 0 <= x < routes_per_row@[j]@.len()
                && routes_per_row@[j]@[x] >= 0 ==> probe(#[trigger] routes_per_row@[j]@[x], n as nat, next)
                < 64 * nb_words,
    ensures
        res.0 == rows_hits(
            row_views(routes_per_row@),
            s_bits@,
            nb_words as nat,
            n as nat,
            next,
            routes_per_row@.len() as nat,
        ),
        res.1 == rows_nonneg(row_views(routes_per_row@), routes_per_row@.len() as nat),
{
    let ghost views = row_views(routes_per_row@);
    let m = routes_per_row.len();
    let total_words = s_bits.len();
    let mut hits: usize = 0;
    let mut total: usize = 0;
    let mut j: usize = 0;
    while j < m
        invariant
            j <= m,
            m == routes_per_row@.len(),
            views == row_views(routes_per_row@),
            total_words == s_bits@.len(),
            next ==> n > 0,
            m * nb_words <= s_bits@.len(),
            rows_len(views, m as nat) <= usize::MAX,
            forall|jj: int, x: int|
                0 <= jj < m && 0 <= x < routes_per_row@[jj]@.len() && routes_per_row@[jj]@[x] >= 0
                    ==> probe(#[trigger] routes_per_row@[jj]@[x], n as nat, next) < 64 * nb_words,
            hits == rows_hits(views, s_bits@, nb_words as nat, n as nat, next, j as nat),
            total == rows_nonneg(views, j as nat),
        decreases m - j,
    {
        assert(j * nb_words + nb_words <= m * nb_words) by (nonlinear_arith)
            requires
                j < m,
        ;
        assert(j * nb_words + nb_words == (j + 1) * nb_words) by (nonlinear_arith);
        let row = &s_bits[j * nb_words..(j + 1) * nb_words];
        let entries = &routes_per_row[j];
        proof {
            assert(views[j as int] == entries@);
            lemma_rows_counts_le(views, s_bits@, nb_words as nat, n as nat, next, (j + 1) as nat);
            lemma_rows_len_mono(views, (j + 1) as nat, m as nat);
        }
        let mut x: usize = 0;
        let mut row_hits: usize = 0;
        let mut row_total: usize = 0;
        assert(entries@.take(0) =~= Seq::<i32>::empty());
        while x < entries.len()
            invariant
                x <= entries@.len(),
                next ==> n > 0,
                row@.len() == nb_words,
                forall|y: int|
                    0 <= y < entries@.len() && entries@[y] >= 0 ==> probe(#[trigger] entries@[y], n as nat, next)
                        < 64 * nb_words,
                row_hits == hit_count(entries@.take(x as int), row@, n as nat, next),
                row_total == nonneg_count(entries@.take(x as int)),
                row_total <= x,
                row_hits <= row_total,
            decreases entries@.len() - x,
        {
            let ghost next_prefix = entries@.take(x + 1);
            proof {
                assert(next_prefix.drop_last() =~= entries@.take(x as int));
            }
            let c = entries[x];
            if c >= 0 {
                row_total = row_total + 1;
                let cu: usize = if next {
                    (c as usize + 1) % n
                } else {
                    c as usize
                };
                let w = cu / 64;
                let b = cu % 64;
                proof {
                    crate::bitspec::lemma_split_position(w as nat, b as nat);
                    assert(w < nb_words) by (nonlinear_arith)
                        requires
                            cu < 64 * nb_words,
                            w == cu / 64,
                    ;
                }
                if (row[w] >> (b as u64)) & 1 == 1 {
                    row_hits = row_hits + 1;
                }
            }
            x = x + 1;
        }
        assert(entries@.take(entries@.len() as int) =~= entries@);
        hits = hits + row_hits;
        total = total + row_total;
        j = j + 1;
    }
    (hits, total)
}

/// `(valid, total)`: over all rows `j`, the routed entries `c >= 0` and
/// those that are set bits of source row `j`. `support_validity` is
/// `valid / total` (0 when nothing is routed).
pub fn support_validity_counts(routes_per_row: &[Vec<i32>], s_bits: &[u64], nb_words: usize) -> (res: (
    usize,
    usize,
))
    requires
        routes_per_row@.len() * nb_words <= s_bits@.len(),
        rows_len(row_views(routes_per_row@), routes_per_row@.len() as nat) <= usize::MAX,
        forall|j: int, x: int|
            0 <= j < routes_per_row@.len() && 0 <= x < routes_per_row@[j]@.len() && routes_per_row@[j]@[x]
                >= 0 ==> #[trigger] routes_per_row@[j]@[x] < 64 * nb_words,
    ensures
        res.0 == rows_hits(
            row_views(routes_per_row@),
            s_bits@,
            nb_words as nat,
            0,
            false,
            routes_per_row@.len() as nat,
        ),
        res.1 == rows_nonneg(row_views(routes_per_row@), routes_per_row@.len() as nat),
{
    count_support_hits(routes_per_row, s_bits, 0, nb_words, false)
}

/// `(neighbours, total)`: over all rows `j`, the routed entries `c >= 0` and
/// those whose cyclic successor `(c + 1) % n` is a set bit of source row
/// `j`; `(0, 0)` when `n == 0` or there are no rows.
/// `support_autocorrelation_preservation` is `neighbours / total` (0 when
/// nothing is routed).
pub fn support_autocorrelation_counts(
    routes_per_row: &[Vec<i32>],
    s_bits: &[u64],
    n: usize,
    nb_words: usize,
) -> (res: (usize, usize))
    requires
        routes_per_row@.len() * nb_words <= s_bits@.len(),
        rows_len(row_views(routes_per_row@), routes_per_row@.len() as nat) <= usize::MAX,
        n > 0 ==> forall|j: int, x: int|
            0 <= j < routes_per_row@.len() && 0 <= x < routes_per_row@[j]@.len() && routes_per_row@[j]@[x]
                >= 0 ==> (#[trigger] routes_per_row@[j]@[x] + 1) % (n as int) < 64 * nb_words,
    ensures
        n == 0 ==> res == (0usize, 0usize),
        n > 0 ==> res.0 == rows_hits(
            row_views(routes_per_row@),
            s_bits@,
            nb_words as nat,
            n as nat,
            true,
            routes_per_row@.len() as nat,
        ),
        n > 0 ==> res.1 == rows_nonneg(row_views(routes_per_row@), routes_per_row@.len() as nat),
{
    if n == 0 || routes_per_row.len() == 0 {
        return (0, 0);
    }
    count_support_hits(routes_per_row, s_bits, n, nb_words, true)
}


// ── pairwise candidate overlap ──────────────────────────────────────────

/// The candidate set of a row: its entries `>= 0`.
pub open spec fn nonneg_set(row: Seq<i32>) -> Set<i32> {
    row.to_set().filter(|c: i32| c >= 0)
}

/// One sampled pair `(i, j)` of distinct rows out of `n >= 2`, and the
/// mixer state after drawing it.
pub open spec fn sample_pair(state: u64, n: nat) -> (nat, nat, u64) {
    let s1 = crate::bitsupport::mix64_spec(state);
    let i = ((s1 as usize) as nat) % n;
    let s2 = crate::bitsupport::mix64_spec(s1);
    let j0 = ((s2 as usize) as nat) % n;
    let j = if j0 == i {
        (j0 + 1) % n
    } else {
        j0
    };
    (i, j, s2)
}

/// `(|A ∩ B|, |A ∪ B|)` for the candidate sets of the first `samples`
/// sampled pairs, skipping pairs whose sets are both empty, and the mixer
/// state afterwards.
pub open spec fn overlap_run(rows: Seq<Seq<i32>>, samples: nat, seed: u64) -> (Seq<(nat, nat)>, u64)
    decreases samples,
{
    if samples == 0 {
        (Seq::empty(), seed)
    } else {
        let (prev, st) = overlap_run(rows, (samples - 1) as nat, seed);
        let (i, j, st2) = sample_pair(st, rows.len());
        let a = nonneg_set(rows[i as int]);
        let b = nonneg_set(rows[j as int]);
        if a.union(b).len() == 0 {
            (prev, st2)
        } else {
            (prev.push((a.intersect(b).len(), a.union(b).len())), st2)
        }
    }
}

/// `x` occurs in `v`.
fn contains_value(v: &Vec<i32>, x: i32) -> (r: bool)
    ensures
        r == v@.contains(x),
{
    let mut i: usize = 0;
    while i < v.len()
        invariant
            i <= v@.len(),
            forall|q: int| 0 <= q < i ==> v@[q] != x,
        decreases v@.len() - i,
    {
        if v[i] == x {
            return true;
        }
        i = i + 1;
    }
    false
}

/// The distinct entries `>= 0` of a row, in first-occurrence order.
fn distinct_nonneg(row: &Vec<i32>) -> (out: Vec<i32>)
    ensures
        out@.no_duplicates(),
        out@.to_set() == nonneg_set(row@),
        out@.len() <= row@.len(),
{
    let mut out: Vec<i32> = Vec::new();
    let mut i: usize = 0;
    while i < row.len()
        invariant
            i <= row@.len(),
            out@.no_duplicates(),
            out@.len() <= i,
            forall|c: i32| out@.contains(c) <==> (row@.take(i as int).contains(c) && c >= 0),
        decreases row@.len() - i,
    {
        let c = row[i];
        proof {
            let p0 = row@.take(i as int);
            let p1 = row@.take(i + 1);
            assert forall|d: i32| p1.contains(d) <==> (p0.contains(d) || d == c) by {
                if p1.contains(d) {
                    let q = choose|q: int| 0 <= q < p1.len() && p1[q] == d;
                    if q < i {
                        assert(p0[q] == d);
                    }
                }
                if p0.contains(d) {
                    let q = choose|q: int| 0 <= q < p0.len() && p0[q] == d;
                    assert(p1[q] == d);
                }
                if d == c {
                    assert(p1[i as int] == d);
                }
            }
        }
        if c >= 0 && !contains_value(&out, c) {
            let ghost before = out@;
            out.push(c);
            proof {
                assert forall|x: int, y: int| 0 <= x < y < out@.len() implies out@[x] != out@[y] by {
                    if y == out@.len() - 1 {
                        assert(before.contains(out@[x]) ==> before[x] == out@[x]);
                        assert(out@[x] == before[x]);
                        assert(before.contains(before[x]));
                    } else {
                        assert(before[x] != before[y]);
                    }
                }
                assert forall|d: i32| out@.contains(d) <==> (row@.take(i + 1).contains(d) && d >= 0) by {
                    if out@.contains(d) {
                        let q = choose|q: int| 0 <= q < out@.len() && out@[q] == d;
                        if q < before.len() {
                            assert(before.contains(d));
                        }
                    }
                    if before.contains(d) {
                        let q = choose|q: int| 0 <= q < before.len() && before[q] == d;
                        assert(out@[q] == d);
                    }
                    if d == c {
                        assert(out@[before.len() as int] == d);
                    }
                }
            }
        }
        i = i + 1;
    }
    proof {
        assert(row@.take(row@.len() as int) =~= row@);
        assert(out@.to_set() =~= nonneg_set(row@));
    }
    out
}

/// `|set(a) ∩ set(b)|` for a duplicate-free `a`.
fn count_common(a: &Vec<i32>, b: &Vec<i32>) -> (r: usize)
    requires
        a@.no_duplicates(),
    ensures
        r == a@.to_set().intersect(b@.to_set()).len(),
{
    let ghost mut common: Seq<i32> = Seq::empty();
    let mut r: usize = 0;
    let mut i: usize = 0;
    while i < a.len()
        invariant
            i <= a@.len(),
            a@.no_duplicates(),
            common.no_duplicates(),
            r == common.len(),
            r <= i,
            forall|c: i32| common.contains(c) <==> (a@.take(i as int).contains(c) && b@.contains(c)),
        decreases a@.len() - i,
    {
        let x = a[i];
        proof {
            let p0 = a@.take(i as int);
            let p1 = a@.take(i + 1);
            assert forall|d: i32| p1.contains(d) <==> (p0.contains(d) || d == x) by {
                if p1.contains(d) {
                    let q = choose|q: int| 0 <= q < p1.len() && p1[q] == d;
                    if q < i {
                        assert(p0[q] == d);
                    }
                }
                if p0.contains(d) {
                    let q = choose|q: int| 0 <= q < p0.len() && p0[q] == d;
                    assert(p1[q] == d);
                }
                if d == x {
                    assert(p1[i as int] == d);
                }
            }
            assert(!p0.contains(x)) by {
                if p0.contains(x) {
                    let q = choose|q: int| 0 <= q < p0.len() && p0[q] == x;
                    assert(a@[q] == a@[i as int]);
                }
            }
        }
        if contains_value(b, x) {
            proof {
                let before = common;
                common = common.push(x);
                assert forall|p: int, q: int| 0 <= p < q < common.len() implies common[p] != common[q] by {
                    if q == common.len() - 1 {
                        assert(before.contains(before[p]));
                    } else {
                        assert(before[p] != before[q]);
                    }
                }
                assert forall|d: i32| common.contains(d) <==> (a@.take(i + 1).contains(d) && b@.contains(d)) by {
                    if common.contains(d) {
                        let q = choose|q: int| 0 <= q < common.len() && common[q] == d;
                        if q < before.len() {
                            assert(before.contains(d));
                        }
                    }
                    if before.contains(d) {
                        let q = choose|q: int| 0 <= q < before.len() && before[q] == d;
                        assert(common[q] == d);
                    }
                    if d == x {
                        assert(common[before.len() as int] == d);
                    }
                }
            }
            r = r + 1;
        }
        i = i + 1;
    }
    proof {
        assert(a@.take(a@.len() as int) =~= a@);
        assert(common.to_set() =~= a@.to_set().intersect(b@.to_set()));
        common.unique_seq_to_set();
    }
    r
}

/// Draws one pair of distinct rows out of `n >= 2`.
fn draw_pair(state: u64, n: usize) -> (res: (usize, usize, u64))
    requires
        n >= 2,
    ensures
        (res.0 as nat, res.1 as nat, res.2) == sample_pair(state, n as nat),
        res.0 < n,
        res.1 < n,
{
    let s1 = crate::bitsupport::mix64(state);
    let i = (#[verifier::truncate] (s1 as usize)) % n;
    let s2 = crate::bitsupport::mix64(s1);
    let mut j = (#[verifier::truncate] (s2 as usize)) % n;
    if j == i {
        j = (j + 1) % n;
    }
    (i, j, s2)
}

/// `(|A ∩ B|, |A ∪ B|)` for the candidate sets of two rows, or `None` when
/// both are empty.
fn overlap_of_rows(ra: &Vec<i32>, rb: &Vec<i32>) -> (res: Option<(usize, usize)>)
    requires
        ra@.len() + rb@.len() <= usize::MAX,
    ensures
        nonneg_set(ra@).union(nonneg_set(rb@)).len() == 0 ==> res is None,
        nonneg_set(ra@).union(nonneg_set(rb@)).len() != 0 ==> res == Some(
            (
                nonneg_set(ra@).intersect(nonneg_set(rb@)).len() as usize,
                nonneg_set(ra@).union(nonneg_set(rb@)).len() as usize,
            ),
        ),
{
    let a = distinct_nonneg(ra);
    let b = distinct_nonneg(rb);
    proof {
        a@.unique_seq_to_set();
        b@.unique_seq_to_set();
        vstd::set_lib::lemma_set_intersect_union_lens(a@.to_set(), b@.to_set());
        vstd::set_lib::lemma_len_intersect(a@.to_set(), b@.to_set());
    }
    let inter = count_common(&a, &b);
    let union = a.len() + b.len() - inter;
    if union == 0 {
        None
    } else {
        Some((inter, union))
    }
}

/// For `sample_pairs` pseudo-random pairs of distinct rows (drawn with
/// SplitMix64 from `seed`), `(|A ∩ B|, |A ∪ B|)` of their candidate sets
/// (entries `>= 0`), skipping pairs where both sets are empty; empty when
/// there are fewer than 2 rows or no samples. The Jaccard overlap of a
/// sample is `|A ∩ B| / |A ∪ B|`.
pub fn pairwise_overlap_counts(routes_per_row: &[Vec<i32>], sample_pairs: usize, seed: u64) -> (res:
    Vec<(usize, usize)>)
    requires
        forall|j: int| 0 <= j < routes_per_row@.len() ==> 2 * #[trigger] routes_per_row@[j]@.len() <= usize::MAX,
    ensures
        routes_per_row@.len() < 2 || sample_pairs == 0 ==> res@.len() == 0,
        routes_per_row@.len() >= 2 && sample_pairs > 0 ==> res@ == overlap_run(
            row_views(routes_per_row@),
            sample_pairs as nat,
            seed,
        ).0.map_values(|p: (nat, nat)| (p.0 as usize, p.1 as usize)),
{
    let n = routes_per_row.len();
    let mut res: Vec<(usize, usize)> = Vec::new();
    if n < 2 || sample_pairs == 0 {
        return res;
    }
    let ghost views = row_views(routes_per_row@);
    let mut state = seed;
    let mut t: usize = 0;
    while t < sample_pairs
        invariant
            t <= sample_pairs,
            n == routes_per_row@.len(),
            n >= 2,
            views == row_views(routes_per_row@),
            forall|jj: int| 0 <= jj < routes_per_row@.len() ==> 2 * #[trigger] routes_per_row@[jj]@.len() <= usize::MAX,
            state == overlap_run(views, t as nat, seed).1,
            res@ == overlap_run(views, t as nat, seed).0.map_values(
                |p: (nat, nat)| (p.0 as usize, p.1 as usize),
            ),
        decreases sample_pairs - t,
    {
        let (i, j, next_state) = draw_pair(state, n);
        let counts = overlap_of_rows(&routes_per_row[i], &routes_per_row[j]);
        let ghost prev_run = overlap_run(views, t as nat, seed);
        proof {
            assert(views[i as int] == routes_per_row@[i as int]@);
            assert(views[j as int] == routes_per_row@[j as int]@);
        }
        match counts {
            Some(c) => {
                res.push(c);
                proof {
                    let run = overlap_run(views, (t + 1) as nat, seed);
                    assert(res@ =~= run.0.map_values(|p: (nat, nat)| (p.0 as usize, p.1 as usize)));
                }
            },
            None => {},
        }
        state = next_state;
        t = t + 1;
    }
    res
}

/// Pair sampling: from mixer state `state`, the first row is
/// `mix64(state) mod n`; the second is `mix64(mix64(state)) mod n`, moved to
/// its cyclic successor only when it equals the first; the two rows always
/// differ, and the state advances by two mixes.
pub proof fn law_sample_pair_rows(state: u64, n: nat)
    requires
        n >= 2,
    ensures
        sample_pair(state, n).0 == ((crate::bitsupport::mix64_spec(state) as usize) as nat) % n,
        sample_pair(state, n).2 == crate::bitsupport::mix64_spec(crate::bitsupport::mix64_spec(state)),
        ((sample_pair(state, n).2 as usize) as nat) % n != sample_pair(state, n).0 ==> sample_pair(
            state,
            n,
        ).1 == ((sample_pair(state, n).2 as usize) as nat) % n,
        ((sample_pair(state, n).2 as usize) as nat) % n == sample_pair(state, n).0 ==> sample_pair(
            state,
            n,
        ).1 == (sample_pair(state, n).0 + 1) % n,
        sample_pair(state, n).0 != sample_pair(state, n).1,
        sample_pair(state, n).0 < n,
        sample_pair(state, n).1 < n,
{
    let s1 = crate::bitsupport::mix64_spec(state);
    let s2 = crate::bitsupport::mix64_spec(s1);
    let i = ((s1 as usize) as nat) % n;
    let j0 = ((s2 as usize) as nat) % n;
    assert(sample_pair(state, n) == (i, if j0 == i { (j0 + 1) % n } else { j0 }, s2));
    if j0 == i {
        if i + 1 < n {
            vstd::arithmetic::div_mod::lemma_small_mod((i + 1) as nat, n);
        } else {
            vstd::arithmetic::div_mod::lemma_mod_self_0(n as int);
        }
    }
}

} // verus!
