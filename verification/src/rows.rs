//! Per-row summaries of a packed bit matrix: row degrees, cumulative-degree
//! offsets modulo `n`, inverse permutations, and cyclic ranges.
//!
//! Row `i` of a packed matrix `bits` with `nb_words` words per row is
//! `bits[i * nb_words .. (i + 1) * nb_words]`.

use vstd::prelude::*;
use crate::bitspec::{lemma_rank_next_word, lemma_rank_le, rank_of, total_ones};

verus! {

/// Row `i` of the packed matrix `bits`.
pub open spec fn row_words(bits: Seq<u64>, nb_words: nat, i: nat) -> Seq<u64> {
    bits.subrange((i * nb_words) as int, (i * nb_words + nb_words) as int)
}

/// Number of set bits in row `i`.
pub open spec fn row_ones_spec(bits: Seq<u64>, nb_words: nat, i: nat) -> nat {
    total_ones(row_words(bits, nb_words, i))
}

/// Cumulative degree of rows `0..i`, taken modulo `n` at every step.
pub open spec fn offset_spec(bits: Seq<u64>, n: nat, nb_words: nat, i: nat) -> nat
    decreases i,
{
    if i == 0 {
        0
    } else {
        (offset_spec(bits, n, nb_words, (i - 1) as nat) + row_ones_spec(
            bits,
            nb_words,
            (i - 1) as nat,
        )) % n
    }
}

/// The offsets of all `n` rows, as `compute_offsets` returns them.
pub open spec fn offsets_seq(bits: Seq<u64>, n: nat, nb_words: nat) -> Seq<usize> {
    Seq::new(n, |i: int| offset_spec(bits, n, nb_words, i as nat) as usize)
}

/// The set-bit counts of all `n` rows, as `compute_row_ones` returns them.
pub open spec fn row_ones_seq(bits: Seq<u64>, n: nat, nb_words: nat) -> Seq<usize> {
    Seq::new(n, |i: int| row_ones_spec(bits, nb_words, i as nat) as usize)
}

/// The table `compute_inverse_perm` fills after its first `m` steps:
/// `inv[perm[i]] = i` for `i` in order, starting from zeros.
pub open spec fn inverse_perm_spec(perm: Seq<usize>, m: nat) -> Seq<usize>
    decreases m,
{
    if m == 0 {
        Seq::new(perm.len(), |i: int| 0usize)
    } else {
        inverse_perm_spec(perm, (m - 1) as nat).update(perm[m - 1] as int, (m - 1) as usize)
    }
}

/// `perm` is a permutation of `0..n`.
pub open spec fn is_permutation(perm: Seq<usize>, n: nat) -> bool {
    &&& perm.len() == n
    &&& forall|i: int| 0 <= i < n ==> perm[i] < n
    &&& forall|i: int, j: int| 0 <= i < j < n ==> perm[i] != perm[j]
}

/// Set-bit count of one row, as a `usize`.
fn count_row_ones(words: &[u64]) -> (r: usize)
    requires
        64 * words@.len() <= usize::MAX,
    ensures
        r == total_ones(words@),
{
    let mut rs: usize = 0;
    let mut w: usize = 0;
    while w < words.len()
        invariant
            w <= words@.len(),
            64 * words@.len() <= usize::MAX,
            rs == rank_of(words@, 64 * w as nat),
        decreases words@.len() - w,
    {
        proof {
            lemma_rank_next_word(words@, w as nat);
            lemma_rank_le(words@, 64 * (w + 1) as nat);
            assert(64 * (w + 1) <= 64 * words@.len()) by (nonlinear_arith)
                requires
                    w < words@.len(),
            ;
        }
        rs = rs + words[w].count_ones() as usize;
        w = w + 1;
    }
    rs
}

/// Cumulative-degree offsets: `offsets[0] = 0` and
/// `offsets[i] = (offsets[i - 1] + ones(row i - 1)) % n`.
pub fn compute_offsets(bits: &[u64], n: usize, nb_words: usize) -> (offsets: Vec<usize>)
    requires
        n > 0 ==> (n - 1) * nb_words <= bits@.len(),
        n + 64 * nb_words <= usize::MAX,
    ensures
        offsets@.len() == n,
        forall|i: int| 0 <= i < n ==> offsets@[i] == offset_spec(bits@, n as nat, nb_words as nat, i as nat),
        forall|i: int| 0 <= i < n ==> offsets@[i] < n,
{
    let mut offsets: Vec<usize> = Vec::new();
    if n == 0 {
        return offsets;
    }
    offsets.push(0);
    let total = bits.len();
    let mut i: usize = 1;
    while i < n
        invariant
            total == bits@.len(),
            1 <= i <= n,
            offsets@.len() == i,
            (n - 1) * nb_words <= bits@.len(),
            n + 64 * nb_words <= usize::MAX,
            forall|j: int| 0 <= j < i ==> offsets@[j] == offset_spec(bits@, n as nat, nb_words as nat, j as nat),
            forall|j: int| 0 <= j < i ==> offsets@[j] < n,
        decreases n - i,
    {
        assert((i - 1) * nb_words + nb_words == i * nb_words) by (nonlinear_arith);
        assert(i * nb_words <= (n - 1) * nb_words) by (nonlinear_arith)
            requires
                i <= n - 1,
        ;
        let prev = &bits[(i - 1) * nb_words..i * nb_words];
        let rs = count_row_ones(prev);
        proof {
            lemma_rank_le(prev@, 64 * prev@.len());
        }
        let next = (offsets[i - 1] + rs) % n;
        offsets.push(next);
        i = i + 1;
    }
    offsets
}

/// Set-bit count of every row.
pub fn compute_row_ones(bits: &[u64], n: usize, nb_words: usize) -> (ones: Vec<usize>)
    requires
        n * nb_words <= bits@.len(),
        64 * nb_words <= usize::MAX,
    ensures
        ones@.len() == n,
        forall|i: int| 0 <= i < n ==> ones@[i] == row_ones_spec(bits@, nb_words as nat, i as nat),
{
    let mut ones: Vec<usize> = Vec::new();
    let total = bits.len();
    let mut i: usize = 0;
    while i < n
        invariant
            total == bits@.len(),
            i <= n,
            ones@.len() == i,
            n * nb_words <= bits@.len(),
            64 * nb_words <= usize::MAX,
            forall|j: int| 0 <= j < i ==> ones@[j] == row_ones_spec(bits@, nb_words as nat, j as nat),
        decreases n - i,
    {
        assert(i * nb_words + nb_words <= n * nb_words) by (nonlinear_arith)
            requires
                i < n,
        ;
        assert(i * nb_words + nb_words == (i + 1) * nb_words) by (nonlinear_arith);
        let row = &bits[i * nb_words..(i + 1) * nb_words];
        ones.push(count_row_ones(row));
        i = i + 1;
    }
    ones
}

/// `inv[perm[i]] = i` for every `i`, in order; untouched entries stay 0.
pub fn compute_inverse_perm(perm: &[usize]) -> (inv: Vec<usize>)
    requires
        forall|i: int| 0 <= i < perm@.len() ==> perm@[i] < perm@.len(),
    ensures
        inv@ == inverse_perm_spec(perm@, perm@.len()),
{
    let mut inv: Vec<usize> = Vec::new();
    let mut z: usize = 0;
    while z < perm.len()
        invariant
            z <= perm@.len(),
            inv@ == Seq::new(z as nat, |i: int| 0usize),
        decreases perm@.len() - z,
    {
        inv.push(0);
        z = z + 1;
    }
    let mut i: usize = 0;
    while i < perm.len()
        invariant
            i <= perm@.len(),
            forall|j: int| 0 <= j < perm@.len() ==> perm@[j] < perm@.len(),
            inv@ == inverse_perm_spec(perm@, i as nat),
            inv@.len() == perm@.len(),
        decreases perm@.len() - i,
    {
        let p = perm[i];
        inv.set(p, i);
        i = i + 1;
    }
    inv
}

/// Check if `val` lies in the cyclic range `[start, start+len)` mod `n`.
pub fn in_cyclic_range(val: usize, start: usize, len: usize, n: usize) -> (r: bool)
    requires
        len < n ==> start + len <= usize::MAX,
    ensures
        r == (len > 0 && (len >= n || if start + len <= n {
            start <= val < start + len
        } else {
            val >= start || val < start + len - n
        })),
        // for positions and starts inside [0, n), this is the cyclic window
        val < n && start < n ==> r == ((val - start + n) % (n as int) < len),
{
    proof {
        if val < n && start < n && n > 0 {
            lemma_cyclic_distance(val as int, start as int, n as int);
        }
    }
    if len == 0 {
        return false;
    }
    if len >= n {
        return true;
    }
    let end = start + len;
    if end <= n {
        val >= start && val < end
    } else {
        val >= start || val < end - n
    }
}

/// The cyclic distance from `start` forward to `val`, for both in `[0, n)`.
pub proof fn lemma_cyclic_distance(val: int, start: int, n: int)
    requires
        0 <= val < n,
        0 <= start < n,
    ensures
        (val - start + n) % n == if val >= start { val - start } else { val - start + n },
{
    if val >= start {
        vstd::arithmetic::div_mod::lemma_fundamental_div_mod_converse(val - start + n, n, 1, val - start);
    } else {
        vstd::arithmetic::div_mod::lemma_fundamental_div_mod_converse(val - start + n, n, 0, val - start + n);
    }
}


/// Entries of the inverse table are row indices (or the initial 0).
pub proof fn lemma_inverse_entries_bounded(perm: Seq<usize>, m: nat)
    requires
        m <= perm.len() <= usize::MAX,
        perm.len() > 0,
        forall|i: int| 0 <= i < perm.len() ==> perm[i] < perm.len(),
    ensures
        inverse_perm_spec(perm, m).len() == perm.len(),
        forall|p: int| 0 <= p < perm.len() ==> #[trigger] inverse_perm_spec(perm, m)[p] < perm.len(),
    decreases m,
{
    if m > 0 {
        lemma_inverse_entries_bounded(perm, (m - 1) as nat);
    }
}

/// Offsets are residues modulo `n`.
pub proof fn lemma_offset_below(bits: Seq<u64>, n: nat, nb_words: nat, i: nat)
    requires
        n > 0,
    ensures
        offset_spec(bits, n, nb_words, i) < n,
{
}

/// A row's set-bit count is at most the number of its bit positions.
pub proof fn lemma_row_ones_bound(bits: Seq<u64>, n: nat, nb_words: nat, i: nat)
    requires
        i < n,
        n * nb_words <= bits.len(),
    ensures
        row_words(bits, nb_words, i).len() == nb_words,
        row_ones_spec(bits, nb_words, i) <= 64 * nb_words,
{
    assert(i * nb_words + nb_words <= n * nb_words) by (nonlinear_arith)
        requires
            i < n,
    ;
    lemma_rank_le(row_words(bits, nb_words, i), 64 * nb_words);
}

/// Every value in `[0, n)` is hit by a permutation of `0..n`.
pub proof fn lemma_permutation_onto(perm: Seq<usize>, n: nat, p: nat)
    requires
        is_permutation(perm, n),
        p < n,
    ensures
        exists|i: int| 0 <= i < n && perm[i] == p,
{
    let dom = vstd::set_lib::set_int_range(0, n as int);
    let f = |i: int| perm[i] as int;
    vstd::set_lib::lemma_int_range(0, n as int);
    let img = dom.map(f);
    assert(vstd::relations::injective_on(f, dom));
    vstd::set_lib::lemma_map_size(dom, img, f);
    assert(img.subset_of(dom));
    vstd::set_lib::lemma_subset_equality(img, dom);
    assert(dom.contains(p as int));
    assert(img.contains(p as int));
    let i = choose|i: int| dom.contains(i) && f(i) == p as int;
    assert(0 <= i < n && perm[i] == p);
}

proof fn lemma_inverse_prefix(perm: Seq<usize>, n: nat, m: nat)
    requires
        is_permutation(perm, n),
        n <= usize::MAX,
        m <= n,
    ensures
        inverse_perm_spec(perm, m).len() == n,
        forall|i: int| 0 <= i < m ==> inverse_perm_spec(perm, m)[perm[i] as int] == i,
    decreases m,
{
    if m > 0 {
        let m1 = (m - 1) as nat;
        lemma_inverse_prefix(perm, n, m1);
        let prev = inverse_perm_spec(perm, m1);
        assert(inverse_perm_spec(perm, m) == prev.update(perm[m1 as int] as int, m1 as usize));
        assert forall|i: int| 0 <= i < m implies inverse_perm_spec(perm, m)[perm[i] as int] == i by {
            if i < m1 {
                assert(perm[i] != perm[m1 as int]);
                assert(prev[perm[i] as int] == i);
            }
        }
    }
}

/// `compute_inverse_perm` inverts a permutation: the result is again a
/// permutation of `0..n`, and `inv[perm[i]] == i`, `perm[inv[p]] == p`.
pub proof fn law_inverse_perm_inverts(perm: Seq<usize>, n: nat)
    requires
        is_permutation(perm, n),
        n <= usize::MAX,
    ensures
        is_permutation(inverse_perm_spec(perm, n), n),
        forall|i: int| 0 <= i < n ==> #[trigger] inverse_perm_spec(perm, n)[perm[i] as int] == i,
        forall|p: int| 0 <= p < n ==> #[trigger] perm[inverse_perm_spec(perm, n)[p] as int] == p,
{
    let inv = inverse_perm_spec(perm, n);
    lemma_inverse_prefix(perm, n, n);
    assert forall|p: int| 0 <= p < n implies inv[p] < n && perm[inv[p] as int] == p by {
        lemma_permutation_onto(perm, n, p as nat);
        let i = choose|i: int| 0 <= i < n && perm[i] == p;
        assert(inv[perm[i] as int] == i);
    }
    assert forall|p: int, q: int| 0 <= p < q < n implies inv[p] != inv[q] by {
        assert(perm[inv[p] as int] == p);
        assert(perm[inv[q] as int] == q);
    }
}


/// `[0, 1, ..., n - 1]`.
pub open spec fn identity_seq(n: nat) -> Seq<usize> {
    Seq::new(n, |i: int| i as usize)
}

/// A reordering of `0..n` (same multiset) is a permutation of `0..n`.
pub proof fn lemma_reordered_identity_is_permutation(s: Seq<usize>, n: nat)
    requires
        n <= usize::MAX,
        s.to_multiset() == identity_seq(n).to_multiset(),
    ensures
        is_permutation(s, n),
{
    let id = identity_seq(n);
    s.to_multiset_ensures();
    id.to_multiset_ensures();
    assert(s.len() == n);
    assert forall|i: int| 0 <= i < n implies s[i] < n by {
        assert(s.contains(s[i]));
        assert(id.to_multiset().count(s[i]) > 0);
        assert(id.contains(s[i]));
    }
    assert forall|i: int, j: int| 0 <= i < j < n implies s[i] != s[j] by {
        if s[i] == s[j] {
            let v = s[i];
            let rest = s.remove(i);
            assert(rest[j - 1] == v);
            assert(rest.contains(v));
            rest.to_multiset_ensures();
            assert(rest.to_multiset().count(v) > 0);
            assert(s.to_multiset().count(v) >= 2);
            assert(v < n);
            let idrest = id.remove(v as int);
            idrest.to_multiset_ensures();
            assert(!idrest.contains(v)) by {
                if idrest.contains(v) {
                    let q = choose|q: int| 0 <= q < idrest.len() && idrest[q] == v;
                    if q < v {
                        assert(idrest[q] == id[q]);
                    } else {
                        assert(idrest[q] == id[q + 1]);
                    }
                }
            }
            assert(id.to_multiset().count(v) == 1);
        }
    }
}

} // verus!
