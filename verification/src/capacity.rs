//! Counting argument behind the capacity law: rows reach a target column
//! only through its cyclic window, and a permutation of phases puts at most
//! `len` rows in a window of length `len`.

use vstd::prelude::*;
use crate::router::{cyclic_hit, lemma_cyclic_hit_window};
use crate::rows::is_permutation;

verus! {

/// The rows `j < n` whose `k` slots in `routes` hold the column value `c`.
pub open spec fn rows_routed_to(routes: Seq<i32>, n: nat, k: nat, c: i32) -> Set<int> {
    Set::new(
        |j: int|
            0 <= j < n && routes.subrange(j * k, j * k + k).contains(c),
    )
}

/// At most `len` rows, and at most `n`, have their phase inside a cyclic
/// window of length `len`, when the phases form a permutation of `0..n`.
pub proof fn lemma_window_count(
    perm_t: Seq<usize>,
    n: nat,
    start: usize,
    len: usize,
    rows: Set<int>,
)
    requires
        is_permutation(perm_t, n),
        n <= usize::MAX,
        start < n,
        forall|j: int|
            #[trigger] rows.contains(j) ==> 0 <= j < n && cyclic_hit(
                perm_t[j],
                start,
                len,
                n as usize,
            ),
    ensures
        rows.finite(),
        rows.len() <= len,
        rows.len() <= n,
{
    let all = vstd::set_lib::set_int_range(0, n as int);
    vstd::set_lib::lemma_int_range(0, n as int);
    assert(rows.subset_of(all));
    vstd::set_lib::lemma_len_subset(rows, all);
    // phases of the rows: injective image inside the window
    let f = |j: int| perm_t[j] as int;
    let img = rows.map(f);
    assert(vstd::relations::injective_on(f, rows));
    vstd::set_lib::lemma_map_size(rows, img, f);
    // the window is the image of [0, len) under i -> (start + i) % n
    let g = |i: int| (start + i) % (n as int);
    let first = vstd::set_lib::set_int_range(0, len as int);
    vstd::set_lib::lemma_int_range(0, len as int);
    let win = first.map(g);
    vstd::set_lib::lemma_map_size_bound(first, win, g);
    assert forall|p: int| #[trigger] img.contains(p) implies win.contains(p) by {
        let j = choose|j: int| rows.contains(j) && f(j) == p;
        let pt = perm_t[j];
        lemma_cyclic_hit_window(pt, start, len, n as usize);
        let i = (pt - start + n) % (n as int);
        crate::rows::lemma_cyclic_distance(pt as int, start as int, n as int);
        assert(first.contains(i));
        if pt >= start {
            vstd::arithmetic::div_mod::lemma_small_mod(pt as nat, n);
        } else {
            vstd::arithmetic::div_mod::lemma_fundamental_div_mod_converse(
                start + i,
                n as int,
                1,
                pt as int,
            );
        }
        assert(g(i) == p);
    }
    vstd::set_lib::lemma_len_subset(img, win);
}

} // verus!
