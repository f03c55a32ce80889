//! The pseudo-random generator the routers draw from: `rand_chacha`'s
//! ChaCha8 seeded through `rand`'s `SeedableRng::seed_from_u64`, behind
//! trusted items.
//!
//! A seeded ChaCha8 generator is deterministic: what a use hands out is fixed
//! by the seed, by the uses made of the generator before it, by the use
//! itself, and (for `usize` ranges, which `rand` samples through the native
//! word) by the width of `usize`. `SeededRng` carries the seed and the list
//! of earlier uses as ghost state, and the values are named by
//! `chacha_draw` and `chacha_shuffle` over exactly those inputs.

use vstd::prelude::*;
use rand::Rng;
use rand::SeedableRng;
use rand::seq::SliceRandom;

verus! {

/// The ChaCha8 generator of `rand_chacha`, an opaque value to Verus.
#[verifier::external_type_specification]
#[verifier::external_body]
pub struct ExChaCha8Rng(rand_chacha::ChaCha8Rng);

/// One use of a generator: a draw `gen_range(0..=hi)`, or a shuffle of a
/// slice of `len` entries.
pub enum RngUse {
    Draw(usize),
    Shuffle(usize),
}

/// The value `gen_range(0..=hi)` returns on a `ChaCha8Rng` seeded with
/// `seed_from_u64(seed)` after the uses `uses`, on a machine whose `usize`
/// has `word_bits` bits.
pub uninterp spec fn chacha_draw(seed: u64, uses: Seq<RngUse>, hi: usize, word_bits: u32) -> usize;

/// The order `SliceRandom::shuffle` leaves `v` in, on a `ChaCha8Rng` seeded
/// with `seed_from_u64(seed)` after the uses `uses`, on a machine whose
/// `usize` has `word_bits` bits.
pub uninterp spec fn chacha_shuffle(
    seed: u64,
    uses: Seq<RngUse>,
    v: Seq<usize>,
    word_bits: u32,
) -> Seq<usize>;

/// A seeded ChaCha8 generator together with its seed and the uses made of
/// it so far.
pub struct SeededRng {
    rng: rand_chacha::ChaCha8Rng,
    seed: Ghost<u64>,
    uses: Ghost<Seq<RngUse>>,
}

impl SeededRng {
    /// The seed the generator was created with.
    pub closed spec fn seed(&self) -> u64 {
        self.seed@
    }

    /// The uses made of the generator since it was seeded, in order.
    pub closed spec fn uses(&self) -> Seq<RngUse> {
        self.uses@
    }
}

/// Calls `ChaCha8Rng::seed_from_u64(seed)`: a generator with this seed and
/// no uses yet.
#[verifier::external_body]
pub(crate) fn seeded_rng(seed: u64) -> (rng: SeededRng)
    ensures
        rng.seed() == seed,
        rng.uses() == Seq::<RngUse>::empty(),
{
    SeededRng {
        rng: rand_chacha::ChaCha8Rng::seed_from_u64(seed),
        seed: Ghost(seed),
        uses: Ghost(Seq::empty()),
    }
}

/// Calls `rng.gen_range(0..=hi)`, which returns a value in `[0, hi]` (the
/// range is never empty, so it does not panic); the value is the one
/// `chacha_draw` names for the generator's seed and earlier uses.
#[verifier::external_body]
pub(crate) fn draw_at_most(rng: &mut SeededRng, hi: usize) -> (r: usize)
    ensures
        r <= hi,
        r == chacha_draw(old(rng).seed(), old(rng).uses(), hi, usize::BITS),
        final(rng).seed() == old(rng).seed(),
        final(rng).uses() == old(rng).uses().push(RngUse::Draw(hi)),
{
    let r = rng.rng.gen_range(0..=hi);
    rng.uses = Ghost(rng.uses@.push(RngUse::Draw(hi)));
    r
}

/// Calls `SliceRandom::shuffle` on the vector, which only swaps entries: the
/// result holds the same values with the same multiplicities, in the order
/// `chacha_shuffle` names for the generator's seed and earlier uses.
#[verifier::external_body]
pub(crate) fn shuffle_in_place(v: &mut Vec<usize>, rng: &mut SeededRng)
    ensures
        final(v)@ == chacha_shuffle(old(rng).seed(), old(rng).uses(), old(v)@, usize::BITS),
        final(v)@.len() == old(v)@.len(),
        final(v)@.to_multiset() == old(v)@.to_multiset(),
        final(rng).seed() == old(rng).seed(),
        final(rng).uses() == old(rng).uses().push(RngUse::Shuffle(old(v)@.len() as usize)),
{
    let len = v.len();
    v.shuffle(&mut rng.rng);
    rng.uses = Ghost(rng.uses@.push(RngUse::Shuffle(len)));
}

/// The uses a row's reservoir makes before its `i`-th draw: draws with
/// bounds `k, k + 1, ..., k + i - 1`.
pub open spec fn reservoir_uses(k: nat, i: nat) -> Seq<RngUse> {
    Seq::new(i, |x: int| RngUse::Draw((k + x) as usize))
}

/// The `m` draws a reservoir of `k` slots takes from a generator seeded with
/// `seed`: the `i`-th is `gen_range(0..=k + i)` after the `i` before it.
pub open spec fn seeded_draws(seed: u64, k: nat, m: nat) -> Seq<usize> {
    Seq::new(
        m,
        |i: int| chacha_draw(seed, reservoir_uses(k, i as nat), (k + i) as usize, usize::BITS),
    )
}

/// Draws `m` values for a reservoir of `k` slots from a generator seeded
/// with `seed`: the `i`-th from `[0, k + i]`.
pub fn reservoir_draws(seed: u64, k: usize, m: usize) -> (draws: Vec<usize>)
    requires
        m == 0 || k + m - 1 <= usize::MAX,
    ensures
        draws@ == seeded_draws(seed, k as nat, m as nat),
        forall|i: int| 0 <= i < m ==> draws@[i] <= k + i,
{
    let mut rng = seeded_rng(seed);
    let mut draws: Vec<usize> = Vec::new();
    let mut i: usize = 0;
    while i < m
        invariant
            i <= m,
            m == 0 || k + m - 1 <= usize::MAX,
            rng.seed() == seed,
            rng.uses() == reservoir_uses(k as nat, i as nat),
            draws@ == seeded_draws(seed, k as nat, i as nat),
            forall|x: int| 0 <= x < i ==> draws@[x] <= k + x,
        decreases m - i,
    {
        let r = draw_at_most(&mut rng, k + i);
        draws.push(r);
        proof {
            assert(reservoir_uses(k as nat, i as nat).push(RngUse::Draw((k + i) as usize))
                =~= reservoir_uses(k as nat, (i + 1) as nat));
            assert(draws@ =~= seeded_draws(seed, k as nat, (i + 1) as nat));
        }
        i = i + 1;
    }
    draws
}

} // verus!
