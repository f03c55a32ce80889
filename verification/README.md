# phase_router_rs

Phase routing: a deterministic balance primitive for sparse routing. Source
rows and target capacities are bit-packed matrices; each row is routed to at
most `k` distinct target columns whose cyclic capacity windows hold the row's
target phase, and every target column receives at most as many rows as its
capacity.

The library under `src/` is verified with Verus:

- `bitspec`, `bitsupport` — bit-level model, `rank1` / `select1`,
  `SupportView`, SplitMix64, gcd and coprime multipliers.
- `rows` — per-row degrees, cumulative-degree offsets, inverse permutations,
  cyclic ranges.
- `reservoir`, `rng` — Algorithm R over a row's candidates, and the seeded
  ChaCha8 generator it draws from (trusted items over `rand` / `rand_chacha`).
- `router`, `router_rs`, `capacity` — the phase router and the three
  rank/select routers, with their fan-out, distinctness, capacity, support
  and determinism laws.
- `dispatch` — uniform MoE dispatch over expert bands, and the router with
  seed-derived permutations.
- `bitops` — row rotation and column permutation of packed rows.
- `metrics`, `workloads` — counting diagnostics and the integer builders of
  the benchmark workloads.

`app/` holds what stays outside the proofs: the Python bindings, the
floating-point diagnostics, and the density-driven workload constructors.
