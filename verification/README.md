# oslom-core

Overlapping, hierarchical community detection in networks with OSLOM
(Order Statistics Local Optimization Method), written in Verus: the
library's logic carries `requires` / `ensures` contracts that Verus proves.

## Layout

- `src/` — the verified library.
  - `graph.rs` — `Network`, `NetworkBuilder`, `Edge`. A network's model is
    the sequence of edges added to it; node set, adjacency lists, degrees,
    edge count and induced subgraphs are stated as functions of it.
  - `modules.rs` — `Module`, `ModuleCollection`: insertion, removal,
    merging, membership index, coverage, homeless nodes, overlapping pairs.
  - `louvain.rs` — `LouvainOptimizer`: local moving from singleton
    communities; a converged run returns a partition of the node set that
    groups nodes exactly by their final community.
  - `oslom.rs` — configuration, results, module evaluation, overlap
    resolution, singleton handling, aggregation into the next level and the
    hierarchical driver `run_oslom`.
  - `statistics.rs` — internal / external / total edge counts of a node set.
  - `weight.rs` — the `Weight` trait and the arithmetic on weights.
  - `order.rs`, `random.rs` — sorting and shuffling of node lists.
- `tests/` — tests run against the compiled library.
- `app/` — what stays outside verification: the floating-point statistical
  test (`StatisticalTester`, log-factorial table, `erf`), progress printing,
  thread-pool set-up, the serde and thiserror copies of library types, and the
  Python bindings.

## Weights

Edge weights and module scores have a type parameter `W: Weight` (any copy
type with a default, a partial order, `+ - * /` and `From<u32>`); the library
is used with `f64`, and the zero weight is `W::from(0)`. Networks, module
merging and overlap computations ask `weight_ops_total::<W>()`: vstd's
preconditions of the four operators hold for all arguments. Floating-point
types meet it; integer types, whose operators overflow or divide by zero, do
not. Node and module bookkeeping is integer logic with full contracts.
Values computed from weights (degrees, overlap ratios, modularity, gains,
mean scores, the choice among runs and among candidate communities) are
stated as the sequence of `W` operations performed, for every `W` that
follows vstd's operator specifications (`arithmetic_obeys`,
`order_obeys`); vstd states nothing of floating-point results, so for `f64`
those clauses say nothing.

Each level makes `r` (first level) or `hr` (higher levels) runs one after
another and keeps the one of largest modularity; `num_threads` only sizes
the thread pool that `app/` sets up. Node orders are shuffled with a
generator seeded with `random_seed` where one is given.

The statistical evaluation is supplied by the caller through the
`ModuleScorer` trait; `app/` implements it with the statistical tester. The
trait's spec function `scored` names the scores a scorer gives a node list,
and the contracts say which node list each kept module's score and each
merge decision came from: a module's own nodes, or the union of two
modules, sorted and without repetition.

A Louvain optimisation gives up with `ConvergenceFailed` exactly after
`MAX_ITERATIONS` passes of which all but possibly the last moved a node;
`run_oslom` reports that error only with the levels completed before the
level on whose network this happened.

## Trusted items

- `sort_nodes` — `slice::sort_unstable` on node lists (sorted, same
  multiset).
- `thread_rng`, `seeded_rng`, `shuffle_nodes`, `shuffle_nodes_seeded` —
  `rand::thread_rng`, `SeedableRng::seed_from_u64` and `SliceRandom::shuffle`
  (the result is a permutation of the input).
- The type declarations of `rand::rngs::ThreadRng`, `rand::rngs::StdRng` and
  `std::io::Error`.
