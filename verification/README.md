# ternary-gradient (verified)

Optimization over ternary spaces `{-1, 0, +1}^n`: coordinate descent, hill climbing,
a genetic algorithm and exhaustive fitness landscapes, with contracts proved by Verus.

Layout:

- `src/ternary.rs` — the `Ternary` value, its integer, sign flip and text.
- `src/point.rs` — `TernaryPoint`: coordinates, neighbours, Hamming distance, random points;
  laws on neighbours and distance.
- `src/rng.rs` — the 64-bit linear congruential generator behind every random choice.
- `src/score.rs` — scores (integer keys that order as fitness values do; `None` compares with
  nothing) and the choice of the best improving candidate.
- `src/search.rs` — steepest ascent over the neighbour graph for any scoring, and its laws
  (never descends, stops only at a peak, settles, stays within distance of its moves).
- `src/landscape.rs` — base-3 numbering of points, enumeration, and `ScoreLandscape`
  (evaluation, global optimum, steepest ascent, local optima) with its laws.
- `src/descent.rs`, `src/climbing.rs` — coordinate descent and hill climbing as state
  machines, and drivers that run them with a scoring closure.
- `src/genetic.rs` — the genetic algorithm: population, tournament, crossover, mutation,
  elitism.
- `app/lib.rs` — floating-point fitness on top of the library: `f64` values become scores,
  simulated annealing (its acceptance rule is floating point), and the `f64` landscape.
- `tests/` — tests of the library.
