# ferment-constraints

Constraint satisfaction as fermentation: every CSP variable is a culture
whose domain shrinks as mutualistic AC-3 prunes the values that have no
partner left; baking reads the solution out of the converged consortium.

## Layout

- `src/` is the verified library (Verus). It holds everything that decides
  about domains: constraints, pruning, fermentation rounds and the run until
  convergence, CSP construction (n-queens included), seeding, predicate
  descriptions, the solving pipeline, convergence certificates and baking.
  - `relation.rs` holds the `Constraint` trait. Every closure
    `Fn(i32, i32) -> bool` is a constraint: the contracts read it as the
    pairs on which it returns `true`, and ask that it can be called on every
    pair with one answer for each. The named relations of `Relation`
    (`<`, `<=`, `!=`, non-attacking queens, ...) are constraints too.
  - `fermentation.rs` states what fermentation guarantees: domains only
    shrink, a round that prunes nothing leaves the consortium arc
    consistent (and conversely), and a run stops within n·d + 1 rounds.
  - `certificate.rs` and `bake.rs` state what a certificate and a bake
    report, and that a solved bake satisfies every constraint (an unsolved
    one carries no assignments).
- `app/` wraps the library with what carries floating point: populations,
  fitness, resources, interaction strengths, temperature and metabolism
  profiles, and the serde-serialisable copies of the library's types.
- `tests/` exercises the library.
