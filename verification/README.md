# constraint_dynamics_rs

Constraint satisfaction over integer domains, verified with Verus: constraint
propagation, arc consistency (AC-3) and forward checking, a backtracking
solver with the minimum-remaining-values heuristic, relaxation of
over-constrained systems, and an energy landscape over assignments.

Layout:

- `src/constraint.rs` — `Constraint<R>` over a predicate `R: Predicate`
  (the trait ties a checking method to a spec predicate; `Relation` holds
  the common predicates, and a verified crate may give its own), `Variable`,
  `ConstraintType`.
- `src/domains.rs` — the model of a family of domains and facts about it.
- `src/dynamics.rs` — `propagate`, `arc_consistency`, `forward_check`, and the
  laws that they remove no value of any solution.
- `src/solver.rs` — `Solver::solve`, `Solver::count_solutions`; sound, and
  complete when the search is not cut short.
- `src/relaxation.rs` — `relaxed_solve` and `minimal_relaxation` (a
  smallest set of relaxed constraints).
- `src/energy.rs` — `EnergyLandscape`: energies, minima, barriers.
- `app/lib.rs` — conversions between the fixed-point quantities and `f64`, and
  the variance of the energies (ruggedness).

Strengths are fixed-point integers: `STRENGTH_SCALE` (1000) is a mandatory
constraint's strength, 1.0. Energies and weights are sums of strengths, held
in `u128` so that they cannot overflow.
