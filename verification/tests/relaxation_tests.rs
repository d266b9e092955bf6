use constraint_dynamics_rs::constraint::{Constraint, Relation, Variable, STRENGTH_SCALE};
use constraint_dynamics_rs::relaxation::{minimal_relaxation, relaxed_solve, RelaxationStrategy, RelaxedSolution};

/// A strength given as a fraction of a mandatory constraint's.
fn strength(x: f64) -> u64 {
    (x * STRENGTH_SCALE as f64).round() as u64
}

/// The value of a ratio given as numerator and denominator.
fn ratio((num, den): (u128, u128)) -> f64 {
    num as f64 / den as f64
}

fn over_constrained() -> (Vec<Variable>, Vec<Constraint<Relation>>) {
    let vars = vec![Variable::new(0, vec![1]), Variable::new(1, vec![1, 2]), Variable::new(2, vec![1, 2])];
    let constraints = vec![
        Constraint::equality(0, 0, 1, vec![], strength(1.0)),   // forces 1=1
        Constraint::inequality(1, 1, 2, vec![], strength(1.0)), // forces 1≠2 — ok
        Constraint::equality(2, 0, 2, vec![], strength(0.5)),   // forces 1=1 or 1=2
    ];
    (vars, constraints)
}

#[test]
fn test_relaxation_over_constrained() {
    let (vars, constraints) = over_constrained();
    // var 0 = 1, var 1 = 1 (from eq), var 2 must be ≠1 and =1 — contradiction
    let result = relaxed_solve(&vars, &constraints, &RelaxationStrategy::WeakestFirst);
    assert!(result.is_some());
    let sol = result.unwrap();
    assert!(ratio(sol.satisfaction_ratio()) > 0.0);
}

#[test]
fn test_relaxation_remove_index() {
    let vars = vec![Variable::new(0, vec![1]), Variable::new(1, vec![1])];
    let constraints = vec![Constraint::inequality(0, 0, 1, vec![], strength(1.0))];
    let result = relaxed_solve(&vars, &constraints, &RelaxationStrategy::RemoveIndex(0));
    assert!(result.is_some());
    let sol = result.unwrap();
    assert!(sol.violated.contains(&0));
}

#[test]
fn test_relaxation_no_need() {
    let vars = vec![Variable::new(0, vec![1, 2]), Variable::new(1, vec![1, 2])];
    let c = Constraint::inequality(0, 0, 1, vec![], strength(1.0));
    let result = relaxed_solve(&vars, &[c], &RelaxationStrategy::WeakestFirst);
    assert!(result.is_some());
    assert_eq!(ratio(result.unwrap().satisfaction_ratio()), 1.0);
}

#[test]
fn test_satisfaction_ratio_zero_weight() {
    let sol = RelaxedSolution { assignments: vec![(0, 1)], satisfied_weight: 0, total_weight: 0, violated: vec![] };
    assert_eq!(ratio(sol.satisfaction_ratio()), 1.0);
}

#[test]
fn test_minimal_relaxation() {
    let vars = vec![Variable::new(0, vec![1]), Variable::new(1, vec![2])];
    let constraints = vec![Constraint::equality(0, 0, 1, vec![], strength(1.0))];
    let result = minimal_relaxation(&vars, &constraints);
    assert!(result.is_some());
}

#[test]
fn test_reduce_strength() {
    let vars = vec![Variable::new(0, vec![1, 2]), Variable::new(1, vec![1, 2])];
    let c = Constraint::inequality(0, 0, 1, vec![], strength(1.0));
    let result = relaxed_solve(&vars, &[c], &RelaxationStrategy::ReduceStrength(strength(0.5)));
    assert!(result.is_some());
    assert_eq!(ratio(result.unwrap().satisfaction_ratio()), 1.0);
}

#[test]
fn weakest_first_drops_the_weakest_constraint() {
    let (vars, constraints) = over_constrained();
    let sol = relaxed_solve(&vars, &constraints, &RelaxationStrategy::WeakestFirst).unwrap();
    assert_eq!(sol.violated, vec![2]);
    assert_eq!(sol.total_weight, 2500);
    assert_eq!(sol.satisfied_weight, 2000);
    assert_eq!(sol.satisfaction_ratio(), (2000, 2500));
    assert_eq!(sol.assignments, vec![(0, 1), (1, 1), (2, 2)]);
}

#[test]
fn reverse_order_drops_the_last_constraints() {
    let (vars, constraints) = over_constrained();
    let sol = relaxed_solve(&vars, &constraints, &RelaxationStrategy::ReverseOrder).unwrap();
    assert_eq!(sol.violated, vec![2]);
    assert_eq!(sol.satisfied_weight, 2000);
}

#[test]
fn reverse_order_can_drop_everything() {
    let vars = vec![Variable::new(0, vec![1]), Variable::new(1, vec![1])];
    let constraints = vec![
        Constraint::inequality(0, 0, 1, vec![], 1000),
        Constraint::equality(1, 0, 1, vec![], 300),
    ];
    // Dropping the last (satisfiable) one is not enough; dropping both is.
    let sol = relaxed_solve(&vars, &constraints, &RelaxationStrategy::ReverseOrder).unwrap();
    // The relaxed equality still holds under the values found.
    assert_eq!(sol.violated, vec![0]);
    assert_eq!(sol.satisfied_weight, 300);
    assert_eq!(sol.total_weight, 1300);
}

#[test]
fn remove_index_solves_or_fails() {
    let (vars, constraints) = over_constrained();
    // Removing the equality between 0 and 1 leaves x1 = 2 possible: x1 != x2, x0 = x2.
    let sol = relaxed_solve(&vars, &constraints, &RelaxationStrategy::RemoveIndex(0)).unwrap();
    assert_eq!(sol.violated, vec![0]);
    assert_eq!(sol.assignments, vec![(0, 1), (1, 2), (2, 1)]);
    // Removing a constraint that is not the cause leaves the system unsolvable.
    let vars2 = vec![Variable::new(0, vec![1]), Variable::new(1, vec![1])];
    let cs2 = vec![
        Constraint::inequality(0, 0, 1, vec![], 1000),
        Constraint::equality(1, 0, 1, vec![], 1000),
    ];
    assert!(relaxed_solve(&vars2, &cs2, &RelaxationStrategy::RemoveIndex(1)).is_none());
}

#[test]
fn remove_index_out_of_range_removes_nothing() {
    let vars = vec![Variable::new(0, vec![1, 2]), Variable::new(1, vec![1, 2])];
    let c = Constraint::inequality(0, 0, 1, vec![], 1000);
    let sol = relaxed_solve(&vars, &[c], &RelaxationStrategy::RemoveIndex(7)).unwrap();
    assert!(sol.violated.is_empty());
    assert_eq!(sol.satisfaction_ratio(), (1000, 1000));
}

#[test]
fn reduce_strength_scales_weights() {
    let vars = vec![Variable::new(0, vec![1, 2]), Variable::new(1, vec![1, 2])];
    let cs = vec![Constraint::inequality(0, 0, 1, vec![], 1000), Constraint::less_than(1, 0, 1, vec![], 300)];
    let sol = relaxed_solve(&vars, &cs, &RelaxationStrategy::ReduceStrength(500)).unwrap();
    assert_eq!(sol.satisfied_weight, 650);
    assert_eq!(sol.total_weight, 650);
    assert!(sol.violated.is_empty());
    assert_eq!(sol.assignments, vec![(0, 1), (1, 2)]);
}

#[test]
fn reduce_strength_does_not_relax_anything() {
    let vars = vec![Variable::new(0, vec![1]), Variable::new(1, vec![1])];
    let c = Constraint::inequality(0, 0, 1, vec![], 1000);
    assert!(relaxed_solve(&vars, &[c], &RelaxationStrategy::ReduceStrength(1)).is_none());
}

#[test]
fn minimal_relaxation_relaxes_fewest_constraints() {
    let vars = vec![Variable::new(0, vec![1]), Variable::new(1, vec![1, 2])];
    let cs = vec![
        Constraint::range(0, 0, vec![], 200, 1, 1),
        Constraint::equality(1, 0, 1, vec![], 1000),
        Constraint::inequality(2, 0, 1, vec![], 1000),
    ];
    // Weakest first relaxes the range and then the equality (the range
    // still holds under the values found) ...
    let weakest = relaxed_solve(&vars, &cs, &RelaxationStrategy::WeakestFirst).unwrap();
    assert_eq!(weakest.violated, vec![1]);
    // ... but relaxing the equality alone suffices.
    let minimal = minimal_relaxation(&vars, &cs).unwrap();
    assert_eq!(minimal.violated, vec![1]);
    assert_eq!(minimal.assignments, vec![(0, 1), (1, 2)]);
    assert_eq!(minimal.satisfaction_ratio(), (1200, 2200));
}

#[test]
fn minimal_relaxation_relaxes_nothing_when_solvable() {
    let (vars, _) = over_constrained();
    let cs = vec![Constraint::equality(0, 0, 1, vec![], 1000)];
    let sol = minimal_relaxation(&vars, &cs).unwrap();
    assert!(sol.violated.is_empty());
    assert_eq!(sol.satisfaction_ratio(), (1000, 1000));
}

#[test]
fn minimal_relaxation_over_constrained() {
    let (vars, constraints) = over_constrained();
    let sol = minimal_relaxation(&vars, &constraints).unwrap();
    assert_eq!(sol.violated.len(), 1);
}

#[test]
fn weakest_first_breaks_ties_by_position() {
    let vars = vec![Variable::new(0, vec![1]), Variable::new(1, vec![1])];
    let cs = vec![
        Constraint::inequality(0, 0, 1, vec![], 400),
        Constraint::inequality(1, 0, 1, vec![], 400),
        Constraint::equality(2, 0, 1, vec![], 100),
    ];
    let sol = relaxed_solve(&vars, &cs, &RelaxationStrategy::WeakestFirst).unwrap();
    // Weakest first: 2, then 0, then 1; only without all three is the system solvable.
    assert_eq!(sol.violated, vec![0, 1]);
    assert_eq!(sol.satisfied_weight, 100);
}

#[test]
fn a_relaxed_constraint_that_holds_is_not_violated() {
    let vars = vec![Variable::new(0, vec![1])];
    let c = Constraint::range(0, 0, vec![], 1000, 1, 1);
    let sol = relaxed_solve(&vars, &[c], &RelaxationStrategy::RemoveIndex(0)).unwrap();
    assert!(sol.violated.is_empty());
    assert_eq!(sol.satisfaction_ratio(), (1000, 1000));
}
