use constraint_dynamics_rs::constraint::{Constraint, Relation, Variable, STRENGTH_SCALE};
use constraint_dynamics_rs::solver::Solver;

/// A strength given as a fraction of a mandatory constraint's.
fn strength(x: f64) -> u64 {
    (x * STRENGTH_SCALE as f64).round() as u64
}

#[test]
fn test_solve_simple_equality() {
    let vars = vec![Variable::new(0, vec![1, 2, 3]), Variable::new(1, vec![1, 2, 3])];
    let c = Constraint::equality(0, 0, 1, vec![], strength(1.0));
    let solver = Solver::new();
    let sol = solver.solve(&vars, &[c]).unwrap();
    assert_eq!(sol.assignments[0].1, sol.assignments[1].1);
}

#[test]
fn test_solve_graph_coloring() {
    // 3 variables, all different, domains {1, 2, 3}
    let vars = vec![
        Variable::new(0, vec![1, 2, 3]),
        Variable::new(1, vec![1, 2, 3]),
        Variable::new(2, vec![1, 2, 3]),
    ];
    let constraints = vec![
        Constraint::inequality(0, 0, 1, vec![], strength(1.0)),
        Constraint::inequality(1, 1, 2, vec![], strength(1.0)),
        Constraint::inequality(2, 0, 2, vec![], strength(1.0)),
    ];
    let solver = Solver::new();
    let sol = solver.solve(&vars, &constraints).unwrap();
    let v0 = sol.assignments.iter().find(|(id, _)| *id == 0).unwrap().1;
    let v1 = sol.assignments.iter().find(|(id, _)| *id == 1).unwrap().1;
    let v2 = sol.assignments.iter().find(|(id, _)| *id == 2).unwrap().1;
    assert_ne!(v0, v1);
    assert_ne!(v1, v2);
    assert_ne!(v0, v2);
}

#[test]
fn test_solve_no_solution() {
    let vars = vec![Variable::new(0, vec![1]), Variable::new(1, vec![1])];
    let c = Constraint::inequality(0, 0, 1, vec![], strength(1.0));
    let solver = Solver::new();
    assert!(solver.solve(&vars, &[c]).is_none());
}

#[test]
fn test_solve_less_than_chain() {
    let vars = vec![
        Variable::new(0, vec![1, 2, 3]),
        Variable::new(1, vec![1, 2, 3]),
        Variable::new(2, vec![1, 2, 3]),
    ];
    let constraints = vec![
        Constraint::less_than(0, 0, 1, vec![], strength(1.0)),
        Constraint::less_than(1, 1, 2, vec![], strength(1.0)),
    ];
    let solver = Solver::new();
    let sol = solver.solve(&vars, &constraints).unwrap();
    let v0 = sol.assignments.iter().find(|(id, _)| *id == 0).unwrap().1;
    let v1 = sol.assignments.iter().find(|(id, _)| *id == 1).unwrap().1;
    let v2 = sol.assignments.iter().find(|(id, _)| *id == 2).unwrap().1;
    assert!(v0 < v1);
    assert!(v1 < v2);
}

#[test]
fn test_count_solutions() {
    let vars = vec![Variable::new(0, vec![1, 2]), Variable::new(1, vec![1, 2])];
    let c = Constraint::inequality(0, 0, 1, vec![], strength(1.0));
    let solver = Solver::new();
    assert_eq!(solver.count_solutions(&vars, &[c], 100), 2);
}

#[test]
fn test_max_backtracks() {
    let vars = vec![Variable::new(0, vec![1, 2, 3, 4, 5]), Variable::new(1, vec![1, 2, 3, 4, 5])];
    let c = Constraint::inequality(0, 0, 1, vec![], strength(1.0));
    let mut solver = Solver::new();
    solver.max_backtracks = 2;
    // Should still find a solution with limited backtracks for this simple case
    // or return None if backtracks exceed
    let result = solver.solve(&vars, &[c]);
    // Either finds a solution or gives up — both valid with max_backtracks
    if let Some(sol) = result {
        assert_ne!(sol.assignments[0].1, sol.assignments[1].1);
    }
}

#[test]
fn test_solver_default() {
    let solver = Solver::default();
    assert!(solver.use_forward_check);
    assert_eq!(solver.max_backtracks, 0);
}

fn k3() -> (Vec<Variable>, Vec<Constraint<Relation>>) {
    let vars = vec![
        Variable::new(0, vec![1, 2, 3]),
        Variable::new(1, vec![1, 2, 3]),
        Variable::new(2, vec![1, 2, 3]),
    ];
    let cs = vec![
        Constraint::inequality(0, 0, 1, vec![], 1000),
        Constraint::inequality(1, 1, 2, vec![], 1000),
        Constraint::inequality(2, 0, 2, vec![], 1000),
    ];
    (vars, cs)
}

#[test]
fn count_colourings_of_a_triangle() {
    let (vars, cs) = k3();
    let solver = Solver::new();
    assert_eq!(solver.count_solutions(&vars, &cs, 100), 6);
    assert_eq!(solver.count_solutions(&vars, &cs, 4), 4);
    assert_eq!(solver.count_solutions(&vars, &cs, 0), 0);
}

#[test]
fn count_without_constraints_is_the_product_of_domain_sizes() {
    let vars = vec![Variable::new(0, vec![1, 2, 3]), Variable::new(1, vec![4, 5])];
    assert_eq!(Solver::new().count_solutions::<Relation>(&vars, &[], 1000), 6);
}

#[test]
fn count_unsatisfiable_is_zero_and_solve_agrees() {
    let vars = vec![Variable::new(0, vec![1, 2]), Variable::new(1, vec![1, 2]), Variable::new(2, vec![1, 2])];
    let cs = vec![
        Constraint::inequality(0, 0, 1, vec![], 1000),
        Constraint::inequality(1, 1, 2, vec![], 1000),
        Constraint::inequality(2, 0, 2, vec![], 1000),
    ];
    let solver = Solver::new();
    assert_eq!(solver.count_solutions(&vars, &cs, 10), 0);
    assert!(solver.solve(&vars, &cs).is_none());
}

#[test]
fn solution_covers_every_variable_in_order() {
    let (vars, cs) = k3();
    let sol = Solver::new().solve(&vars, &cs).unwrap();
    let ids: Vec<usize> = sol.assignments.iter().map(|(id, _)| *id).collect();
    assert_eq!(ids, vec![0, 1, 2]);
    for (id, v) in &sol.assignments {
        assert!(vars[*id].domain.contains(v));
    }
}

#[test]
fn solve_keeps_preassigned_values() {
    let mut vars = vec![Variable::new(0, vec![1, 2, 3]), Variable::new(1, vec![1, 2, 3])];
    vars[0].assign(3);
    let c = Constraint::less_than(0, 1, 0, vec![], 1000);
    let sol = Solver::new().solve(&vars, &[c]).unwrap();
    assert_eq!(sol.assignments[0], (0, 3));
    assert!(sol.assignments[1].1 < 3);
}

#[test]
fn solve_without_forward_checking() {
    let (vars, cs) = k3();
    let solver = Solver { use_forward_check: false, max_backtracks: 0 };
    let sol = solver.solve(&vars, &cs).unwrap();
    let vals: Vec<i64> = sol.assignments.iter().map(|(_, v)| *v).collect();
    assert_ne!(vals[0], vals[1]);
    assert_ne!(vals[1], vals[2]);
    assert_ne!(vals[0], vals[2]);
}

#[test]
fn solve_with_an_nary_sum() {
    let vars = vec![Variable::new(0, vec![1, 2, 3]), Variable::new(1, vec![1, 2, 3]), Variable::new(2, vec![1, 2, 3])];
    let c = Constraint::new(0, vec![0, 1, 2], vec![], 1000, Relation::SumEquals(8));
    let sol = Solver::new().solve(&vars, &[c]).unwrap();
    let total: i64 = sol.assignments.iter().map(|(_, v)| *v).sum();
    assert_eq!(total, 8);
}

#[test]
fn select_variable_prefers_smallest_domain() {
    let mut vars = vec![
        Variable::new(0, vec![1, 2, 3]),
        Variable::new(1, vec![1, 2]),
        Variable::new(2, vec![1, 2]),
        Variable::new(3, vec![7]),
    ];
    let solver = Solver::new();
    assert_eq!(solver.select_variable(&vars), 3);
    vars[3].assign(7);
    assert_eq!(solver.select_variable(&vars), 1);
    for v in vars.iter_mut() {
        v.assign(1);
    }
    assert_eq!(solver.select_variable(&vars), 0);
}

#[test]
fn backtrack_limit_bounds_reported_backtracks() {
    let (vars, cs) = k3();
    for limit in 1..6 {
        let solver = Solver { use_forward_check: false, max_backtracks: limit };
        if let Some(sol) = solver.solve(&vars, &cs) {
            assert!(sol.backtracks < limit);
        }
    }
}

#[test]
fn backtrack_limit_gives_up() {
    let vars = vec![Variable::new(0, vec![1, 2]), Variable::new(1, vec![1, 2])];
    let c = Constraint::less_than(0, 1, 0, vec![], 1000);
    // The first value tried for variable 0 fails, which uses up a limit of one.
    let limited = Solver { use_forward_check: true, max_backtracks: 1 };
    assert!(limited.solve(&vars, &[c.clone()]).is_none());
    let sol = Solver::new().solve(&vars, &[c]).unwrap();
    assert_eq!(sol.assignments, vec![(0, 2), (1, 1)]);
    assert_eq!(sol.backtracks, 1);
}

#[test]
fn solve_with_ids_that_are_not_positions() {
    let vars = vec![Variable::new(10, vec![1, 2]), Variable::new(11, vec![1, 2])];
    let c = Constraint::inequality(0, 10, 11, vec![], 1000);
    let sol = Solver::new().solve(&vars, &[c.clone()]).unwrap();
    assert_eq!(sol.assignments[0].0, 10);
    assert_eq!(sol.assignments[1].0, 11);
    assert_ne!(sol.assignments[0].1, sol.assignments[1].1);
    assert_eq!(Solver::new().count_solutions(&vars, &[c], 10), 2);
}

#[test]
fn count_counts_each_domain_entry() {
    // A value listed twice in a domain is a second way to pick it.
    let vars = vec![Variable::new(0, vec![1, 1, 2]), Variable::new(1, vec![1, 2])];
    let c = Constraint::less_than(0, 0, 1, vec![], 1000);
    assert_eq!(Solver::new().count_solutions(&vars, &[c], 100), 2);
}

#[test]
fn empty_domain_ends_the_search_before_any_lookup() {
    // Constraint 0 names an id that no variable has; the empty domain of
    // variable 1 ends the search before any constraint is checked.
    let vars = vec![Variable::new(0, vec![1, 2]), Variable::new(1, vec![])];
    let c = Constraint::inequality(0, 0, 7, vec![], 1000);
    assert!(Solver::new().solve(&vars, &[c.clone()]).is_none());
    assert_eq!(Solver::new().count_solutions(&vars, &[c], 10), 0);
}
