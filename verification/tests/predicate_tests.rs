use constraint_dynamics_rs::constraint::{Constraint, ConstraintType, Relation, Variable};
use constraint_dynamics_rs::dynamics::propagate;
use constraint_dynamics_rs::energy::EnergyLandscape;
use constraint_dynamics_rs::solver::Solver;

const INCREASING: Relation = Relation::Increasing;

fn three_vars() -> Vec<Variable> {
    vec![Variable::new(0, vec![1, 2, 3]), Variable::new(1, vec![1, 2, 3]), Variable::new(2, vec![1, 2, 3])]
}

#[test]
fn increasing_is_checked() {
    let c = Constraint::new(0, vec![0, 1, 2], vec![], 1000, INCREASING);
    assert_eq!(c.constraint_type, ConstraintType::Nary(3));
    assert!(c.is_satisfied(&[1, 2, 3]));
    assert!(!c.is_satisfied(&[1, 3, 3]));
    assert!(!c.is_satisfied(&[2, 1, 3]));
    assert!(c.is_satisfied(&[7]));
    assert!(c.is_satisfied(&[]));
}

#[test]
fn propagate_nary_increasing() {
    let mut vars = three_vars();
    let c = Constraint::new(0, vec![0, 1, 2], vec![], 1000, INCREASING);
    assert!(propagate(&mut vars, &[c]));
    assert_eq!(vars[0].domain, vec![1]);
    assert_eq!(vars[1].domain, vec![2]);
    assert_eq!(vars[2].domain, vec![3]);
}

#[test]
fn nary_wipeout_with_increasing() {
    let mut vars = vec![Variable::new(0, vec![1, 2]), Variable::new(1, vec![1, 2]), Variable::new(2, vec![1, 2])];
    let c = Constraint::new(0, vec![0, 1, 2], vec![], 1000, INCREASING);
    assert!(!propagate(&mut vars, &[c]));
}

#[test]
fn solve_with_increasing() {
    let vars = three_vars();
    let c = Constraint::new(0, vec![2, 0, 1], vec![], 1000, INCREASING);
    let sol = Solver::new().solve(&vars, &[c]).unwrap();
    assert_eq!(sol.assignments, vec![(0, 2), (1, 3), (2, 1)]);
    assert_eq!(Solver::new().count_solutions(&vars, &[Constraint::new(0, vec![0, 1, 2], vec![], 1000, INCREASING)], 10), 1);
}

#[test]
fn energy_with_increasing() {
    let l = EnergyLandscape::new(vec![vec![1, 2], vec![1, 2]], vec![Constraint::new(0, vec![0, 1], vec![], 700, INCREASING)]);
    assert_eq!(l.collect_energies(), vec![700, 0, 700, 700]);
    assert_eq!(l.global_minima(), vec![(vec![1, 2], 0)]);
}
