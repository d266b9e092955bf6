use constraint_dynamics_rs::constraint::{Constraint, ConstraintType, Relation, Variable, STRENGTH_SCALE};

/// A strength given as a fraction of a mandatory constraint's.
fn strength(x: f64) -> u64 {
    (x * STRENGTH_SCALE as f64).round() as u64
}

#[test]
fn test_constraint_new_binary() {
    let c = Constraint::equality(0, 0, 1, vec![vec![1, 2, 3], vec![1, 2, 3]], strength(1.0));
    assert_eq!(c.id, 0);
    assert_eq!(c.constraint_type, ConstraintType::Binary);
    assert_eq!(c.strength, strength(1.0));
    assert_eq!(c.arity(), 2);
    assert!(c.is_mandatory());
}

#[test]
fn test_constraint_unary() {
    let c = Constraint::range(1, 0, vec![vec![1, 5, 10]], strength(0.8), 2, 8);
    assert_eq!(c.constraint_type, ConstraintType::Unary);
    assert_eq!(c.arity(), 1);
    assert!(!c.is_mandatory());
}

#[test]
fn test_equality_satisfied() {
    let c = Constraint::equality(0, 0, 1, vec![vec![1, 2], vec![1, 2]], strength(1.0));
    assert!(c.is_satisfied(&[2, 2]));
    assert!(!c.is_satisfied(&[1, 2]));
}

#[test]
fn test_inequality_satisfied() {
    let c = Constraint::inequality(0, 0, 1, vec![vec![1, 2], vec![1, 2]], strength(1.0));
    assert!(c.is_satisfied(&[1, 2]));
    assert!(!c.is_satisfied(&[1, 1]));
}

#[test]
fn test_less_than() {
    let c = Constraint::less_than(0, 0, 1, vec![vec![1, 2], vec![1, 2]], strength(1.0));
    assert!(c.is_satisfied(&[1, 2]));
    assert!(!c.is_satisfied(&[2, 1]));
}

#[test]
fn test_range_constraint() {
    let c = Constraint::range(0, 0, vec![vec![1, 5, 10]], strength(1.0), 2, 8);
    assert!(c.is_satisfied(&[5]));
    assert!(!c.is_satisfied(&[1]));
    assert!(!c.is_satisfied(&[10]));
}

#[test]
fn test_variable_assign_unassign() {
    let mut v = Variable::new(0, vec![1, 2, 3]);
    assert!(!v.is_assigned());
    v.assign(2);
    assert!(v.is_assigned());
    assert_eq!(v.value, Some(2));
    v.unassign();
    assert!(!v.is_assigned());
}

#[test]
fn test_variable_remove_from_domain() {
    let mut v = Variable::new(0, vec![1, 2, 3]);
    assert!(v.remove_from_domain(2));
    assert_eq!(v.domain, vec![1, 3]);
    assert!(!v.remove_from_domain(5));
    assert_eq!(v.domain_size(), 2);
}

#[test]
fn test_display() {
    let c = Constraint::equality(42, 0, 1, vec![], strength(0.5));
    let s = c.to_string();
    assert!(s.contains("42"));
    assert!(s.contains("0.50"));
}

#[test]
fn display_text_in_full() {
    let c = Constraint::equality(42, 0, 1, vec![], 500);
    assert_eq!(c.to_string(), "Constraint(id=42, vars=[0, 1], strength=0.50, type=Binary)");
    let r = Constraint::range(7, 3, vec![], 1234, 0, 9);
    assert_eq!(r.to_string(), "Constraint(id=7, vars=[3], strength=1.23, type=Unary)");
}

#[test]
fn display_rounds_ties_to_even() {
    let c = Constraint::new(1, vec![0, 1, 2], vec![], 1235, Relation::SumAtMost(4));
    assert_eq!(c.to_string(), "Constraint(id=1, vars=[0, 1, 2], strength=1.24, type=Nary(3))");
    let d = Constraint::new(2, vec![0], vec![], 999, Relation::InRange { lo: 0, hi: 1 });
    assert_eq!(d.to_string(), "Constraint(id=2, vars=[0], strength=1.00, type=Unary)");
    let t = Constraint::equality(4, 0, 1, vec![], 125);
    assert_eq!(t.to_string(), "Constraint(id=4, vars=[0, 1], strength=0.12, type=Binary)");
    let u = Constraint::equality(5, 0, 1, vec![], 126);
    assert_eq!(u.to_string(), "Constraint(id=5, vars=[0, 1], strength=0.13, type=Binary)");
    let z = Constraint::new(3, vec![], vec![], 4, Relation::SumEquals(0));
    assert_eq!(z.to_string(), "Constraint(id=3, vars=[], strength=0.00, type=Nary(0))");
}

#[test]
fn new_sets_type_from_arity() {
    assert_eq!(Constraint::new(0, vec![4], vec![], 1, Relation::InRange { lo: 0, hi: 0 }).constraint_type, ConstraintType::Unary);
    assert_eq!(Constraint::new(0, vec![4, 5], vec![], 1, Relation::Equal).constraint_type, ConstraintType::Binary);
    assert_eq!(Constraint::new(0, vec![4, 5, 6], vec![], 1, Relation::SumEquals(3)).constraint_type, ConstraintType::Nary(3));
    assert_eq!(Constraint::new(0, vec![], vec![], 1, Relation::SumEquals(0)).constraint_type, ConstraintType::Nary(0));
}

#[test]
fn sum_relations() {
    let at_most = Constraint::new(0, vec![0, 1, 2], vec![], 1000, Relation::SumAtMost(6));
    assert!(at_most.is_satisfied(&[1, 2, 3]));
    assert!(!at_most.is_satisfied(&[1, 2, 4]));
    let equals = Constraint::new(1, vec![0, 1, 2], vec![], 1000, Relation::SumEquals(6));
    assert!(equals.is_satisfied(&[3, 2, 1]));
    assert!(!equals.is_satisfied(&[3, 2, 2]));
    // Sums do not overflow.
    let big = Constraint::new(2, vec![0, 1], vec![], 1000, Relation::SumAtMost(i64::MAX));
    assert!(!big.is_satisfied(&[i64::MAX, 1]));
    assert!(big.is_satisfied(&[i64::MIN, i64::MIN]));
    // An empty sum is 0.
    assert!(Constraint::new(3, vec![], vec![], 1000, Relation::SumEquals(0)).is_satisfied(&[]));
}

#[test]
fn range_bounds_are_inclusive() {
    let c = Constraint::range(0, 0, vec![], 1000, 2, 8);
    assert!(c.is_satisfied(&[2]));
    assert!(c.is_satisfied(&[8]));
    assert!(!c.is_satisfied(&[9]));
}

#[test]
fn mandatory_threshold() {
    assert!(!Constraint::equality(0, 0, 1, vec![], 999).is_mandatory());
    assert!(Constraint::equality(0, 0, 1, vec![], 1000).is_mandatory());
    assert!(Constraint::equality(0, 0, 1, vec![], 1001).is_mandatory());
}

#[test]
fn remove_from_domain_takes_first_occurrence() {
    let mut v = Variable::new(3, vec![2, 1, 2]);
    assert!(v.remove_from_domain(2));
    assert_eq!(v.domain, vec![1, 2]);
    assert!(v.remove_from_domain(2));
    assert_eq!(v.domain, vec![1]);
    assert!(!v.remove_from_domain(2));
    assert_eq!(v.domain_size(), 1);
}

#[test]
fn new_variable_is_unassigned() {
    let v = Variable::new(9, vec![]);
    assert_eq!(v.id, 9);
    assert_eq!(v.value, None);
    assert_eq!(v.domain_size(), 0);
}
