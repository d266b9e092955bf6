use constraint_dynamics_rs::constraint::{Constraint, Relation, Variable, STRENGTH_SCALE};
use constraint_dynamics_rs::dynamics::{arc_consistency, forward_check, propagate};

/// A strength given as a fraction of a mandatory constraint's.
fn strength(x: f64) -> u64 {
    (x * STRENGTH_SCALE as f64).round() as u64
}

fn make_vars() -> Vec<Variable> {
    vec![
        Variable::new(0, vec![1, 2, 3]),
        Variable::new(1, vec![1, 2, 3]),
        Variable::new(2, vec![1, 2, 3]),
    ]
}

#[test]
fn test_propagate_equality() {
    let mut vars = make_vars();
    let c = Constraint::equality(0, 0, 1, vec![], strength(1.0));
    assert!(propagate(&mut vars, &[c]));
    assert_eq!(vars[0].domain, vars[1].domain);
}

#[test]
fn test_propagate_inequality() {
    let mut vars = vec![Variable::new(0, vec![1]), Variable::new(1, vec![1, 2])];
    let c = Constraint::inequality(0, 0, 1, vec![], strength(1.0));
    assert!(propagate(&mut vars, &[c]));
    assert_eq!(vars[1].domain, vec![2]);
}

#[test]
fn test_propagate_wipeout() {
    let mut vars = vec![Variable::new(0, vec![1]), Variable::new(1, vec![1])];
    let c = Constraint::inequality(0, 0, 1, vec![], strength(1.0));
    assert!(!propagate(&mut vars, &[c]));
}

#[test]
fn test_arc_consistency_simple() {
    let mut vars = make_vars();
    let c = Constraint::less_than(0, 0, 1, vec![], strength(1.0));
    assert!(arc_consistency(&mut vars, &[c]));
    // var 0 cannot have 3 (nothing in var 1 is greater)
    // var 1 cannot have 1 (nothing in var 0 is less)
    assert!(!vars[0].domain.contains(&3) || vars[1].domain.contains(&1));
}

#[test]
fn test_arc_consistency_no_solution() {
    let mut vars = vec![Variable::new(0, vec![5]), Variable::new(1, vec![1, 2])];
    let c = Constraint::less_than(0, 0, 1, vec![], strength(1.0));
    // 5 < anything in {1,2} is impossible
    assert!(!arc_consistency(&mut vars, &[c]));
}

#[test]
fn test_forward_check() {
    let mut vars = make_vars();
    vars[0].assign(1);
    let c = Constraint::inequality(0, 0, 1, vec![], strength(1.0));
    assert!(forward_check(&mut vars, &[c], 0));
    assert!(!vars[1].domain.contains(&1));
}

#[test]
fn test_forward_check_wipeout() {
    let mut vars = vec![Variable::new(0, vec![1]), Variable::new(1, vec![1])];
    vars[0].assign(1);
    let c = Constraint::inequality(0, 0, 1, vec![], strength(1.0));
    assert!(!forward_check(&mut vars, &[c], 0));
}

#[test]
fn test_propagate_range() {
    let mut vars = vec![Variable::new(0, vec![1, 5, 10, 15])];
    let c = Constraint::range(0, 0, vec![], strength(1.0), 3, 12);
    assert!(propagate(&mut vars, &[c]));
    assert_eq!(vars[0].domain, vec![5, 10]);
}

#[test]
fn arc_consistency_exact_domains() {
    let mut vars = make_vars();
    let c = Constraint::less_than(0, 0, 1, vec![], 1000);
    assert!(arc_consistency(&mut vars, &[c]));
    assert_eq!(vars[0].domain, vec![1, 2]);
    assert_eq!(vars[1].domain, vec![2, 3]);
    assert_eq!(vars[2].domain, vec![1, 2, 3]);
}

#[test]
fn arc_consistency_chain_reaches_fixpoint() {
    let mut vars = make_vars();
    let cs = vec![Constraint::less_than(0, 0, 1, vec![], 1000), Constraint::less_than(1, 1, 2, vec![], 1000)];
    assert!(arc_consistency(&mut vars, &cs));
    assert_eq!(vars[0].domain, vec![1]);
    assert_eq!(vars[1].domain, vec![2]);
    assert_eq!(vars[2].domain, vec![3]);
}

#[test]
fn arc_consistency_ignores_other_arities() {
    let mut vars = make_vars();
    let cs = vec![
        Constraint::range(0, 0, vec![], 1000, 5, 6),
        Constraint::new(1, vec![0, 1, 2], vec![], 1000, Relation::SumEquals(100)),
    ];
    assert!(arc_consistency(&mut vars, &cs));
    assert_eq!(vars[0].domain, vec![1, 2, 3]);
}

#[test]
fn propagate_chain_of_less_than() {
    let mut vars = make_vars();
    let cs = vec![Constraint::less_than(0, 0, 1, vec![], 1000), Constraint::less_than(1, 1, 2, vec![], 1000)];
    assert!(propagate(&mut vars, &cs));
    assert_eq!(vars[0].domain, vec![1]);
    assert_eq!(vars[1].domain, vec![2]);
    assert_eq!(vars[2].domain, vec![3]);
}

#[test]
fn propagate_nary_sum() {
    let mut vars = make_vars();
    let c = Constraint::new(0, vec![0, 1, 2], vec![], 1000, Relation::SumEquals(9));
    assert!(propagate(&mut vars, &[c]));
    assert_eq!(vars[0].domain, vec![3]);
    assert_eq!(vars[1].domain, vec![3]);
    assert_eq!(vars[2].domain, vec![3]);
}

#[test]
fn propagate_nary_sum_at_most() {
    let mut vars = make_vars();
    let c = Constraint::new(0, vec![0, 1, 2], vec![], 1000, Relation::SumAtMost(4));
    assert!(propagate(&mut vars, &[c]));
    assert_eq!(vars[0].domain, vec![1, 2]);
    assert_eq!(vars[1].domain, vec![1, 2]);
    assert_eq!(vars[2].domain, vec![1, 2]);
}

#[test]
fn propagate_nary_wipeout() {
    let mut vars = make_vars();
    let c = Constraint::new(0, vec![0, 1, 2], vec![], 1000, Relation::SumEquals(10));
    assert!(!propagate(&mut vars, &[c]));
    assert!(vars.iter().any(|v| v.domain.is_empty()));
}

#[test]
fn propagate_keeps_every_solution() {
    // Solutions of x0 != x1, x1 < x2 over {1, 2, 3}; each must survive.
    let cs = vec![Constraint::inequality(0, 0, 1, vec![], 1000), Constraint::less_than(1, 1, 2, vec![], 1000)];
    let mut vars = make_vars();
    assert!(propagate(&mut vars, &cs));
    for a in 1..=3i64 {
        for b in 1..=3i64 {
            for c in 1..=3i64 {
                if a != b && b < c {
                    assert!(vars[0].domain.contains(&a));
                    assert!(vars[1].domain.contains(&b));
                    assert!(vars[2].domain.contains(&c));
                }
            }
        }
    }
    assert_eq!(vars[2].domain, vec![2, 3]);
}

#[test]
fn forward_check_exact_domains() {
    let mut vars = make_vars();
    vars[1].assign(2);
    let cs = vec![Constraint::less_than(0, 0, 1, vec![], 1000), Constraint::inequality(1, 1, 2, vec![], 1000)];
    assert!(forward_check(&mut vars, &cs, 1));
    assert_eq!(vars[0].domain, vec![1]);
    assert_eq!(vars[2].domain, vec![1, 3]);
    assert_eq!(vars[1].domain, vec![1, 2, 3]);
}

#[test]
fn forward_check_skips_assigned_neighbours() {
    let mut vars = make_vars();
    vars[0].assign(1);
    vars[1].assign(1);
    let c = Constraint::inequality(0, 0, 1, vec![], 1000);
    assert!(forward_check(&mut vars, &[c], 0));
    assert_eq!(vars[1].domain, vec![1, 2, 3]);
}

#[test]
fn forward_check_without_neighbours() {
    let mut vars = make_vars();
    let c = Constraint::inequality(0, 1, 2, vec![], 1000);
    assert!(forward_check(&mut vars, &[c], 0));
    assert_eq!(vars[1].domain, vec![1, 2, 3]);
    assert_eq!(vars[2].domain, vec![1, 2, 3]);
}

#[test]
fn arc_consistency_agrees_with_propagation_on_binary_constraints() {
    let cs = vec![
        Constraint::less_than(0, 0, 1, vec![], 1000),
        Constraint::inequality(1, 1, 2, vec![], 1000),
        Constraint::equality(2, 0, 2, vec![], 1000),
    ];
    let mut a = make_vars();
    let mut p = make_vars();
    let ra = arc_consistency(&mut a, &cs);
    let rp = propagate(&mut p, &cs);
    assert_eq!(ra, rp);
    assert!(ra);
    for i in 0..3 {
        assert_eq!(a[i].domain, p[i].domain);
    }
    let mut a2 = vec![Variable::new(0, vec![5]), Variable::new(1, vec![1, 2])];
    let mut p2 = a2.clone();
    let less = vec![Constraint::less_than(0, 0, 1, vec![], 1000)];
    assert!(!arc_consistency(&mut a2, &less));
    assert!(!propagate(&mut p2, &less));
}
