use constraint_dynamics_rs::constraint::{Constraint, Relation, STRENGTH_SCALE};
use constraint_dynamics_rs::energy::EnergyLandscape;

/// A strength given as a fraction of a mandatory constraint's.
fn strength(x: f64) -> u64 {
    (x * STRENGTH_SCALE as f64).round() as u64
}

/// An energy given as a multiple of a mandatory constraint's strength.
fn energy(x: f64) -> u128 {
    strength(x) as u128
}

fn simple_landscape() -> EnergyLandscape<Relation> {
    let domains = vec![vec![1, 2], vec![1, 2]];
    let constraints = vec![Constraint::inequality(0, 0, 1, vec![], strength(1.0))];
    EnergyLandscape::new(domains, constraints)
}

#[test]
fn test_energy_satisfied() {
    let landscape = simple_landscape();
    assert_eq!(landscape.energy(&[1, 2]), energy(0.0));
    assert_eq!(landscape.energy(&[2, 1]), energy(0.0));
}

#[test]
fn test_energy_violated() {
    let landscape = simple_landscape();
    assert_eq!(landscape.energy(&[1, 1]), energy(1.0));
    assert_eq!(landscape.energy(&[2, 2]), energy(1.0));
}

#[test]
fn test_minimum_energy() {
    let landscape = simple_landscape();
    assert_eq!(landscape.minimum_energy(), Some(energy(0.0)));
}

#[test]
fn test_global_minima() {
    let landscape = simple_landscape();
    let minima = landscape.global_minima();
    assert_eq!(minima.len(), 2);
    for (state, e) in &minima {
        assert_eq!(*e, energy(0.0));
        assert_ne!(state[0], state[1]);
    }
}

#[test]
fn test_local_minima() {
    let landscape = simple_landscape();
    let minima = landscape.local_minima();
    assert_eq!(minima.len(), 2); // [1,2] and [2,1]
}

#[test]
fn test_energy_barrier() {
    let landscape = simple_landscape();
    let barrier = landscape.energy_barrier(&[1, 2], &[2, 1]);
    // Both are minima with energy 0, but intermediates [2,2] or [1,1] have energy 1
    assert!(barrier as f64 >= 0.0);
}

#[test]
fn test_overconstrained_landscape() {
    let domains = vec![vec![1], vec![1]];
    let constraints = vec![Constraint::inequality(0, 0, 1, vec![], strength(1.0))];
    let landscape = EnergyLandscape::new(domains, constraints);
    assert_eq!(landscape.minimum_energy(), Some(energy(1.0)));
    let minima = landscape.global_minima();
    assert_eq!(minima.len(), 1);
}

#[test]
fn energies_in_enumeration_order() {
    let landscape = simple_landscape();
    assert_eq!(landscape.collect_energies(), vec![1000, 0, 0, 1000]);
}

#[test]
fn global_minima_in_enumeration_order() {
    let landscape = simple_landscape();
    assert_eq!(landscape.global_minima(), vec![(vec![1, 2], 0), (vec![2, 1], 0)]);
}

#[test]
fn energy_sums_violated_strengths() {
    let domains = vec![vec![1, 2, 3], vec![1, 2, 3], vec![1, 2, 3]];
    let constraints = vec![
        Constraint::less_than(0, 0, 1, vec![], 1000),
        Constraint::less_than(1, 1, 2, vec![], 400),
        Constraint::new(2, vec![0, 1, 2], vec![], 250, Relation::SumAtMost(5)),
        Constraint::range(3, 2, vec![], 0, 1, 1),
    ];
    let l = EnergyLandscape::new(domains, constraints);
    assert_eq!(l.energy(&[1, 2, 3]), 250);
    assert_eq!(l.energy(&[3, 2, 1]), 1650);
    assert_eq!(l.energy(&[1, 1, 1]), 1400);
    assert_eq!(l.energy(&[1, 2, 2]), 400);
    assert_eq!(l.minimum_energy(), Some(250));
    assert_eq!(l.global_minima(), vec![(vec![1, 2, 3], 250)]);
}

#[test]
fn energy_reads_only_the_constraint_variables() {
    let constraints = vec![Constraint::equality(0, 2, 0, vec![], 700)];
    let l = EnergyLandscape::new(vec![vec![0], vec![0], vec![0]], constraints);
    assert_eq!(l.energy(&[5, 9, 5]), 0);
    assert_eq!(l.energy(&[5, 9, 6]), 700);
}

#[test]
fn no_states_when_a_domain_is_empty() {
    let constraints = vec![Constraint::inequality(0, 0, 1, vec![], 1000)];
    let l = EnergyLandscape::new(vec![vec![1, 2], vec![]], constraints);
    assert_eq!(l.minimum_energy(), None);
    assert!(l.global_minima().is_empty());
    assert!(l.local_minima().is_empty());
    assert!(l.collect_energies().is_empty());
}

#[test]
fn one_state_without_variables() {
    let l = EnergyLandscape::new(vec![], vec![Constraint::new(0, vec![], vec![], 300, Relation::SumEquals(1))]);
    assert_eq!(l.collect_energies(), vec![300]);
    assert_eq!(l.minimum_energy(), Some(300));
    assert_eq!(l.global_minima(), vec![(vec![], 300)]);
    assert_eq!(l.local_minima(), vec![(vec![], 300)]);
}

#[test]
fn barrier_exact_values() {
    let l = simple_landscape();
    // The path [1,2] -> [2,2] -> [2,1] climbs to 1000.
    assert_eq!(l.energy_barrier(&[1, 2], &[2, 1]), 1000);
    assert_eq!(l.energy_barrier(&[1, 2], &[1, 2]), 0);
    // The highest energy on the path counts, the ends included.
    assert_eq!(l.energy_barrier(&[1, 1], &[1, 2]), 1000);
    assert_eq!(l.energy_barrier(&[1, 1], &[2, 2]), 1000);
    assert_eq!(l.energy_barrier(&[2, 2], &[2, 2]), 1000);
}

#[test]
fn barrier_is_at_least_either_end() {
    let domains = vec![vec![1, 2, 3], vec![1, 2, 3]];
    let constraints = vec![
        Constraint::less_than(0, 0, 1, vec![], 1000),
        Constraint::range(1, 1, vec![], 300, 3, 3),
    ];
    let l = EnergyLandscape::new(domains, constraints);
    let states = [[1i64, 1], [1, 2], [1, 3], [2, 1], [2, 2], [2, 3], [3, 1], [3, 2], [3, 3]];
    for a in &states {
        for b in &states {
            let top = l.energy(a).max(l.energy(b));
            assert!(l.energy_barrier(a, b) >= top);
        }
    }
    // [1,3] (0) to [3,3] (1000) passes no higher state.
    assert_eq!(l.energy_barrier(&[1, 3], &[3, 3]), 1000);
    // [1,3] (0) to [2,3] (0) goes straight there.
    assert_eq!(l.energy_barrier(&[1, 3], &[2, 3]), 0);
    // [2,3] (0) to [1,1] (1300): [1,3] (0) then [1,1].
    assert_eq!(l.energy_barrier(&[2, 3], &[1, 1]), 1300);
}

#[test]
fn local_minima_that_are_not_global() {
    // x0 == x1 is worth 1000; x0 == 3 is worth 300 more. States [1,1] and [2,2]
    // are local minima at 300, [3,3] is the global minimum at 0.
    let domains = vec![vec![1, 2, 3], vec![1, 2, 3]];
    let constraints = vec![
        Constraint::equality(0, 0, 1, vec![], 1000),
        Constraint::range(1, 0, vec![], 300, 3, 3),
    ];
    let l = EnergyLandscape::new(domains, constraints);
    assert_eq!(l.minimum_energy(), Some(0));
    assert_eq!(l.global_minima(), vec![(vec![3, 3], 0)]);
    assert_eq!(l.local_minima(), vec![(vec![1, 1], 300), (vec![2, 2], 300), (vec![3, 3], 0)]);
}

#[test]
fn every_global_minimum_is_local() {
    let domains = vec![vec![1, 2, 3], vec![1, 2, 3], vec![1, 2]];
    let constraints = vec![
        Constraint::inequality(0, 0, 1, vec![], 1000),
        Constraint::less_than(1, 1, 2, vec![], 600),
        Constraint::new(2, vec![0, 1, 2], vec![], 200, Relation::SumEquals(6)),
    ];
    let l = EnergyLandscape::new(domains, constraints);
    let local = l.local_minima();
    let global = l.global_minima();
    assert!(!global.is_empty());
    for g in &global {
        assert!(local.contains(g));
    }
}
