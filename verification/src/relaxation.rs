//! Constraint relaxation for over-constrained systems.
//!
//! When a CSP has no solution, we can relax constraints (by reducing strength
//! or removing them) to find the best partial solution.

use vstd::prelude::*;
use crate::constraint::{Constraint, Predicate, STRENGTH_SCALE, Variable};
use crate::solver::{
    completion, extends, fc_safe, has_solution, ids_are_positions, index_of, pair_ids, pair_values, satisfies,
    value_for, values_in, var_ids, well_formed_problem, Solution, Solver,
};

verus! {

/// Result of a relaxed solve attempt.
#[derive(Debug, Clone)]
pub struct RelaxedSolution {
    /// The assignments found.
    pub assignments: Vec<(usize, i64)>,
    /// Total strength of the satisfied constraints.
    pub satisfied_weight: u128,
    /// Total strength of all constraints.
    pub total_weight: u128,
    /// Indices of violated constraints.
    pub violated: Vec<usize>,
}

impl RelaxedSolution {
    /// Satisfaction ratio: what fraction of constraint weight is satisfied,
    /// as numerator and denominator (1/1 when there is no weight at all).
    pub fn satisfaction_ratio(&self) -> (r: (u128, u128))
        ensures
            self.total_weight == 0 ==> r == (1u128, 1u128),
            self.total_weight != 0 ==> r == (self.satisfied_weight, self.total_weight),
    {
        if self.total_weight == 0 {
            (1, 1)
        } else {
            (self.satisfied_weight, self.total_weight)
        }
    }
}

/// Relaxation strategy.
#[derive(Debug, Clone, Copy, PartialEq, Eq, Structural)]
pub enum RelaxationStrategy {
    /// Remove the weakest constraints first (ties: the earlier first).
    WeakestFirst,
    /// Remove constraints in order (last added first).
    ReverseOrder,
    /// Remove a specific constraint by index.
    RemoveIndex(usize),
    /// Reduce the strength of all constraints by a factor, in units of
    /// `1 / STRENGTH_SCALE`.
    ReduceStrength(u64),
}

// ---------------------------------------------------------------------------
// The model.
// ---------------------------------------------------------------------------

/// The total strength of the constraints.
pub open spec fn total_strength<R: Predicate>(cons: Seq<Constraint<R>>) -> int
    decreases cons.len(),
{
    if cons.len() == 0 {
        0
    } else {
        total_strength(cons.drop_last()) + cons.last().strength
    }
}

/// A strength scaled by `factor / STRENGTH_SCALE`, rounded down, at most `u64::MAX`.
pub open spec fn reduced(strength: u64, factor: u64) -> int {
    let r = (strength as int) * (factor as int) / (STRENGTH_SCALE as int);
    if r > u64::MAX { u64::MAX as int } else { r }
}

/// The total of the reduced strengths.
pub open spec fn total_reduced<R: Predicate>(cons: Seq<Constraint<R>>, factor: u64) -> int
    decreases cons.len(),
{
    if cons.len() == 0 {
        0
    } else {
        total_reduced(cons.drop_last(), factor) + reduced(cons.last().strength, factor)
    }
}

/// The constraint at index `i` is violated: the assignment list does not
/// satisfy it.
pub open spec fn is_violated<R: Predicate>(cons: Seq<Constraint<R>>, pairs: Seq<(usize, i64)>, i: int) -> bool {
    !cons[i].satisfied_by(values_in(cons[i], pairs))
}

/// The indices of the violated constraints among the first `k`, in order.
pub open spec fn violations<R: Predicate>(cons: Seq<Constraint<R>>, pairs: Seq<(usize, i64)>, k: int) -> Seq<usize>
    decreases k,
{
    if k <= 0 {
        Seq::empty()
    } else if is_violated(cons, pairs, k - 1) {
        violations(cons, pairs, k - 1).push((k - 1) as usize)
    } else {
        violations(cons, pairs, k - 1)
    }
}

/// The total strength of the satisfied constraints among the first `k`.
pub open spec fn satisfied_strength<R: Predicate>(cons: Seq<Constraint<R>>, pairs: Seq<(usize, i64)>, k: int) -> int
    decreases k,
{
    if k <= 0 {
        0
    } else {
        satisfied_strength(cons, pairs, k - 1) + if is_violated(cons, pairs, k - 1) {
            0
        } else {
            cons[k - 1].strength as int
        }
    }
}

/// Every constraint that was not relaxed holds under the assignment list.
pub open spec fn kept_satisfied<R: Predicate>(cons: Seq<Constraint<R>>, rm: Seq<bool>, pairs: Seq<(usize, i64)>) -> bool {
    forall|i: int| 0 <= i < cons.len() && !rm[i] ==> #[trigger] cons[i].satisfied_by(values_in(cons[i], pairs))
}

/// Some completion of the variables satisfies the constraints that were not relaxed.
pub open spec fn solvable_kept<R: Predicate>(vars: Seq<Variable>, cons: Seq<Constraint<R>>, rm: Seq<bool>) -> bool {
    exists|tau: Seq<i64>| extends(vars, tau) && #[trigger] kept_satisfied(cons, rm, completion(vars, tau))
}

/// `pairs` is a solution of the constraints that were not relaxed.
pub open spec fn solves_kept<R: Predicate>(vars: Seq<Variable>, cons: Seq<Constraint<R>>, rm: Seq<bool>, pairs: Seq<(usize, i64)>) -> bool {
    &&& pair_ids(pairs) == var_ids(vars)
    &&& extends(vars, pair_values(pairs))
    &&& kept_satisfied(cons, rm, pairs)
}

/// `rs` reports the assignment list `pairs`: its assignments, the total
/// strength, the strength of the constraints it satisfies, and the
/// constraints it violates.
pub open spec fn reports<R: Predicate>(rs: RelaxedSolution, cons: Seq<Constraint<R>>, pairs: Seq<(usize, i64)>) -> bool {
    &&& rs.assignments@ == pairs
    &&& rs.total_weight == total_strength(cons)
    &&& rs.violated@ == violations(cons, pairs, cons.len() as int)
    &&& rs.satisfied_weight == satisfied_strength(cons, pairs, cons.len() as int)
}

/// `rs` is the outcome of relaxing the constraints marked in `rm`.
pub open spec fn relaxed_by<R: Predicate>(vars: Seq<Variable>, cons: Seq<Constraint<R>>, rm: Seq<bool>, rs: RelaxedSolution) -> bool {
    solves_kept(vars, cons, rm, rs.assignments@) && reports(rs, cons, rs.assignments@)
}

/// Constraint `a` comes before `b` in weakest-first order: weaker, or as
/// strong and earlier.
pub open spec fn weaker<R: Predicate>(cons: Seq<Constraint<R>>, a: int, b: int) -> bool {
    cons[a].strength < cons[b].strength || (cons[a].strength == cons[b].strength && a < b)
}

/// `ord` lists the constraint indices from the weakest to the strongest.
pub open spec fn is_weakest_order<R: Predicate>(cons: Seq<Constraint<R>>, ord: Seq<usize>) -> bool {
    &&& ord.len() == cons.len()
    &&& forall|a: int| 0 <= a < ord.len() ==> (#[trigger] ord[a] as int) < cons.len()
    &&& forall|i: usize| (i as int) < cons.len() ==> #[trigger] ord.contains(i)
    &&& forall|a: int, b: int| 0 <= a < b < ord.len() ==> weaker(cons, #[trigger] ord[a] as int, #[trigger] ord[b] as int)
}

/// The `k` weakest constraints relaxed.
pub open spec fn weakest_mask(ord: Seq<usize>, k: int) -> Seq<bool> {
    Seq::new(ord.len(), |i: int| ord.take(k).contains(i as usize))
}

/// The last `k` of `n` constraints relaxed.
pub open spec fn last_mask(n: nat, k: int) -> Seq<bool> {
    Seq::new(n, |i: int| i >= n - k)
}

/// Only the constraint at `idx` relaxed.
pub open spec fn index_mask(n: nat, idx: usize) -> Seq<bool> {
    Seq::new(n, |i: int| i == idx)
}

/// Nothing relaxed.
pub open spec fn no_mask(n: nat) -> Seq<bool> {
    Seq::new(n, |i: int| false)
}

/// Two constraints that check the same relation on the same variables.
pub open spec fn same_check<R: Predicate>(a: Constraint<R>, b: Constraint<R>) -> bool {
    a.variables@ == b.variables@ && a.relation == b.relation
}

// ---------------------------------------------------------------------------
// Facts.
// ---------------------------------------------------------------------------

proof fn lemma_total_strength_bound<R: Predicate>(cons: Seq<Constraint<R>>)
    ensures
        0 <= total_strength(cons) <= cons.len() * (u64::MAX as int),
    decreases cons.len(),
{
    if cons.len() > 0 {
        lemma_total_strength_bound(cons.drop_last());
    }
}

proof fn lemma_total_reduced_bound<R: Predicate>(cons: Seq<Constraint<R>>, factor: u64)
    ensures
        0 <= total_reduced(cons, factor) <= cons.len() * (u64::MAX as int),
    decreases cons.len(),
{
    if cons.len() > 0 {
        lemma_total_reduced_bound(cons.drop_last(), factor);
        let s = cons.last().strength;
        assert((s as int) * (factor as int) >= 0) by (nonlinear_arith);
    }
}

proof fn lemma_satisfied_bound<R: Predicate>(cons: Seq<Constraint<R>>, pairs: Seq<(usize, i64)>, k: int)
    requires
        0 <= k <= cons.len(),
    ensures
        0 <= satisfied_strength(cons, pairs, k) <= total_strength(cons.take(k)),
    decreases k,
{
    if k > 0 {
        lemma_satisfied_bound(cons, pairs, k - 1);
        assert(cons.take(k).drop_last() =~= cons.take(k - 1));
    }
}

/// The constraints of `cons` among the first `k` that `rm` does not mark, in order.
pub open spec fn kept_seq<R: Predicate>(cons: Seq<Constraint<R>>, rm: Seq<bool>, k: int) -> Seq<Constraint<R>>
    decreases k,
{
    if k <= 0 {
        Seq::empty()
    } else if rm[k - 1] {
        kept_seq(cons, rm, k - 1)
    } else {
        kept_seq(cons, rm, k - 1).push(cons[k - 1])
    }
}

/// The constraints `rem` check, in order, exactly those of `cons` that `rm`
/// does not mark.
pub open spec fn copies_kept<R: Predicate>(rem: Seq<Constraint<R>>, cons: Seq<Constraint<R>>, rm: Seq<bool>) -> bool {
    &&& rem.len() == kept_seq(cons, rm, cons.len() as int).len()
    &&& forall|j: int| 0 <= j < rem.len() ==> same_check(#[trigger] rem[j], kept_seq(cons, rm, cons.len() as int)[j])
}

/// The constraint can be checked on values of the variables, found by id and
/// by position.
spec fn fits<R: Predicate>(vars: Seq<Variable>, c: Constraint<R>) -> bool {
    &&& c.relation.min_len() <= c.variables@.len()
    &&& forall|q: int| 0 <= q < c.variables@.len() ==> index_of(var_ids(vars), #[trigger] c.variables@[q], 0) >= 0
    &&& c.variables@.len() == 2 ==> ((c.variables@[0] as int) < vars.len() <==> (c.variables@[1] as int) < vars.len())
}

proof fn lemma_kept_seq<R: Predicate>(vars: Seq<Variable>, cons: Seq<Constraint<R>>, rm: Seq<bool>, k: int, pairs: Seq<(usize, i64)>)
    requires
        0 <= k <= cons.len(),
        forall|i: int| 0 <= i < k ==> fits(vars, #[trigger] cons[i]),
    ensures
        forall|j: int| 0 <= j < kept_seq(cons, rm, k).len() ==> fits(vars, #[trigger] kept_seq(cons, rm, k)[j]),
        (forall|j: int|
            0 <= j < kept_seq(cons, rm, k).len() ==> #[trigger] kept_seq(cons, rm, k)[j].satisfied_by(
                values_in(kept_seq(cons, rm, k)[j], pairs),
            )) == (forall|i: int| 0 <= i < k && !rm[i] ==> #[trigger] cons[i].satisfied_by(values_in(cons[i], pairs))),
    decreases k,
{
    if k > 0 {
        lemma_kept_seq(vars, cons, rm, k - 1, pairs);
        let s0 = kept_seq(cons, rm, k - 1);
        let s1 = kept_seq(cons, rm, k);
        assert(fits(vars, cons[k - 1]));
        if !rm[k - 1] {
            assert(s1 == s0.push(cons[k - 1]));
            assert forall|j: int| 0 <= j < s1.len() implies fits(vars, #[trigger] s1[j]) by {
                if j < s0.len() {
                    assert(s1[j] == s0[j]);
                }
            }
            if forall|i: int| 0 <= i < k && !rm[i] ==> #[trigger] cons[i].satisfied_by(values_in(cons[i], pairs)) {
                assert forall|j: int| 0 <= j < s1.len() implies #[trigger] s1[j].satisfied_by(values_in(s1[j], pairs)) by {
                    if j < s0.len() {
                        assert(s1[j] == s0[j]);
                        assert(forall|i: int| 0 <= i < k - 1 && !rm[i] ==> #[trigger] cons[i].satisfied_by(values_in(cons[i], pairs)));
                    }
                }
            }
            if forall|j: int| 0 <= j < s1.len() ==> #[trigger] s1[j].satisfied_by(values_in(s1[j], pairs)) {
                assert forall|j: int| 0 <= j < s0.len() implies #[trigger] s0[j].satisfied_by(values_in(s0[j], pairs)) by {
                    assert(s1[j] == s0[j]);
                }
                assert(s1[s0.len() as int] == cons[k - 1]);
            }
        }
    }
}

proof fn lemma_copies_kept<R: Predicate>(vars: Seq<Variable>, rem: Seq<Constraint<R>>, cons: Seq<Constraint<R>>, rm: Seq<bool>)
    requires
        copies_kept(rem, cons, rm),
        well_formed_problem(vars, cons),
        fc_safe(cons, vars.len()),
    ensures
        well_formed_problem(vars, rem),
        fc_safe(rem, vars.len()),
        forall|pairs: Seq<(usize, i64)>| #[trigger] satisfies(rem, pairs) == kept_satisfied(cons, rm, pairs),
        has_solution(vars, rem) == solvable_kept(vars, cons, rm),
{
    let n = cons.len() as int;
    let ks = kept_seq(cons, rm, n);
    assert forall|i: int| 0 <= i < n implies fits(vars, #[trigger] cons[i]) by {
        assert(cons[i].relation.min_len() <= cons[i].variables@.len());
    }
    lemma_kept_seq(vars, cons, rm, n, Seq::empty());
    assert forall|j: int| 0 <= j < rem.len() implies fits(vars, #[trigger] rem[j]) by {
        assert(same_check(rem[j], ks[j]));
        assert(fits(vars, ks[j]));
    }
    assert forall|j: int| 0 <= j < rem.len() && (#[trigger] rem[j]).variables@.len() == 2 implies ((rem[j].variables@[0] as int)
        < vars.len() <==> (rem[j].variables@[1] as int) < vars.len()) by {
        assert(fits(vars, rem[j]));
    }
    assert forall|j: int, q: int| 0 <= j < rem.len() && 0 <= q < rem[j].variables@.len() implies index_of(
        var_ids(vars),
        #[trigger] rem[j].variables@[q],
        0,
    ) >= 0 by {
        assert(fits(vars, rem[j]));
    }
    assert forall|j: int| 0 <= j < rem.len() implies (#[trigger] rem[j]).relation.min_len() <= rem[j].variables@.len() by {
        assert(fits(vars, rem[j]));
    }
    assert forall|pairs: Seq<(usize, i64)>| #[trigger] satisfies(rem, pairs) == kept_satisfied(cons, rm, pairs) by {
        lemma_kept_seq(vars, cons, rm, n, pairs);
        assert forall|j: int| 0 <= j < rem.len() implies rem[j].satisfied_by(values_in(rem[j], pairs)) == ks[j].satisfied_by(
            values_in(ks[j], pairs),
        ) by {
            assert(same_check(rem[j], ks[j]));
        }
        if satisfies(rem, pairs) {
            assert forall|j: int| 0 <= j < ks.len() implies #[trigger] ks[j].satisfied_by(values_in(ks[j], pairs)) by {
                assert(rem[j].satisfied_by(values_in(rem[j], pairs)));
            }
        }
        if kept_satisfied(cons, rm, pairs) {
            assert forall|j: int| 0 <= j < rem.len() implies #[trigger] rem[j].satisfied_by(values_in(rem[j], pairs)) by {
                assert(ks[j].satisfied_by(values_in(ks[j], pairs)));
            }
        }
    }
    if has_solution(vars, rem) {
        let tau = choose|tau: Seq<i64>| extends(vars, tau) && #[trigger] satisfies(rem, completion(vars, tau));
        assert(kept_satisfied(cons, rm, completion(vars, tau)));
    }
    if solvable_kept(vars, cons, rm) {
        let tau = choose|tau: Seq<i64>| extends(vars, tau) && #[trigger] kept_satisfied(cons, rm, completion(vars, tau));
        assert(satisfies(rem, completion(vars, tau)));
    }
}

proof fn lemma_positions_distinct(vars: Seq<Variable>)
    requires
        ids_are_positions(vars),
    ensures
        crate::solver::distinct_ids(vars),
{
    assert forall|i: int, j: int| 0 <= i < vars.len() && 0 <= j < vars.len() && i != j implies vars[i].id != vars[j].id by {
        assert(vars[i].id == i);
        assert(vars[j].id == j);
    }
}

// ---------------------------------------------------------------------------
// Steps.
// ---------------------------------------------------------------------------

fn copy_ids(v: &Vec<usize>) -> (r: Vec<usize>)
    ensures
        r@ == v@,
{
    let mut r: Vec<usize> = Vec::new();
    let mut i: usize = 0;
    while i < v.len()
        invariant
            i <= v@.len(),
            r@ == v@.take(i as int),
        decreases v@.len() - i,
    {
        r.push(v[i]);
        proof {
            assert(v@.take(i as int + 1) =~= v@.take(i as int).push(v@[i as int]));
        }
        i = i + 1;
    }
    assert(v@.take(v@.len() as int) =~= v@);
    r
}

/// A copy of a constraint that checks the same relation on the same variables.
fn copy_constraint<R: Predicate>(c: &Constraint<R>) -> (r: Constraint<R>)
    ensures
        same_check(r, *c),
        r.id == c.id,
        r.strength == c.strength,
        r.constraint_type == c.constraint_type,
{
    Constraint {
        id: c.id,
        constraint_type: c.constraint_type,
        strength: c.strength,
        variables: copy_ids(&c.variables),
        domain: Vec::new(),
        relation: c.relation,
    }
}

/// The constraints that `rm` does not mark, in order.
fn kept_constraints<R: Predicate>(constraints: &[Constraint<R>], rm: &Vec<bool>) -> (r: Vec<Constraint<R>>)
    requires
        rm@.len() == constraints@.len(),
    ensures
        copies_kept(r@, constraints@, rm@),
{
    let ghost cons = constraints@;
    let mut r: Vec<Constraint<R>> = Vec::new();
    let mut i: usize = 0;
    while i < constraints.len()
        invariant
            cons == constraints@,
            rm@.len() == cons.len(),
            i <= cons.len(),
            r@.len() == kept_seq(cons, rm@, i as int).len(),
            forall|j: int| 0 <= j < r@.len() ==> same_check(#[trigger] r@[j], kept_seq(cons, rm@, i as int)[j]),
        decreases cons.len() - i,
    {
        let ghost r0 = r@;
        if !rm[i] {
            let c = copy_constraint(&constraints[i]);
            r.push(c);
        }
        proof {
            let k1 = kept_seq(cons, rm@, i as int + 1);
            let k0 = kept_seq(cons, rm@, i as int);
            assert forall|j: int| 0 <= j < r@.len() implies same_check(#[trigger] r@[j], k1[j]) by {
                if j < r0.len() {
                    assert(r@[j] == r0[j]);
                    assert(same_check(r0[j], k0[j]));
                }
            }
        }
        i = i + 1;
    }
    r
}

/// The constraint indices from the weakest to the strongest (a stable sort
/// by strength).
fn weakest_order<R: Predicate>(constraints: &[Constraint<R>]) -> (ord: Vec<usize>)
    ensures
        is_weakest_order(constraints@, ord@),
{
    let ghost cons = constraints@;
    let mut ord: Vec<usize> = Vec::new();
    let mut i: usize = 0;
    while i < constraints.len()
        invariant
            cons == constraints@,
            i <= cons.len(),
            ord@.len() == i,
            forall|a: int| 0 <= a < ord@.len() ==> (#[trigger] ord@[a] as int) < i,
            forall|k: usize| k < i ==> #[trigger] ord@.contains(k),
            forall|a: int, b: int| 0 <= a < b < ord@.len() ==> weaker(cons, #[trigger] ord@[a] as int, #[trigger] ord@[b] as int),
        decreases cons.len() - i,
    {
        let s = constraints[i].strength;
        // The first position whose constraint is stronger than constraint i.
        let mut pos: usize = 0;
        while pos < ord.len() && constraints[ord[pos]].strength <= s
            invariant
                cons == constraints@,
                i < cons.len(),
                s == cons[i as int].strength,
                pos <= ord@.len(),
                forall|a: int| 0 <= a < ord@.len() ==> (#[trigger] ord@[a] as int) < i,
                forall|a: int| 0 <= a < pos ==> cons[#[trigger] ord@[a] as int].strength <= s,
            decreases ord@.len() - pos,
        {
            pos = pos + 1;
        }
        let ghost o0 = ord@;
        ord.insert(pos, i);
        proof {
            assert(forall|a: int| pos <= a < o0.len() ==> cons[#[trigger] o0[a] as int].strength > s) by {
                if pos < o0.len() {
                    assert(cons[o0[pos as int] as int].strength > s);
                    assert forall|a: int| pos <= a < o0.len() implies cons[#[trigger] o0[a] as int].strength > s by {
                        if a > pos {
                            assert(weaker(cons, o0[pos as int] as int, o0[a] as int));
                        }
                    }
                }
            }
            assert forall|a: int| 0 <= a < ord@.len() implies (#[trigger] ord@[a] as int) < i + 1 by {
                if a < pos {
                    assert(ord@[a] == o0[a]);
                } else if a > pos {
                    assert(ord@[a] == o0[a - 1]);
                }
            }
            assert forall|k: usize| k < i + 1 implies #[trigger] ord@.contains(k) by {
                if k < i {
                    assert(o0.contains(k));
                    let a = choose|a: int| 0 <= a < o0.len() && o0[a] == k;
                    if a < pos {
                        assert(ord@[a] == o0[a]);
                    } else {
                        assert(ord@[a + 1] == o0[a]);
                    }
                } else {
                    assert(ord@[pos as int] == i);
                }
            }
            assert forall|a: int, b: int| 0 <= a < b < ord@.len() implies weaker(cons, #[trigger] ord@[a] as int, #[trigger] ord@[b] as int) by {
                if b < pos {
                    assert(ord@[a] == o0[a] && ord@[b] == o0[b]);
                } else if b == pos {
                    assert(ord@[a] == o0[a]);
                } else if a < pos {
                    assert(ord@[a] == o0[a] && ord@[b] == o0[b - 1]);
                } else if a == pos {
                    assert(ord@[b] == o0[b - 1]);
                } else {
                    assert(ord@[a] == o0[a - 1] && ord@[b] == o0[b - 1]);
                }
            }
        }
        i = i + 1;
    }
    ord
}

/// The mask that relaxes the first `k` constraints of `ord`.
fn mask_of_prefix(ord: &Vec<usize>, k: usize) -> (rm: Vec<bool>)
    requires
        k <= ord@.len(),
        forall|a: int| 0 <= a < ord@.len() ==> (#[trigger] ord@[a] as int) < ord@.len(),
    ensures
        rm@ == weakest_mask(ord@, k as int),
{
    let n = ord.len();
    let mut rm: Vec<bool> = Vec::new();
    let mut i: usize = 0;
    while i < n
        invariant
            n == ord@.len(),
            i <= n,
            rm@.len() == i,
            forall|j: int| 0 <= j < i ==> #[trigger] rm@[j] == false,
        decreases n - i,
    {
        rm.push(false);
        i = i + 1;
    }
    let mut a: usize = 0;
    while a < k
        invariant
            n == ord@.len(),
            k <= n,
            a <= k,
            rm@.len() == n,
            forall|a2: int| 0 <= a2 < ord@.len() ==> (#[trigger] ord@[a2] as int) < ord@.len(),
            forall|j: int| 0 <= j < n ==> #[trigger] rm@[j] == ord@.take(a as int).contains(j as usize),
        decreases k - a,
    {
        let ghost r0 = rm@;
        rm.set(ord[a], true);
        proof {
            let t0 = ord@.take(a as int);
            let t1 = ord@.take(a as int + 1);
            assert(t1 =~= t0.push(ord@[a as int]));
            assert forall|j: int| 0 <= j < n implies #[trigger] rm@[j] == t1.contains(j as usize) by {
                if t0.contains(j as usize) {
                    let t = choose|t: int| 0 <= t < t0.len() && t0[t] == j as usize;
                    assert(t1[t] == j as usize);
                }
                if t1.contains(j as usize) && !t0.contains(j as usize) {
                    let t = choose|t: int| 0 <= t < t1.len() && t1[t] == j as usize;
                    if t < a {
                        assert(t0[t] == j as usize);
                    }
                }
                if j == ord@[a as int] {
                    assert(t1[a as int] == j as usize);
                }
            }
        }
        a = a + 1;
    }
    assert(rm@ =~= weakest_mask(ord@, k as int));
    rm
}

/// A mask of `n` entries set by a predicate on the index.
fn mask_where_last(n: usize, k: usize) -> (rm: Vec<bool>)
    requires
        k <= n,
    ensures
        rm@ == last_mask(n as nat, k as int),
{
    let mut rm: Vec<bool> = Vec::new();
    let mut i: usize = 0;
    while i < n
        invariant
            k <= n,
            i <= n,
            rm@ == last_mask(n as nat, k as int).take(i as int),
        decreases n - i,
    {
        rm.push(i >= n - k);
        proof {
            assert(last_mask(n as nat, k as int).take(i as int + 1) =~= last_mask(n as nat, k as int).take(i as int).push(i >= n - k));
        }
        i = i + 1;
    }
    assert(last_mask(n as nat, k as int).take(n as int) =~= last_mask(n as nat, k as int));
    rm
}

fn mask_at(n: usize, idx: usize) -> (rm: Vec<bool>)
    ensures
        rm@ == index_mask(n as nat, idx),
{
    let mut rm: Vec<bool> = Vec::new();
    let mut i: usize = 0;
    while i < n
        invariant
            i <= n,
            rm@ == index_mask(n as nat, idx).take(i as int),
        decreases n - i,
    {
        rm.push(i == idx);
        proof {
            assert(index_mask(n as nat, idx).take(i as int + 1) =~= index_mask(n as nat, idx).take(i as int).push(i == idx));
        }
        i = i + 1;
    }
    assert(index_mask(n as nat, idx).take(n as int) =~= index_mask(n as nat, idx));
    rm
}

/// The value that the first pair with this id gives.
fn value_of(pairs: &Vec<(usize, i64)>, id: usize) -> (r: i64)
    requires
        index_of(pair_ids(pairs@), id, 0) >= 0,
    ensures
        r == value_for(pairs@, id),
{
    let mut i: usize = 0;
    while i < pairs.len()
        invariant
            i <= pairs@.len(),
            index_of(pair_ids(pairs@), id, 0) == index_of(pair_ids(pairs@), id, i as int),
            index_of(pair_ids(pairs@), id, 0) >= 0,
        decreases pairs@.len() - i,
    {
        if pairs[i].0 == id {
            return pairs[i].1;
        }
        i = i + 1;
    }
    proof {
        assert(index_of(pair_ids(pairs@), id, i as int) == -1);
    }
    0
}

/// Report a solution found with the constraints marked in `removed` relaxed.
fn build_relaxed_solution<R: Predicate>(sol: &Solution, constraints: &[Constraint<R>]) -> (rs: RelaxedSolution)
    requires
        forall|j: int| 0 <= j < constraints@.len() ==> (#[trigger] constraints@[j]).relation.min_len() <= constraints@[j].variables@.len(),
        forall|i: int, q: int|
            0 <= i < constraints@.len() && 0 <= q < constraints@[i].variables@.len() ==> index_of(
                pair_ids(sol.assignments@),
                #[trigger] constraints@[i].variables@[q],
                0,
            ) >= 0,
    ensures
        reports(rs, constraints@, sol.assignments@),
{
    let ghost cons = constraints@;
    let ghost pairs = sol.assignments@;
    let mut satisfied_weight: u128 = 0;
    let mut total_weight: u128 = 0;
    let mut violated: Vec<usize> = Vec::new();
    let mut i: usize = 0;
    while i < constraints.len()
        invariant
            cons == constraints@,
            pairs == sol.assignments@,
            i <= cons.len(),
            forall|j: int| 0 <= j < cons.len() ==> (#[trigger] cons[j]).relation.min_len() <= cons[j].variables@.len(),
            forall|i2: int, q: int|
                0 <= i2 < cons.len() && 0 <= q < cons[i2].variables@.len() ==> index_of(
                    pair_ids(pairs),
                    #[trigger] cons[i2].variables@[q],
                    0,
                ) >= 0,
            total_weight == total_strength(cons.take(i as int)),
            satisfied_weight == satisfied_strength(cons, pairs, i as int),
            violated@ == violations(cons, pairs, i as int),
        decreases cons.len() - i,
    {
        let c = &constraints[i];
        proof {
            assert(cons.take(i as int + 1).drop_last() =~= cons.take(i as int));
            lemma_total_strength_bound(cons.take(i as int + 1));
            lemma_satisfied_bound(cons, pairs, i as int);
            assert(i + 1 <= usize::MAX);
            assert((i as int + 1) * (u64::MAX as int) <= (usize::MAX as int) * (u64::MAX as int)) by (nonlinear_arith)
                requires
                    i + 1 <= usize::MAX,
            ;
            assert((usize::MAX as int) * (u64::MAX as int) < u128::MAX) by (nonlinear_arith);
        }
        total_weight = total_weight + c.strength as u128;
        let mut vals: Vec<i64> = Vec::new();
        let mut q: usize = 0;
        while q < c.variables.len()
            invariant
                q <= c.variables@.len(),
                (i as int) < cons.len(),
                *c == cons[i as int],
                forall|i2: int, q2: int|
                    0 <= i2 < cons.len() && 0 <= q2 < cons[i2].variables@.len() ==> index_of(
                        pair_ids(pairs),
                        #[trigger] cons[i2].variables@[q2],
                        0,
                    ) >= 0,
                pairs == sol.assignments@,
                vals@ == values_in(*c, pairs).take(q as int),
            decreases c.variables@.len() - q,
        {
            assert(index_of(pair_ids(pairs), cons[i as int].variables@[q as int], 0) >= 0);
            let v = value_of(&sol.assignments, c.variables[q]);
            proof {
                assert(values_in(*c, pairs).take(q as int + 1) =~= values_in(*c, pairs).take(q as int).push(v));
            }
            vals.push(v);
            q = q + 1;
        }
        assert(values_in(*c, pairs).take(q as int) =~= values_in(*c, pairs));
        if c.is_satisfied(vals.as_slice()) {
            satisfied_weight = satisfied_weight + c.strength as u128;
        } else {
            violated.push(i);
        }
        i = i + 1;
    }
    assert(cons.take(cons.len() as int) =~= cons);
    RelaxedSolution { assignments: copy_pairs(&sol.assignments), satisfied_weight, total_weight, violated }
}

fn copy_pairs(v: &Vec<(usize, i64)>) -> (r: Vec<(usize, i64)>)
    ensures
        r@ == v@,
{
    let mut r: Vec<(usize, i64)> = Vec::new();
    let mut i: usize = 0;
    while i < v.len()
        invariant
            i <= v@.len(),
            r@ == v@.take(i as int),
        decreases v@.len() - i,
    {
        r.push(v[i]);
        proof {
            assert(v@.take(i as int + 1) =~= v@.take(i as int).push(v@[i as int]));
        }
        i = i + 1;
    }
    assert(v@.take(v@.len() as int) =~= v@);
    r
}


/// `r` is the first success of trying the masks `mask(0)`, `mask(1)`, ...,
/// `mask(n)` in turn.  When ids are positions the search is complete: every
/// earlier mask left an unsolvable problem.
pub open spec fn first_success<R: Predicate>(
    vars: Seq<Variable>,
    cons: Seq<Constraint<R>>,
    mask: spec_fn(int) -> Seq<bool>,
    r: Option<RelaxedSolution>,
) -> bool {
    match r {
        Some(rs) => exists|k: int|
            0 <= k <= cons.len() && #[trigger] relaxed_by(vars, cons, mask(k), rs) && (ids_are_positions(vars) ==> forall|k2: int|
                0 <= k2 < k ==> !#[trigger] solvable_kept(vars, cons, mask(k2))),
        None => ids_are_positions(vars) ==> forall|k: int| 0 <= k <= cons.len() ==> !#[trigger] solvable_kept(vars, cons, mask(k)),
    }
}

/// What `relaxed_solve` gives under each strategy.
pub open spec fn relaxed_outcome<R: Predicate>(
    vars: Seq<Variable>,
    cons: Seq<Constraint<R>>,
    strategy: RelaxationStrategy,
    r: Option<RelaxedSolution>,
) -> bool {
    let n = cons.len();
    match strategy {
        RelaxationStrategy::WeakestFirst => exists|ord: Seq<usize>|
            #[trigger] is_weakest_order(cons, ord) && first_success(vars, cons, |k: int| weakest_mask(ord, k), r),
        RelaxationStrategy::ReverseOrder => first_success(vars, cons, |k: int| last_mask(n, k), r),
        RelaxationStrategy::RemoveIndex(idx) => match r {
            Some(rs) => relaxed_by(vars, cons, index_mask(n, idx), rs),
            None => ids_are_positions(vars) ==> !solvable_kept(vars, cons, index_mask(n, idx)),
        },
        RelaxationStrategy::ReduceStrength(factor) => match r {
            Some(rs) => {
                &&& solves_kept(vars, cons, no_mask(n), rs.assignments@)
                &&& rs.satisfied_weight == total_reduced(cons, factor)
                &&& rs.total_weight == total_reduced(cons, factor)
                &&& rs.violated@.len() == 0
            },
            None => ids_are_positions(vars) ==> !solvable_kept(vars, cons, no_mask(n)),
        },
    }
}

/// Solve with the constraints marked in `rm` left out, and report.
fn try_relaxed<R: Predicate>(solver: &Solver, variables: &[Variable], constraints: &[Constraint<R>], rm: &Vec<bool>) -> (r: Option<RelaxedSolution>)
    requires
        solver.use_forward_check,
        solver.max_backtracks == 0,
        rm@.len() == constraints@.len(),
        well_formed_problem(variables@, constraints@),
        fc_safe(constraints@, variables@.len()),
    ensures
        r matches Some(rs) ==> relaxed_by(variables@, constraints@, rm@, rs),
        r is None ==> (ids_are_positions(variables@) ==> !solvable_kept(variables@, constraints@, rm@)),
{
    let remaining = kept_constraints(constraints, rm);
    proof {
        lemma_copies_kept(variables@, remaining@, constraints@, rm@);
        if ids_are_positions(variables@) {
            lemma_positions_distinct(variables@);
        }
    }
    match solver.solve(variables, remaining.as_slice()) {
        Some(sol) => {
            proof {
                assert(satisfies(remaining@, sol.assignments@));
                assert forall|i: int, q: int|
                    0 <= i < constraints@.len() && 0 <= q < constraints@[i].variables@.len() implies index_of(
                    pair_ids(sol.assignments@),
                    #[trigger] constraints@[i].variables@[q],
                    0,
                ) >= 0 by {
                    assert(index_of(var_ids(variables@), constraints@[i].variables@[q], 0) >= 0);
                }
            }
            let rs = build_relaxed_solution(&sol, constraints);
            Some(rs)
        },
        None => None,
    }
}

/// The sum of the reduced strengths.
fn reduced_total<R: Predicate>(constraints: &[Constraint<R>], factor: u64) -> (r: u128)
    ensures
        r == total_reduced(constraints@, factor),
{
    let ghost cons = constraints@;
    let mut total: u128 = 0;
    let mut i: usize = 0;
    while i < constraints.len()
        invariant
            cons == constraints@,
            i <= cons.len(),
            total == total_reduced(cons.take(i as int), factor),
        decreases cons.len() - i,
    {
        let s = constraints[i].strength;
        assert((s as int) * (factor as int) <= (u64::MAX as int) * (u64::MAX as int)) by (nonlinear_arith)
            requires
                s <= u64::MAX,
                factor <= u64::MAX,
        ;
        assert((u64::MAX as int) * (u64::MAX as int) <= u128::MAX) by (nonlinear_arith);
        let prod: u128 = (s as u128) * (factor as u128);
        let q: u128 = prod / (STRENGTH_SCALE as u128);
        let red: u64 = if q > u64::MAX as u128 { u64::MAX } else { q as u64 };
        proof {
            assert(cons.take(i as int + 1).drop_last() =~= cons.take(i as int));
            lemma_total_reduced_bound(cons.take(i as int + 1), factor);
            assert((i as int + 1) * (u64::MAX as int) <= (usize::MAX as int) * (u64::MAX as int)) by (nonlinear_arith)
                requires
                    i + 1 <= usize::MAX,
            ;
            assert((usize::MAX as int) * (u64::MAX as int) < u128::MAX) by (nonlinear_arith);
            assert(red == reduced(s, factor));
        }
        total = total + red as u128;
        i = i + 1;
    }
    assert(cons.take(cons.len() as int) =~= cons);
    total
}

/// Attempt to solve an over-constrained system by relaxing constraints.
pub fn relaxed_solve<R: Predicate>(
    variables: &[Variable],
    constraints: &[Constraint<R>],
    strategy: &RelaxationStrategy,
) -> (r: Option<RelaxedSolution>)
    requires
        well_formed_problem(variables@, constraints@),
        fc_safe(constraints@, variables@.len()),
    ensures
        relaxed_outcome(variables@, constraints@, *strategy, r),
{
    let solver = Solver::new();
    let n = constraints.len();
    let ghost vars = variables@;
    let ghost cons = constraints@;
    match strategy {
        RelaxationStrategy::WeakestFirst => {
            let ord = weakest_order(constraints);
            let ghost mask = |k: int| weakest_mask(ord@, k);
            // Try removing constraints from weakest to strongest.
            let mut remove_count: usize = 0;
            loop
                invariant
                    vars == variables@,
                    cons == constraints@,
                    n == cons.len(),
                    solver.use_forward_check,
                    solver.max_backtracks == 0,
                    well_formed_problem(vars, cons),
                    fc_safe(cons, vars.len()),
                    is_weakest_order(cons, ord@),
                    *strategy == RelaxationStrategy::WeakestFirst,
                    mask == (|k: int| weakest_mask(ord@, k)),
                    remove_count <= n,
                    ids_are_positions(vars) ==> forall|k2: int| 0 <= k2 < remove_count ==> !#[trigger] solvable_kept(vars, cons, mask(k2)),
                decreases n - remove_count,
            {
                let rm = mask_of_prefix(&ord, remove_count);
                match try_relaxed(&solver, variables, constraints, &rm) {
                    Some(rs) => {
                        proof {
                            assert(relaxed_by(vars, cons, mask(remove_count as int), rs));
                            assert(first_success(vars, cons, mask, Some(rs)));
                        }
                        return Some(rs);
                    },
                    None => {},
                }
                if remove_count == n {
                    proof {
                        assert(first_success(vars, cons, mask, None)) by {
                            if ids_are_positions(vars) {
                                assert forall|k: int| 0 <= k <= cons.len() implies !#[trigger] solvable_kept(vars, cons, mask(k)) by {
                                    if k < remove_count {
                                    }
                                }
                            }
                        }
                    }
                    return None;
                }
                remove_count = remove_count + 1;
            }
        },
        RelaxationStrategy::ReverseOrder => {
            let ghost mask = |k: int| last_mask(cons.len(), k);
            let mut remove_count: usize = 0;
            loop
                invariant
                    vars == variables@,
                    cons == constraints@,
                    n == cons.len(),
                    solver.use_forward_check,
                    solver.max_backtracks == 0,
                    well_formed_problem(vars, cons),
                    fc_safe(cons, vars.len()),
                    mask == (|k: int| last_mask(cons.len(), k)),
                    *strategy == RelaxationStrategy::ReverseOrder,
                    remove_count <= n,
                    ids_are_positions(vars) ==> forall|k2: int| 0 <= k2 < remove_count ==> !#[trigger] solvable_kept(vars, cons, mask(k2)),
                decreases n - remove_count,
            {
                let rm = mask_where_last(n, remove_count);
                match try_relaxed(&solver, variables, constraints, &rm) {
                    Some(rs) => {
                        proof {
                            assert(relaxed_by(vars, cons, mask(remove_count as int), rs));
                            assert(first_success(vars, cons, mask, Some(rs)));
                        }
                        return Some(rs);
                    },
                    None => {},
                }
                if remove_count == n {
                    proof {
                        assert(first_success(vars, cons, mask, None)) by {
                            if ids_are_positions(vars) {
                                assert forall|k: int| 0 <= k <= cons.len() implies !#[trigger] solvable_kept(vars, cons, mask(k)) by {
                                    if k < remove_count {
                                    }
                                }
                            }
                        }
                    }
                    return None;
                }
                remove_count = remove_count + 1;
            }
        },
        RelaxationStrategy::RemoveIndex(idx) => {
            let rm = mask_at(n, *idx);
            try_relaxed(&solver, variables, constraints, &rm)
        },
        RelaxationStrategy::ReduceStrength(factor) => {
            let rm = mask_at(n, n);
            assert(rm@ =~= no_mask(n as nat));
            match try_relaxed(&solver, variables, constraints, &rm) {
                Some(rs) => {
                    let weight = reduced_total(constraints, *factor);
                    Some(RelaxedSolution {
                        assignments: rs.assignments,
                        satisfied_weight: weight,
                        total_weight: weight,
                        violated: Vec::new(),
                    })
                },
                None => None,
            }
        },
    }
}

/// The number of constraints that `rm` marks.
pub open spec fn mark_count(rm: Seq<bool>) -> nat
    decreases rm.len(),
{
    if rm.len() == 0 {
        0
    } else {
        mark_count(rm.drop_last()) + if rm.last() {
            1nat
        } else {
            0nat
        }
    }
}

proof fn lemma_mark_count_prefix(m: Seq<bool>, j: int)
    requires
        0 <= j <= m.len(),
    ensures
        mark_count(m.take(j)) <= mark_count(m),
        mark_count(m) <= mark_count(m.take(j)) + (m.len() - j),
    decreases m.len() - j,
{
    if j < m.len() {
        lemma_mark_count_prefix(m, j + 1);
        assert(m.take(j + 1).drop_last() =~= m.take(j));
    } else {
        assert(m.take(j) =~= m);
    }
}

/// Among the relaxations that keep the marks of `rm` and mark `k` more
/// constraints, find one under which the problem is solvable, trying to relax
/// each next constraint before keeping it.
fn search_masks<R: Predicate>(
    solver: &Solver,
    variables: &[Variable],
    constraints: &[Constraint<R>],
    k: usize,
    rm: &mut Vec<bool>,
) -> (r: Option<RelaxedSolution>)
    requires
        solver.use_forward_check,
        solver.max_backtracks == 0,
        old(rm)@.len() <= constraints@.len(),
        well_formed_problem(variables@, constraints@),
        fc_safe(constraints@, variables@.len()),
    ensures
        final(rm)@ == old(rm)@,
        r matches Some(rs) ==> exists|m: Seq<bool>|
            m.len() == constraints@.len() && m.take(old(rm)@.len() as int) == old(rm)@ && mark_count(m) == mark_count(old(rm)@) + k
                && #[trigger] relaxed_by(variables@, constraints@, m, rs),
        r is None ==> (ids_are_positions(variables@) ==> forall|m: Seq<bool>|
            m.len() == constraints@.len() && m.take(old(rm)@.len() as int) == old(rm)@ && mark_count(m) == mark_count(old(rm)@) + k
                ==> !#[trigger] solvable_kept(variables@, constraints@, m)),
    decreases constraints@.len() - old(rm)@.len(),
{
    let ghost pre = rm@;
    let ghost vars = variables@;
    let ghost cons = constraints@;
    let n = constraints.len();
    let len = rm.len();
    if len == n {
        proof {
            assert(pre.take(n as int) =~= pre);
        }
        if k == 0 {
            let r = try_relaxed(solver, variables, constraints, rm);
            proof {
                assert forall|m: Seq<bool>|
                    m.len() == n && m.take(len as int) == pre && mark_count(m) == mark_count(pre) + k implies m == pre by {
                    assert(m.take(len as int) =~= m);
                }
            }
            return r;
        }
        proof {
            assert forall|m: Seq<bool>|
                m.len() == n && m.take(len as int) == pre implies mark_count(m) == mark_count(pre) by {
                assert(m.take(len as int) =~= m);
            }
        }
        return None;
    }
    let mut first: Option<RelaxedSolution> = None;
    if k > 0 {
        rm.push(true);
        first = search_masks(solver, variables, constraints, k - 1, rm);
        rm.pop();
        proof {
            assert(rm@ =~= pre);
        }
        if first.is_some() {
            proof {
                let rs = first->0;
                let m = choose|m: Seq<bool>|
                    m.len() == cons.len() && m.take(len as int + 1) == pre.push(true) && mark_count(m) == mark_count(pre.push(true)) + (k - 1)
                        && #[trigger] relaxed_by(vars, cons, m, rs);
                assert(pre.push(true).drop_last() =~= pre);
                assert(m.take(len as int) =~= m.take(len as int + 1).take(len as int));
                assert(pre.push(true).take(len as int) =~= pre);
                assert(relaxed_by(vars, cons, m, rs));
            }
            return first;
        }
    }
    rm.push(false);
    let second = search_masks(solver, variables, constraints, k, rm);
    rm.pop();
    proof {
        assert(rm@ =~= pre);
        let pt = pre.push(true);
        let pf = pre.push(false);
        assert(pt.drop_last() =~= pre);
        assert(pf.drop_last() =~= pre);
        assert(pt.take(len as int) =~= pre);
        assert(pf.take(len as int) =~= pre);
        if second is Some {
            let rs = second->0;
            let m = choose|m: Seq<bool>|
                m.len() == cons.len() && m.take(len as int + 1) == pf && mark_count(m) == mark_count(pf) + k
                    && #[trigger] relaxed_by(vars, cons, m, rs);
            assert(m.take(len as int) =~= m.take(len as int + 1).take(len as int));
            assert(relaxed_by(vars, cons, m, rs));
        } else if ids_are_positions(vars) {
            assert forall|m: Seq<bool>|
                m.len() == cons.len() && m.take(len as int) == pre && mark_count(m) == mark_count(pre) + k
                    implies !#[trigger] solvable_kept(vars, cons, m) by {
                let t = m.take(len as int + 1);
                assert(t =~= m.take(len as int).push(m[len as int]));
                lemma_mark_count_prefix(m, len as int + 1);
                if m[len as int] {
                    assert(t == pt);
                    assert(k > 0);
                } else {
                    assert(t == pf);
                }
            }
        }
    }
    second
}

/// Find a minimal set of constraints to relax to achieve a solution: try the
/// sets of relaxed constraints by size, the smallest first.
pub fn minimal_relaxation<R: Predicate>(variables: &[Variable], constraints: &[Constraint<R>]) -> (r: Option<RelaxedSolution>)
    requires
        well_formed_problem(variables@, constraints@),
        fc_safe(constraints@, variables@.len()),
    ensures
        r matches Some(rs) ==> exists|m: Seq<bool>|
            m.len() == constraints@.len() && #[trigger] relaxed_by(variables@, constraints@, m, rs) && (ids_are_positions(
                variables@,
            ) ==> forall|m2: Seq<bool>|
                m2.len() == constraints@.len() && mark_count(m2) < mark_count(m) ==> !#[trigger] solvable_kept(
                    variables@,
                    constraints@,
                    m2,
                )),
        r is None ==> (ids_are_positions(variables@) ==> forall|m: Seq<bool>|
            m.len() == constraints@.len() ==> !#[trigger] solvable_kept(variables@, constraints@, m)),
{
    let ghost vars = variables@;
    let ghost cons = constraints@;
    let solver = Solver::new();
    let n = constraints.len();
    let mut k: usize = 0;
    loop
        invariant
            vars == variables@,
            cons == constraints@,
            n == cons.len(),
            k <= n,
            solver.use_forward_check,
            solver.max_backtracks == 0,
            well_formed_problem(vars, cons),
            fc_safe(cons, vars.len()),
            ids_are_positions(vars) ==> forall|m2: Seq<bool>|
                m2.len() == n && mark_count(m2) < k ==> !#[trigger] solvable_kept(vars, cons, m2),
        decreases n - k,
    {
        let mut rm: Vec<bool> = Vec::new();
        let found = search_masks(&solver, variables, constraints, k, &mut rm);
        proof {
            assert(rm@ =~= Seq::<bool>::empty());
            assert forall|m: Seq<bool>| m.len() == n implies #[trigger] m.take(0) == Seq::<bool>::empty() by {
                assert(m.take(0) =~= Seq::<bool>::empty());
            }
        }
        match found {
            Some(rs) => {
                proof {
                    let m = choose|m: Seq<bool>|
                        m.len() == cons.len() && m.take(0) == Seq::<bool>::empty() && mark_count(m) == mark_count(Seq::<bool>::empty()) + k
                            && #[trigger] relaxed_by(vars, cons, m, rs);
                    assert(mark_count(m) == k);
                }
                return Some(rs);
            },
            None => {},
        }
        proof {
            if ids_are_positions(vars) {
                assert forall|m2: Seq<bool>| m2.len() == n && mark_count(m2) < k + 1 implies !#[trigger] solvable_kept(vars, cons, m2) by {
                    if mark_count(m2) == k {
                        assert(m2.take(0) =~= Seq::<bool>::empty());
                    }
                }
            }
        }
        if k == n {
            proof {
                if ids_are_positions(vars) {
                    assert forall|m: Seq<bool>| m.len() == n implies !#[trigger] solvable_kept(vars, cons, m) by {
                        lemma_mark_count_prefix(m, 0);
                        assert(m.take(0) =~= Seq::<bool>::empty());
                    }
                }
            }
            return None;
        }
        k = k + 1;
    }
}

// ---------------------------------------------------------------------------
// Laws.
// ---------------------------------------------------------------------------

proof fn lemma_violations_relaxed<R: Predicate>(cons: Seq<Constraint<R>>, pairs: Seq<(usize, i64)>, rm: Seq<bool>, k: int)
    requires
        0 <= k <= cons.len(),
        cons.len() <= usize::MAX,
        kept_satisfied(cons, rm, pairs),
    ensures
        forall|t: int| 0 <= t < violations(cons, pairs, k).len() ==> 0 <= #[trigger] violations(cons, pairs, k)[t] < k
            && rm[violations(cons, pairs, k)[t] as int],
        (forall|i: int| 0 <= i < k ==> !rm[i]) ==> violations(cons, pairs, k).len() == 0 && satisfied_strength(cons, pairs, k)
            == total_strength(cons.take(k)),
    decreases k,
{
    if k > 0 {
        lemma_violations_relaxed(cons, pairs, rm, k - 1);
        assert(cons.take(k).drop_last() =~= cons.take(k - 1));
        let v0 = violations(cons, pairs, k - 1);
        if is_violated(cons, pairs, k - 1) {
            assert(rm[k - 1]);
            assert forall|t: int| 0 <= t < v0.push((k - 1) as usize).len() implies 0 <= #[trigger] v0.push((k - 1) as usize)[t] < k
                && rm[v0.push((k - 1) as usize)[t] as int] by {
                if t < v0.len() {
                    assert(v0.push((k - 1) as usize)[t] == v0[t]);
                }
            }
        }
    }
}

/// Every constraint that a relaxed solution reports violated was relaxed: the
/// constraints kept all hold. With nothing relaxed, nothing is violated and
/// all of the weight is satisfied.
pub proof fn lemma_violated_are_relaxed<R: Predicate>(vars: Seq<Variable>, cons: Seq<Constraint<R>>, rm: Seq<bool>, rs: RelaxedSolution)
    requires
        cons.len() <= usize::MAX,
        relaxed_by(vars, cons, rm, rs),
    ensures
        forall|t: int| 0 <= t < rs.violated@.len() ==> rm[#[trigger] rs.violated@[t] as int],
        (forall|i: int| 0 <= i < cons.len() ==> !rm[i]) ==> rs.violated@.len() == 0 && rs.satisfied_weight == rs.total_weight,
{
    lemma_violations_relaxed(cons, rs.assignments@, rm, cons.len() as int);
    assert(cons.take(cons.len() as int) =~= cons);
}

/// When the problem has a solution, relaxing weakest-first or in reverse
/// order relaxes nothing: a solution comes back with no violated constraint
/// and all of the weight satisfied.
pub proof fn lemma_nothing_relaxed_when_solvable<R: Predicate>(
    vars: Seq<Variable>,
    cons: Seq<Constraint<R>>,
    strategy: RelaxationStrategy,
    r: Option<RelaxedSolution>,
)
    requires
        cons.len() <= usize::MAX,
        ids_are_positions(vars),
        has_solution(vars, cons),
        strategy == RelaxationStrategy::WeakestFirst || strategy == RelaxationStrategy::ReverseOrder,
        relaxed_outcome(vars, cons, strategy, r),
    ensures
        r is Some,
        r->0.violated@.len() == 0,
        r->0.satisfied_weight == r->0.total_weight,
{
    let n = cons.len();
    let tau = choose|tau: Seq<i64>| extends(vars, tau) && #[trigger] satisfies(cons, completion(vars, tau));
    let mask: spec_fn(int) -> Seq<bool> = if strategy == RelaxationStrategy::WeakestFirst {
        let ord = choose|ord: Seq<usize>|
            #[trigger] is_weakest_order(cons, ord) && first_success(vars, cons, |k: int| weakest_mask(ord, k), r);
        |k: int| weakest_mask(ord, k)
    } else {
        |k: int| last_mask(n, k)
    };
    assert(first_success(vars, cons, mask, r));
    let m0 = mask(0);
    assert(m0.len() == n);
    assert forall|i: int| 0 <= i < m0.len() implies !m0[i] by {
        if strategy == RelaxationStrategy::WeakestFirst {
            let ord = choose|ord: Seq<usize>|
                #[trigger] is_weakest_order(cons, ord) && first_success(vars, cons, |k: int| weakest_mask(ord, k), r);
            assert(ord.take(0) =~= Seq::<usize>::empty());
        }
    }
    assert(kept_satisfied(cons, m0, completion(vars, tau)));
    assert(solvable_kept(vars, cons, m0));
    match r {
        Some(rs) => {
            let k = choose|k: int|
                0 <= k <= cons.len() && #[trigger] relaxed_by(vars, cons, mask(k), rs) && (ids_are_positions(vars) ==> forall|k2: int|
                    0 <= k2 < k ==> !#[trigger] solvable_kept(vars, cons, mask(k2)));
            if k > 0 {
                assert(!solvable_kept(vars, cons, mask(0)));
            }
            assert(k == 0);
            lemma_violated_are_relaxed(vars, cons, m0, rs);
        },
        None => {
            assert(!solvable_kept(vars, cons, mask(0)));
        },
    }
}

proof fn lemma_reduced_one(s: u64, f1: u64, f2: u64)
    ensures
        reduced(s, f1) * (STRENGTH_SCALE as int) <= (s as int) * (f1 as int),
        reduced(s, f1) >= 0,
        f1 <= STRENGTH_SCALE ==> reduced(s, f1) * (STRENGTH_SCALE as int) + (STRENGTH_SCALE as int - 1) >= (s as int) * (f1 as int),
        f1 == STRENGTH_SCALE ==> reduced(s, f1) == s,
        f1 <= f2 ==> reduced(s, f1) <= reduced(s, f2),
{
    let p1 = (s as int) * (f1 as int);
    let p2 = (s as int) * (f2 as int);
    assert(p1 >= 0) by (nonlinear_arith)
        requires
            p1 == (s as int) * (f1 as int),
            s >= 0,
            f1 >= 0,
    ;
    assert(f1 <= f2 ==> p1 <= p2) by (nonlinear_arith)
        requires
            p1 == (s as int) * (f1 as int),
            p2 == (s as int) * (f2 as int),
            s >= 0,
    ;
    assert(f1 <= STRENGTH_SCALE ==> p1 <= (s as int) * 1000) by (nonlinear_arith)
        requires
            p1 == (s as int) * (f1 as int),
            s >= 0,
            STRENGTH_SCALE == 1000,
    ;
    assert(f1 == STRENGTH_SCALE ==> p1 == (s as int) * 1000);
}

proof fn lemma_total_reduced_bounds<R: Predicate>(cons: Seq<Constraint<R>>, f1: u64, f2: u64)
    ensures
        total_reduced(cons, f1) * (STRENGTH_SCALE as int) <= total_strength(cons) * (f1 as int),
        f1 <= STRENGTH_SCALE ==> total_reduced(cons, f1) * (STRENGTH_SCALE as int) + cons.len() * (STRENGTH_SCALE as int - 1)
            >= total_strength(cons) * (f1 as int),
        f1 == STRENGTH_SCALE ==> total_reduced(cons, f1) == total_strength(cons),
        f1 <= f2 ==> total_reduced(cons, f1) <= total_reduced(cons, f2),
    decreases cons.len(),
{
    if cons.len() > 0 {
        let init = cons.drop_last();
        let s = cons.last().strength;
        lemma_total_reduced_bounds(init, f1, f2);
        lemma_reduced_one(s, f1, f2);
        let ti = total_strength(init);
        assert(total_strength(cons) * (f1 as int) == ti * (f1 as int) + (s as int) * (f1 as int)) by (nonlinear_arith)
            requires
                total_strength(cons) == ti + s,
        ;
        assert(total_reduced(cons, f1) * (STRENGTH_SCALE as int) == total_reduced(init, f1) * (STRENGTH_SCALE as int) + reduced(s, f1)
            * (STRENGTH_SCALE as int)) by (nonlinear_arith)
            requires
                total_reduced(cons, f1) == total_reduced(init, f1) + reduced(s, f1),
        ;
        assert(cons.len() * (STRENGTH_SCALE as int - 1) == init.len() * (STRENGTH_SCALE as int - 1) + (STRENGTH_SCALE as int - 1))
            by (nonlinear_arith)
            requires
                cons.len() == init.len() + 1,
        ;
    }
}

/// Reducing strengths by a factor `f` scales each strength by
/// `f / STRENGTH_SCALE`, rounded down: the weight reported is at most the
/// total strength scaled by `f`; for `f` at most `STRENGTH_SCALE` it falls
/// short of that by less than one unit per constraint; with
/// `f == STRENGTH_SCALE` it is the total strength itself; and all of it
/// counts as satisfied.
pub proof fn lemma_reduce_strength_weights<R: Predicate>(
    vars: Seq<Variable>,
    cons: Seq<Constraint<R>>,
    f: u64,
    rs: RelaxedSolution,
)
    requires
        relaxed_outcome(vars, cons, RelaxationStrategy::ReduceStrength(f), Some(rs)),
    ensures
        rs.total_weight * STRENGTH_SCALE <= total_strength(cons) * f,
        f <= STRENGTH_SCALE ==> rs.total_weight * STRENGTH_SCALE + cons.len() * (STRENGTH_SCALE - 1) >= total_strength(cons) * f,
        f == STRENGTH_SCALE ==> rs.total_weight == total_strength(cons),
        rs.satisfied_weight == rs.total_weight,
        rs.violated@.len() == 0,
{
    lemma_total_reduced_bounds(cons, f, f);
}

/// A larger reduction factor never reports less weight.
pub proof fn lemma_reduce_strength_monotone<R: Predicate>(
    vars: Seq<Variable>,
    cons: Seq<Constraint<R>>,
    f1: u64,
    rs1: RelaxedSolution,
    f2: u64,
    rs2: RelaxedSolution,
)
    requires
        relaxed_outcome(vars, cons, RelaxationStrategy::ReduceStrength(f1), Some(rs1)),
        relaxed_outcome(vars, cons, RelaxationStrategy::ReduceStrength(f2), Some(rs2)),
        f1 <= f2,
    ensures
        rs1.total_weight <= rs2.total_weight,
{
    lemma_total_reduced_bounds(cons, f1, f2);
}

} // verus!
