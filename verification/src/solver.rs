//! Backtracking solver with constraint propagation.

use vstd::prelude::*;
use crate::constraint::{Constraint, Predicate, Variable};
use crate::domains::{doms, lemma_filter_ext, lemma_filter_membership, same_shape};
use crate::dynamics::{
    fc_applies, fc_domain, fc_keeps, fc_stage, forward_check, lemma_forward_check_keeps_solutions, other_of,
    values_at, vars_within,
};

verus! {

/// Result of solving a constraint satisfaction problem.
#[derive(Debug, Clone)]
pub struct Solution {
    /// Variable assignments: (variable_id, value).
    pub assignments: Vec<(usize, i64)>,
    /// Number of backtracks performed.
    pub backtracks: usize,
}

/// A backtracking CSP solver with optional constraint propagation.
#[derive(Debug)]
pub struct Solver {
    /// Whether to use forward checking during search.
    pub use_forward_check: bool,
    /// Maximum backtracks before giving up (0 = unlimited).
    pub max_backtracks: usize,
}

// ---------------------------------------------------------------------------
// The model: variables are found by id, the first one with that id.
// ---------------------------------------------------------------------------

/// The ids of the variables, in order.
pub open spec fn var_ids(vars: Seq<Variable>) -> Seq<usize> {
    Seq::new(vars.len(), |i: int| vars[i].id)
}

/// The ids of an assignment list, in order.
pub open spec fn pair_ids(pairs: Seq<(usize, i64)>) -> Seq<usize> {
    Seq::new(pairs.len(), |i: int| pairs[i].0)
}

/// The first index at or after `start` that holds `id`, or -1.
pub open spec fn index_of(ids: Seq<usize>, id: usize, start: int) -> int
    decreases ids.len() - start,
{
    if start < 0 || start >= ids.len() {
        -1
    } else if ids[start] == id {
        start
    } else {
        index_of(ids, id, start + 1)
    }
}

/// The value of the first variable with this id, if there is one and it is assigned.
pub open spec fn lookup_value(vars: Seq<Variable>, id: usize) -> Option<i64> {
    let i = index_of(var_ids(vars), id, 0);
    if i < 0 {
        None
    } else {
        vars[i].value
    }
}

/// The values (where known) of the variables of `c`, found by id.
pub open spec fn lookups<R: Predicate>(vars: Seq<Variable>, c: Constraint<R>) -> Seq<Option<i64>> {
    c.variables@.map_values(|vid: usize| lookup_value(vars, vid))
}

/// Every entry is known.
pub open spec fn all_known(s: Seq<Option<i64>>) -> bool {
    forall|i: int| 0 <= i < s.len() ==> (#[trigger] s[i]) is Some
}

/// The known entries.
pub open spec fn known_values(s: Seq<Option<i64>>) -> Seq<i64> {
    s.map_values(|o: Option<i64>| o.unwrap())
}

/// The checks made after variable `x` (a position) got its value: a
/// constraint over `x`'s id whose variables are all assigned must hold; a
/// constraint of arity two must hold of `x`'s value and the other variable's,
/// when that is assigned.
pub open spec fn choice_ok<R: Predicate>(vars: Seq<Variable>, c: Constraint<R>, x: int) -> bool {
    let id = vars[x].id;
    let vs = c.variables@;
    vs.contains(id) ==> if all_known(lookups(vars, c)) {
        c.satisfied_by(known_values(lookups(vars, c)))
    } else if vs.len() == 2 {
        let other = if vs[0] == id { vs[1] } else { vs[0] };
        match lookup_value(vars, other) {
            Some(ov) => c.satisfied_by(
                if vs[0] == id {
                    seq![vars[x].value.unwrap(), ov]
                } else {
                    seq![ov, vars[x].value.unwrap()]
                },
            ),
            None => true,
        }
    } else {
        true
    }
}

/// Every constraint holds of the values of its variables, found by id.
pub open spec fn all_satisfied<R: Predicate>(vars: Seq<Variable>, cons: Seq<Constraint<R>>) -> bool {
    forall|j: int| 0 <= j < cons.len() ==> #[trigger] cons[j].satisfied_by(known_values(lookups(vars, cons[j])))
}

/// The value given to `id` by the first pair with that id.
pub open spec fn value_for(pairs: Seq<(usize, i64)>, id: usize) -> i64 {
    pairs[index_of(pair_ids(pairs), id, 0)].1
}

/// The values an assignment list gives the variables of `c`.
pub open spec fn values_in<R: Predicate>(c: Constraint<R>, pairs: Seq<(usize, i64)>) -> Seq<i64> {
    c.variables@.map_values(|vid: usize| value_for(pairs, vid))
}

/// The assignment list satisfies every constraint.
pub open spec fn satisfies<R: Predicate>(cons: Seq<Constraint<R>>, pairs: Seq<(usize, i64)>) -> bool {
    forall|j: int| 0 <= j < cons.len() ==> #[trigger] cons[j].satisfied_by(values_in(cons[j], pairs))
}

/// `tau` keeps the value of every assigned variable and takes the value of
/// every unassigned one from its domain.
pub open spec fn extends(vars: Seq<Variable>, tau: Seq<i64>) -> bool {
    &&& tau.len() == vars.len()
    &&& forall|i: int|
        0 <= i < vars.len() ==> match #[trigger] vars[i].value {
            Some(v) => tau[i] == v,
            None => vars[i].domain@.contains(tau[i]),
        }
}

/// The assignment list that gives each variable its value in `tau`.
pub open spec fn completion(vars: Seq<Variable>, tau: Seq<i64>) -> Seq<(usize, i64)> {
    Seq::new(vars.len(), |i: int| (vars[i].id, tau[i]))
}

/// Some completion of the current assignment satisfies every constraint.
pub open spec fn has_solution<R: Predicate>(vars: Seq<Variable>, cons: Seq<Constraint<R>>) -> bool {
    exists|tau: Seq<i64>| extends(vars, tau) && #[trigger] satisfies(cons, completion(vars, tau))
}

/// The values of an assignment list.
pub open spec fn pair_values(pairs: Seq<(usize, i64)>) -> Seq<i64> {
    Seq::new(pairs.len(), |i: int| pairs[i].1)
}

/// No two variables share an id.
pub open spec fn distinct_ids(vars: Seq<Variable>) -> bool {
    forall|i: int, j: int| 0 <= i < vars.len() && 0 <= j < vars.len() && i != j ==> vars[i].id != vars[j].id
}

/// Every variable's id is its position.
pub open spec fn ids_are_positions(vars: Seq<Variable>) -> bool {
    forall|i: int| 0 <= i < vars.len() ==> (#[trigger] vars[i]).id == i
}

/// Every id that a constraint names belongs to some variable, and every
/// relation can be checked on its constraint's values.
pub open spec fn well_formed_problem<R: Predicate>(vars: Seq<Variable>, cons: Seq<Constraint<R>>) -> bool {
    &&& forall|j: int| 0 <= j < cons.len() ==> (#[trigger] cons[j]).relation.min_len() <= cons[j].variables@.len()
    &&& forall|j: int, q: int|
        0 <= j < cons.len() && 0 <= q < cons[j].variables@.len() ==> index_of(var_ids(vars), #[trigger] cons[j].variables@[q], 0) >= 0
}

/// Forward checking can find the other variable of every constraint of
/// arity two from either of its variables that names a position.
pub open spec fn fc_safe<R: Predicate>(cons: Seq<Constraint<R>>, n: nat) -> bool {
    forall|j: int|
        0 <= j < cons.len() && (#[trigger] cons[j]).variables@.len() == 2 ==> ((cons[j].variables@[0] as int) < n
            <==> (cons[j].variables@[1] as int) < n)
}

/// With ids equal to positions, every id a constraint names is a position.
proof fn lemma_positions_within<R: Predicate>(vars: Seq<Variable>, cons: Seq<Constraint<R>>)
    requires
        ids_are_positions(vars),
        well_formed_problem(vars, cons),
    ensures
        vars_within(cons, vars.len()),
{
    assert forall|j: int, q: int| 0 <= j < cons.len() && 0 <= q < cons[j].variables@.len() implies (#[trigger] cons[j].variables@[q]
        as int) < vars.len() by {
        let id = cons[j].variables@[q];
        lemma_index_of(var_ids(vars), id, 0);
        let k = index_of(var_ids(vars), id, 0);
        assert(var_ids(vars)[k] == vars[k].id);
        assert(vars[k].id == k);
    }
}

/// `r` is the variable the minimum-remaining-values heuristic picks: the
/// first unassigned variable with the smallest domain, or 0 when every
/// variable is assigned.
pub open spec fn is_mrv(vars: Seq<Variable>, r: int) -> bool {
    if exists|i: int| 0 <= i < vars.len() && (#[trigger] vars[i]).value is None {
        &&& 0 <= r < vars.len()
        &&& vars[r].value is None
        &&& forall|i: int| 0 <= i < vars.len() && (#[trigger] vars[i]).value is None ==> vars[r].domain@.len() <= vars[i].domain@.len()
        &&& forall|i: int| 0 <= i < r && (#[trigger] vars[i]).value is None ==> vars[r].domain@.len() < vars[i].domain@.len()
    } else {
        r == 0
    }
}

/// The variable the minimum-remaining-values heuristic picks.
pub open spec fn mrv(vars: Seq<Variable>) -> int {
    choose|r: int| is_mrv(vars, r)
}

/// The number of unassigned variables.
pub open spec fn num_unassigned(vars: Seq<Variable>) -> nat
    decreases vars.len(),
{
    if vars.len() == 0 {
        0
    } else {
        num_unassigned(vars.drop_last()) + if vars.last().value is None { 1nat } else { 0nat }
    }
}

// ---------------------------------------------------------------------------
// Facts about the model.
// ---------------------------------------------------------------------------

proof fn lemma_index_of(ids: Seq<usize>, id: usize, start: int)
    requires
        0 <= start,
    ensures
        index_of(ids, id, start) >= 0 ==> start <= index_of(ids, id, start) < ids.len() && ids[index_of(ids, id, start)] == id
            && forall|j: int| start <= j < index_of(ids, id, start) ==> ids[j] != id,
        index_of(ids, id, start) < 0 ==> forall|j: int| start <= j < ids.len() ==> ids[j] != id,
        index_of(ids, id, start) >= -1,
    decreases ids.len() - start,
{
    if start < ids.len() && ids[start] != id {
        lemma_index_of(ids, id, start + 1);
    }
}

proof fn lemma_index_of_distinct(vars: Seq<Variable>, i: int)
    requires
        distinct_ids(vars),
        0 <= i < vars.len(),
    ensures
        index_of(var_ids(vars), vars[i].id, 0) == i,
{
    lemma_index_of(var_ids(vars), vars[i].id, 0);
    let r = index_of(var_ids(vars), vars[i].id, 0);
    if r != i {
        assert(var_ids(vars)[i] == vars[i].id);
        assert(r < i);
        assert(vars[r].id == vars[i].id);
    }
}

proof fn lemma_index_of_position(vars: Seq<Variable>, v: usize)
    requires
        ids_are_positions(vars),
        (v as int) < vars.len(),
    ensures
        index_of(var_ids(vars), v, 0) == v,
{
    assert forall|i: int, j: int| 0 <= i < vars.len() && 0 <= j < vars.len() && i != j implies vars[i].id != vars[j].id by {
        assert(vars[i].id == i);
        assert(vars[j].id == j);
    }
    assert(vars[v as int].id == v);
    lemma_index_of_distinct(vars, v as int);
}

proof fn lemma_mrv_unique(vars: Seq<Variable>, r: int)
    requires
        is_mrv(vars, r),
    ensures
        mrv(vars) == r,
{
    let m = mrv(vars);
    assert(is_mrv(vars, m));
    if exists|i: int| 0 <= i < vars.len() && (#[trigger] vars[i]).value is None {
        if m < r {
            assert(vars[r].domain@.len() < vars[m].domain@.len());
        } else if r < m {
            assert(vars[m].domain@.len() < vars[r].domain@.len());
        }
    }
}

proof fn lemma_num_unassigned_update(vars: Seq<Variable>, x: int, v: Variable)
    requires
        0 <= x < vars.len(),
    ensures
        num_unassigned(vars.update(x, v)) + (if vars[x].value is None { 1int } else { 0int })
            == num_unassigned(vars) + (if v.value is None { 1int } else { 0int }),
    decreases vars.len(),
{
    let u = vars.update(x, v);
    if x == vars.len() - 1 {
        assert(u.drop_last() =~= vars.drop_last());
    } else {
        lemma_num_unassigned_update(vars.drop_last(), x, v);
        assert(u.drop_last() =~= vars.drop_last().update(x, v));
    }
}

proof fn lemma_num_unassigned_same(a: Seq<Variable>, b: Seq<Variable>)
    requires
        same_shape(a, b),
    ensures
        num_unassigned(a) == num_unassigned(b),
    decreases a.len(),
{
    if a.len() > 0 {
        assert(same_shape(a.drop_last(), b.drop_last())) by {
            assert forall|i: int| 0 <= i < a.drop_last().len() implies (#[trigger] a.drop_last()[i]).id == b.drop_last()[i].id
                && a.drop_last()[i].value == b.drop_last()[i].value by {
                assert(a[i].id == b[i].id);
            }
        }
        lemma_num_unassigned_same(a.drop_last(), b.drop_last());
        assert(a[a.len() - 1].id == b[b.len() - 1].id);
    }
}

proof fn lemma_none_unassigned(vars: Seq<Variable>)
    requires
        num_unassigned(vars) == 0,
    ensures
        forall|i: int| 0 <= i < vars.len() ==> (#[trigger] vars[i]).value is Some,
    decreases vars.len(),
{
    if vars.len() > 0 {
        lemma_none_unassigned(vars.drop_last());
        assert forall|i: int| 0 <= i < vars.len() implies (#[trigger] vars[i]).value is Some by {
            if i < vars.len() - 1 {
                assert(vars.drop_last()[i] == vars[i]);
            }
        }
    }
}

proof fn lemma_some_unassigned(vars: Seq<Variable>, i: int)
    requires
        0 <= i < vars.len(),
        vars[i].value is None,
    ensures
        num_unassigned(vars) > 0,
    decreases vars.len(),
{
    if i < vars.len() - 1 {
        lemma_some_unassigned(vars.drop_last(), i);
    }
}

/// The values of fully assigned variables.
pub open spec fn assigned_values(vars: Seq<Variable>) -> Seq<i64> {
    Seq::new(vars.len(), |i: int| vars[i].value.unwrap())
}

/// The assignment list of fully assigned variables.
pub open spec fn pairs_of(vars: Seq<Variable>) -> Seq<(usize, i64)> {
    Seq::new(vars.len(), |i: int| (vars[i].id, vars[i].value.unwrap()))
}

/// Every variable is assigned.
pub open spec fn fully_assigned(vars: Seq<Variable>) -> bool {
    forall|i: int| 0 <= i < vars.len() ==> (#[trigger] vars[i]).value is Some
}

/// The search state `v` stays within the problem `orig`: same variables,
/// given values kept, other values and domains drawn from the original domains.
pub open spec fn within(orig: Seq<Variable>, v: Seq<Variable>) -> bool {
    &&& orig.len() == v.len()
    &&& forall|i: int|
        0 <= i < orig.len() ==> {
            &&& (#[trigger] v[i]).id == orig[i].id
            &&& orig[i].value is Some ==> v[i].value == orig[i].value
            &&& orig[i].value is None ==> (forall|w: i64| v[i].domain@.contains(w) ==> orig[i].domain@.contains(w))
                && (v[i].value matches Some(val) ==> orig[i].domain@.contains(val))
        }
}

proof fn lemma_same_state(a: Seq<Variable>, b: Seq<Variable>, tau: Seq<i64>)
    requires
        same_shape(a, b),
        doms(a) == doms(b),
    ensures
        var_ids(a) == var_ids(b),
        extends(a, tau) == extends(b, tau),
        completion(a, tau) == completion(b, tau),
{
    assert(var_ids(a) =~= var_ids(b));
    assert(completion(a, tau) =~= completion(b, tau));
    assert forall|i: int| 0 <= i < a.len() implies a[i].domain@ == b[i].domain@ by {
        assert(doms(a)[i] == doms(b)[i]);
    }
}

proof fn lemma_same_state_solution<R: Predicate>(a: Seq<Variable>, b: Seq<Variable>, cons: Seq<Constraint<R>>)
    requires
        same_shape(a, b),
        doms(a) == doms(b),
    ensures
        has_solution(a, cons) == has_solution(b, cons),
        var_ids(a) == var_ids(b),
{
    assert(var_ids(a) =~= var_ids(b));
    if has_solution(a, cons) {
        let tau = choose|tau: Seq<i64>| extends(a, tau) && #[trigger] satisfies(cons, completion(a, tau));
        lemma_same_state(a, b, tau);
    }
    if has_solution(b, cons) {
        let tau = choose|tau: Seq<i64>| extends(b, tau) && #[trigger] satisfies(cons, completion(b, tau));
        lemma_same_state(a, b, tau);
    }
}

/// The value that a completion gives an id is the one at the id's first position.
proof fn lemma_value_for_completion(vars: Seq<Variable>, tau: Seq<i64>, vid: usize)
    requires
        tau.len() == vars.len(),
        index_of(var_ids(vars), vid, 0) >= 0,
    ensures
        value_for(completion(vars, tau), vid) == tau[index_of(var_ids(vars), vid, 0)],
{
    assert(pair_ids(completion(vars, tau)) =~= var_ids(vars));
    lemma_index_of(var_ids(vars), vid, 0);
}

/// For fully assigned variables, the constraints hold of the values found
/// by id exactly when the assignment list satisfies them.
proof fn lemma_leaf<R: Predicate>(vars: Seq<Variable>, cons: Seq<Constraint<R>>)
    requires
        fully_assigned(vars),
        well_formed_problem(vars, cons),
    ensures
        extends(vars, assigned_values(vars)),
        completion(vars, assigned_values(vars)) == pairs_of(vars),
        satisfies(cons, pairs_of(vars)) == all_satisfied(vars, cons),
        forall|tau: Seq<i64>| #[trigger] extends(vars, tau) ==> tau == assigned_values(vars),
{
    let tau = assigned_values(vars);
    assert(completion(vars, tau) =~= pairs_of(vars));
    assert forall|j: int| 0 <= j < cons.len() implies values_in(cons[j], pairs_of(vars)) == known_values(lookups(vars, cons[j])) by {
        let c = cons[j];
        assert forall|q: int| 0 <= q < c.variables@.len() implies values_in(c, pairs_of(vars))[q] == known_values(
            lookups(vars, c),
        )[q] by {
            let vid = c.variables@[q];
            assert(index_of(var_ids(vars), cons[j].variables@[q], 0) >= 0);
            lemma_value_for_completion(vars, tau, vid);
            lemma_index_of(var_ids(vars), vid, 0);
        }
        assert(values_in(c, pairs_of(vars)) =~= known_values(lookups(vars, c)));
    }
    assert forall|tau2: Seq<i64>| #[trigger] extends(vars, tau2) implies tau2 == tau by {
        assert forall|i: int| 0 <= i < vars.len() implies tau2[i] == tau[i] by {
            assert(vars[i].value is Some);
        }
        assert(tau2 =~= tau);
    }
}

/// A choice that fails the checks of `is_consistent` has no completion that
/// satisfies the constraints (when ids are distinct).
proof fn lemma_choice_ok_needed<R: Predicate>(vars: Seq<Variable>, cons: Seq<Constraint<R>>, x: int, tau: Seq<i64>, j: int)
    requires
        distinct_ids(vars),
        well_formed_problem(vars, cons),
        0 <= x < vars.len(),
        vars[x].value is Some,
        extends(vars, tau),
        satisfies(cons, completion(vars, tau)),
        0 <= j < cons.len(),
    ensures
        choice_ok(vars, cons[j], x),
{
    let c = cons[j];
    let vs = c.variables@;
    let pairs = completion(vars, tau);
    assert(c.satisfied_by(values_in(c, pairs)));
    // Known values agree with tau.
    assert forall|q: int| 0 <= q < vs.len() && (#[trigger] lookups(vars, c)[q]) is Some implies lookups(vars, c)[q].unwrap()
        == values_in(c, pairs)[q] by {
        assert(index_of(var_ids(vars), cons[j].variables@[q], 0) >= 0);
        lemma_value_for_completion(vars, tau, vs[q]);
        lemma_index_of(var_ids(vars), vs[q], 0);
        let k = index_of(var_ids(vars), vs[q], 0);
        assert(vars[k].value is Some);
    }
    if vs.contains(vars[x].id) {
        if all_known(lookups(vars, c)) {
            assert(known_values(lookups(vars, c)) =~= values_in(c, pairs));
        } else if vs.len() == 2 {
            let id = vars[x].id;
            lemma_index_of_distinct(vars, x);
            lemma_value_for_completion(vars, tau, id);
            assert(value_for(pairs, id) == tau[x]);
            assert(tau[x] == vars[x].value.unwrap());
            let k = choose|k: int| 0 <= k < vs.len() && vs[k] == id;
            if vs[0] == id {
                assert(lookups(vars, c)[1] == lookup_value(vars, vs[1]));
                if lookup_value(vars, vs[1]) is Some {
                    assert(values_in(c, pairs)[0] == value_for(pairs, vs[0]));
                    assert(seq![vars[x].value.unwrap(), lookup_value(vars, vs[1]).unwrap()] =~= values_in(c, pairs));
                }
            } else {
                assert(vs[1] == id);
                assert(lookups(vars, c)[0] == lookup_value(vars, vs[0]));
                if lookup_value(vars, vs[0]) is Some {
                    assert(values_in(c, pairs)[1] == value_for(pairs, vs[1]));
                    assert(seq![lookup_value(vars, vs[0]).unwrap(), vars[x].value.unwrap()] =~= values_in(c, pairs));
                }
            }
        }
    }
}

/// With ids equal to positions, satisfying the constraints by id is
/// satisfying them position by position.
proof fn lemma_positional<R: Predicate>(vars: Seq<Variable>, cons: Seq<Constraint<R>>, tau: Seq<i64>)
    requires
        ids_are_positions(vars),
        vars_within(cons, vars.len()),
        tau.len() == vars.len(),
        satisfies(cons, completion(vars, tau)),
    ensures
        forall|j: int| 0 <= j < cons.len() ==> #[trigger] cons[j].satisfied_by(values_at(cons[j], tau)),
{
    assert forall|j: int| 0 <= j < cons.len() implies #[trigger] cons[j].satisfied_by(values_at(cons[j], tau)) by {
        let c = cons[j];
        assert(c.satisfied_by(values_in(c, completion(vars, tau))));
        assert forall|q: int| 0 <= q < c.variables@.len() implies values_in(c, completion(vars, tau))[q] == values_at(c, tau)[q] by {
            let vid = c.variables@[q];
            assert(cons[j].variables@[q] < vars.len());
            lemma_index_of_position(vars, vid);
            lemma_value_for_completion(vars, tau, vid);
        }
        assert(values_in(c, completion(vars, tau)) =~= values_at(c, tau));
    }
}


proof fn lemma_restored(s0: Seq<Variable>, v: Seq<Variable>, orig: Seq<Variable>)
    requires
        within(orig, s0),
        same_shape(s0, v),
        doms(v) == doms(s0),
    ensures
        within(orig, v),
        var_ids(v) == var_ids(s0),
{
    assert(var_ids(v) =~= var_ids(s0));
    assert forall|i: int| 0 <= i < s0.len() implies v[i].domain@ == s0[i].domain@ by {
        assert(doms(v)[i] == doms(s0)[i]);
    }
}

proof fn lemma_assign_state<R: Predicate>(
    s0: Seq<Variable>,
    before: Seq<Variable>,
    s1: Seq<Variable>,
    x: int,
    val: i64,
    orig: Seq<Variable>,
    cons: Seq<Constraint<R>>,
)
    requires
        same_shape(s0, before),
        doms(before) == doms(s0),
        0 <= x < s0.len(),
        s0[x].value is None,
        s0[x].domain@.contains(val),
        s1 == before.update(x, s1[x]),
        s1[x].id == before[x].id,
        s1[x].domain@ == before[x].domain@,
        s1[x].value == Some(val),
        within(orig, s0),
        well_formed_problem(s0, cons),
    ensures
        s1.len() == s0.len(),
        var_ids(s1) == var_ids(s0),
        within(orig, s1),
        well_formed_problem(s1, cons),
        num_unassigned(s1) < num_unassigned(s0),
        distinct_ids(s0) ==> distinct_ids(s1),
        ids_are_positions(s0) ==> ids_are_positions(s1),
        doms(s1) == doms(s0),
        forall|j: int| 0 <= j < s0.len() && j != x ==> (#[trigger] s1[j]).value == s0[j].value,
        forall|tau: Seq<i64>| extends(s0, tau) && tau[x] == val ==> #[trigger] extends(s1, tau) && completion(s1, tau) == completion(s0, tau),
{
    assert(var_ids(s1) =~= var_ids(s0)) by {
        assert forall|j: int| 0 <= j < s0.len() implies var_ids(s1)[j] == var_ids(s0)[j] by {
            assert(before[j].id == s0[j].id);
        }
    }
    assert forall|j: int| 0 <= j < s0.len() implies (#[trigger] s1[j]).domain@ == s0[j].domain@ by {
        assert(doms(before)[j] == doms(s0)[j]);
    }
    assert(doms(s1) =~= doms(s0));
    lemma_num_unassigned_same(s0, before);
    lemma_num_unassigned_update(before, x, s1[x]);
    assert(before[x].value == s0[x].value);
    assert forall|j: int| 0 <= j < s0.len() && j != x implies (#[trigger] s1[j]).value == s0[j].value by {
        assert(before[j].value == s0[j].value);
    }
    assert(within(orig, s1)) by {
        assert forall|i: int| 0 <= i < orig.len() implies (#[trigger] s1[i]).id == orig[i].id by {
            assert(var_ids(s1)[i] == var_ids(s0)[i]);
        }
    }
    assert forall|tau: Seq<i64>| extends(s0, tau) && tau[x] == val implies #[trigger] extends(s1, tau) && completion(s1, tau)
        == completion(s0, tau) by {
        assert(completion(s1, tau) =~= completion(s0, tau)) by {
            assert forall|j: int| 0 <= j < s0.len() implies completion(s1, tau)[j] == completion(s0, tau)[j] by {
                assert(var_ids(s1)[j] == var_ids(s0)[j]);
            }
        }
    }
    if distinct_ids(s0) {
        assert forall|i: int, j: int| 0 <= i < s1.len() && 0 <= j < s1.len() && i != j implies s1[i].id != s1[j].id by {
            assert(var_ids(s1)[i] == var_ids(s0)[i]);
            assert(var_ids(s1)[j] == var_ids(s0)[j]);
        }
    }
    if ids_are_positions(s0) {
        assert forall|i: int| 0 <= i < s1.len() implies (#[trigger] s1[i]).id == i by {
            assert(var_ids(s1)[i] == var_ids(s0)[i]);
            assert(s0[i].id == i);
        }
    }
}

proof fn lemma_forward_check_state<R: Predicate>(
    s1: Seq<Variable>,
    s2: Seq<Variable>,
    cons: Seq<Constraint<R>>,
    xu: usize,
    orig: Seq<Variable>,
    fc_ok: bool,
)
    requires
        same_shape(s1, s2),
        (xu as int) < s1.len(),
        s1[xu as int].value is Some,
        exists|k: int| #[trigger] fc_stage(s1, cons, xu, k, doms(s2)) && (fc_ok ==> k == cons.len()),
        fc_ok == forall|j: int|
            0 <= j < cons.len() && #[trigger] fc_applies(cons[j], xu, s1) ==> fc_domain(
                s1,
                cons,
                xu,
                cons.len() as int,
                other_of(cons[j], xu) as int,
            ).len() > 0,
        within(orig, s1),
        well_formed_problem(s1, cons),
        fc_safe(cons, s1.len()),
    ensures
        within(orig, s2),
        var_ids(s2) == var_ids(s1),
        well_formed_problem(s2, cons),
        num_unassigned(s2) == num_unassigned(s1),
        distinct_ids(s1) ==> distinct_ids(s2),
        ids_are_positions(s1) ==> ids_are_positions(s2),
        ids_are_positions(s1) ==> forall|tau: Seq<i64>|
            extends(s1, tau) && #[trigger] satisfies(cons, completion(s1, tau)) ==> fc_ok && extends(s2, tau) && completion(s2, tau)
                == completion(s1, tau),
{
    let k = choose|k: int| #[trigger] fc_stage(s1, cons, xu, k, doms(s2)) && (fc_ok ==> k == cons.len());
    assert(var_ids(s2) =~= var_ids(s1));
    lemma_num_unassigned_same(s1, s2);
    assert forall|i: int| 0 <= i < s1.len() implies (#[trigger] s2[i]).domain@ == fc_domain(s1, cons, xu, k, i) by {
        assert(doms(s2)[i] == fc_domain(s1, cons, xu, k, i));
    }
    assert(within(orig, s2)) by {
        assert forall|i: int| 0 <= i < orig.len() implies {
            &&& (#[trigger] s2[i]).id == orig[i].id
            &&& orig[i].value is Some ==> s2[i].value == orig[i].value
            &&& orig[i].value is None ==> (forall|w: i64| s2[i].domain@.contains(w) ==> orig[i].domain@.contains(w))
                && (s2[i].value matches Some(val) ==> orig[i].domain@.contains(val))
        } by {
            assert forall|w: i64| s2[i].domain@.contains(w) implies s1[i].domain@.contains(w) by {
                let a = s1[xu as int].value.unwrap();
                lemma_filter_membership(
                    s1[i].domain@,
                    |w: i64|
                        forall|j: int|
                            0 <= j < k && fc_applies(cons[j], xu, s1) && other_of(cons[j], xu) == i ==> #[trigger] crate::dynamics::fc_keeps(
                                cons[j],
                                xu,
                                s1[xu as int].value.unwrap(),
                                w,
                            ),
                    w,
                );
            }
        }
    }
    if distinct_ids(s1) {
        assert forall|i: int, j: int| 0 <= i < s2.len() && 0 <= j < s2.len() && i != j implies s2[i].id != s2[j].id by {
            assert(s1[i].id == s2[i].id);
            assert(s1[j].id == s2[j].id);
        }
    }
    if ids_are_positions(s1) {
        lemma_positions_within(s1, cons);
        assert forall|i: int| 0 <= i < s2.len() implies (#[trigger] s2[i]).id == i by {
            assert(s1[i].id == s2[i].id);
        }
        assert forall|tau: Seq<i64>| extends(s1, tau) && #[trigger] satisfies(cons, completion(s1, tau)) implies fc_ok && extends(
            s2,
            tau,
        ) && completion(s2, tau) == completion(s1, tau) by {
            lemma_positional(s1, cons, tau);
            assert(s1[xu as int].value == Some(tau[xu as int]));
            if !fc_ok {
                let j = choose|j: int|
                    0 <= j < cons.len() && #[trigger] fc_applies(cons[j], xu, s1) && !(fc_domain(
                        s1,
                        cons,
                        xu,
                        cons.len() as int,
                        other_of(cons[j], xu) as int,
                    ).len() > 0);
                let y = other_of(cons[j], xu) as int;
                assert(cons[j].variables@[0] < s1.len() && cons[j].variables@[1] < s1.len());
                assert(s1[y].value is None);
                assert(doms(s1)[y].contains(tau[y]));
                lemma_forward_check_keeps_solutions(s1, cons, xu, tau, y, cons.len() as int);
            } else {
                assert forall|i: int| 0 <= i < s2.len() implies match #[trigger] s2[i].value {
                    Some(v) => tau[i] == v,
                    None => s2[i].domain@.contains(tau[i]),
                } by {
                    assert(s1[i].value == s2[i].value);
                    if s1[i].value is None {
                        assert(doms(s1)[i].contains(tau[i]));
                        lemma_forward_check_keeps_solutions(s1, cons, xu, tau, i, k);
                    }
                }
                assert(completion(s2, tau) =~= completion(s1, tau));
            }
        }
    }
}


/// The variables with `x` given the value `v`.
pub open spec fn assign_value(vars: Seq<Variable>, x: int, v: i64) -> Seq<Variable> {
    vars.update(x, Variable { id: vars[x].id, domain: vars[x].domain, value: Some(v) })
}

/// The domain size of the variable the heuristic picks.
pub open spec fn mrv_domain_len(vars: Seq<Variable>) -> nat {
    let x = mrv(vars);
    if 0 <= x < vars.len() {
        vars[x].domain@.len()
    } else {
        0
    }
}

/// The number of solutions below the search state `vars` when the picked
/// variable takes the first `k` values of its domain: complete assignments
/// reached by giving each picked variable a value from its domain, in turn,
/// under which every constraint holds.  A value that occurs twice in a
/// domain is counted twice.
spec fn count_from<R: Predicate>(vars: Seq<Variable>, cons: Seq<Constraint<R>>, k: nat) -> nat
    decreases num_unassigned(vars), k,
{
    if fully_assigned(vars) {
        if all_satisfied(vars, cons) {
            1
        } else {
            0
        }
    } else {
        let x = mrv(vars);
        if k == 0 || !(0 <= x < vars.len()) || vars[x].value is Some || k > vars[x].domain@.len() {
            0
        } else {
            let next = assign_value(vars, x, vars[x].domain@[k - 1]);
            count_from(vars, cons, (k - 1) as nat) + if num_unassigned(next) < num_unassigned(vars) {
                count_from(next, cons, mrv_domain_len(next))
            } else {
                0
            }
        }
    }
}

/// The number of solutions below the search state `vars`.
spec fn num_solutions<R: Predicate>(vars: Seq<Variable>, cons: Seq<Constraint<R>>) -> nat {
    count_from(vars, cons, mrv_domain_len(vars))
}

/// The size of the domain at position `j` (0 past the end).
pub open spec fn dom_len(vars: Seq<Variable>, j: int) -> nat {
    if 0 <= j < vars.len() {
        vars[j].domain@.len()
    } else {
        0
    }
}

/// The number of ways to complete the assignment: each unassigned variable
/// at position `i` or later takes one value of its domain (the one at
/// position `i` one of the first `k`), and every constraint then holds. A
/// value that occurs twice in a domain is counted twice.
pub open spec fn ways<R: Predicate>(vars: Seq<Variable>, cons: Seq<Constraint<R>>, i: nat, k: nat) -> nat
    decreases vars.len() - i, k,
{
    if i >= vars.len() {
        if all_satisfied(vars, cons) {
            1
        } else {
            0
        }
    } else if vars[i as int].value is Some {
        ways(vars, cons, i + 1, dom_len(vars, i + 1int))
    } else if k == 0 || k > dom_len(vars, i as int) {
        0
    } else {
        ways(vars, cons, i, (k - 1) as nat) + ways(
            assign_value(vars, i as int, vars[i as int].domain@[k - 1]),
            cons,
            i + 1,
            dom_len(vars, i + 1int),
        )
    }
}

/// The number of solutions, counted directly: the ways to give every
/// unassigned variable a value of its domain under which every constraint
/// holds.
pub open spec fn solution_count<R: Predicate>(vars: Seq<Variable>, cons: Seq<Constraint<R>>) -> nat {
    ways(vars, cons, 0, dom_len(vars, 0))
}

/// The sum of `f(0)`, ..., `f(n - 1)`.
pub open spec fn sum_to(n: nat, f: spec_fn(int) -> nat) -> nat
    decreases n,
{
    if n == 0 {
        0
    } else {
        sum_to((n - 1) as nat, f) + f(n - 1)
    }
}

proof fn lemma_sum_ext(n: nat, f: spec_fn(int) -> nat, g: spec_fn(int) -> nat)
    requires
        forall|t: int| 0 <= t < n ==> #[trigger] f(t) == g(t),
    ensures
        sum_to(n, f) == sum_to(n, g),
    decreases n,
{
    if n > 0 {
        lemma_sum_ext((n - 1) as nat, f, g);
    }
}

proof fn lemma_sum_add(n: nat, f: spec_fn(int) -> nat, g: spec_fn(int) -> nat)
    ensures
        sum_to(n, |t: int| f(t) + g(t)) == sum_to(n, f) + sum_to(n, g),
    decreases n,
{
    if n > 0 {
        lemma_sum_add((n - 1) as nat, f, g);
    }
}

proof fn lemma_sum_swap(m: nat, n: nat, f: spec_fn(int, int) -> nat)
    ensures
        sum_to(m, |b: int| sum_to(n, |a: int| f(b, a))) == sum_to(n, |a: int| sum_to(m, |b: int| f(b, a))),
    decreases m,
{
    if m > 0 {
        lemma_sum_swap((m - 1) as nat, n, f);
        let g = |a: int| sum_to((m - 1) as nat, |b: int| f(b, a));
        let h = |a: int| f(m - 1, a);
        lemma_sum_add(n, g, h);
        let lhs = |a: int| g(a) + h(a);
        let rhs = |a: int| sum_to(m, |b: int| f(b, a));
        assert forall|a: int| 0 <= a < n implies #[trigger] lhs(a) == rhs(a) by {
        }
        lemma_sum_ext(n, lhs, rhs);
        let outer = |b: int| sum_to(n, |a: int| f(b, a));
        assert(outer(m - 1) == sum_to(n, h)) by {
            assert((|a: int| f(m - 1, a)) =~= h);
        }
        assert(sum_to(m, outer) == sum_to((m - 1) as nat, outer) + sum_to(n, h));
        assert(sum_to(n, lhs) == sum_to(n, g) + sum_to(n, h));
        assert(sum_to((m - 1) as nat, outer) == sum_to(n, g));
        assert(sum_to(m, outer) == sum_to(n, rhs));
    } else {
        lemma_sum_zero(n, |a: int| sum_to(m, |b: int| f(b, a)));
    }
}

proof fn lemma_sum_zero(n: nat, f: spec_fn(int) -> nat)
    requires
        forall|t: int| 0 <= t < n ==> #[trigger] f(t) == 0,
    ensures
        sum_to(n, f) == 0,
    decreases n,
{
    if n > 0 {
        lemma_sum_zero((n - 1) as nat, f);
    }
}

/// Assigning two different positions commutes.
proof fn lemma_assign_commute(vars: Seq<Variable>, x: int, a: i64, y: int, b: i64)
    requires
        0 <= x < vars.len(),
        0 <= y < vars.len(),
        x != y,
    ensures
        assign_value(assign_value(vars, x, a), y, b) == assign_value(assign_value(vars, y, b), x, a),
{
    assert(assign_value(assign_value(vars, x, a), y, b) =~= assign_value(assign_value(vars, y, b), x, a));
}

/// Branching at position `i` over its first `k` values.
proof fn lemma_ways_branch<R: Predicate>(vars: Seq<Variable>, cons: Seq<Constraint<R>>, i: nat, k: nat)
    requires
        i < vars.len(),
        vars[i as int].value is None,
        k <= dom_len(vars, i as int),
    ensures
        ways(vars, cons, i, k) == sum_to(
            k,
            |t: int| ways(assign_value(vars, i as int, vars[i as int].domain@[t]), cons, i + 1, dom_len(vars, i + 1int)),
        ),
    decreases k,
{
    if k > 0 {
        lemma_ways_branch(vars, cons, i, (k - 1) as nat);
    }
}

/// The ways are the same whichever unassigned variable at or after
/// position `i` one first branches on.
proof fn lemma_ways_exchange<R: Predicate>(vars: Seq<Variable>, cons: Seq<Constraint<R>>, i: nat, x: int)
    requires
        i <= x < vars.len(),
        vars[x].value is None,
    ensures
        ways(vars, cons, i, dom_len(vars, i as int)) == sum_to(
            dom_len(vars, x),
            |t: int| ways(assign_value(vars, x, vars[x].domain@[t]), cons, i, dom_len(vars, i as int)),
        ),
    decreases vars.len() - i,
{
    let kx = dom_len(vars, x);
    let dx = vars[x].domain@;
    if i == x {
        lemma_ways_branch(vars, cons, i, kx);
        assert forall|t: int| 0 <= t < kx implies #[trigger] ways(assign_value(vars, x, dx[t]), cons, i, dom_len(vars, i as int))
            == ways(assign_value(vars, x, dx[t]), cons, i + 1, dom_len(vars, i + 1int)) by {
            let nv = assign_value(vars, x, dx[t]);
            assert(nv[i as int].value is Some);
            assert(dom_len(nv, i + 1int) == dom_len(vars, i + 1int));
        }
        lemma_sum_ext(
            kx,
            |t: int| ways(assign_value(vars, i as int, vars[i as int].domain@[t]), cons, i + 1, dom_len(vars, i + 1int)),
            |t: int| ways(assign_value(vars, x, dx[t]), cons, i, dom_len(vars, i as int)),
        );
    } else if vars[i as int].value is Some {
        lemma_ways_exchange(vars, cons, i + 1, x);
        assert forall|t: int| 0 <= t < kx implies #[trigger] ways(assign_value(vars, x, dx[t]), cons, i, dom_len(vars, i as int))
            == ways(assign_value(vars, x, dx[t]), cons, i + 1, dom_len(vars, i + 1int)) by {
            let nv = assign_value(vars, x, dx[t]);
            assert(nv[i as int] == vars[i as int]);
            assert(dom_len(nv, i + 1int) == dom_len(vars, i + 1int));
        }
        lemma_sum_ext(
            kx,
            |t: int| ways(assign_value(vars, x, dx[t]), cons, i + 1, dom_len(vars, i + 1int)),
            |t: int| ways(assign_value(vars, x, dx[t]), cons, i, dom_len(vars, i as int)),
        );
    } else {
        let ki = dom_len(vars, i as int);
        let di = vars[i as int].domain@;
        // Branch on position i first, then on x below it.
        lemma_ways_branch(vars, cons, i, ki);
        let f = |b: int, a: int| ways(assign_value(assign_value(vars, i as int, di[b]), x, dx[a]), cons, i + 1, dom_len(vars, i + 1int));
        assert forall|b: int| 0 <= b < ki implies #[trigger] ways(assign_value(vars, i as int, di[b]), cons, i + 1, dom_len(vars, i + 1int))
            == sum_to(kx, |a: int| f(b, a)) by {
            let nv = assign_value(vars, i as int, di[b]);
            assert(nv[x] == vars[x]);
            assert(dom_len(nv, i + 1int) == dom_len(vars, i + 1int));
            assert(dom_len(nv, x) == kx);
            lemma_ways_exchange(nv, cons, i + 1, x);
            lemma_sum_ext(
                kx,
                |a: int| ways(assign_value(nv, x, nv[x].domain@[a]), cons, i + 1, dom_len(nv, i + 1int)),
                |a: int| f(b, a),
            );
        }
        lemma_sum_ext(
            ki,
            |t: int| ways(assign_value(vars, i as int, vars[i as int].domain@[t]), cons, i + 1, dom_len(vars, i + 1int)),
            |b: int| sum_to(kx, |a: int| f(b, a)),
        );
        lemma_sum_swap(ki, kx, f);
        // Then branch on position i inside each assignment of x.
        assert forall|a: int| 0 <= a < kx implies #[trigger] ways(assign_value(vars, x, dx[a]), cons, i, dom_len(vars, i as int))
            == sum_to(ki, |b: int| f(b, a)) by {
            let nv = assign_value(vars, x, dx[a]);
            assert(nv[i as int] == vars[i as int]);
            assert(dom_len(nv, i as int) == ki);
            assert(dom_len(nv, i + 1int) == dom_len(vars, i + 1int));
            lemma_ways_branch(nv, cons, i, ki);
            let lhs = |t: int| ways(assign_value(nv, i as int, nv[i as int].domain@[t]), cons, i + 1, dom_len(nv, i + 1int));
            let rhs = |b: int| f(b, a);
            assert forall|b: int| 0 <= b < ki implies #[trigger] lhs(b) == rhs(b) by {
                lemma_assign_commute(vars, i as int, di[b], x, dx[a]);
            }
            lemma_sum_ext(ki, lhs, rhs);
        }
        lemma_sum_ext(
            kx,
            |a: int| sum_to(ki, |b: int| f(b, a)),
            |t: int| ways(assign_value(vars, x, dx[t]), cons, i, dom_len(vars, i as int)),
        );
    }
}

proof fn lemma_ways_leaf<R: Predicate>(vars: Seq<Variable>, cons: Seq<Constraint<R>>, i: nat)
    requires
        fully_assigned(vars),
    ensures
        ways(vars, cons, i, dom_len(vars, i as int)) == if all_satisfied(vars, cons) {
            1nat
        } else {
            0nat
        },
    decreases vars.len() - i,
{
    if i < vars.len() {
        assert(vars[i as int].value is Some);
        lemma_ways_leaf(vars, cons, i + 1);
    }
}

proof fn lemma_count_branch<R: Predicate>(vars: Seq<Variable>, cons: Seq<Constraint<R>>, k: nat)
    requires
        !fully_assigned(vars),
        k <= mrv_domain_len(vars),
    ensures
        count_from(vars, cons, k) == sum_to(
            k,
            |t: int| {
                let next = assign_value(vars, mrv(vars), vars[mrv(vars)].domain@[t]);
                count_from(next, cons, mrv_domain_len(next))
            },
        ),
    decreases k,
{
    lemma_mrv(vars);
    let x = mrv(vars);
    let i = choose|i: int| 0 <= i < vars.len() && !(vars[i].value is Some);
    assert(vars[i].value is None);
    if k > 0 {
        lemma_count_branch(vars, cons, (k - 1) as nat);
        let next = assign_value(vars, x, vars[x].domain@[k - 1]);
        lemma_num_unassigned_update(vars, x, next[x]);
    }
}

/// The solutions the search counts are exactly the ways to give every
/// unassigned variable a value of its domain under which every constraint
/// holds.
proof fn lemma_num_solutions_is_solution_count<R: Predicate>(vars: Seq<Variable>, cons: Seq<Constraint<R>>)
    ensures
        num_solutions(vars, cons) == solution_count(vars, cons),
    decreases num_unassigned(vars),
{
    if fully_assigned(vars) {
        lemma_ways_leaf(vars, cons, 0);
    } else {
        lemma_mrv(vars);
        let x = mrv(vars);
        let i = choose|i: int| 0 <= i < vars.len() && !(vars[i].value is Some);
        assert(vars[i].value is None);
        let kx = dom_len(vars, x);
        let dx = vars[x].domain@;
        lemma_count_branch(vars, cons, kx);
        let cf = |t: int| {
            let next = assign_value(vars, mrv(vars), vars[mrv(vars)].domain@[t]);
            count_from(next, cons, mrv_domain_len(next))
        };
        let wf = |t: int| ways(assign_value(vars, x, dx[t]), cons, 0, dom_len(vars, 0));
        assert forall|t: int| 0 <= t < kx implies #[trigger] cf(t) == wf(t) by {
            let next = assign_value(vars, x, dx[t]);
            lemma_num_unassigned_update(vars, x, next[x]);
            lemma_num_solutions_is_solution_count(next, cons);
            assert(dom_len(next, 0) == dom_len(vars, 0));
        }
        lemma_sum_ext(kx, cf, wf);
        lemma_ways_exchange(vars, cons, 0, x);
    }
}

/// Two search states hold the same variables (ids and values) and domains.
pub open spec fn alike(a: Seq<Variable>, b: Seq<Variable>) -> bool {
    same_shape(a, b) && doms(a) == doms(b)
}

/// The value just given to the variable at position `x` passes the checks
/// of every constraint.
pub open spec fn checks_pass<R: Predicate>(s1: Seq<Variable>, cons: Seq<Constraint<R>>, x: int) -> bool {
    forall|j: int| 0 <= j < cons.len() ==> #[trigger] choice_ok(s1, cons[j], x)
}

/// Forward checking from position `x` leaves every domain it prunes non-empty.
pub open spec fn fc_passes<R: Predicate>(s1: Seq<Variable>, cons: Seq<Constraint<R>>, x: int) -> bool {
    forall|j: int|
        0 <= j < cons.len() && #[trigger] fc_applies(cons[j], x as usize, s1) ==> fc_domain(
            s1,
            cons,
            x as usize,
            cons.len() as int,
            other_of(cons[j], x as usize) as int,
        ).len() > 0
}

/// `s2` holds the variables of `s1` with the domains that forward checking
/// from position `x` leaves.
pub open spec fn fc_state<R: Predicate>(s1: Seq<Variable>, cons: Seq<Constraint<R>>, x: int, s2: Seq<Variable>) -> bool {
    &&& same_shape(s1, s2)
    &&& forall|y: int| 0 <= y < s1.len() ==> #[trigger] doms(s2)[y] == fc_domain(s1, cons, x as usize, cons.len() as int, y)
}

/// The state forward checking from position `x` leaves.
pub open spec fn fc_child<R: Predicate>(s1: Seq<Variable>, cons: Seq<Constraint<R>>, x: int) -> Seq<Variable> {
    if exists|s2: Seq<Variable>| #[trigger] fc_state(s1, cons, x, s2) {
        choose|s2: Seq<Variable>| #[trigger] fc_state(s1, cons, x, s2)
    } else {
        s1
    }
}

/// One more backtrack, counted in a `usize` that stops at its largest value.
pub open spec fn sat_inc(b: nat) -> nat {
    if b >= usize::MAX {
        usize::MAX as nat
    } else {
        b + 1
    }
}

/// The outcome of the depth-first search from state `s`, starting at the
/// `k`-th value of the variable with the fewest remaining values, with `bt`
/// backtracks counted so far and the given limit (0 for none): the solution
/// found, if any, and the backtracks counted at the end. Each value is
/// assigned, checked, forward checked (with `fc`), and searched below; a
/// value that leads to no solution counts one backtrack. The search gives up
/// once the limit is reached before a value is tried.
pub open spec fn search<R: Predicate>(s: Seq<Variable>, cons: Seq<Constraint<R>>, fc: bool, limit: nat, bt: nat, k: nat) -> (
    Option<Seq<(usize, i64)>>,
    nat,
)
    decreases num_unassigned(s), dom_len(s, mrv(s)) - k,
{
    if fully_assigned(s) {
        (
            if all_satisfied(s, cons) {
                Some(pairs_of(s))
            } else {
                None
            },
            bt,
        )
    } else if k >= dom_len(s, mrv(s)) {
        (None, bt)
    } else if limit > 0 && bt >= limit {
        (None, bt)
    } else {
        let x = mrv(s);
        let s1 = assign_value(s, x, s[x].domain@[k as int]);
        let below = if checks_pass(s1, cons, x) && (!fc || fc_passes(s1, cons, x)) {
            let child = if fc {
                fc_child(s1, cons, x)
            } else {
                s1
            };
            if num_unassigned(child) < num_unassigned(s) {
                search(child, cons, fc, limit, bt, 0)
            } else {
                (None, bt)
            }
        } else {
            (None, bt)
        };
        if below.0 is Some {
            below
        } else {
            search(s, cons, fc, limit, sat_inc(below.1), k + 1)
        }
    }
}

proof fn lemma_lookup_same(a: Seq<Variable>, b: Seq<Variable>, vid: usize)
    requires
        same_shape(a, b),
    ensures
        lookup_value(a, vid) == lookup_value(b, vid),
{
    assert(var_ids(a) =~= var_ids(b));
    lemma_index_of(var_ids(a), vid, 0);
}

proof fn lemma_checks_same<R: Predicate>(a: Seq<Variable>, b: Seq<Variable>, cons: Seq<Constraint<R>>, x: int)
    requires
        same_shape(a, b),
        0 <= x < a.len(),
    ensures
        checks_pass(a, cons, x) == checks_pass(b, cons, x),
{
    assert(a[x].id == b[x].id && a[x].value == b[x].value);
    assert forall|vid: usize| #[trigger] lookup_value(a, vid) == lookup_value(b, vid) by {
        lemma_lookup_same(a, b, vid);
    }
    assert forall|j: int|
        #![trigger choice_ok(a, cons[j], x)]
        #![trigger choice_ok(b, cons[j], x)]
        0 <= j < cons.len() implies choice_ok(a, cons[j], x) == choice_ok(b, cons[j], x) by {
        let c = cons[j];
        assert(lookups(a, c) =~= lookups(b, c));
    }
}

proof fn lemma_fc_same<R: Predicate>(a: Seq<Variable>, b: Seq<Variable>, cons: Seq<Constraint<R>>, x: int)
    requires
        alike(a, b),
        0 <= x < a.len(),
        a.len() <= usize::MAX,
        fc_safe(cons, a.len()),
    ensures
        fc_passes(a, cons, x) == fc_passes(b, cons, x),
        forall|y: int| 0 <= y < a.len() ==> #[trigger] fc_domain(a, cons, x as usize, cons.len() as int, y) == fc_domain(
            b,
            cons,
            x as usize,
            cons.len() as int,
            y,
        ),
        forall|s2: Seq<Variable>| #[trigger] fc_state(a, cons, x, s2) == fc_state(b, cons, x, s2),
{
    let n = cons.len() as int;
    let xu = x as usize;
    assert(xu as int == x);
    assert(a[x].value == b[x].value);
    assert forall|j: int|
        #![trigger fc_applies(cons[j], xu, a)]
        #![trigger fc_applies(cons[j], xu, b)]
        0 <= j < cons.len() implies fc_applies(cons[j], xu, a) == fc_applies(cons[j], xu, b) && (fc_applies(cons[j], xu, a)
            ==> 0 <= other_of(cons[j], xu) < a.len()) by {
        if cons[j].variables@.len() == 2 && cons[j].variables@.contains(xu) {
            let o = other_of(cons[j], xu) as int;
            let vs = cons[j].variables@;
            let k = choose|k: int| 0 <= k < vs.len() && vs[k] == xu;
            assert(k == 0 || k == 1);
            assert(0 <= o < a.len());
            assert(a[o].value == b[o].value);
        }
    }
    assert forall|y: int|
        #![trigger fc_domain(a, cons, xu, n, y)]
        #![trigger fc_domain(b, cons, xu, n, y)]
        0 <= y < a.len() implies fc_domain(a, cons, xu, n, y) == fc_domain(b, cons, xu, n, y) by {
        assert(doms(a)[y] == doms(b)[y]);
        let pa = |w: i64|
            forall|j: int|
                0 <= j < n && fc_applies(cons[j], xu, a) && other_of(cons[j], xu) == y ==> #[trigger] fc_keeps(
                    cons[j],
                    xu,
                    a[xu as int].value.unwrap(),
                    w,
                );
        let pb = |w: i64|
            forall|j: int|
                0 <= j < n && fc_applies(cons[j], xu, b) && other_of(cons[j], xu) == y ==> #[trigger] fc_keeps(
                    cons[j],
                    xu,
                    b[xu as int].value.unwrap(),
                    w,
                );
        assert(fc_domain(a, cons, xu, n, y) == a[y].domain@.filter(pa));
        assert(fc_domain(b, cons, xu, n, y) == b[y].domain@.filter(pb));
        assert forall|t: int| 0 <= t < a[y].domain@.len() implies pa(a[y].domain@[t]) == pb(a[y].domain@[t]) by {}
        lemma_filter_ext(a[y].domain@, pa, pb);
    }
    assert forall|s2: Seq<Variable>| #[trigger] fc_state(a, cons, x, s2) == fc_state(b, cons, x, s2) by {
        if same_shape(a, s2) {
            assert forall|i: int| 0 <= i < b.len() implies (#[trigger] b[i]).id == s2[i].id && b[i].value == s2[i].value by {
                assert(a[i].id == b[i].id);
            }
        }
        if same_shape(b, s2) {
            assert forall|i: int| 0 <= i < a.len() implies (#[trigger] a[i]).id == s2[i].id && a[i].value == s2[i].value by {
                assert(a[i].id == b[i].id);
            }
        }
    }
}

proof fn lemma_alike_assign(a: Seq<Variable>, b: Seq<Variable>, x: int, v: i64)
    requires
        alike(a, b),
        0 <= x < a.len(),
    ensures
        alike(assign_value(a, x, v), assign_value(b, x, v)),
{
    let a1 = assign_value(a, x, v);
    let b1 = assign_value(b, x, v);
    assert(doms(a)[x] == doms(b)[x]);
    assert(doms(a1) =~= doms(b1)) by {
        assert forall|i: int| 0 <= i < a.len() implies doms(a1)[i] == doms(b1)[i] by {
            assert(doms(a)[i] == doms(b)[i]);
        }
    }
}

proof fn lemma_fc_child_alike<R: Predicate>(a1: Seq<Variable>, b1: Seq<Variable>, cons: Seq<Constraint<R>>, x: int)
    requires
        alike(a1, b1),
        0 <= x < a1.len(),
        a1.len() <= usize::MAX,
        fc_safe(cons, a1.len()),
    ensures
        alike(fc_child(a1, cons, x), fc_child(b1, cons, x)),
        num_unassigned(fc_child(a1, cons, x)) == num_unassigned(a1),
        fc_child(a1, cons, x).len() == a1.len(),
{
    lemma_fc_same(a1, b1, cons, x);
    let ca = fc_child(a1, cons, x);
    let cb = fc_child(b1, cons, x);
    if exists|s2: Seq<Variable>| #[trigger] fc_state(a1, cons, x, s2) {
        let w = choose|s2: Seq<Variable>| #[trigger] fc_state(a1, cons, x, s2);
        assert(fc_state(b1, cons, x, w));
        assert(fc_state(a1, cons, x, ca));
        assert(fc_state(b1, cons, x, cb));
        assert(fc_state(a1, cons, x, cb));
        assert(same_shape(ca, cb)) by {
            assert forall|i: int| 0 <= i < ca.len() implies (#[trigger] ca[i]).id == cb[i].id && ca[i].value == cb[i].value by {
                assert(a1[i].id == ca[i].id);
                assert(a1[i].id == cb[i].id);
            }
        }
        assert(doms(ca) =~= doms(cb)) by {
            assert forall|y: int| 0 <= y < ca.len() implies doms(ca)[y] == doms(cb)[y] by {}
        }
        lemma_num_unassigned_same(a1, ca);
    } else {
        assert forall|s2: Seq<Variable>| !#[trigger] fc_state(b1, cons, x, s2) by {
            assert(fc_state(a1, cons, x, s2) == fc_state(b1, cons, x, s2));
        }
    }
}

proof fn lemma_fc_child_of<R: Predicate>(
    s1s: Seq<Variable>,
    s1: Seq<Variable>,
    s2: Seq<Variable>,
    cons: Seq<Constraint<R>>,
    x: int,
)
    requires
        alike(s1, s1s),
        0 <= x < s1.len(),
        s1.len() <= usize::MAX,
        fc_safe(cons, s1.len()),
        fc_state(s1, cons, x, s2),
    ensures
        alike(fc_child(s1s, cons, x), s2),
        num_unassigned(fc_child(s1s, cons, x)) == num_unassigned(s1s),
        fc_child(s1s, cons, x).len() == s1s.len(),
{
    lemma_fc_same(s1, s1s, cons, x);
    assert(fc_state(s1s, cons, x, s2));
    let c = fc_child(s1s, cons, x);
    assert(fc_state(s1s, cons, x, c));
    assert(same_shape(c, s2)) by {
        assert forall|i: int| 0 <= i < c.len() implies (#[trigger] c[i]).id == s2[i].id && c[i].value == s2[i].value by {
            assert(s1s[i].id == c[i].id);
            assert(s1s[i].id == s2[i].id);
        }
    }
    assert(doms(c) =~= doms(s2)) by {
        assert forall|y: int| 0 <= y < c.len() implies doms(c)[y] == doms(s2)[y] by {}
    }
    lemma_num_unassigned_same(s1s, c);
}

proof fn lemma_alike_sym(a: Seq<Variable>, b: Seq<Variable>)
    requires
        alike(a, b),
    ensures
        alike(b, a),
{
    assert forall|i: int| 0 <= i < b.len() implies (#[trigger] b[i]).id == a[i].id && b[i].value == a[i].value by {
        assert(a[i].id == b[i].id);
    }
}

/// One step of the search, unfolded.
proof fn lemma_search_step<R: Predicate>(s: Seq<Variable>, cons: Seq<Constraint<R>>, fc: bool, limit: nat, bt: nat, k: nat)
    requires
        !fully_assigned(s),
        k < dom_len(s, mrv(s)),
        !(limit > 0 && bt >= limit),
    ensures
        ({
            let x = mrv(s);
            let s1 = assign_value(s, x, s[x].domain@[k as int]);
            let child = if fc {
                fc_child(s1, cons, x)
            } else {
                s1
            };
            let passes = checks_pass(s1, cons, x) && (!fc || fc_passes(s1, cons, x)) && num_unassigned(child) < num_unassigned(s);
            search(s, cons, fc, limit, bt, k) == if passes {
                let below = search(child, cons, fc, limit, bt, 0);
                if below.0 is Some {
                    below
                } else {
                    search(s, cons, fc, limit, sat_inc(below.1), k + 1)
                }
            } else {
                search(s, cons, fc, limit, sat_inc(bt), k + 1)
            }
        }),
{
}

/// The backtrack count never goes down along the search, and stays within a `usize`.
proof fn lemma_search_mono<R: Predicate>(s: Seq<Variable>, cons: Seq<Constraint<R>>, fc: bool, limit: nat, bt: nat, k: nat)
    requires
        bt <= usize::MAX,
    ensures
        bt <= search(s, cons, fc, limit, bt, k).1 <= usize::MAX,
    decreases num_unassigned(s), dom_len(s, mrv(s)) - k,
{
    if !fully_assigned(s) && k < dom_len(s, mrv(s)) && !(limit > 0 && bt >= limit) {
        lemma_search_step(s, cons, fc, limit, bt, k);
        let x = mrv(s);
        let s1 = assign_value(s, x, s[x].domain@[k as int]);
        let child = if fc {
            fc_child(s1, cons, x)
        } else {
            s1
        };
        if checks_pass(s1, cons, x) && (!fc || fc_passes(s1, cons, x)) && num_unassigned(child) < num_unassigned(s) {
            lemma_search_mono(child, cons, fc, limit, bt, 0);
            let below = search(child, cons, fc, limit, bt, 0);
            if below.0 is None {
                lemma_search_mono(s, cons, fc, limit, sat_inc(below.1), k + 1);
            }
        } else {
            lemma_search_mono(s, cons, fc, limit, sat_inc(bt), k + 1);
        }
    }
}

/// Once the count has reached the limit, a search that still has a value
/// to try gives up.
proof fn lemma_search_stopped<R: Predicate>(s: Seq<Variable>, cons: Seq<Constraint<R>>, fc: bool, limit: nat, bt: nat, k: nat)
    requires
        limit > 0,
        bt >= limit,
        !fully_assigned(s),
    ensures
        search(s, cons, fc, limit, bt, k) == (None::<Seq<(usize, i64)>>, bt),
{
}

proof fn lemma_search_limit<R: Predicate>(s: Seq<Variable>, cons: Seq<Constraint<R>>, fc: bool, m: nat, bt: nat, k: nat)
    requires
        m > 0,
        bt <= usize::MAX,
    ensures
        search(s, cons, fc, 0, bt, k).1 < m ==> search(s, cons, fc, m, bt, k) == search(s, cons, fc, 0, bt, k),
        search(s, cons, fc, 0, bt, k).1 >= m && (bt < m || !fully_assigned(s)) ==> search(s, cons, fc, m, bt, k).0 is None
            && search(s, cons, fc, m, bt, k).1 >= m,
    decreases num_unassigned(s), dom_len(s, mrv(s)) - k,
{
    lemma_search_mono(s, cons, fc, 0, bt, k);
    if fully_assigned(s) || k >= dom_len(s, mrv(s)) {
    } else if bt >= m {
        lemma_search_stopped(s, cons, fc, m, bt, k);
    } else {
        lemma_search_step(s, cons, fc, 0, bt, k);
        lemma_search_step(s, cons, fc, m, bt, k);
        let x = mrv(s);
        let s1 = assign_value(s, x, s[x].domain@[k as int]);
        let child = if fc {
            fc_child(s1, cons, x)
        } else {
            s1
        };
        if checks_pass(s1, cons, x) && (!fc || fc_passes(s1, cons, x)) && num_unassigned(child) < num_unassigned(s) {
            lemma_search_limit(child, cons, fc, m, bt, 0);
            lemma_search_mono(child, cons, fc, 0, bt, 0);
            lemma_search_mono(child, cons, fc, m, bt, 0);
            let bu = search(child, cons, fc, 0, bt, 0);
            let bl = search(child, cons, fc, m, bt, 0);
            if bu.1 < m {
                if bu.0 is None {
                    lemma_search_limit(s, cons, fc, m, sat_inc(bu.1), k + 1);
                }
            } else {
                if bu.0 is None {
                    lemma_search_mono(s, cons, fc, 0, sat_inc(bu.1), k + 1);
                }
                if k + 1 < dom_len(s, mrv(s)) {
                    lemma_search_stopped(s, cons, fc, m, sat_inc(bl.1), k + 1);
                }
            }
        } else {
            lemma_search_limit(s, cons, fc, m, sat_inc(bt), k + 1);
        }
    }
}

/// With a limit of `max` backtracks, the search gives up only once `max`
/// values have failed: when the search without a limit ends having counted
/// fewer than `max` backtracks, the limited search ends the same way, with
/// the same solution (or none) and the same count; otherwise it finds no
/// solution and has counted at least `max` backtracks.
pub proof fn lemma_backtrack_limit<R: Predicate>(vars: Seq<Variable>, cons: Seq<Constraint<R>>, fc: bool, max: nat)
    requires
        max > 0,
    ensures
        search(vars, cons, fc, 0, 0, 0).1 < max ==> search(vars, cons, fc, max, 0, 0) == search(vars, cons, fc, 0, 0, 0),
        search(vars, cons, fc, 0, 0, 0).1 >= max ==> search(vars, cons, fc, max, 0, 0).0 is None && search(
            vars,
            cons,
            fc,
            max,
            0,
            0,
        ).1 >= max,
{
    lemma_search_limit(vars, cons, fc, max, 0, 0);
}

/// The number of values tried in the whole search tree below state `s`,
/// from the `k`-th value of the variable with the fewest remaining values
/// on: every value tried counts one, and a value that passes its checks
/// (and forward checking) adds the values tried below it.
pub open spec fn trials<R: Predicate>(s: Seq<Variable>, cons: Seq<Constraint<R>>, fc: bool, k: nat) -> nat
    decreases num_unassigned(s), dom_len(s, mrv(s)) - k,
{
    if fully_assigned(s) || k >= dom_len(s, mrv(s)) {
        0
    } else {
        let x = mrv(s);
        let s1 = assign_value(s, x, s[x].domain@[k as int]);
        let child = if fc {
            fc_child(s1, cons, x)
        } else {
            s1
        };
        let deeper = if checks_pass(s1, cons, x) && (!fc || fc_passes(s1, cons, x)) && num_unassigned(child) < num_unassigned(
            s,
        ) {
            trials(child, cons, fc, 0)
        } else {
            0
        };
        1 + deeper + trials(s, cons, fc, k + 1)
    }
}

/// A count that stops at the largest `usize`.
pub open spec fn capped(n: nat) -> nat {
    if n > usize::MAX {
        usize::MAX as nat
    } else {
        n
    }
}

proof fn lemma_search_trials<R: Predicate>(s: Seq<Variable>, cons: Seq<Constraint<R>>, fc: bool, bt: nat, k: nat)
    requires
        bt <= usize::MAX,
    ensures
        search(s, cons, fc, 0, bt, k).0 is None ==> search(s, cons, fc, 0, bt, k).1 == capped(bt + trials(s, cons, fc, k)),
    decreases num_unassigned(s), dom_len(s, mrv(s)) - k,
{
    if !fully_assigned(s) && k < dom_len(s, mrv(s)) {
        lemma_search_step(s, cons, fc, 0, bt, k);
        let x = mrv(s);
        let s1 = assign_value(s, x, s[x].domain@[k as int]);
        let child = if fc {
            fc_child(s1, cons, x)
        } else {
            s1
        };
        if checks_pass(s1, cons, x) && (!fc || fc_passes(s1, cons, x)) && num_unassigned(child) < num_unassigned(s) {
            lemma_search_trials(child, cons, fc, bt, 0);
            lemma_search_mono(child, cons, fc, 0, bt, 0);
            let below = search(child, cons, fc, 0, bt, 0);
            if below.0 is None {
                lemma_search_trials(s, cons, fc, sat_inc(below.1), k + 1);
            }
        } else {
            lemma_search_trials(s, cons, fc, sat_inc(bt), k + 1);
        }
    }
}

/// A search without a limit that finds no solution counts one backtrack for
/// every value it tried anywhere in the search tree: a value rejected by the
/// checks, one whose forward checking empties a domain, and one whose
/// deeper search failed alike (the count stops at the largest `usize`).
pub proof fn lemma_backtrack_count<R: Predicate>(vars: Seq<Variable>, cons: Seq<Constraint<R>>, fc: bool)
    ensures
        search(vars, cons, fc, 0, 0, 0).0 is None ==> search(vars, cons, fc, 0, 0, 0).1 == capped(trials(vars, cons, fc, 0)),
{
    lemma_search_trials(vars, cons, fc, 0, 0);
}

/// The state the search moves to when the variable with the fewest remaining
/// values takes its `k`-th value (after forward checking, with `fc`).
pub open spec fn step_child<R: Predicate>(s: Seq<Variable>, cons: Seq<Constraint<R>>, fc: bool, k: nat) -> Seq<Variable> {
    let x = mrv(s);
    let s1 = assign_value(s, x, s[x].domain@[k as int]);
    if fc {
        fc_child(s1, cons, x)
    } else {
        s1
    }
}

/// The `k`-th value of the picked variable passes its checks (and forward
/// checking, with `fc`), so the search goes below it.
pub open spec fn step_passes<R: Predicate>(s: Seq<Variable>, cons: Seq<Constraint<R>>, fc: bool, k: nat) -> bool {
    let x = mrv(s);
    let s1 = assign_value(s, x, s[x].domain@[k as int]);
    checks_pass(s1, cons, x) && (!fc || fc_passes(s1, cons, x)) && num_unassigned(step_child(s, cons, fc, k)) < num_unassigned(s)
}

/// The values tried for the values `k` up to (not including) `j` of the
/// picked variable: each counts one, with the values tried below it.
pub open spec fn trials_between<R: Predicate>(s: Seq<Variable>, cons: Seq<Constraint<R>>, fc: bool, k: nat, j: nat) -> nat
    decreases j - k,
{
    if k >= j {
        0
    } else {
        1 + (if step_passes(s, cons, fc, k) {
            trials(step_child(s, cons, fc, k), cons, fc, 0)
        } else {
            0
        }) + trials_between(s, cons, fc, k + 1, j)
    }
}

/// A search without a limit that finds a solution from a state with a
/// variable left to assign finds it below some value `j` of the picked
/// variable that passes its checks; on the way there it counts one backtrack
/// for each value tried before `j` together with every value tried below
/// it, and the search below `j` starts from that count.
pub proof fn lemma_backtrack_count_found<R: Predicate>(s: Seq<Variable>, cons: Seq<Constraint<R>>, fc: bool, bt: nat, k: nat)
    requires
        bt <= usize::MAX,
        !fully_assigned(s),
        search(s, cons, fc, 0, bt, k).0 is Some,
    ensures
        exists|j: nat|
            k <= j < dom_len(s, mrv(s)) && step_passes(s, cons, fc, j) && search(s, cons, fc, 0, bt, k) == search(
                #[trigger] step_child(s, cons, fc, j),
                cons,
                fc,
                0,
                capped(bt + trials_between(s, cons, fc, k, j)),
                0,
            ),
    decreases dom_len(s, mrv(s)) - k,
{
    lemma_search_step(s, cons, fc, 0, bt, k);
    let child = step_child(s, cons, fc, k);
    assert(trials_between(s, cons, fc, k, k) == 0);
    if step_passes(s, cons, fc, k) {
        let below = search(child, cons, fc, 0, bt, 0);
        if below.0 is Some {
            assert(capped(bt + trials_between(s, cons, fc, k, k)) == bt);
        } else {
            lemma_search_trials(child, cons, fc, bt, 0);
            lemma_search_mono(child, cons, fc, 0, bt, 0);
            let b2 = sat_inc(below.1);
            lemma_backtrack_count_found(s, cons, fc, b2, k + 1);
            let j = choose|j: nat|
                k + 1 <= j < dom_len(s, mrv(s)) && step_passes(s, cons, fc, j) && search(s, cons, fc, 0, b2, k + 1) == search(
                    #[trigger] step_child(s, cons, fc, j),
                    cons,
                    fc,
                    0,
                    capped(b2 + trials_between(s, cons, fc, k + 1, j)),
                    0,
                );
            assert(trials_between(s, cons, fc, k, j) == 1 + trials(child, cons, fc, 0) + trials_between(s, cons, fc, k + 1, j));
            assert(capped(b2 + trials_between(s, cons, fc, k + 1, j)) == capped(bt + trials_between(s, cons, fc, k, j)));
        }
    } else {
        let b2 = sat_inc(bt);
        lemma_backtrack_count_found(s, cons, fc, b2, k + 1);
        let j = choose|j: nat|
            k + 1 <= j < dom_len(s, mrv(s)) && step_passes(s, cons, fc, j) && search(s, cons, fc, 0, b2, k + 1) == search(
                #[trigger] step_child(s, cons, fc, j),
                cons,
                fc,
                0,
                capped(b2 + trials_between(s, cons, fc, k + 1, j)),
                0,
            );
        assert(trials_between(s, cons, fc, k, j) == 1 + trials_between(s, cons, fc, k + 1, j));
        assert(capped(b2 + trials_between(s, cons, fc, k + 1, j)) == capped(bt + trials_between(s, cons, fc, k, j)));
    }
}

/// The search depends only on the variables and their domains.
proof fn lemma_search_alike<R: Predicate>(
    a: Seq<Variable>,
    b: Seq<Variable>,
    cons: Seq<Constraint<R>>,
    fc: bool,
    limit: nat,
    bt: nat,
    k: nat,
)
    requires
        alike(a, b),
        fc ==> a.len() <= usize::MAX && fc_safe(cons, a.len()),
    ensures
        search(a, cons, fc, limit, bt, k) == search(b, cons, fc, limit, bt, k),
    decreases num_unassigned(a), dom_len(a, mrv(a)) - k,
{
    lemma_all_satisfied_same(a, b, cons);
    lemma_mrv_same(a, b);
    lemma_num_unassigned_same(a, b);
    assert(pairs_of(a) =~= pairs_of(b));
    if !fully_assigned(a) {
        lemma_mrv(a);
        let i0 = choose|i: int| 0 <= i < a.len() && !((#[trigger] a[i]).value is Some);
        assert(a[i0].value is None);
        let x = mrv(a);
        assert(doms(a)[x] == doms(b)[x]);
        if k < dom_len(a, x) && !(limit > 0 && bt >= limit) {
            let v = a[x].domain@[k as int];
            let a1 = assign_value(a, x, v);
            let b1 = assign_value(b, x, v);
            lemma_alike_assign(a, b, x, v);
            lemma_checks_same(a1, b1, cons, x);
            if fc {
                lemma_fc_same(a1, b1, cons, x);
            }
            lemma_num_unassigned_update(a, x, a1[x]);
            let ca = if fc { fc_child(a1, cons, x) } else { a1 };
            let cb = if fc { fc_child(b1, cons, x) } else { b1 };
            if fc {
                lemma_fc_child_alike(a1, b1, cons, x);
            }
            lemma_num_unassigned_same(ca, cb);
            if checks_pass(a1, cons, x) && (!fc || fc_passes(a1, cons, x)) && num_unassigned(ca) < num_unassigned(a) {
                lemma_search_alike(ca, cb, cons, fc, limit, bt, 0);
                let below = search(ca, cons, fc, limit, bt, 0);
                if below.0 is None {
                    lemma_search_alike(a, b, cons, fc, limit, sat_inc(below.1), k + 1);
                }
            } else {
                lemma_search_alike(a, b, cons, fc, limit, sat_inc(bt), k + 1);
            }
        }
    }
}

/// The heuristic's choice among the first `i` variables, as a scan keeps it.
spec fn mrv_scan(vars: Seq<Variable>, i: int) -> Option<int>
    decreases i,
{
    if i <= 0 {
        None
    } else {
        let b = mrv_scan(vars, i - 1);
        if vars[i - 1].value is None && (b is None || vars[i - 1].domain@.len() < vars[b.unwrap()].domain@.len()) {
            Some(i - 1)
        } else {
            b
        }
    }
}

proof fn lemma_mrv_scan(vars: Seq<Variable>, i: int)
    requires
        0 <= i <= vars.len(),
    ensures
        match mrv_scan(vars, i) {
            Some(b) => {
                &&& 0 <= b < i
                &&& vars[b].value is None
                &&& forall|j: int| 0 <= j < i && (#[trigger] vars[j]).value is None ==> vars[b].domain@.len() <= vars[j].domain@.len()
                &&& forall|j: int| 0 <= j < b && (#[trigger] vars[j]).value is None ==> vars[b].domain@.len() < vars[j].domain@.len()
            },
            None => forall|j: int| 0 <= j < i ==> (#[trigger] vars[j]).value is Some,
        },
    decreases i,
{
    if i > 0 {
        lemma_mrv_scan(vars, i - 1);
    }
}

proof fn lemma_mrv(vars: Seq<Variable>)
    ensures
        is_mrv(vars, mrv(vars)),
{
    lemma_mrv_scan(vars, vars.len() as int);
    let r = match mrv_scan(vars, vars.len() as int) {
        Some(b) => b,
        None => 0,
    };
    assert(is_mrv(vars, r));
}

proof fn lemma_mrv_same(a: Seq<Variable>, b: Seq<Variable>)
    requires
        same_shape(a, b),
        doms(a) == doms(b),
    ensures
        mrv(a) == mrv(b),
        mrv_domain_len(a) == mrv_domain_len(b),
{
    lemma_mrv(a);
    let r = mrv(a);
    assert forall|i: int| 0 <= i < a.len() implies (#[trigger] a[i]).domain@.len() == b[i].domain@.len() && a[i].value == b[i].value by {
        assert(doms(a)[i] == doms(b)[i]);
    }
    assert(is_mrv(b, r)) by {
        if exists|i: int| 0 <= i < b.len() && (#[trigger] b[i]).value is None {
            let i = choose|i: int| 0 <= i < b.len() && (#[trigger] b[i]).value is None;
            assert(a[i].value is None);
            assert(exists|i: int| 0 <= i < a.len() && (#[trigger] a[i]).value is None);
            assert(0 <= r < a.len());
            assert(a[r].domain@.len() == b[r].domain@.len() && a[r].value == b[r].value);
            assert forall|j: int| 0 <= j < b.len() && (#[trigger] b[j]).value is None implies b[r].domain@.len() <= b[j].domain@.len() by {
                assert(a[j].domain@.len() == b[j].domain@.len() && a[j].value == b[j].value);
            }
            assert forall|j: int| 0 <= j < r && (#[trigger] b[j]).value is None implies b[r].domain@.len() < b[j].domain@.len() by {
                assert(a[j].domain@.len() == b[j].domain@.len() && a[j].value == b[j].value);
            }
        } else {
            assert forall|i: int| 0 <= i < a.len() implies !((#[trigger] a[i]).value is None) by {
                assert(a[i].value == b[i].value);
            }
        }
    }
    lemma_mrv_unique(b, r);
}

proof fn lemma_all_satisfied_same<R: Predicate>(a: Seq<Variable>, b: Seq<Variable>, cons: Seq<Constraint<R>>)
    requires
        same_shape(a, b),
    ensures
        all_satisfied(a, cons) == all_satisfied(b, cons),
        fully_assigned(a) == fully_assigned(b),
        var_ids(a) == var_ids(b),
{
    assert(var_ids(a) =~= var_ids(b));
    assert forall|vid: usize| lookup_value(a, vid) == lookup_value(b, vid) by {
        lemma_index_of(var_ids(a), vid, 0);
        let k = index_of(var_ids(a), vid, 0);
        if k >= 0 {
            assert(a[k].value == b[k].value);
        }
    }
    assert forall|j: int| 0 <= j < cons.len() implies lookups(a, cons[j]) == lookups(b, cons[j]) by {
        assert(lookups(a, cons[j]) =~= lookups(b, cons[j]));
    }
    if fully_assigned(a) {
        assert forall|i: int| 0 <= i < b.len() implies (#[trigger] b[i]).value is Some by {
            assert(a[i].value is Some);
        }
    }
    if fully_assigned(b) {
        assert forall|i: int| 0 <= i < a.len() implies (#[trigger] a[i]).value is Some by {
            assert(b[i].value is Some);
        }
    }
}

proof fn lemma_count_same<R: Predicate>(a: Seq<Variable>, b: Seq<Variable>, cons: Seq<Constraint<R>>, k: nat)
    requires
        same_shape(a, b),
        doms(a) == doms(b),
    ensures
        count_from(a, cons, k) == count_from(b, cons, k),
    decreases num_unassigned(a), k,
{
    lemma_all_satisfied_same(a, b, cons);
    lemma_mrv_same(a, b);
    lemma_num_unassigned_same(a, b);
    if !fully_assigned(a) {
        let x = mrv(a);
        if !(k == 0 || !(0 <= x < a.len()) || a[x].value is Some || k > a[x].domain@.len()) {
            assert(doms(a)[x] == doms(b)[x]);
            assert(a[x].value == b[x].value);
            lemma_count_same(a, b, cons, (k - 1) as nat);
            let na = assign_value(a, x, a[x].domain@[k - 1]);
            let nb = assign_value(b, x, b[x].domain@[k - 1]);
            assert(same_shape(na, nb));
            assert(doms(na) =~= doms(nb)) by {
                assert forall|i: int| 0 <= i < na.len() implies doms(na)[i] == doms(nb)[i] by {
                    assert(doms(a)[i] == doms(b)[i]);
                }
            }
            lemma_num_unassigned_same(na, nb);
            if num_unassigned(na) < num_unassigned(a) {
                lemma_mrv_same(na, nb);
                lemma_count_same(na, nb, cons, mrv_domain_len(na));
            }
        }
    }
}

proof fn lemma_count_positive<R: Predicate>(vars: Seq<Variable>, cons: Seq<Constraint<R>>, k: nat)
    requires
        well_formed_problem(vars, cons),
        count_from(vars, cons, k) > 0,
    ensures
        has_solution(vars, cons),
    decreases num_unassigned(vars), k,
{
    if fully_assigned(vars) {
        lemma_leaf(vars, cons);
        assert(satisfies(cons, completion(vars, assigned_values(vars))));
    } else {
        let x = mrv(vars);
        let d = vars[x].domain@[k - 1];
        let next = assign_value(vars, x, d);
        if count_from(vars, cons, (k - 1) as nat) > 0 {
            lemma_count_positive(vars, cons, (k - 1) as nat);
        } else {
            assert(var_ids(next) =~= var_ids(vars));
            lemma_count_positive(next, cons, mrv_domain_len(next));
            let tau = choose|tau: Seq<i64>| extends(next, tau) && #[trigger] satisfies(cons, completion(next, tau));
            assert(completion(next, tau) =~= completion(vars, tau));
            assert(extends(vars, tau)) by {
                assert forall|i: int| 0 <= i < vars.len() implies match #[trigger] vars[i].value {
                    Some(v) => tau[i] == v,
                    None => vars[i].domain@.contains(tau[i]),
                } by {
                    if i == x {
                        assert(next[i].value == Some(d));
                    } else {
                        assert(next[i] == vars[i]);
                    }
                }
            }
            assert(satisfies(cons, completion(vars, tau)));
        }
    }
}

/// A search state with a solution has a positive count.
proof fn lemma_solution_counted<R: Predicate>(vars: Seq<Variable>, cons: Seq<Constraint<R>>, tau: Seq<i64>, k: nat)
    requires
        extends(vars, tau),
        satisfies(cons, completion(vars, tau)),
        well_formed_problem(vars, cons),
        !fully_assigned(vars) ==> exists|i: int| 0 <= i < k && i < vars[mrv(vars)].domain@.len() && vars[mrv(vars)].domain@[i] == tau[mrv(vars)],
        !fully_assigned(vars) ==> k <= vars[mrv(vars)].domain@.len(),
    ensures
        count_from(vars, cons, k) > 0,
    decreases num_unassigned(vars), k,
{
    lemma_mrv(vars);
    if fully_assigned(vars) {
        lemma_leaf(vars, cons);
    } else {
        let x = mrv(vars);
        assert(exists|i: int| 0 <= i < vars.len() && (#[trigger] vars[i]).value is None) by {
            let i = choose|i: int| 0 <= i < vars.len() && !((#[trigger] vars[i]).value is Some);
        }
        let i = choose|i: int| 0 <= i < k && i < vars[x].domain@.len() && vars[x].domain@[i] == tau[x];
        if i < k - 1 {
            lemma_solution_counted(vars, cons, tau, (k - 1) as nat);
        } else {
            let d = vars[x].domain@[k - 1];
            let next = assign_value(vars, x, d);
            lemma_num_unassigned_update(vars, x, next[x]);
            assert(next =~= vars.update(x, next[x]));
            assert(var_ids(next) =~= var_ids(vars));
            assert(completion(next, tau) =~= completion(vars, tau));
            assert(extends(next, tau)) by {
                assert forall|j: int| 0 <= j < next.len() implies match #[trigger] next[j].value {
                    Some(v) => tau[j] == v,
                    None => next[j].domain@.contains(tau[j]),
                } by {
                    if j != x {
                        assert(next[j] == vars[j]);
                    }
                }
            }
            lemma_mrv(next);
            if !fully_assigned(next) {
                let y = mrv(next);
                assert(exists|j: int| 0 <= j < next.len() && (#[trigger] next[j]).value is None) by {
                    let j = choose|j: int| 0 <= j < next.len() && !((#[trigger] next[j]).value is Some);
                }
                assert(next[y].value is None);
                assert(next[y].domain@.contains(tau[y]));
                let j = choose|j: int| 0 <= j < next[y].domain@.len() && next[y].domain@[j] == tau[y];
                assert(mrv_domain_len(next) == next[y].domain@.len());
            }
            lemma_solution_counted(next, cons, tau, mrv_domain_len(next));
        }
    }
}

// ---------------------------------------------------------------------------
// Search steps.
// ---------------------------------------------------------------------------

/// Position of the first variable with this id.
fn find_var(vars: &Vec<Variable>, id: usize) -> (r: Option<usize>)
    ensures
        match r {
            Some(i) => i as int == index_of(var_ids(vars@), id, 0) && (i as int) < vars@.len(),
            None => index_of(var_ids(vars@), id, 0) < 0,
        },
{
    let mut i: usize = 0;
    while i < vars.len()
        invariant
            i <= vars@.len(),
            index_of(var_ids(vars@), id, 0) == index_of(var_ids(vars@), id, i as int),
        decreases vars@.len() - i,
    {
        if vars[i].id == id {
            return Some(i);
        }
        i = i + 1;
    }
    None
}

/// The value of the first variable with this id, if there is one and it is assigned.
fn lookup(vars: &Vec<Variable>, id: usize) -> (r: Option<i64>)
    ensures
        r == lookup_value(vars@, id),
{
    match find_var(vars, id) {
        Some(i) => vars[i].value,
        None => None,
    }
}

fn contains_id(ids: &Vec<usize>, id: usize) -> (r: bool)
    ensures
        r == ids@.contains(id),
{
    let mut i: usize = 0;
    while i < ids.len()
        invariant
            i <= ids@.len(),
            forall|j: int| 0 <= j < i ==> ids@[j] != id,
        decreases ids@.len() - i,
    {
        if ids[i] == id {
            return true;
        }
        i = i + 1;
    }
    false
}


/// Some unassigned variable has an empty domain: no value can be tried for it.
pub open spec fn open_empty(vars: Seq<Variable>) -> bool {
    exists|i: int| 0 <= i < vars.len() && (#[trigger] vars[i]).value is None && vars[i].domain@.len() == 0
}

/// Whether some unassigned variable has an empty domain.
fn has_open_empty(vars: &[Variable]) -> (r: bool)
    ensures
        r == open_empty(vars@),
{
    let mut i: usize = 0;
    while i < vars.len()
        invariant
            i <= vars@.len(),
            forall|j: int| 0 <= j < i ==> !((#[trigger] vars@[j]).value is None && vars@[j].domain@.len() == 0),
        decreases vars@.len() - i,
    {
        if vars[i].value.is_none() && vars[i].domain.len() == 0 {
            return true;
        }
        i = i + 1;
    }
    false
}

/// With some unassigned variable's domain empty there is no solution.
proof fn lemma_open_empty<R: Predicate>(vars: Seq<Variable>, cons: Seq<Constraint<R>>)
    requires
        open_empty(vars),
    ensures
        !has_solution(vars, cons),
        solution_count(vars, cons) == 0,
{
    let x = choose|i: int| 0 <= i < vars.len() && (#[trigger] vars[i]).value is None && vars[i].domain@.len() == 0;
    if has_solution(vars, cons) {
        let tau = choose|tau: Seq<i64>| extends(vars, tau) && #[trigger] satisfies(cons, completion(vars, tau));
        assert(vars[x].domain@.contains(tau[x]));
    }
    lemma_ways_exchange(vars, cons, 0, x);
}

/// Whether every variable is assigned.
fn all_assigned(vars: &Vec<Variable>) -> (r: bool)
    ensures
        r == fully_assigned(vars@),
{
    let mut i: usize = 0;
    while i < vars.len()
        invariant
            i <= vars@.len(),
            forall|j: int| 0 <= j < i ==> (#[trigger] vars@[j]).value is Some,
        decreases vars@.len() - i,
    {
        if vars[i].value.is_none() {
            return false;
        }
        i = i + 1;
    }
    true
}

/// A copy of a domain.
fn copy_domain(d: &Vec<i64>) -> (r: Vec<i64>)
    ensures
        r@ == d@,
{
    let mut r: Vec<i64> = Vec::new();
    let mut i: usize = 0;
    while i < d.len()
        invariant
            i <= d@.len(),
            r@ == d@.take(i as int),
        decreases d@.len() - i,
    {
        r.push(d[i]);
        proof {
            assert(d@.take(i as int + 1) =~= d@.take(i as int).push(d@[i as int]));
        }
        i = i + 1;
    }
    assert(d@.take(d@.len() as int) =~= d@);
    r
}

/// A copy of the variables.
fn copy_variables(vars: &[Variable]) -> (r: Vec<Variable>)
    ensures
        same_shape(vars@, r@),
        doms(r@) == doms(vars@),
{
    let mut r: Vec<Variable> = Vec::new();
    let mut i: usize = 0;
    while i < vars.len()
        invariant
            i <= vars@.len(),
            r@.len() == i,
            forall|j: int| 0 <= j < i ==> (#[trigger] r@[j]).id == vars@[j].id && r@[j].value == vars@[j].value && r@[j].domain@
                == vars@[j].domain@,
        decreases vars@.len() - i,
    {
        let v = &vars[i];
        r.push(Variable { id: v.id, domain: copy_domain(&v.domain), value: v.value });
        i = i + 1;
    }
    assert(doms(r@) =~= doms(vars@));
    r
}

/// The domains of all variables, copied.
fn save_domains(vars: &Vec<Variable>) -> (r: Vec<Vec<i64>>)
    ensures
        r@.len() == vars@.len(),
        forall|i: int| 0 <= i < vars@.len() ==> (#[trigger] r@[i])@ == vars@[i].domain@,
{
    let mut r: Vec<Vec<i64>> = Vec::new();
    let mut i: usize = 0;
    while i < vars.len()
        invariant
            i <= vars@.len(),
            r@.len() == i,
            forall|j: int| 0 <= j < i ==> (#[trigger] r@[j])@ == vars@[j].domain@,
        decreases vars@.len() - i,
    {
        r.push(copy_domain(&vars[i].domain));
        i = i + 1;
    }
    r
}

/// Put saved domains back.
fn restore_domains(vars: &mut Vec<Variable>, saved: &Vec<Vec<i64>>)
    requires
        saved@.len() == old(vars)@.len(),
    ensures
        same_shape(old(vars)@, final(vars)@),
        forall|i: int| 0 <= i < final(vars)@.len() ==> (#[trigger] final(vars)@[i]).domain@ == saved@[i]@,
{
    let ghost ov = vars@;
    let mut i: usize = 0;
    while i < vars.len()
        invariant
            i <= vars@.len(),
            saved@.len() == vars@.len(),
            same_shape(ov, vars@),
            forall|j: int| 0 <= j < i ==> (#[trigger] vars@[j]).domain@ == saved@[j]@,
        decreases vars@.len() - i,
    {
        let ghost vc = vars@;
        vars[i].domain = copy_domain(&saved[i]);
        proof {
            assert forall|j: int| 0 <= j < ov.len() implies (#[trigger] ov[j]).id == vars@[j].id && ov[j].value == vars@[j].value by {
                assert(vc[j].id == vars@[j].id);
            }
        }
        i = i + 1;
    }
}

impl Solver {
    /// Create a new solver: forward checking on, no limit on backtracks.
    pub fn new() -> (s: Self)
        ensures
            s.use_forward_check,
            s.max_backtracks == 0,
    {
        Solver { use_forward_check: true, max_backtracks: 0 }
    }

    /// Solve the CSP: search for values of the unassigned variables, drawn
    /// from their domains, under which every constraint holds. With a limit
    /// on backtracks, the search gives up once that many values have failed.
    pub fn solve<R: Predicate>(&self, variables: &[Variable], constraints: &[Constraint<R>]) -> (r: Option<Solution>)
        requires
            open_empty(variables@) || (well_formed_problem(variables@, constraints@) && (self.use_forward_check ==> fc_safe(
                constraints@,
                variables@.len(),
            ))),
        ensures
            r matches Some(sol) ==> {
                &&& pair_ids(sol.assignments@) == var_ids(variables@)
                &&& extends(variables@, pair_values(sol.assignments@))
                &&& satisfies(constraints@, sol.assignments@)
                &&& self.max_backtracks > 0 ==> sol.backtracks < self.max_backtracks
            },
            r is None && self.max_backtracks == 0 && distinct_ids(variables@) && (self.use_forward_check ==> ids_are_positions(
                variables@,
            )) ==> !has_solution(variables@, constraints@),
            (r is Some) == (search(variables@, constraints@, self.use_forward_check, self.max_backtracks as nat, 0, 0).0 is Some),
            r matches Some(sol) ==> search(variables@, constraints@, self.use_forward_check, self.max_backtracks as nat, 0, 0) == (
                Some(sol.assignments@),
                sol.backtracks as nat,
            ),
    {
        // The variable with the smallest domain is tried first: an empty one
        // ends the search at once.
        if has_open_empty(variables) {
            proof {
                lemma_open_empty(variables@, constraints@);
                lemma_mrv(variables@);
                let e = choose|i: int| 0 <= i < variables@.len() && (#[trigger] variables@[i]).value is None && variables@[i].domain@.len() == 0;
                assert(!fully_assigned(variables@));
                assert(dom_len(variables@, mrv(variables@)) == 0);
            }
            return None;
        }
        let mut vars = copy_variables(variables);
        let mut backtracks: usize = 0;
        proof {
            lemma_same_state_solution(variables@, vars@, constraints@);
            assert(within(variables@, vars@)) by {
                assert forall|i: int| 0 <= i < variables@.len() implies (#[trigger] vars@[i]).domain@ == variables@[i].domain@ by {
                    assert(doms(vars@)[i] == doms(variables@)[i]);
                }
            }
            assert(distinct_ids(variables@) ==> distinct_ids(vars@)) by {
                if distinct_ids(variables@) {
                    assert forall|i: int, j: int| 0 <= i < vars@.len() && 0 <= j < vars@.len() && i != j implies vars@[i].id != vars@[j].id by {
                        assert(variables@[i].id != variables@[j].id);
                    }
                }
            }
            assert(ids_are_positions(variables@) ==> ids_are_positions(vars@)) by {
                if ids_are_positions(variables@) {
                    assert forall|i: int| 0 <= i < vars@.len() implies (#[trigger] vars@[i]).id == i by {
                        assert(variables@[i].id == i);
                    }
                }
            }
        }
        let nv = vars.len();
        proof {
            assert(variables@.len() <= usize::MAX);
            lemma_search_alike(variables@, vars@, constraints@, self.use_forward_check, self.max_backtracks as nat, 0, 0);
        }
        let result = self.backtrack(&mut vars, constraints, &mut backtracks, Ghost(variables@));
        match result {
            Some(assignments) => {
                proof {
                    let f = vars@;
                    lemma_leaf(f, constraints@);
                    assert(pair_ids(assignments@) =~= var_ids(variables@));
                    assert(pair_values(assignments@) =~= assigned_values(f));
                    assert forall|i: int| 0 <= i < variables@.len() implies match #[trigger] variables@[i].value {
                        Some(v) => pair_values(assignments@)[i] == v,
                        None => variables@[i].domain@.contains(pair_values(assignments@)[i]),
                    } by {
                        assert(f[i].value is Some);
                    }
                }
                Some(Solution { assignments, backtracks })
            },
            None => None,
        }
    }

    /// Depth-first search: pick the variable with the fewest remaining
    /// values, try each of its values in domain order, and check and prune
    /// before going deeper.  On failure the variables are as they were.
    fn backtrack<R: Predicate>(
        &self,
        vars: &mut Vec<Variable>,
        constraints: &[Constraint<R>],
        backtracks: &mut usize,
        Ghost(orig): Ghost<Seq<Variable>>,
    ) -> (r: Option<Vec<(usize, i64)>>)
        requires
            well_formed_problem(old(vars)@, constraints@),
            self.use_forward_check ==> fc_safe(constraints@, old(vars)@.len()),
            within(orig, old(vars)@),
            self.max_backtracks > 0 ==> *old(backtracks) < self.max_backtracks,
        ensures
            within(orig, final(vars)@),
            r is Some && self.max_backtracks > 0 ==> *final(backtracks) < self.max_backtracks,
            var_ids(final(vars)@) == var_ids(old(vars)@),
            r matches Some(a) ==> {
                &&& fully_assigned(final(vars)@)
                &&& a@ == pairs_of(final(vars)@)
                &&& all_satisfied(final(vars)@, constraints@)
            },
            r is None ==> same_shape(old(vars)@, final(vars)@) && doms(final(vars)@) == doms(old(vars)@),
            r is None && self.max_backtracks == 0 && distinct_ids(old(vars)@) && (self.use_forward_check ==> ids_are_positions(
                old(vars)@,
            )) ==> !has_solution(old(vars)@, constraints@),
            *final(backtracks) == search(
                old(vars)@,
                constraints@,
                self.use_forward_check,
                self.max_backtracks as nat,
                *old(backtracks) as nat,
                0,
            ).1,
            r matches Some(a) ==> search(
                old(vars)@,
                constraints@,
                self.use_forward_check,
                self.max_backtracks as nat,
                *old(backtracks) as nat,
                0,
            ).0 == Some(a@),
            r is None ==> search(
                old(vars)@,
                constraints@,
                self.use_forward_check,
                self.max_backtracks as nat,
                *old(backtracks) as nat,
                0,
            ).0 is None,
        decreases num_unassigned(old(vars)@),
    {
        let ghost s0 = vars@;
        let ghost cons = constraints@;
        let ghost fc = self.use_forward_check;
        let ghost lim = self.max_backtracks as nat;
        let ghost bt0 = *backtracks as nat;
        let n_vars = vars.len();
        assert(s0.len() <= usize::MAX);
        let ghost complete_search = self.max_backtracks == 0 && distinct_ids(s0) && (self.use_forward_check ==> ids_are_positions(s0));
        proof {
            assert(var_ids(s0) =~= var_ids(vars@));
        }
        if all_assigned(vars) {
            proof {
                lemma_leaf(s0, cons);
            }
            if self.all_constraints_satisfied(vars, constraints) {
                let mut pairs: Vec<(usize, i64)> = Vec::new();
                let mut i: usize = 0;
                while i < vars.len()
                    invariant
                        vars@ == s0,
                        fully_assigned(s0),
                        i <= s0.len(),
                        pairs@ == pairs_of(s0).take(i as int),
                    decreases s0.len() - i,
                {
                    assert(s0[i as int].value is Some);
                    pairs.push((vars[i].id, vars[i].value.unwrap()));
                    proof {
                        assert(pairs_of(s0).take(i as int + 1) =~= pairs_of(s0).take(i as int).push(
                            (s0[i as int].id, s0[i as int].value.unwrap()),
                        ));
                    }
                    i = i + 1;
                }
                assert(pairs_of(s0).take(s0.len() as int) =~= pairs_of(s0));
                return Some(pairs);
            }
            return None;
        }
        // Select an unassigned variable (smallest domain first).
        let var_idx = self.select_variable(vars.as_slice());
        assert(exists|i: int| 0 <= i < s0.len() && (#[trigger] s0[i]).value is None);
        assert(s0[var_idx as int].value is None);
        let domain = copy_domain(&vars[var_idx].domain);
        let mut i: usize = 0;
        while i < domain.len()
            invariant
                s0 == old(vars)@,
                cons == constraints@,
                well_formed_problem(s0, cons),
                self.use_forward_check ==> fc_safe(cons, s0.len()),
                within(orig, s0),
                (var_idx as int) < s0.len(),
                s0[var_idx as int].value is None,
                domain@ == s0[var_idx as int].domain@,
                i <= domain@.len(),
                same_shape(s0, vars@),
                doms(vars@) == doms(s0),
                complete_search == (self.max_backtracks == 0 && distinct_ids(s0) && (self.use_forward_check ==> ids_are_positions(s0))),
                complete_search ==> forall|tau: Seq<i64>|
                    extends(s0, tau) && #[trigger] satisfies(cons, completion(s0, tau)) ==> forall|i2: int| 0 <= i2 < i ==> tau[var_idx as int] != domain@[i2],
                fc == self.use_forward_check,
                lim == self.max_backtracks as nat,
                s0.len() <= usize::MAX,
                var_idx as int == mrv(s0),
                bt0 == *old(backtracks) as nat,
                search(s0, cons, fc, lim, bt0, 0) == search(s0, cons, fc, lim, *backtracks as nat, i as nat),
            decreases domain@.len() - i,
        {
            if self.max_backtracks > 0 && *backtracks >= self.max_backtracks {
                proof {
                    lemma_restored(s0, vars@, orig);
                    assert(!fully_assigned(s0));
                    assert((i as nat) < dom_len(s0, mrv(s0)));
                    assert(search(s0, cons, fc, lim, *backtracks as nat, i as nat).0 is None);
                    assert(search(s0, cons, fc, lim, *backtracks as nat, i as nat).1 == *backtracks as nat);
                }
                return None;
            }
            let ghost bt_i = *backtracks as nat;
            proof {
                assert(!fully_assigned(s0));
                lemma_search_step(s0, cons, fc, lim, bt_i, i as nat);
            }
            let val = domain[i];
            let ghost before = vars@;
            vars[var_idx].assign(val);
            let ghost s1 = vars@;
            proof {
                assert(s0[var_idx as int].domain@.contains(val)) by {
                    assert(domain@[i as int] == val);
                }
                assert(s1 =~= before.update(var_idx as int, s1[var_idx as int]));
                lemma_assign_state(s0, before, s1, var_idx as int, val, orig, cons);
            }
            let ghost x = var_idx as int;
            let ghost s1s = assign_value(s0, x, val);
            proof {
                assert(val == s0[x].domain@[i as int]);
                assert(alike(s1, s1s)) by {
                    assert forall|j: int| 0 <= j < s1.len() implies (#[trigger] s1[j]).id == s1s[j].id && s1[j].value == s1s[j].value by {
                        assert(before[j].id == s0[j].id);
                    }
                    assert forall|j: int| 0 <= j < s1.len() implies #[trigger] doms(s1)[j] == doms(s1s)[j] by {
                        assert(doms(before)[j] == doms(s0)[j]);
                    }
                    assert(doms(s1) =~= doms(s1s));
                }
                lemma_checks_same(s1, s1s, cons, x);
                lemma_num_unassigned_update(s0, x, s1s[x]);
            }
            let ghost mut failed_bt: nat = bt_i;
            if self.is_consistent(var_idx, vars, constraints) {
                if self.use_forward_check {
                    // Save domains.
                    let saved = save_domains(vars);
                    let fc_ok = forward_check(vars, constraints, var_idx);
                    let ghost s2 = vars@;
                    proof {
                        lemma_forward_check_state(s1, s2, cons, var_idx, orig, fc_ok);
                        lemma_fc_same(s1, s1s, cons, x);
                        if fc_ok {
                            let k = choose|k: int| #[trigger] fc_stage(s1, cons, var_idx, k, doms(s2)) && (fc_ok ==> k == cons.len());
                            assert(fc_state(s1, cons, x, s2)) by {
                                assert forall|y: int| 0 <= y < s1.len() implies #[trigger] doms(s2)[y] == fc_domain(
                                    s1,
                                    cons,
                                    x as usize,
                                    cons.len() as int,
                                    y,
                                ) by {}
                            }
                            lemma_fc_child_of(s1s, s1, s2, cons, x);
                            lemma_alike_sym(fc_child(s1s, cons, x), s2);
                            lemma_search_alike(s2, fc_child(s1s, cons, x), cons, fc, lim, bt_i, 0);
                        }
                    }
                    if fc_ok {
                        match self.backtrack(vars, constraints, backtracks, Ghost(orig)) {
                            Some(result) => {
                                return Some(result);
                            },
                            None => {
                                proof {
                                    failed_bt = *backtracks as nat;
                                }
                            },
                        }
                    }
                    proof {
                        if fc_ok {
                            let child = fc_child(s1s, cons, x);
                            assert(num_unassigned(child) < num_unassigned(s0));
                            assert(search(child, cons, fc, lim, bt_i, 0).0 is None);
                            assert(search(child, cons, fc, lim, bt_i, 0).1 == failed_bt);
                        } else {
                            assert(x as usize == var_idx);
                            let j = choose|j: int|
                                0 <= j < cons.len() && #[trigger] fc_applies(cons[j], var_idx, s1) && !(fc_domain(
                                    s1,
                                    cons,
                                    var_idx,
                                    cons.len() as int,
                                    other_of(cons[j], var_idx) as int,
                                ).len() > 0);
                            assert(!fc_passes(s1, cons, x));
                            assert(!fc_passes(s1s, cons, x));
                        }
                        assert(search(s0, cons, fc, lim, bt_i, i as nat) == search(s0, cons, fc, lim, sat_inc(failed_bt), i as nat + 1));
                    }
                    // Restore domains.
                    let ghost s3 = vars@;
                    restore_domains(vars, &saved);
                    proof {
                        assert(same_shape(s1, vars@)) by {
                            assert forall|j: int| 0 <= j < s1.len() implies (#[trigger] s1[j]).id == vars@[j].id && s1[j].value
                                == vars@[j].value by {
                                assert(s3[j].id == vars@[j].id);
                                assert(s2[j].id == s3[j].id);
                            }
                        }
                        assert(doms(vars@) =~= doms(s1));
                        if complete_search {
                            assert forall|tau: Seq<i64>| extends(s1, tau) && #[trigger] satisfies(cons, completion(s1, tau)) implies false by {
                                assert(fc_ok && extends(s2, tau) && completion(s2, tau) == completion(s1, tau));
                                assert(satisfies(cons, completion(s2, tau)));
                            }
                        }
                    }
                } else {
                    proof {
                        lemma_search_alike(s1, s1s, cons, fc, lim, bt_i, 0);
                    }
                    match self.backtrack(vars, constraints, backtracks, Ghost(orig)) {
                        Some(result) => {
                            return Some(result);
                        },
                        None => {
                            proof {
                                failed_bt = *backtracks as nat;
                            }
                        },
                    }
                    proof {
                        assert(num_unassigned(s1s) < num_unassigned(s0));
                        assert(search(s0, cons, fc, lim, bt_i, i as nat) == search(s0, cons, fc, lim, sat_inc(failed_bt), i as nat + 1));
                        if complete_search {
                            assert forall|tau: Seq<i64>| extends(s1, tau) && #[trigger] satisfies(cons, completion(s1, tau)) implies false by {
                                assert(has_solution(s1, cons));
                            }
                        }
                    }
                }
            } else {
                proof {
                    assert(!checks_pass(s1s, cons, x));
                    assert(search(s0, cons, fc, lim, bt_i, i as nat) == search(s0, cons, fc, lim, sat_inc(failed_bt), i as nat + 1));
                    if complete_search {
                        assert forall|tau: Seq<i64>| extends(s1, tau) && #[trigger] satisfies(cons, completion(s1, tau)) implies false by {
                            assert forall|j: int| 0 <= j < cons.len() implies #[trigger] choice_ok(s1, cons[j], var_idx as int) by {
                                lemma_choice_ok_needed(s1, cons, var_idx as int, tau, j);
                            }
                        }
                    }
                }
            }
            let ghost s4 = vars@;
            vars[var_idx].unassign();
            proof {
                assert(*backtracks as nat == failed_bt);
                assert(search(s0, cons, fc, lim, bt_i, i as nat) == search(s0, cons, fc, lim, sat_inc(failed_bt), i as nat + 1));
            }
            *backtracks = backtracks.saturating_add(1);
            proof {
                assert(same_shape(s0, vars@)) by {
                    assert forall|j: int| 0 <= j < s0.len() implies (#[trigger] s0[j]).id == vars@[j].id && s0[j].value == vars@[j].value by {
                        assert(s4[j].id == vars@[j].id);
                        assert(var_ids(s1)[j] == var_ids(s0)[j]);
                        if j != var_idx {
                            assert(s1[j].value == s0[j].value);
                        }
                    }
                }
                assert(doms(vars@) =~= doms(s0)) by {
                    assert forall|j: int| 0 <= j < s0.len() implies doms(vars@)[j] == doms(s0)[j] by {
                        assert(doms(s4)[j] == doms(s1)[j]);
                        assert(doms(s1)[j] == doms(s0)[j]);
                    }
                }
                if complete_search {
                    assert forall|tau: Seq<i64>|
                        extends(s0, tau) && #[trigger] satisfies(cons, completion(s0, tau)) implies forall|i2: int|
                        0 <= i2 < i + 1 ==> tau[var_idx as int] != domain@[i2] by {
                        if tau[var_idx as int] == val {
                            assert(extends(s1, tau) && completion(s1, tau) == completion(s0, tau));
                            assert(satisfies(cons, completion(s1, tau)));
                        }
                    }
                }
            }
            i = i + 1;
        }
        proof {
            lemma_restored(s0, vars@, orig);
            if complete_search {
                if has_solution(s0, cons) {
                    let tau = choose|tau: Seq<i64>| extends(s0, tau) && #[trigger] satisfies(cons, completion(s0, tau));
                    assert(s0[var_idx as int].domain@.contains(tau[var_idx as int]));
                    let k = choose|k: int| 0 <= k < domain@.len() && domain@[k] == tau[var_idx as int];
                    assert(false);
                }
            }
        }
        None
    }

    /// Count all solutions, stopping once `limit` is reached.
    pub fn count_solutions<R: Predicate>(&self, variables: &[Variable], constraints: &[Constraint<R>], limit: usize) -> (r: usize)
        requires
            open_empty(variables@) || well_formed_problem(variables@, constraints@),
        ensures
            r <= limit,
            distinct_ids(variables@) ==> r == if solution_count(variables@, constraints@) < limit {
                solution_count(variables@, constraints@)
            } else {
                limit as nat
            },
    {
        // The variable with the smallest domain is tried first: an empty one
        // ends the search at once.
        if has_open_empty(variables) {
            proof {
                lemma_open_empty(variables@, constraints@);
            }
            return 0;
        }
        let mut vars = copy_variables(variables);
        let mut count: usize = 0;
        proof {
            lemma_num_solutions_is_solution_count(variables@, constraints@);
            lemma_all_satisfied_same(variables@, vars@, constraints@);
            lemma_mrv_same(variables@, vars@);
            lemma_count_same(variables@, vars@, constraints@, mrv_domain_len(variables@));
            if distinct_ids(variables@) {
                assert forall|i: int, j: int| 0 <= i < vars@.len() && 0 <= j < vars@.len() && i != j implies vars@[i].id != vars@[j].id by {
                    assert(variables@[i].id != variables@[j].id);
                }
            }
        }
        self.count_backtrack(&mut vars, constraints, &mut count, limit);
        count
    }

    /// Count the solutions below the current state into `count`, stopping
    /// once `count` reaches `limit`.  The variables end as they began.
    fn count_backtrack<R: Predicate>(&self, vars: &mut Vec<Variable>, constraints: &[Constraint<R>], count: &mut usize, limit: usize)
        requires
            well_formed_problem(old(vars)@, constraints@),
            *old(count) <= limit,
        ensures
            same_shape(old(vars)@, final(vars)@),
            doms(final(vars)@) == doms(old(vars)@),
            *old(count) <= *final(count) <= limit,
            distinct_ids(old(vars)@) ==> *final(count) == if *old(count) + num_solutions(old(vars)@, constraints@) < limit {
                *old(count) + num_solutions(old(vars)@, constraints@)
            } else {
                limit as int
            },
        decreases num_unassigned(old(vars)@),
    {
        let ghost s0 = vars@;
        let ghost cons = constraints@;
        let ghost c0 = *count;
        if *count >= limit {
            return;
        }
        if all_assigned(vars) {
            if self.all_constraints_satisfied(vars, constraints) {
                *count = *count + 1;
            }
            return;
        }
        let var_idx = self.select_variable(vars.as_slice());
        assert(exists|i: int| 0 <= i < s0.len() && (#[trigger] s0[i]).value is None) by {
            let i = choose|i: int| 0 <= i < s0.len() && !((#[trigger] s0[i]).value is Some);
        }
        assert(s0[var_idx as int].value is None);
        let domain = copy_domain(&vars[var_idx].domain);
        let mut i: usize = 0;
        while i < domain.len()
            invariant
                s0 == old(vars)@,
                cons == constraints@,
                c0 == *old(count),
                well_formed_problem(s0, cons),
                !fully_assigned(s0),
                var_idx as int == mrv(s0),
                (var_idx as int) < s0.len(),
                s0[var_idx as int].value is None,
                domain@ == s0[var_idx as int].domain@,
                i <= domain@.len(),
                same_shape(s0, vars@),
                doms(vars@) == doms(s0),
                c0 <= *count <= limit,
                distinct_ids(s0) ==> *count == if c0 + count_from(s0, cons, i as nat) < limit {
                    c0 + count_from(s0, cons, i as nat)
                } else {
                    limit as int
                },
            decreases domain@.len() - i,
        {
            let val = domain[i];
            let ghost before = vars@;
            vars[var_idx].assign(val);
            let ghost s1 = vars@;
            let ghost next = assign_value(s0, var_idx as int, val);
            let ghost cb = *count;
            proof {
                assert(s0[var_idx as int].domain@.contains(val)) by {
                    assert(domain@[i as int] == val);
                }
                assert(s1 =~= before.update(var_idx as int, s1[var_idx as int]));
                lemma_assign_state(s0, before, s1, var_idx as int, val, s0, cons);
                assert(same_shape(s1, next));
                assert(doms(s1) =~= doms(next)) by {
                    assert forall|j: int| 0 <= j < s1.len() implies doms(s1)[j] == doms(next)[j] by {
                        assert(doms(s1)[j] == doms(s0)[j]);
                    }
                }
                lemma_mrv_same(s1, next);
                lemma_count_same(s1, next, cons, mrv_domain_len(s1));
                lemma_num_unassigned_same(s1, next);
                // One more value of the picked variable counted.
                assert(count_from(s0, cons, (i + 1) as nat) == count_from(s0, cons, i as nat) + num_solutions(next, cons));
            }
            if self.is_consistent(var_idx, vars, constraints) {
                self.count_backtrack(vars, constraints, count, limit);
            } else {
                proof {
                    if distinct_ids(s0) && num_solutions(s1, cons) > 0 {
                        lemma_count_positive(s1, cons, mrv_domain_len(s1));
                        let tau = choose|tau: Seq<i64>| extends(s1, tau) && #[trigger] satisfies(cons, completion(s1, tau));
                        assert forall|j: int| 0 <= j < cons.len() implies #[trigger] choice_ok(s1, cons[j], var_idx as int) by {
                            lemma_choice_ok_needed(s1, cons, var_idx as int, tau, j);
                        }
                    }
                }
            }
            let ghost s4 = vars@;
            vars[var_idx].unassign();
            proof {
                assert(same_shape(s0, vars@)) by {
                    assert forall|j: int| 0 <= j < s0.len() implies (#[trigger] s0[j]).id == vars@[j].id && s0[j].value == vars@[j].value by {
                        assert(s4[j].id == vars@[j].id);
                        assert(var_ids(s1)[j] == var_ids(s0)[j]);
                        if j != var_idx {
                            assert(s1[j].value == s0[j].value);
                        }
                    }
                }
                assert(doms(vars@) =~= doms(s0)) by {
                    assert forall|j: int| 0 <= j < s0.len() implies doms(vars@)[j] == doms(s0)[j] by {
                        assert(doms(s4)[j] == doms(s1)[j]);
                        assert(doms(s1)[j] == doms(s0)[j]);
                    }
                }
            }
            i = i + 1;
        }
        proof {
            assert(num_solutions(s0, cons) == count_from(s0, cons, domain@.len() as nat));
        }
    }

    /// Select an unassigned variable: the first with the smallest domain
    /// (minimum remaining values), or 0 when all are assigned.
    pub fn select_variable(&self, vars: &[Variable]) -> (r: usize)
        ensures
            is_mrv(vars@, r as int),
            r as int == mrv(vars@),
    {
        let mut best: Option<usize> = None;
        let mut i: usize = 0;
        while i < vars.len()
            invariant
                i <= vars@.len(),
                match best {
                    Some(b) => {
                        &&& (b as int) < i
                        &&& vars@[b as int].value is None
                        &&& forall|j: int| 0 <= j < i && (#[trigger] vars@[j]).value is None ==> vars@[b as int].domain@.len() <= vars@[j].domain@.len()
                        &&& forall|j: int| 0 <= j < b && (#[trigger] vars@[j]).value is None ==> vars@[b as int].domain@.len() < vars@[j].domain@.len()
                    },
                    None => forall|j: int| 0 <= j < i ==> (#[trigger] vars@[j]).value is Some,
                },
            decreases vars@.len() - i,
        {
            if vars[i].value.is_none() {
                match best {
                    None => {
                        best = Some(i);
                    },
                    Some(b) => {
                        if vars[i].domain.len() < vars[b].domain.len() {
                            best = Some(i);
                        }
                    },
                }
            }
            i = i + 1;
        }
        let r = match best {
            Some(b) => b,
            None => 0,
        };
        proof {
            lemma_mrv_unique(vars@, r as int);
        }
        r
    }

    /// Check the constraints over the variable at position `var_idx` after
    /// it got its value.
    fn is_consistent<R: Predicate>(&self, var_idx: usize, vars: &Vec<Variable>, constraints: &[Constraint<R>]) -> (r: bool)
        requires
            (var_idx as int) < vars@.len(),
            vars@[var_idx as int].value is Some,
            forall|j: int| 0 <= j < constraints@.len() ==> (#[trigger] constraints@[j]).relation.min_len() <= constraints@[j].variables@.len(),
        ensures
            r == forall|j: int| 0 <= j < constraints@.len() ==> #[trigger] choice_ok(vars@, constraints@[j], var_idx as int),
    {
        let var_id = vars[var_idx].id;
        let mut ci: usize = 0;
        while ci < constraints.len()
            invariant
                ci <= constraints@.len(),
                (var_idx as int) < vars@.len(),
                vars@[var_idx as int].value is Some,
                var_id == vars@[var_idx as int].id,
                forall|j: int| 0 <= j < constraints@.len() ==> (#[trigger] constraints@[j]).relation.min_len() <= constraints@[j].variables@.len(),
                forall|j: int| 0 <= j < ci ==> #[trigger] choice_ok(vars@, constraints@[j], var_idx as int),
            decreases constraints@.len() - ci,
        {
            let c = &constraints[ci];
            if contains_id(&c.variables, var_id) {
                // Look the values up; check the constraint when all are known.
                let mut known: Vec<i64> = Vec::new();
                let mut all = true;
                let mut q: usize = 0;
                while q < c.variables.len()
                    invariant
                        q <= c.variables@.len(),
                        all ==> known@ == known_values(lookups(vars@, *c)).take(q as int),
                        all == forall|q2: int| 0 <= q2 < q ==> (#[trigger] lookups(vars@, *c)[q2]) is Some,
                    decreases c.variables@.len() - q,
                {
                    assert(lookups(vars@, *c)[q as int] == lookup_value(vars@, c.variables@[q as int]));
                    match lookup(vars, c.variables[q]) {
                        Some(v) => {
                            if all {
                                proof {
                                    assert(known_values(lookups(vars@, *c)).take(q as int + 1) =~= known_values(
                                        lookups(vars@, *c),
                                    ).take(q as int).push(v));
                                }
                                known.push(v);
                            }
                        },
                        None => {
                            all = false;
                        },
                    }
                    q = q + 1;
                }
                if all {
                    proof {
                        assert(known_values(lookups(vars@, *c)).take(q as int) =~= known_values(lookups(vars@, *c)));
                        assert(all_known(lookups(vars@, *c)));
                    }
                    assert(c.relation.min_len() <= known@.len());
                    if !c.is_satisfied(known.as_slice()) {
                        assert(!choice_ok(vars@, constraints@[ci as int], var_idx as int));
                        return false;
                    }
                } else if c.arity() == 2 {
                    proof {
                        assert(!all_known(lookups(vars@, *c)));
                    }
                    let my_val = vars[var_idx].value.unwrap();
                    let first = c.variables[0] == var_id;
                    let other_var_id = if first { c.variables[1] } else { c.variables[0] };
                    match lookup(vars, other_var_id) {
                        Some(other_val) => {
                            let pair: [i64; 2] = if first { [my_val, other_val] } else { [other_val, my_val] };
                            assert(pair@ =~= (if first { seq![my_val, other_val] } else { seq![other_val, my_val] }));
                            if !c.is_satisfied(pair.as_slice()) {
                                assert(!choice_ok(vars@, constraints@[ci as int], var_idx as int));
                                return false;
                            }
                        },
                        None => {},
                    }
                } else {
                    proof {
                        assert(!all_known(lookups(vars@, *c)));
                    }
                }
            }
            ci = ci + 1;
        }
        true
    }

    /// Check every constraint on the values of its variables, found by id.
    fn all_constraints_satisfied<R: Predicate>(&self, vars: &Vec<Variable>, constraints: &[Constraint<R>]) -> (r: bool)
        requires
            well_formed_problem(vars@, constraints@),
            forall|i: int| 0 <= i < vars@.len() ==> (#[trigger] vars@[i]).value is Some,
        ensures
            r == all_satisfied(vars@, constraints@),
    {
        let mut ci: usize = 0;
        while ci < constraints.len()
            invariant
                ci <= constraints@.len(),
                well_formed_problem(vars@, constraints@),
                forall|i: int| 0 <= i < vars@.len() ==> (#[trigger] vars@[i]).value is Some,
                forall|j: int| 0 <= j < ci ==> #[trigger] constraints@[j].satisfied_by(known_values(lookups(vars@, constraints@[j]))),
            decreases constraints@.len() - ci,
        {
            let c = &constraints[ci];
            let mut vals: Vec<i64> = Vec::new();
            let mut q: usize = 0;
            while q < c.variables.len()
                invariant
                    q <= c.variables@.len(),
                    (ci as int) < constraints@.len(),
                    *c == constraints@[ci as int],
                    well_formed_problem(vars@, constraints@),
                    forall|i: int| 0 <= i < vars@.len() ==> (#[trigger] vars@[i]).value is Some,
                    vals@ == known_values(lookups(vars@, *c)).take(q as int),
                decreases c.variables@.len() - q,
            {
                let vid = c.variables[q];
                assert(index_of(var_ids(vars@), constraints@[ci as int].variables@[q as int], 0) >= 0);
                let i = find_var(vars, vid).unwrap();
                let v = vars[i].value.unwrap();
                proof {
                    assert(known_values(lookups(vars@, *c)).take(q as int + 1) =~= known_values(lookups(vars@, *c)).take(
                        q as int,
                    ).push(v));
                }
                vals.push(v);
                q = q + 1;
            }
            proof {
                assert(known_values(lookups(vars@, *c)).take(q as int) =~= known_values(lookups(vars@, *c)));
                assert(c.relation.min_len() <= c.variables@.len());
            }
            if !c.is_satisfied(vals.as_slice()) {
                return false;
            }
            ci = ci + 1;
        }
        true
    }
}

impl Default for Solver {
    fn default() -> (s: Self)
        ensures
            s.use_forward_check,
            s.max_backtracks == 0,
    {
        Self::new()
    }
}


/// The count of solutions is positive exactly when some completion of the
/// current assignment satisfies every constraint.
pub proof fn lemma_count_positive_iff_solution<R: Predicate>(vars: Seq<Variable>, cons: Seq<Constraint<R>>)
    requires
        well_formed_problem(vars, cons),
    ensures
        (solution_count(vars, cons) > 0) == has_solution(vars, cons),
{
    lemma_num_solutions_is_solution_count(vars, cons);
    if num_solutions(vars, cons) > 0 {
        lemma_count_positive(vars, cons, mrv_domain_len(vars));
    }
    if has_solution(vars, cons) {
        let tau = choose|tau: Seq<i64>| extends(vars, tau) && #[trigger] satisfies(cons, completion(vars, tau));
        lemma_mrv(vars);
        if !fully_assigned(vars) {
            let x = mrv(vars);
            assert(exists|i: int| 0 <= i < vars.len() && (#[trigger] vars[i]).value is None) by {
                let i = choose|i: int| 0 <= i < vars.len() && !((#[trigger] vars[i]).value is Some);
            }
            assert(vars[x].domain@.contains(tau[x]));
            let i = choose|i: int| 0 <= i < vars[x].domain@.len() && vars[x].domain@[i] == tau[x];
        }
        lemma_solution_counted(vars, cons, tau, mrv_domain_len(vars));
    }
}

} // verus!
