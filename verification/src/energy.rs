//! Energy landscape shaped by constraints.
//!
//! Models a constraint satisfaction problem as an energy landscape where
//! constraint violations increase energy and the goal is to find low-energy states.

use vstd::prelude::*;
use crate::constraint::{Constraint, Predicate};
use crate::dynamics::values_at;

verus! {

/// An energy landscape over variable assignments.
#[derive(Debug, Clone)]
pub struct EnergyLandscape<R> {
    /// Number of variables.
    pub num_variables: usize,
    /// Constraints defining the landscape.
    pub constraints: Vec<Constraint<R>>,
    /// Domain for each variable.
    pub domains: Vec<Vec<i64>>,
}

// ---------------------------------------------------------------------------
// The model.
// ---------------------------------------------------------------------------

/// The energy of an assignment (one value per variable position): the sum of
/// the strengths of the constraints it violates.
pub open spec fn energy_of<R: Predicate>(cons: Seq<Constraint<R>>, a: Seq<i64>) -> int
    decreases cons.len(),
{
    if cons.len() == 0 {
        0
    } else {
        energy_of(cons.drop_last(), a) + if cons.last().satisfied_by(values_at(cons.last(), a)) {
            0
        } else {
            cons.last().strength as int
        }
    }
}

/// Every constraint can be checked on assignments of `n` values.
pub open spec fn checkable<R: Predicate>(cons: Seq<Constraint<R>>, n: nat) -> bool {
    forall|j: int|
        0 <= j < cons.len() ==> (#[trigger] cons[j]).relation.min_len() <= cons[j].variables@.len() && forall|q: int|
            0 <= q < cons[j].variables@.len() ==> (#[trigger] cons[j].variables@[q] as int) < n
}

/// The views of a list of vectors.
pub open spec fn views(vs: Seq<Vec<i64>>) -> Seq<Seq<i64>> {
    Seq::new(vs.len(), |i: int| vs[i]@)
}

/// The number of values in the domain of position `p` (none past the end).
pub open spec fn all_of(ds: Seq<Seq<i64>>, p: nat) -> nat {
    if p < ds.len() {
        ds[p as int].len()
    } else {
        0
    }
}

/// The complete assignments that begin with `pre`, whose next value is one of
/// the first `k` of its domain, in order: each later position runs through its
/// domain, the last position fastest.
pub open spec fn completions(ds: Seq<Seq<i64>>, pre: Seq<i64>, k: nat) -> Seq<Seq<i64>>
    decreases ds.len() - pre.len(), k,
{
    if pre.len() >= ds.len() {
        seq![pre]
    } else if k == 0 || k > ds[pre.len() as int].len() {
        Seq::empty()
    } else {
        completions(ds, pre, (k - 1) as nat) + completions(
            ds,
            pre.push(ds[pre.len() as int][k - 1]),
            all_of(ds, pre.len() + 1),
        )
    }
}

/// Every assignment that takes each value from its variable's domain, in
/// lexicographic order of the domain positions.
pub open spec fn state_space(ds: Seq<Seq<i64>>) -> Seq<Seq<i64>> {
    completions(ds, Seq::empty(), all_of(ds, 0))
}

/// Each value from position `from` on lies in its domain.
pub open spec fn fits_from(ds: Seq<Seq<i64>>, s: Seq<i64>, from: int) -> bool {
    forall|i: int| from <= i < ds.len() ==> #[trigger] ds[i].contains(s[i])
}

/// The states among `states` whose energy is `target`, in order.
pub open spec fn states_at<R: Predicate>(cons: Seq<Constraint<R>>, states: Seq<Seq<i64>>, target: int) -> Seq<Seq<i64>>
    decreases states.len(),
{
    if states.len() == 0 {
        Seq::empty()
    } else {
        let rest = states_at(cons, states.drop_last(), target);
        if energy_of(cons, states.last()) == target {
            rest.push(states.last())
        } else {
            rest
        }
    }
}

/// No state that differs from `a` in one variable, taking another value of
/// that variable's domain, has an energy below `e`.
pub open spec fn no_lower_neighbour<R: Predicate>(cons: Seq<Constraint<R>>, ds: Seq<Seq<i64>>, a: Seq<i64>, e: int) -> bool {
    forall|i: int, v: i64|
        0 <= i < ds.len() && #[trigger] ds[i].contains(v) && v != a[i] ==> e <= energy_of(cons, #[trigger] a.update(i, v))
}

/// The states among `states` that are local minima, in order.
pub open spec fn local_minima_in<R: Predicate>(cons: Seq<Constraint<R>>, ds: Seq<Seq<i64>>, states: Seq<Seq<i64>>) -> Seq<Seq<i64>>
    decreases states.len(),
{
    if states.len() == 0 {
        Seq::empty()
    } else {
        let rest = local_minima_in(cons, ds, states.drop_last());
        if no_lower_neighbour(cons, ds, states.last(), energy_of(cons, states.last())) {
            rest.push(states.last())
        } else {
            rest
        }
    }
}

/// `m` is the lowest energy of the states.
pub open spec fn is_lowest<R: Predicate>(cons: Seq<Constraint<R>>, states: Seq<Seq<i64>>, m: int) -> bool {
    &&& exists|j: int| 0 <= j < states.len() && energy_of(cons, #[trigger] states[j]) == m
    &&& forall|j: int| 0 <= j < states.len() ==> m <= energy_of(cons, #[trigger] states[j])
}

/// The lowest energy of the states (0 when there is none).
pub open spec fn lowest_energy<R: Predicate>(cons: Seq<Constraint<R>>, states: Seq<Seq<i64>>) -> int
    decreases states.len(),
{
    if states.len() == 0 {
        0
    } else if states.len() == 1 {
        energy_of(cons, states[0])
    } else {
        min_int(lowest_energy(cons, states.drop_last()), energy_of(cons, states.last()))
    }
}

/// The state on the way from `a` to `b` after the first `k` variables took
/// their values from `b`.
pub open spec fn path_state(a: Seq<i64>, b: Seq<i64>, k: int) -> Seq<i64> {
    Seq::new(a.len(), |i: int| if i < k { b[i] } else { a[i] })
}

/// The highest energy among `a`, `b` and the first `k` steps from `a` to `b`.
pub open spec fn path_peak<R: Predicate>(cons: Seq<Constraint<R>>, a: Seq<i64>, b: Seq<i64>, k: nat) -> int
    decreases k,
{
    if k == 0 {
        max_int(energy_of(cons, a), energy_of(cons, b))
    } else {
        max_int(path_peak(cons, a, b, (k - 1) as nat), energy_of(cons, path_state(a, b, k as int)))
    }
}

/// The smaller of two integers.
pub open spec fn min_int(x: int, y: int) -> int {
    if x <= y {
        x
    } else {
        y
    }
}

/// The larger of two integers.
pub open spec fn max_int(x: int, y: int) -> int {
    if x >= y {
        x
    } else {
        y
    }
}

/// The pairs hold the states in the first components, in order.
pub open spec fn pair_states(r: Seq<(Vec<i64>, u128)>) -> Seq<Seq<i64>> {
    Seq::new(r.len(), |i: int| r[i].0@)
}

/// Each pair holds a state and its energy.
pub open spec fn paired_with_energy<R: Predicate>(cons: Seq<Constraint<R>>, r: Seq<(Vec<i64>, u128)>) -> bool {
    forall|i: int| 0 <= i < r.len() ==> (#[trigger] r[i]).1 == energy_of(cons, r[i].0@)
}

impl<R: Predicate> EnergyLandscape<R> {
    /// The domains of the landscape's variables.
    pub open spec fn dom_views(&self) -> Seq<Seq<i64>> {
        views(self.domains@).take(self.num_variables as int)
    }

    /// All states of the landscape.
    pub open spec fn states(&self) -> Seq<Seq<i64>> {
        state_space(self.dom_views())
    }

    /// The energy of a state.
    pub open spec fn energy_spec(&self, a: Seq<i64>) -> int {
        energy_of(self.constraints@, a)
    }

    /// The landscape can be enumerated, and the energy of each of its states
    /// computed.
    pub open spec fn well_formed(&self) -> bool {
        &&& self.num_variables <= self.domains@.len()
        &&& self.states().len() > 0 ==> checkable(self.constraints@, self.num_variables as nat)
    }
}

// ---------------------------------------------------------------------------
// Facts.
// ---------------------------------------------------------------------------

proof fn lemma_energy_bound<R: Predicate>(cons: Seq<Constraint<R>>, a: Seq<i64>)
    ensures
        0 <= energy_of(cons, a) <= cons.len() * (u64::MAX as int),
    decreases cons.len(),
{
    if cons.len() > 0 {
        lemma_energy_bound(cons.drop_last(), a);
    }
}

proof fn lemma_completions_len(ds: Seq<Seq<i64>>, pre: Seq<i64>, k: nat)
    requires
        pre.len() <= ds.len(),
    ensures
        forall|j: int| 0 <= j < completions(ds, pre, k).len() ==> (#[trigger] completions(ds, pre, k)[j]).len() == ds.len(),
    decreases ds.len() - pre.len(), k,
{
    if pre.len() < ds.len() && !(k == 0 || k > ds[pre.len() as int].len()) {
        lemma_completions_len(ds, pre, (k - 1) as nat);
        let nxt = pre.push(ds[pre.len() as int][k - 1]);
        lemma_completions_len(ds, nxt, all_of(ds, pre.len() + 1));
        let a = completions(ds, pre, (k - 1) as nat);
        let b = completions(ds, nxt, all_of(ds, pre.len() + 1));
        assert forall|j: int| 0 <= j < (a + b).len() implies (#[trigger] (a + b)[j]).len() == ds.len() by {
            if j < a.len() {
                assert((a + b)[j] == a[j]);
            } else {
                assert((a + b)[j] == b[j - a.len()]);
            }
        }
    }
}

/// The lowest energy of a nonempty list of states is the energy of one of
/// them and no state's energy is below it; no other number is both.
pub proof fn lemma_lowest_energy<R: Predicate>(cons: Seq<Constraint<R>>, states: Seq<Seq<i64>>, m: int)
    requires
        states.len() > 0,
    ensures
        is_lowest(cons, states, lowest_energy(cons, states)),
        is_lowest(cons, states, m) ==> m == lowest_energy(cons, states),
    decreases states.len(),
{
    let lo = lowest_energy(cons, states);
    if states.len() == 1 {
        assert(energy_of(cons, states[0]) == lo);
    } else {
        let init = states.drop_last();
        lemma_lowest_energy(cons, init, m);
        let li = lowest_energy(cons, init);
        let last = states.len() - 1;
        if li <= energy_of(cons, states[last]) {
            let w = choose|w: int| 0 <= w < init.len() && energy_of(cons, #[trigger] init[w]) == li;
            assert(states[w] == init[w]);
            assert(energy_of(cons, states[w]) == lo);
        } else {
            assert(energy_of(cons, states[last]) == lo);
        }
        assert forall|j: int| 0 <= j < states.len() implies lo <= energy_of(cons, #[trigger] states[j]) by {
            if j < last {
                assert(states[j] == init[j]);
                assert(li <= energy_of(cons, init[j]));
            }
        }
    }
    if is_lowest(cons, states, m) {
        let w = choose|w: int| 0 <= w < states.len() && energy_of(cons, #[trigger] states[w]) == m;
        let w2 = choose|w2: int| 0 <= w2 < states.len() && energy_of(cons, #[trigger] states[w2]) == lo;
        assert(m <= energy_of(cons, states[w2]));
        assert(lo <= energy_of(cons, states[w]));
    }
}

/// A state is among those of energy `target` exactly when it is one of the
/// states and has that energy.
pub proof fn lemma_states_at_members<R: Predicate>(cons: Seq<Constraint<R>>, states: Seq<Seq<i64>>, target: int, s: Seq<i64>)
    ensures
        states_at(cons, states, target).contains(s) <==> states.contains(s) && energy_of(cons, s) == target,
    decreases states.len(),
{
    if states.len() > 0 {
        let init = states.drop_last();
        lemma_states_at_members(cons, init, target, s);
        lemma_seq_push_contains(init, states.last(), s);
        assert(init.push(states.last()) =~= states);
        lemma_seq_push_contains(states_at(cons, init, target), states.last(), s);
    }
}

/// A state is among the local minima exactly when it is one of the states
/// and no neighbour has a lower energy.
pub proof fn lemma_local_minima_members<R: Predicate>(cons: Seq<Constraint<R>>, ds: Seq<Seq<i64>>, states: Seq<Seq<i64>>, s: Seq<i64>)
    ensures
        local_minima_in(cons, ds, states).contains(s) <==> states.contains(s) && no_lower_neighbour(cons, ds, s, energy_of(cons, s)),
    decreases states.len(),
{
    if states.len() > 0 {
        let init = states.drop_last();
        lemma_local_minima_members(cons, ds, init, s);
        lemma_seq_push_contains(init, states.last(), s);
        assert(init.push(states.last()) =~= states);
        lemma_seq_push_contains(local_minima_in(cons, ds, init), states.last(), s);
    }
}

/// An assignment has energy 0 exactly when every constraint it violates has
/// strength 0; in particular a fully satisfied assignment has energy 0.
pub proof fn lemma_zero_energy<R: Predicate>(cons: Seq<Constraint<R>>, a: Seq<i64>)
    ensures
        energy_of(cons, a) == 0 <==> forall|j: int|
            0 <= j < cons.len() ==> #[trigger] cons[j].satisfied_by(values_at(cons[j], a)) || cons[j].strength == 0,
    decreases cons.len(),
{
    if cons.len() > 0 {
        let init = cons.drop_last();
        lemma_zero_energy(init, a);
        lemma_energy_bound(init, a);
        assert forall|j: int| 0 <= j < init.len() implies #[trigger] init[j] == cons[j] by {}
        if energy_of(cons, a) == 0 {
            assert forall|j: int| 0 <= j < cons.len() implies #[trigger] cons[j].satisfied_by(values_at(cons[j], a))
                || cons[j].strength == 0 by {
                if j < init.len() {
                    assert(init[j] == cons[j]);
                    assert(init[j].satisfied_by(values_at(init[j], a)) || init[j].strength == 0);
                }
            }
        }
        if forall|j: int| 0 <= j < cons.len() ==> #[trigger] cons[j].satisfied_by(values_at(cons[j], a)) || cons[j].strength == 0 {
            assert forall|j: int| 0 <= j < init.len() implies #[trigger] init[j].satisfied_by(values_at(init[j], a))
                || init[j].strength == 0 by {
                assert(init[j] == cons[j]);
                assert(cons[j].satisfied_by(values_at(cons[j], a)) || cons[j].strength == 0);
            }
            let last = cons.len() - 1;
            assert(cons[last].satisfied_by(values_at(cons[last], a)) || cons[last].strength == 0);
        }
    }
}

/// Every global minimum of a landscape is a local minimum.
pub proof fn lemma_global_minima_are_local<R: Predicate>(l: EnergyLandscape<R>, s: Seq<i64>)
    requires
        l.num_variables <= l.domains@.len(),
        states_at(l.constraints@, l.states(), lowest_energy(l.constraints@, l.states())).contains(s),
    ensures
        local_minima_in(l.constraints@, l.dom_views(), l.states()).contains(s),
{
    let cons = l.constraints@;
    let ds = l.dom_views();
    let st = l.states();
    let lo = lowest_energy(cons, st);
    lemma_states_at_members(cons, st, lo, s);
    lemma_local_minima_members(cons, ds, st, s);
    lemma_state_space_members(ds, s);
    lemma_lowest_energy(cons, st, lo);
    assert forall|i: int, v: i64| 0 <= i < ds.len() && #[trigger] ds[i].contains(v) && v != s[i] implies energy_of(
        cons,
        s,
    ) <= energy_of(cons, #[trigger] s.update(i, v)) by {
        let nb = s.update(i, v);
        assert forall|i2: int| 0 <= i2 < ds.len() implies #[trigger] ds[i2].contains(nb[i2]) by {
            if i2 != i {
                assert(nb[i2] == s[i2]);
            }
        }
        assert(fits_from(ds, nb, 0));
        lemma_state_space_members(ds, nb);
        let w = choose|w: int| 0 <= w < st.len() && st[w] == nb;
        assert(lo <= energy_of(cons, st[w]));
    }
}

/// The barrier between two states is at least the energy of either end and
/// of every state on the path between them, and the barrier between a state
/// and itself is that state's energy.
pub proof fn lemma_barrier_bounds<R: Predicate>(cons: Seq<Constraint<R>>, a: Seq<i64>, b: Seq<i64>, n: nat)
    ensures
        path_peak(cons, a, b, n) >= energy_of(cons, a),
        path_peak(cons, a, b, n) >= energy_of(cons, b),
        forall|k: int| 1 <= k <= n ==> path_peak(cons, a, b, n) >= energy_of(cons, #[trigger] path_state(a, b, k)),
        a == b ==> path_peak(cons, a, b, n) == energy_of(cons, a),
    decreases n,
{
    if n > 0 {
        lemma_barrier_bounds(cons, a, b, (n - 1) as nat);
        if a == b {
            assert(path_state(a, b, n as int) =~= a);
        }
    }
}

proof fn lemma_seq_push_contains(q: Seq<Seq<i64>>, x: Seq<i64>, s: Seq<i64>)
    ensures
        q.push(x).contains(s) <==> q.contains(s) || s == x,
{
    if q.push(x).contains(s) {
        let j = choose|j: int| 0 <= j < q.push(x).len() && q.push(x)[j] == s;
        if j < q.len() {
            assert(q[j] == s);
        }
    }
    if q.contains(s) {
        let j = choose|j: int| 0 <= j < q.len() && q[j] == s;
        assert(q.push(x)[j] == s);
    }
    if s == x {
        assert(q.push(x)[q.len() as int] == s);
    }
}

/// The states are exactly the assignments that take each variable's value
/// from its domain.
pub proof fn lemma_state_space_members(ds: Seq<Seq<i64>>, s: Seq<i64>)
    ensures
        state_space(ds).contains(s) <==> s.len() == ds.len() && fits_from(ds, s, 0),
{
    lemma_completions_members(ds, Seq::empty(), all_of(ds, 0), s);
    assert(s.take(0) =~= Seq::<i64>::empty());
    if ds.len() > 0 {
        assert(ds[0].take(all_of(ds, 0) as int) =~= ds[0]);
        assert(fits_from(ds, s, 0) <==> ds[0].contains(s[0]) && fits_from(ds, s, 1));
    } else {
        assert(fits_from(ds, s, 0));
        assert(fits_from(ds, s, 1));
    }
}

proof fn lemma_concat_contains(a: Seq<Seq<i64>>, b: Seq<Seq<i64>>, s: Seq<i64>)
    ensures
        (a + b).contains(s) <==> a.contains(s) || b.contains(s),
{
    if (a + b).contains(s) {
        let j = choose|j: int| 0 <= j < (a + b).len() && (a + b)[j] == s;
        if j < a.len() {
            assert(a[j] == s);
        } else {
            assert(b[j - a.len()] == s);
        }
    }
    if a.contains(s) {
        let j = choose|j: int| 0 <= j < a.len() && a[j] == s;
        assert((a + b)[j] == s);
    }
    if b.contains(s) {
        let j = choose|j: int| 0 <= j < b.len() && b[j] == s;
        assert((a + b)[a.len() + j] == s);
    }
}

proof fn lemma_take_contains(d: Seq<i64>, k: int, x: i64)
    requires
        0 < k <= d.len(),
    ensures
        d.take(k).contains(x) <==> d.take(k - 1).contains(x) || x == d[k - 1],
{
    assert(d.take(k) =~= d.take(k - 1).push(d[k - 1]));
    let dk1 = d.take(k - 1);
    if dk1.contains(x) {
        let t = choose|t: int| 0 <= t < dk1.len() && dk1[t] == x;
        assert(d.take(k)[t] == x);
    }
    if x == d[k - 1] {
        assert(d.take(k)[k - 1] == x);
    }
    if d.take(k).contains(x) {
        let dk = d.take(k);
        let t = choose|t: int| 0 <= t < dk.len() && dk[t] == x;
        if t < k - 1 {
            assert(dk1[t] == x);
        }
    }
}

proof fn lemma_completions_members(ds: Seq<Seq<i64>>, pre: Seq<i64>, k: nat, s: Seq<i64>)
    requires
        pre.len() <= ds.len(),
        pre.len() < ds.len() ==> k <= ds[pre.len() as int].len(),
    ensures
        completions(ds, pre, k).contains(s) <==> {
            &&& s.len() == ds.len()
            &&& s.take(pre.len() as int) == pre
            &&& pre.len() < ds.len() ==> ds[pre.len() as int].take(k as int).contains(s[pre.len() as int])
            &&& fits_from(ds, s, pre.len() + 1int)
        },
    decreases ds.len() - pre.len(), k,
{
    let p = pre.len() as int;
    if pre.len() >= ds.len() {
        if s.len() == ds.len() && s.take(p) == pre {
            assert(s =~= s.take(p));
            assert(completions(ds, pre, k)[0] == s);
        }
        if completions(ds, pre, k).contains(s) {
            assert(completions(ds, pre, k)[0] == pre);
            assert(s == pre);
            assert(s.take(p) =~= s);
        }
    } else if k == 0 {
        assert(ds[p].take(0) =~= Seq::<i64>::empty());
    } else {
        let v = ds[p][k - 1];
        let nxt = pre.push(v);
        let a = completions(ds, pre, (k - 1) as nat);
        let b = completions(ds, nxt, all_of(ds, pre.len() + 1));
        lemma_completions_members(ds, pre, (k - 1) as nat, s);
        lemma_completions_members(ds, nxt, all_of(ds, pre.len() + 1), s);
        lemma_concat_contains(a, b, s);
        assert(completions(ds, pre, k) == a + b);
        if s.len() == ds.len() {
            lemma_take_contains(ds[p], k as int, s[p]);
            assert(s.take(p + 1) =~= s.take(p).push(s[p]));
            assert(nxt.take(p) =~= pre);
            if s.take(p + 1) == nxt {
                assert(s.take(p) =~= nxt.take(p));
                assert(s[p] == nxt[p]);
            }
            if p + 1 < ds.len() {
                let q = p + 1;
                assert(ds[q].take(all_of(ds, pre.len() + 1) as int) =~= ds[q]);
                assert(fits_from(ds, s, p + 1) <==> ds[q].contains(s[q]) && fits_from(ds, s, p + 2));
            } else {
                assert(fits_from(ds, s, p + 1));
                assert(fits_from(ds, s, p + 2));
            }
        }
    }
}

// ---------------------------------------------------------------------------
// Steps.
// ---------------------------------------------------------------------------

fn copy_values(v: &[i64]) -> (r: Vec<i64>)
    ensures
        r@ == v@,
{
    let mut r: Vec<i64> = Vec::new();
    let mut i: usize = 0;
    while i < v.len()
        invariant
            i <= v@.len(),
            r@ == v@.take(i as int),
        decreases v@.len() - i,
    {
        r.push(v[i]);
        proof {
            assert(v@.take(i as int + 1) =~= v@.take(i as int).push(v@[i as int]));
        }
        i = i + 1;
    }
    assert(v@.take(v@.len() as int) =~= v@);
    r
}

/// Append to `out` every complete assignment that begins with `prefix`, in
/// order.
fn enumerate_assignments(domains: &Vec<Vec<i64>>, n: usize, prefix: &mut Vec<i64>, out: &mut Vec<Vec<i64>>)
    requires
        old(prefix)@.len() <= n <= domains@.len(),
    ensures
        final(prefix)@ == old(prefix)@,
        views(final(out)@) == views(old(out)@) + completions(
            views(domains@).take(n as int),
            old(prefix)@,
            all_of(views(domains@).take(n as int), old(prefix)@.len()),
        ),
    decreases n - old(prefix)@.len(),
{
    let ghost ds = views(domains@).take(n as int);
    let ghost pre = prefix@;
    let ghost o0 = views(out@);
    let depth = prefix.len();
    if depth == n {
        let ghost ob = out@;
        out.push(copy_values(prefix.as_slice()));
        proof {
            assert(views(out@) =~= views(ob).push(pre));
            assert(completions(ds, pre, all_of(ds, pre.len())) == seq![pre]);
            assert(views(ob) + seq![pre] =~= views(ob).push(pre));
        }
        return;
    }
    let ghost dlen = ds[depth as int].len();
    let mut i: usize = 0;
    while i < domains[depth].len()
        invariant
            ds == views(domains@).take(n as int),
            depth < n <= domains@.len(),
            pre.len() == depth,
            prefix@ == pre,
            pre == old(prefix)@,
            o0 == views(old(out)@),
            dlen == ds[depth as int].len(),
            dlen == domains@[depth as int]@.len(),
            i <= dlen,
            views(out@) == o0 + completions(ds, pre, i as nat),
        decreases dlen - i,
    {
        let v = domains[depth][i];
        prefix.push(v);
        proof {
            assert(ds[depth as int] == domains@[depth as int]@);
            assert(ds[depth as int][i as int] == v);
        }
        enumerate_assignments(domains, n, prefix, out);
        prefix.pop();
        proof {
            assert(prefix@ =~= pre);
            assert(completions(ds, pre, (i + 1) as nat) == completions(ds, pre, i as nat) + completions(ds, pre.push(v), all_of(ds, pre.len() + 1)));
            assert(views(out@) =~= o0 + completions(ds, pre, (i + 1) as nat));
        }
        i = i + 1;
    }
}

/// The values that the constraint reads from the assignment, in the order of
/// its variables.
fn gather<R: Predicate>(c: &Constraint<R>, assignment: &[i64]) -> (r: Vec<i64>)
    requires
        forall|q: int| 0 <= q < c.variables@.len() ==> (#[trigger] c.variables@[q] as int) < assignment@.len(),
    ensures
        r@ == values_at(*c, assignment@),
{
    let mut r: Vec<i64> = Vec::new();
    let mut q: usize = 0;
    while q < c.variables.len()
        invariant
            q <= c.variables@.len(),
            forall|t: int| 0 <= t < c.variables@.len() ==> (#[trigger] c.variables@[t] as int) < assignment@.len(),
            r@ == values_at(*c, assignment@).take(q as int),
        decreases c.variables@.len() - q,
    {
        let x = c.variables[q];
        r.push(assignment[x]);
        proof {
            assert(values_at(*c, assignment@).take(q as int + 1) =~= values_at(*c, assignment@).take(q as int).push(
                assignment@[x as int],
            ));
        }
        q = q + 1;
    }
    assert(values_at(*c, assignment@).take(c.variables@.len() as int) =~= values_at(*c, assignment@));
    r
}

impl<R: Predicate> EnergyLandscape<R> {
    /// Create a new energy landscape, with one variable per domain.
    pub fn new(domains: Vec<Vec<i64>>, constraints: Vec<Constraint<R>>) -> (l: Self)
        ensures
            l.num_variables == domains@.len(),
            l.domains@ == domains@,
            l.constraints@ == constraints@,
            l.well_formed() <==> (l.states().len() > 0 ==> checkable(constraints@, domains@.len())),
    {
        EnergyLandscape { num_variables: domains.len(), constraints, domains }
    }

    /// Compute the energy of a given assignment: the sum of the strengths of
    /// the constraints it violates. A fully satisfied assignment has energy 0.
    pub fn energy(&self, assignment: &[i64]) -> (r: u128)
        requires
            checkable(self.constraints@, assignment@.len()),
        ensures
            r == self.energy_spec(assignment@),
    {
        let ghost cons = self.constraints@;
        let ghost a = assignment@;
        let mut total: u128 = 0;
        let mut j: usize = 0;
        while j < self.constraints.len()
            invariant
                cons == self.constraints@,
                a == assignment@,
                j <= cons.len(),
                checkable(cons, a.len()),
                total == energy_of(cons.take(j as int), a),
            decreases cons.len() - j,
        {
            let c = &self.constraints[j];
            proof {
                assert(cons[j as int] == *c);
                assert forall|q: int| 0 <= q < c.variables@.len() implies (#[trigger] c.variables@[q] as int) < assignment@.len() by {
                    assert(cons[j as int].variables@[q] == c.variables@[q]);
                }
                assert(cons.take(j as int + 1).drop_last() =~= cons.take(j as int));
                assert(cons.take(j as int + 1).last() == *c);
                lemma_energy_bound(cons.take(j as int + 1), a);
                let bound = (j as int + 1) * (u64::MAX as int);
                assert(bound <= (usize::MAX as int) * (u64::MAX as int)) by (nonlinear_arith)
                    requires
                        j < usize::MAX,
                        bound == (j as int + 1) * (u64::MAX as int),
                ;
                assert((usize::MAX as int) * (u64::MAX as int) <= (u64::MAX as int) * (u64::MAX as int)) by (nonlinear_arith);
                assert((u64::MAX as int) * (u64::MAX as int) < u128::MAX) by (nonlinear_arith);
            }
            let vals = gather(c, assignment);
            if !c.is_satisfied(vals.as_slice()) {
                total = total + c.strength as u128;
            }
            j = j + 1;
        }
        assert(cons.take(cons.len() as int) =~= cons);
        total
    }

    /// Every state of the landscape, in enumeration order.
    fn all_states(&self) -> (r: Vec<Vec<i64>>)
        requires
            self.num_variables <= self.domains@.len(),
        ensures
            views(r@) == self.states(),
    {
        let mut prefix: Vec<i64> = Vec::new();
        let mut out: Vec<Vec<i64>> = Vec::new();
        enumerate_assignments(&self.domains, self.num_variables, &mut prefix, &mut out);
        proof {
            assert(views(Seq::<Vec<i64>>::empty()) =~= Seq::<Seq<i64>>::empty());
            assert(views(out@) =~= self.states());
        }
        out
    }

    proof fn lemma_states_len(&self)
        requires
            self.num_variables <= self.domains@.len(),
        ensures
            forall|j: int| 0 <= j < self.states().len() ==> (#[trigger] self.states()[j]).len() == self.num_variables,
    {
        let ds = self.dom_views();
        assert(ds.len() == self.num_variables);
        lemma_completions_len(ds, Seq::empty(), all_of(ds, 0));
    }

    /// The energy of every state, in enumeration order.
    pub fn collect_energies(&self) -> (r: Vec<u128>)
        requires
            self.well_formed(),
        ensures
            r@.len() == self.states().len(),
            forall|j: int| 0 <= j < r@.len() ==> r@[j] == self.energy_spec(#[trigger] self.states()[j]),
    {
        let states = self.all_states();
        proof {
            self.lemma_states_len();
        }
        let mut r: Vec<u128> = Vec::new();
        let mut j: usize = 0;
        while j < states.len()
            invariant
                self.well_formed(),
                views(states@) == self.states(),
                forall|t: int| 0 <= t < self.states().len() ==> (#[trigger] self.states()[t]).len() == self.num_variables,
                j <= states@.len(),
                r@.len() == j,
                forall|t: int| 0 <= t < j ==> r@[t] == self.energy_spec(#[trigger] self.states()[t]),
            decreases states@.len() - j,
        {
            assert(self.states()[j as int] == states@[j as int]@);
            let e = self.energy(states[j].as_slice());
            r.push(e);
            j = j + 1;
        }
        r
    }

    /// The lowest energy over all states, by enumeration; `None` when there
    /// is no state (some domain is empty). Only practical for small domains.
    pub fn minimum_energy(&self) -> (r: Option<u128>)
        requires
            self.well_formed(),
        ensures
            r is None <==> self.states().len() == 0,
            r matches Some(m) ==> m == lowest_energy(self.constraints@, self.states()),
    {
        let energies = self.collect_energies();
        let ghost cons = self.constraints@;
        let ghost st = self.states();
        let mut best: Option<u128> = None;
        let mut j: usize = 0;
        while j < energies.len()
            invariant
                cons == self.constraints@,
                st == self.states(),
                energies@.len() == st.len(),
                forall|t: int| 0 <= t < energies@.len() ==> energies@[t] == energy_of(cons, #[trigger] st[t]),
                j <= energies@.len(),
                best is None <==> j == 0,
                best matches Some(m) ==> is_lowest(cons, st.take(j as int), m as int),
            decreases energies@.len() - j,
        {
            let e = energies[j];
            let ghost prev = best;
            let ghost sj = st.take(j as int + 1);
            proof {
                assert(energies@[j as int] == energy_of(cons, st[j as int]));
                assert(sj[j as int] == st[j as int]);
                assert forall|t: int| 0 <= t < j implies sj[t] == #[trigger] st.take(j as int)[t] by {}
            }
            match best {
                None => {
                    best = Some(e);
                },
                Some(m) => {
                    if e < m {
                        best = Some(e);
                    }
                },
            }
            proof {
                let m = best->0;
                if prev is None {
                    assert(energy_of(cons, sj[j as int]) == m);
                } else {
                    let pm = prev->0;
                    let w = choose|w: int| 0 <= w < j && energy_of(cons, #[trigger] st.take(j as int)[w]) == pm;
                    if m == pm {
                        assert(energy_of(cons, sj[w]) == m);
                    } else {
                        assert(energy_of(cons, sj[j as int]) == m);
                    }
                    assert forall|t: int| 0 <= t < j + 1 implies m <= energy_of(cons, #[trigger] sj[t]) by {
                        if t < j {
                            assert(pm <= energy_of(cons, st.take(j as int)[t]));
                        }
                    }
                }
            }
            j = j + 1;
        }
        assert(st.take(st.len() as int) =~= st);
        proof {
            if best is Some {
                lemma_lowest_energy(cons, st, best->0 as int);
            }
        }
        best
    }

    /// The states whose energy is `target`, each with its energy, in
    /// enumeration order.
    fn find_at_energy(&self, target: u128) -> (r: Vec<(Vec<i64>, u128)>)
        requires
            self.well_formed(),
        ensures
            pair_states(r@) == states_at(self.constraints@, self.states(), target as int),
            paired_with_energy(self.constraints@, r@),
    {
        let states = self.all_states();
        let ghost cons = self.constraints@;
        let ghost st = self.states();
        proof {
            self.lemma_states_len();
        }
        let mut r: Vec<(Vec<i64>, u128)> = Vec::new();
        let mut j: usize = 0;
        while j < states.len()
            invariant
                self.well_formed(),
                cons == self.constraints@,
                st == self.states(),
                views(states@) == st,
                forall|t: int| 0 <= t < st.len() ==> (#[trigger] st[t]).len() == self.num_variables,
                j <= states@.len(),
                pair_states(r@) == states_at(cons, st.take(j as int), target as int),
                paired_with_energy(cons, r@),
            decreases states@.len() - j,
        {
            assert(st[j as int] == states@[j as int]@);
            let e = self.energy(states[j].as_slice());
            let ghost before = r@;
            if e == target {
                r.push((copy_values(states[j].as_slice()), e));
                proof {
                    assert(pair_states(r@) =~= pair_states(before).push(st[j as int]));
                    assert forall|t: int| 0 <= t < r@.len() implies (#[trigger] r@[t]).1 == energy_of(cons, r@[t].0@) by {
                        if t < before.len() {
                            assert(r@[t] == before[t]);
                        }
                    }
                }
            }
            proof {
                assert(st.take(j as int + 1).drop_last() =~= st.take(j as int));
                assert(st.take(j as int + 1).last() == st[j as int]);
            }
            j = j + 1;
        }
        assert(st.take(st.len() as int) =~= st);
        r
    }

    /// Find all global minima: the states of lowest energy, each with its
    /// energy, in enumeration order.
    pub fn global_minima(&self) -> (r: Vec<(Vec<i64>, u128)>)
        requires
            self.well_formed(),
        ensures
            pair_states(r@) == states_at(self.constraints@, self.states(), lowest_energy(self.constraints@, self.states())),
            paired_with_energy(self.constraints@, r@),
    {
        match self.minimum_energy() {
            None => {
                let r: Vec<(Vec<i64>, u128)> = Vec::new();
                assert(pair_states(r@) =~= Seq::<Seq<i64>>::empty());
                r
            },
            Some(m) => self.find_at_energy(m),
        }
    }

    /// Whether no state that differs from `assignment` in one variable, taking
    /// another value of that variable's domain, has an energy below `energy`.
    fn is_local_minimum(&self, assignment: &[i64], energy: u128) -> (r: bool)
        requires
            self.num_variables <= self.domains@.len(),
            self.num_variables <= assignment@.len(),
            checkable(self.constraints@, assignment@.len()),
        ensures
            r == no_lower_neighbour(self.constraints@, self.dom_views(), assignment@, energy as int),
    {
        let ghost cons = self.constraints@;
        let ghost ds = self.dom_views();
        let ghost a = assignment@;
        let mut i: usize = 0;
        while i < self.num_variables
            invariant
                cons == self.constraints@,
                ds == self.dom_views(),
                ds.len() == self.num_variables,
                a == assignment@,
                self.num_variables <= self.domains@.len(),
                self.num_variables <= a.len(),
                checkable(cons, a.len()),
                i <= self.num_variables,
                forall|i2: int, v: i64|
                    0 <= i2 < i && #[trigger] ds[i2].contains(v) && v != a[i2] ==> energy <= energy_of(cons, #[trigger] a.update(i2, v)),
            decreases self.num_variables - i,
        {
            let d = &self.domains[i];
            assert(ds[i as int] == d@);
            let mut k: usize = 0;
            while k < d.len()
                invariant
                    cons == self.constraints@,
                    ds == self.dom_views(),
                    ds.len() == self.num_variables,
                    a == assignment@,
                    ds[i as int] == d@,
                    i < self.num_variables <= a.len(),
                    checkable(cons, a.len()),
                    k <= d@.len(),
                    forall|t: int| 0 <= t < k && d@[t] != a[i as int] ==> energy <= energy_of(cons, #[trigger] a.update(i as int, d@[t])),
                decreases d@.len() - k,
            {
                let alt = d[k];
                if alt != assignment[i] {
                    let mut neighbour: Vec<i64> = copy_values(assignment);
                    neighbour.set(i, alt);
                    assert(neighbour@ =~= a.update(i as int, alt));
                    let e = self.energy(neighbour.as_slice());
                    if e < energy {
                        proof {
                            assert(ds[i as int][k as int] == alt);
                            assert(ds[i as int].contains(alt));
                            assert(energy_of(cons, a.update(i as int, alt)) < energy);
                        }
                        return false;
                    }
                }
                k = k + 1;
            }
            proof {
                assert forall|i2: int, v: i64|
                    0 <= i2 < i + 1 && #[trigger] ds[i2].contains(v) && v != a[i2] implies energy <= energy_of(cons, #[trigger] a.update(i2, v)) by {
                    if i2 == i {
                        let t = choose|t: int| 0 <= t < ds[i2].len() && ds[i2][t] == v;
                        assert(d@[t] == v);
                    }
                }
            }
            i = i + 1;
        }
        true
    }

    /// The local minima, each with its energy, in enumeration order.
    fn find_local_minima(&self) -> (r: Vec<(Vec<i64>, u128)>)
        requires
            self.well_formed(),
        ensures
            pair_states(r@) == local_minima_in(self.constraints@, self.dom_views(), self.states()),
            paired_with_energy(self.constraints@, r@),
    {
        let states = self.all_states();
        let ghost cons = self.constraints@;
        let ghost ds = self.dom_views();
        let ghost st = self.states();
        proof {
            self.lemma_states_len();
        }
        let mut r: Vec<(Vec<i64>, u128)> = Vec::new();
        let mut j: usize = 0;
        while j < states.len()
            invariant
                self.well_formed(),
                cons == self.constraints@,
                ds == self.dom_views(),
                st == self.states(),
                views(states@) == st,
                forall|t: int| 0 <= t < st.len() ==> (#[trigger] st[t]).len() == self.num_variables,
                j <= states@.len(),
                pair_states(r@) == local_minima_in(cons, ds, st.take(j as int)),
                paired_with_energy(cons, r@),
            decreases states@.len() - j,
        {
            assert(st[j as int] == states@[j as int]@);
            let e = self.energy(states[j].as_slice());
            let ghost before = r@;
            if self.is_local_minimum(states[j].as_slice(), e) {
                r.push((copy_values(states[j].as_slice()), e));
                proof {
                    assert(pair_states(r@) =~= pair_states(before).push(st[j as int]));
                    assert forall|t: int| 0 <= t < r@.len() implies (#[trigger] r@[t]).1 == energy_of(cons, r@[t].0@) by {
                        if t < before.len() {
                            assert(r@[t] == before[t]);
                        }
                    }
                }
            }
            proof {
                assert(st.take(j as int + 1).drop_last() =~= st.take(j as int));
                assert(st.take(j as int + 1).last() == st[j as int]);
            }
            j = j + 1;
        }
        assert(st.take(st.len() as int) =~= st);
        r
    }

    /// The local minima: states where changing any single variable to any
    /// other value in its domain does not decrease energy, each with its
    /// energy, in enumeration order.
    pub fn local_minima(&self) -> (r: Vec<(Vec<i64>, u128)>)
        requires
            self.well_formed(),
        ensures
            pair_states(r@) == local_minima_in(self.constraints@, self.dom_views(), self.states()),
            paired_with_energy(self.constraints@, r@),
    {
        self.find_local_minima()
    }

    /// The energy barrier between two states: the maximum energy along the
    /// direct path that changes one variable at a time, in order, from
    /// `state_a`'s value to `state_b`'s, the two ends included.
    pub fn energy_barrier(&self, state_a: &[i64], state_b: &[i64]) -> (r: u128)
        requires
            self.num_variables <= state_a@.len(),
            self.num_variables <= state_b@.len(),
            checkable(self.constraints@, state_a@.len()),
            checkable(self.constraints@, state_b@.len()),
        ensures
            r == path_peak(self.constraints@, state_a@, state_b@, self.num_variables as nat),
    {
        let ghost cons = self.constraints@;
        let ghost a = state_a@;
        let ghost b = state_b@;
        let e_a = self.energy(state_a);
        let e_b = self.energy(state_b);
        let base = if e_a >= e_b { e_a } else { e_b };
        let mut current: Vec<i64> = copy_values(state_a);
        let mut peak = base;
        assert(current@ =~= path_state(a, b, 0));
        let mut i: usize = 0;
        while i < self.num_variables
            invariant
                cons == self.constraints@,
                a == state_a@,
                b == state_b@,
                self.num_variables <= a.len(),
                self.num_variables <= b.len(),
                checkable(cons, a.len()),
                i <= self.num_variables,
                current@ == path_state(a, b, i as int),
                peak == path_peak(cons, a, b, i as nat),
                energy_of(cons, current@) <= peak,
            decreases self.num_variables - i,
        {
            if current[i] != state_b[i] {
                current.set(i, state_b[i]);
                assert(current@ =~= path_state(a, b, i as int + 1));
                let e = self.energy(current.as_slice());
                if e > peak {
                    peak = e;
                }
            } else {
                assert(current@ =~= path_state(a, b, i as int + 1));
            }
            i = i + 1;
        }
        peak
    }
}

/// The states reported as local minima are exactly the states (one value
/// from each variable's domain) that no change of a single variable, at any
/// position, to another value of its domain takes to a lower energy.
pub proof fn lemma_local_minima_law<R: Predicate>(l: EnergyLandscape<R>, r: Seq<(Vec<i64>, u128)>, s: Seq<i64>)
    requires
        l.num_variables <= l.domains@.len(),
        pair_states(r) == local_minima_in(l.constraints@, l.dom_views(), l.states()),
    ensures
        pair_states(r).contains(s) <==> {
            &&& s.len() == l.num_variables
            &&& forall|i: int| 0 <= i < l.num_variables ==> #[trigger] l.domains@[i]@.contains(s[i])
            &&& forall|i: int, v: i64|
                0 <= i < l.num_variables && #[trigger] l.domains@[i]@.contains(v) && v != s[i] ==> energy_of(l.constraints@, s)
                    <= energy_of(l.constraints@, #[trigger] s.update(i, v))
        },
{
    let ds = l.dom_views();
    lemma_local_minima_members(l.constraints@, ds, l.states(), s);
    lemma_state_space_members(ds, s);
    assert(ds.len() == l.num_variables);
    assert forall|i: int| 0 <= i < l.num_variables implies #[trigger] ds[i] == l.domains@[i]@ by {}
    let cons = l.constraints@;
    let e = energy_of(cons, s);
    let explicit = forall|i: int, v: i64|
        0 <= i < l.num_variables && #[trigger] l.domains@[i]@.contains(v) && v != s[i] ==> e <= energy_of(cons, #[trigger] s.update(i, v));
    if no_lower_neighbour(cons, ds, s, e) {
        assert forall|i: int, v: i64|
            0 <= i < l.num_variables && #[trigger] l.domains@[i]@.contains(v) && v != s[i] implies e <= energy_of(cons, #[trigger] s.update(i, v)) by {
            assert(ds[i] == l.domains@[i]@);
            assert(ds[i].contains(v));
        }
    }
    if explicit {
        assert forall|i: int, v: i64| 0 <= i < ds.len() && #[trigger] ds[i].contains(v) && v != s[i] implies e <= energy_of(cons, #[trigger] s.update(i, v)) by {
            assert(ds[i] == l.domains@[i]@);
            assert(l.domains@[i]@.contains(v));
        }
    }
    assert(fits_from(ds, s, 0) <==> forall|i: int| 0 <= i < l.num_variables ==> #[trigger] l.domains@[i]@.contains(s[i])) by {
        if fits_from(ds, s, 0) {
            assert forall|i: int| 0 <= i < l.num_variables implies #[trigger] l.domains@[i]@.contains(s[i]) by {
                assert(ds[i] == l.domains@[i]@);
                assert(ds[i].contains(s[i]));
            }
        }
        if forall|i: int| 0 <= i < l.num_variables ==> #[trigger] l.domains@[i]@.contains(s[i]) {
            assert forall|i: int| 0 <= i < ds.len() implies #[trigger] ds[i].contains(s[i]) by {
                assert(ds[i] == l.domains@[i]@);
                assert(l.domains@[i]@.contains(s[i]));
            }
        }
    }
}

/// The barrier is the highest energy along the path from `a` to `b` that
/// takes the variables' values from `b` one at a time, in order: it is at
/// least the energy of each state on the path (the first `k` values from
/// `b`, the rest from `a`, for every `k` up to `n`) and of `b`, and it is the
/// energy of one of them.
pub proof fn lemma_energy_barrier_law<R: Predicate>(cons: Seq<Constraint<R>>, a: Seq<i64>, b: Seq<i64>, n: nat, r: int)
    requires
        n <= a.len(),
        n <= b.len(),
        r == path_peak(cons, a, b, n),
    ensures
        r >= energy_of(cons, b),
        forall|k: int| 0 <= k <= n ==> r >= energy_of(cons, #[trigger] take_from(b, a, k)),
        r == energy_of(cons, b) || exists|k: int| 0 <= k <= n && r == energy_of(cons, #[trigger] take_from(b, a, k)),
    decreases n,
{
    assert(take_from(b, a, 0) =~= a);
    if n > 0 {
        lemma_energy_barrier_law(cons, a, b, (n - 1) as nat, path_peak(cons, a, b, (n - 1) as nat));
        assert(take_from(b, a, n as int) =~= path_state(a, b, n as int));
        let p = path_peak(cons, a, b, (n - 1) as nat);
        if r != energy_of(cons, b) && r == p {
            let k = choose|k: int| 0 <= k <= n - 1 && p == energy_of(cons, #[trigger] take_from(b, a, k));
            assert(0 <= k <= n);
        }
        if r != p {
            assert(r == energy_of(cons, take_from(b, a, n as int)));
        }
    }
}

/// `a` with its first `k` values taken from `b`.
pub open spec fn take_from(b: Seq<i64>, a: Seq<i64>, k: int) -> Seq<i64> {
    Seq::new(a.len(), |i: int| if i < k { b[i] } else { a[i] })
}

} // verus!
