//! Constraint propagation and arc consistency algorithms.

use vstd::prelude::*;
use crate::constraint::{Constraint, ConstraintType, Predicate, Variable};
use crate::domains::{
    all_shrunk, below, completes, consistent_at, doms, lemma_completes_at_p, lemma_completes_full,
    lemma_completes_split, lemma_completes_step, lemma_filter_all, lemma_filter_ext, lemma_filter_filter, lemma_filter_membership, lemma_filter_shrunk,
    lemma_shrunk_contains, lemma_shrunk_len, lemma_shrunk_refl, lemma_supported_is_completes, lemma_supported_mono,
    lemma_all_shrunk_refl, lemma_all_shrunk_trans, lemma_total_nonneg, lemma_total_shrunk,
    lemma_total_update, same_shape, shrunk, supported, total_size,
};

verus! {

/// Is there a support for `v` at position `p` of the first `k` variables of
/// `vs` that begins with the values in `t`?  Searches the remaining positions
/// value by value.
fn search_support<R: Predicate>(
    vars: &Vec<Variable>,
    rel: R,
    vs: &Vec<usize>,
    k: usize,
    p: usize,
    v: i64,
    t: &mut Vec<i64>,
) -> (r: bool)
    requires
        p < k <= vs@.len(),
        forall|q: int| 0 <= q < k ==> (vs@[q] as int) < vars@.len(),
        rel.min_len() <= k,
        old(t)@.len() <= k,
        p < old(t)@.len() ==> old(t)@[p as int] == v,
    ensures
        final(t)@ == old(t)@,
        r == completes(rel, doms(vars@), vs@.take(k as int), p as int, v, old(t)@),
    decreases k - old(t)@.len(),
{
    let ghost pre = t@;
    let ghost ds = doms(vars@);
    let ghost vsk = vs@.take(k as int);
    let j = t.len();
    if j == k {
        let r = rel.evaluate(t.as_slice());
        proof {
            lemma_completes_full(rel, ds, vsk, p as int, v, pre);
        }
        return r;
    }
    if j == p {
        t.push(v);
        let r = search_support(vars, rel, vs, k, p, v, t);
        t.pop();
        proof {
            assert(t@ =~= pre);
            lemma_completes_at_p(rel, ds, vsk, p as int, v, pre);
        }
        return r;
    }
    let y = vs[j];
    let n = vars[y].domain.len();
    assert(ds[vsk[j as int] as int] == vars@[y as int].domain@);
    let mut i: usize = 0;
    while i < n
        invariant
            t@ == pre,
            pre == old(t)@,
            pre.len() == j,
            j < k,
            j != p,
            p < k <= vs@.len(),
            forall|q: int| 0 <= q < k ==> (vs@[q] as int) < vars@.len(),
            rel.min_len() <= k,
            p < pre.len() ==> pre[p as int] == v,
            ds == doms(vars@),
            vsk == vs@.take(k as int),
            y == vs@[j as int],
            (y as int) < vars@.len(),
            n == vars@[y as int].domain@.len(),
            ds[vsk[j as int] as int] == vars@[y as int].domain@,
            i <= n,
            forall|i2: int| 0 <= i2 < i ==> !completes(rel, ds, vsk, p as int, v, pre.push(#[trigger] vars@[y as int].domain@[i2])),
        decreases n - i,
    {
        let w = vars[y].domain[i];
        t.push(w);
        let found = search_support(vars, rel, vs, k, p, v, t);
        t.pop();
        proof {
            assert(t@ =~= pre);
        }
        if found {
            proof {
                assert(vars@[y as int].domain@.contains(w)) by {
                    assert(vars@[y as int].domain@[i as int] == w);
                }
                lemma_completes_step(rel, ds, vsk, p as int, v, pre, w);
            }
            return true;
        }
        i = i + 1;
    }
    proof {
        if completes(rel, ds, vsk, p as int, v, pre) {
            lemma_completes_split(rel, ds, vsk, p as int, v, pre);
            let w = choose|w: i64| ds[vsk[j as int] as int].contains(w) && #[trigger] completes(rel, ds, vsk, p as int, v, pre.push(w));
            let i2 = choose|i2: int| 0 <= i2 < vars@[y as int].domain@.len() && vars@[y as int].domain@[i2] == w;
            assert(!completes(rel, ds, vsk, p as int, v, pre.push(vars@[y as int].domain@[i2])));
        }
    }
    false
}

/// The values of the variable at position `p` that have a support among the
/// first `k` variables of `vs`, in domain order.
fn supported_values<R: Predicate>(vars: &Vec<Variable>, rel: R, vs: &Vec<usize>, k: usize, p: usize) -> (r: Vec<i64>)
    requires
        p < k <= vs@.len(),
        forall|q: int| 0 <= q < k ==> (vs@[q] as int) < vars@.len(),
        rel.min_len() <= k,
    ensures
        r@ == vars@[vs@[p as int] as int].domain@.filter(
            |w: i64| supported(rel, doms(vars@), vs@.take(k as int), p as int, w),
        ),
{
    let ghost pred = |w: i64| supported(rel, doms(vars@), vs@.take(k as int), p as int, w);
    let x = vs[p];
    let ghost d = vars@[x as int].domain@;
    let n = vars[x].domain.len();
    let mut r: Vec<i64> = Vec::new();
    let mut i: usize = 0;
    while i < n
        invariant
            p < k <= vs@.len(),
            forall|q: int| 0 <= q < k ==> (vs@[q] as int) < vars@.len(),
            rel.min_len() <= k,
            x == vs@[p as int],
            d == vars@[x as int].domain@,
            n == d.len(),
            i <= n,
            pred == (|w: i64| supported(rel, doms(vars@), vs@.take(k as int), p as int, w)),
            r@ == d.take(i as int).filter(pred),
        decreases n - i,
    {
        let w = vars[x].domain[i];
        let mut t: Vec<i64> = Vec::new();
        let found = search_support(vars, rel, vs, k, p, w, &mut t);
        proof {
            assert(t@ =~= Seq::<i64>::empty());
            lemma_supported_is_completes(rel, doms(vars@), vs@.take(k as int), p as int, w);
            assert(d.take(i as int + 1) =~= d.take(i as int).push(w));
            d.take(i as int).lemma_filter_push(w, pred);
        }
        if found {
            r.push(w);
        }
        i = i + 1;
    }
    proof {
        assert(d.take(n as int) =~= d);
    }
    r
}

/// The domains `ds` with the values at position `p` of the first `k`
/// variables of `vs` that have no support removed.
pub open spec fn revised<R: Predicate>(rel: R, ds: Seq<Seq<i64>>, vs: Seq<usize>, k: nat, p: int) -> Seq<Seq<i64>> {
    ds.update(vs[p] as int, ds[vs[p] as int].filter(|w: i64| supported(rel, ds, vs.take(k as int), p, w)))
}

/// The domains after revising positions `0`, ..., `i - 1` of the first `k`
/// variables of `vs` in turn.
pub open spec fn sweep<R: Predicate>(rel: R, ds: Seq<Seq<i64>>, vs: Seq<usize>, k: nat, i: nat) -> Seq<Seq<i64>>
    decreases i,
{
    if i == 0 {
        ds
    } else {
        revised(rel, sweep(rel, ds, vs, k, (i - 1) as nat), vs, k, i - 1)
    }
}

/// Revising position `p` in such a sweep leaves its variable's domain non-empty.
pub open spec fn survives<R: Predicate>(rel: R, ds: Seq<Seq<i64>>, vs: Seq<usize>, k: nat, p: int) -> bool {
    sweep(rel, ds, vs, k, (p + 1) as nat)[vs[p] as int].len() > 0
}

/// One propagation pass of `c` over the domains `ds`: the positions of its
/// scope are revised in turn, stopping at the first whose domain is wiped out.
/// `ok` tells whether none was, and `res` is what is left.
pub open spec fn pass_result<R: Predicate>(c: Constraint<R>, ds: Seq<Seq<i64>>, ok: bool, res: Seq<Seq<i64>>) -> bool {
    let k = scope(c);
    let vs = c.variables@;
    &&& ok == forall|p: int| 0 <= p < k ==> #[trigger] survives(c.relation, ds, vs, k, p)
    &&& ok ==> res == sweep(c.relation, ds, vs, k, k)
    &&& !ok ==> exists|p: int|
        0 <= p < k && !#[trigger] survives(c.relation, ds, vs, k, p) && (forall|q: int| 0 <= q < p ==> #[trigger] survives(c.relation, ds, vs, k, q))
            && res == sweep(c.relation, ds, vs, k, (p + 1) as nat)
}

/// Keep only the supported values of the variable at position `p` of the
/// first `k` variables of `vs`; record in `changed` whether any was removed.
/// Returns whether that domain is still non-empty.
fn revise<R: Predicate>(
    vars: &mut Vec<Variable>,
    rel: R,
    vs: &Vec<usize>,
    k: usize,
    p: usize,
    changed: &mut bool,
) -> (nonempty: bool)
    requires
        p < k <= vs@.len(),
        forall|q: int| 0 <= q < k ==> (vs@[q] as int) < old(vars)@.len(),
        rel.min_len() <= k,
    ensures
        same_shape(old(vars)@, final(vars)@),
        doms(final(vars)@) == revised(rel, doms(old(vars)@), vs@, k as nat, p as int),
        all_shrunk(doms(old(vars)@), doms(final(vars)@)),
        total_size(doms(final(vars)@)) <= total_size(doms(old(vars)@)),
        total_size(doms(final(vars)@)) == total_size(doms(old(vars)@)) ==> doms(final(vars)@) == doms(old(vars)@),
        *final(changed) == (*old(changed) || total_size(doms(final(vars)@)) < total_size(doms(old(vars)@))),
        nonempty == (doms(final(vars)@)[vs@[p as int] as int].len() > 0),
        forall|fam: Seq<Seq<i64>>|
            below(fam, doms(old(vars)@)) && consistent_at(rel, fam, vs@.take(k as int), p as int)
                ==> #[trigger] below(fam, doms(final(vars)@)),
        doms(final(vars)@) == doms(old(vars)@) ==> consistent_at(rel, doms(final(vars)@), vs@.take(k as int), p as int),
        (forall|q: int| 0 <= q < k && q != p ==> vs@[q] != vs@[p as int]) ==> consistent_at(rel, doms(final(vars)@), vs@.take(k as int), p as int),
        (forall|q: int| 0 <= q < k && q != p ==> vs@[q] != vs@[p as int]) ==> forall|q: int|
            0 <= q < k && q != p && consistent_at(rel, doms(old(vars)@), vs@.take(k as int), q)
                ==> #[trigger] consistent_at(rel, doms(final(vars)@), vs@.take(k as int), q),
{
    let ghost ov = vars@;
    let ghost ds = doms(vars@);
    let ghost vsk = vs@.take(k as int);
    let ghost pred = |w: i64| supported(rel, ds, vsk, p as int, w);
    let newd = supported_values(vars, rel, vs, k, p);
    let x = vs[p];
    let old_len = vars[x].domain.len();
    let new_len = newd.len();
    vars[x].domain = newd;
    if new_len != old_len {
        *changed = true;
    }
    proof {
        let nds = doms(vars@);
        let fd = ds[x as int].filter(pred);
        assert(nds =~= ds.update(x as int, fd));
        lemma_filter_shrunk(ds[x as int], pred);
        assert(all_shrunk(ds, nds)) by {
            assert forall|i: int| 0 <= i < ds.len() implies shrunk(#[trigger] ds[i], nds[i]) by {
                if i != x {
                    lemma_shrunk_refl(ds[i]);
                }
            }
        }
        lemma_total_update(ds, x as int, fd);
        lemma_total_shrunk(ds, nds);
        lemma_shrunk_len(ds[x as int], fd);
        assert forall|fam: Seq<Seq<i64>>|
            below(fam, ds) && consistent_at(rel, fam, vsk, p as int) implies #[trigger] below(fam, nds) by {
            assert forall|i: int, v: i64| 0 <= i < fam.len() && #[trigger] fam[i].contains(v) implies nds[i].contains(v) by {
                if i == x {
                    assert(vsk[p as int] == x);
                    assert(supported(rel, fam, vsk, p as int, v));
                    lemma_supported_mono(rel, fam, ds, vsk, p as int, v);
                    lemma_filter_membership(ds[x as int], pred, v);
                }
            }
        }
        if nds == ds {
            assert forall|v: i64| #[trigger] nds[vsk[p as int] as int].contains(v) implies supported(rel, nds, vsk, p as int, v) by {
                lemma_filter_membership(ds[x as int], pred, v);
            }
        }
        if forall|q: int| 0 <= q < k && q != p ==> vs@[q] != vs@[p as int] {
            assert forall|v: i64| #[trigger] nds[vsk[p as int] as int].contains(v) implies supported(rel, nds, vsk, p as int, v) by {
                lemma_filter_membership(ds[x as int], pred, v);
                let t = choose|t: Seq<i64>|
                    #[trigger] rel.holds(t) && t.len() == vsk.len() && t[p as int] == v && forall|q2: int|
                        0 <= q2 < vsk.len() && q2 != p ==> ds[vsk[q2] as int].contains(t[q2]);
                assert forall|q2: int| 0 <= q2 < vsk.len() && q2 != p implies nds[vsk[q2] as int].contains(t[q2]) by {
                    assert(vsk[q2] != x);
                }
            }
            assert forall|q: int|
                0 <= q < k && q != p && consistent_at(rel, ds, vsk, q) implies #[trigger] consistent_at(rel, nds, vsk, q) by {
                assert forall|w: i64| #[trigger] nds[vsk[q] as int].contains(w) implies supported(rel, nds, vsk, q, w) by {
                    assert(vsk[q] != x);
                    assert(ds[vsk[q] as int].contains(w));
                    assert(supported(rel, ds, vsk, q, w));
                    let t = choose|t: Seq<i64>|
                        #[trigger] rel.holds(t) && t.len() == vsk.len() && t[q] == w && forall|q2: int|
                            0 <= q2 < vsk.len() && q2 != q ==> ds[vsk[q2] as int].contains(t[q2]);
                    assert(supported(rel, ds, vsk, p as int, t[p as int])) by {
                        assert forall|q2: int| 0 <= q2 < vsk.len() && q2 != p implies ds[vsk[q2] as int].contains(t[q2]) by {
                            if q2 == q {
                            }
                        }
                    }
                    assert(ds[x as int].contains(t[p as int]));
                    lemma_filter_membership(ds[x as int], pred, t[p as int]);
                    assert forall|q2: int| 0 <= q2 < vsk.len() && q2 != q implies nds[vsk[q2] as int].contains(t[q2]) by {
                        if q2 != p {
                            assert(vsk[q2] != x);
                        }
                    }
                }
            }
        }
    }
    new_len > 0
}


/// How many leading variables of `c` its propagation looks at: one for a
/// unary constraint, two for a binary one, all of them for an n-ary one
/// (none when it has fewer than two).
pub open spec fn scope<R: Predicate>(c: Constraint<R>) -> nat {
    match c.constraint_type {
        ConstraintType::Unary => 1,
        ConstraintType::Binary => 2,
        ConstraintType::Nary(_) => if c.variables@.len() <= 1 { 0 } else { c.variables@.len() },
    }
}

/// `c` can be propagated over `n` variables: the variables in its scope exist
/// and its relation can be checked on that many values.
pub open spec fn propagatable<R: Predicate>(c: Constraint<R>, n: nat) -> bool {
    &&& scope(c) <= c.variables@.len()
    &&& scope(c) > 0 ==> c.relation.min_len() <= scope(c)
    &&& forall|q: int| 0 <= q < scope(c) ==> (c.variables@[q] as int) < n
}

/// Every value at every position of the scope of `c` is supported.
pub open spec fn consistent_with<R: Predicate>(c: Constraint<R>, ds: Seq<Seq<i64>>) -> bool {
    forall|p: int| 0 <= p < scope(c) ==> #[trigger] consistent_at(c.relation, ds, c.variables@.take(scope(c) as int), p)
}

/// The variables in the scope of `c` have non-empty domains in `ds`.
pub open spec fn scope_nonempty<R: Predicate>(c: Constraint<R>, ds: Seq<Seq<i64>>) -> bool {
    forall|p: int| #![trigger c.variables@[p]] 0 <= p < scope(c) ==> ds[c.variables@[p] as int].len() > 0
}

/// Every constraint is consistent with the domains `ds`.
pub open spec fn all_consistent<R: Predicate>(cons: Seq<Constraint<R>>, ds: Seq<Seq<i64>>) -> bool {
    forall|i: int| 0 <= i < cons.len() ==> #[trigger] consistent_with(cons[i], ds)
}

/// Every family of domains within `orig` that is consistent with all
/// constraints lies within `ds`: propagation removed no value that such a
/// family uses.
pub open spec fn keeps_consistent<R: Predicate>(cons: Seq<Constraint<R>>, orig: Seq<Seq<i64>>, ds: Seq<Seq<i64>>) -> bool {
    forall|fam: Seq<Seq<i64>>| below(fam, orig) && all_consistent(cons, fam) ==> #[trigger] below(fam, ds)
}

/// Propagate a unary constraint: keep the values that satisfy it.
fn propagate_unary<R: Predicate>(variables: &mut Vec<Variable>, constraint: &Constraint<R>, changed: &mut bool) -> (r: bool)
    requires
        constraint.constraint_type == ConstraintType::Unary,
        propagatable(*constraint, old(variables)@.len()),
    ensures
        same_shape(old(variables)@, final(variables)@),
        all_shrunk(doms(old(variables)@), doms(final(variables)@)),
        total_size(doms(final(variables)@)) == total_size(doms(old(variables)@)) ==> doms(final(variables)@) == doms(old(variables)@),
        *final(changed) == (*old(changed) || total_size(doms(final(variables)@)) < total_size(doms(old(variables)@))),
        forall|fam: Seq<Seq<i64>>|
            below(fam, doms(old(variables)@)) && consistent_with(*constraint, fam) ==> #[trigger] below(fam, doms(final(variables)@)),
        r && doms(final(variables)@) == doms(old(variables)@) ==> consistent_with(*constraint, doms(final(variables)@)),
        r ==> scope_nonempty(*constraint, doms(final(variables)@)),
        !r ==> !scope_nonempty(*constraint, doms(final(variables)@)),
        pass_result(*constraint, doms(old(variables)@), r, doms(final(variables)@)),
        !r ==> exists|i: int| 0 <= i < final(variables)@.len() && doms(final(variables)@)[i].len() == 0,
{
    let ghost d0 = doms(variables@);
    let r = revise(variables, constraint.relation, &constraint.variables, 1, 0, changed);
    proof {
        let rel = constraint.relation;
        let vs = constraint.variables@;
        assert(sweep(rel, d0, vs, 1, 0) == d0);
        assert(sweep(rel, d0, vs, 1, 1) == revised(rel, d0, vs, 1, 0));
        assert(survives(rel, d0, vs, 1, 0) == r);
        let vsk = constraint.variables@.take(1);
        assert forall|fam: Seq<Seq<i64>>| consistent_with(*constraint, fam) implies consistent_at(constraint.relation, fam, vsk, 0) by {
            assert(consistent_at(constraint.relation, fam, constraint.variables@.take(scope(*constraint) as int), 0));
        }
    }
    r
}

/// Propagate a binary constraint in both directions.
fn propagate_binary<R: Predicate>(variables: &mut Vec<Variable>, constraint: &Constraint<R>, changed: &mut bool) -> (r: bool)
    requires
        constraint.constraint_type == ConstraintType::Binary,
        propagatable(*constraint, old(variables)@.len()),
    ensures
        same_shape(old(variables)@, final(variables)@),
        all_shrunk(doms(old(variables)@), doms(final(variables)@)),
        total_size(doms(final(variables)@)) == total_size(doms(old(variables)@)) ==> doms(final(variables)@) == doms(old(variables)@),
        *final(changed) == (*old(changed) || total_size(doms(final(variables)@)) < total_size(doms(old(variables)@))),
        forall|fam: Seq<Seq<i64>>|
            below(fam, doms(old(variables)@)) && consistent_with(*constraint, fam) ==> #[trigger] below(fam, doms(final(variables)@)),
        r && doms(final(variables)@) == doms(old(variables)@) ==> consistent_with(*constraint, doms(final(variables)@)),
        r ==> scope_nonempty(*constraint, doms(final(variables)@)),
        !r ==> !scope_nonempty(*constraint, doms(final(variables)@)),
        pass_result(*constraint, doms(old(variables)@), r, doms(final(variables)@)),
        !r ==> exists|i: int| 0 <= i < final(variables)@.len() && doms(final(variables)@)[i].len() == 0,
{
    let ghost d0 = doms(variables@);
    let ghost rel = constraint.relation;
    let ghost vsk = constraint.variables@.take(2);
    // Forward: remove values of the first variable with no support in the second.
    let forward = revise(variables, constraint.relation, &constraint.variables, 2, 0, changed);
    let ghost vs = constraint.variables@;
    proof {
        assert(sweep(rel, d0, vs, 2, 0) == d0);
        assert(sweep(rel, d0, vs, 2, 1) == revised(rel, d0, vs, 2, 0));
        assert(survives(rel, d0, vs, 2, 0) == forward);
    }
    if !forward {
        return false;
    }
    let ghost d1 = doms(variables@);
    // Backward: remove values of the second variable with no support in the first.
    let backward = revise(variables, constraint.relation, &constraint.variables, 2, 1, changed);
    proof {
        let d2 = doms(variables@);
        assert(sweep(rel, d0, vs, 2, 2) == revised(rel, d1, vs, 2, 1));
        assert(survives(rel, d0, vs, 2, 1) == backward);
        if !backward {
            assert(forall|q: int| 0 <= q < 1 ==> #[trigger] survives(rel, d0, vs, 2, q));
        }
        lemma_all_shrunk_trans(d0, d1, d2);
        lemma_total_shrunk(d0, d1);
        lemma_total_shrunk(d1, d2);
        assert forall|fam: Seq<Seq<i64>>|
            below(fam, d0) && consistent_with(*constraint, fam) implies #[trigger] below(fam, d2) by {
            assert(consistent_at(rel, fam, vsk, 0));
            assert(consistent_at(rel, fam, vsk, 1));
            assert(below(fam, d1));
        }
        if d2 == d0 {
            assert(d1 == d0);
            assert forall|p: int| 0 <= p < scope(*constraint) implies #[trigger] consistent_at(
                rel,
                d2,
                constraint.variables@.take(scope(*constraint) as int),
                p,
            ) by {
                assert(constraint.variables@.take(scope(*constraint) as int) == vsk);
            }
        }
    }
    backward
}

/// Propagate an n-ary constraint: at each position keep the values that have
/// a support among the current domains of the other positions.
fn propagate_nary<R: Predicate>(variables: &mut Vec<Variable>, constraint: &Constraint<R>, changed: &mut bool) -> (r: bool)
    requires
        constraint.constraint_type is Nary,
        propagatable(*constraint, old(variables)@.len()),
    ensures
        same_shape(old(variables)@, final(variables)@),
        all_shrunk(doms(old(variables)@), doms(final(variables)@)),
        total_size(doms(final(variables)@)) == total_size(doms(old(variables)@)) ==> doms(final(variables)@) == doms(old(variables)@),
        *final(changed) == (*old(changed) || total_size(doms(final(variables)@)) < total_size(doms(old(variables)@))),
        forall|fam: Seq<Seq<i64>>|
            below(fam, doms(old(variables)@)) && consistent_with(*constraint, fam) ==> #[trigger] below(fam, doms(final(variables)@)),
        r && doms(final(variables)@) == doms(old(variables)@) ==> consistent_with(*constraint, doms(final(variables)@)),
        r ==> scope_nonempty(*constraint, doms(final(variables)@)),
        !r ==> !scope_nonempty(*constraint, doms(final(variables)@)),
        pass_result(*constraint, doms(old(variables)@), r, doms(final(variables)@)),
        !r ==> exists|i: int| 0 <= i < final(variables)@.len() && doms(final(variables)@)[i].len() == 0,
{
    let ghost d0 = doms(variables@);
    let ghost ov = variables@;
    let ghost rel = constraint.relation;
    let ghost sc = scope(*constraint);
    let ghost vsk = constraint.variables@.take(sc as int);
    let ghost ch0 = *changed;
    let len = constraint.variables.len();
    proof {
        lemma_all_shrunk_refl(d0);
        lemma_total_shrunk(d0, d0);
    }
    if len <= 1 {
        // No other variable can support a value.
        return true;
    }
    assert(sc == len);
    assert(sweep(rel, d0, constraint.variables@, len as nat, 0) == d0);
    let mut i: usize = 0;
    while i < len
        invariant
            len == constraint.variables@.len(),
            2 <= len,
            sc == len,
            sc == scope(*constraint),
            vsk == constraint.variables@.take(len as int),
            rel == constraint.relation,
            propagatable(*constraint, ov.len()),
            ov == old(variables)@,
            d0 == doms(ov),
            ch0 == *old(changed),
            i <= len,
            same_shape(ov, variables@),
            all_shrunk(d0, doms(variables@)),
            total_size(doms(variables@)) <= total_size(d0),
            total_size(doms(variables@)) == total_size(d0) ==> doms(variables@) == d0,
            *changed == (ch0 || total_size(doms(variables@)) < total_size(d0)),
            forall|fam: Seq<Seq<i64>>|
                below(fam, d0) && consistent_with(*constraint, fam) ==> #[trigger] below(fam, doms(variables@)),
            doms(variables@) == d0 ==> forall|p: int| 0 <= p < i ==> #[trigger] consistent_at(rel, doms(variables@), vsk, p),
            forall|p: int| #![trigger constraint.variables@[p]] 0 <= p < i ==> doms(variables@)[constraint.variables@[p] as int].len() > 0,
            doms(variables@) == sweep(rel, d0, constraint.variables@, len as nat, i as nat),
            forall|q: int| 0 <= q < i ==> #[trigger] survives(rel, d0, constraint.variables@, len as nat, q),
        decreases len - i,
    {
        let ghost dc = doms(variables@);
        let ghost vc = variables@;
        let ok = revise(variables, constraint.relation, &constraint.variables, len, i, changed);
        proof {
            let dn = doms(variables@);
            lemma_all_shrunk_trans(d0, dc, dn);
            lemma_total_shrunk(dc, dn);
            lemma_total_shrunk(d0, dn);
            assert(same_shape(ov, variables@)) by {
                assert forall|j: int| 0 <= j < ov.len() implies (#[trigger] ov[j]).id == variables@[j].id && ov[j].value == variables@[j].value by {
                    assert(vc[j].id == variables@[j].id);
                }
            }
            assert forall|fam: Seq<Seq<i64>>|
                below(fam, d0) && consistent_with(*constraint, fam) implies #[trigger] below(fam, dn) by {
                assert(consistent_at(rel, fam, vsk, i as int));
                assert(below(fam, dc));
            }
            if dn == d0 {
                assert(dc == d0);
            }
            assert(sweep(rel, d0, constraint.variables@, len as nat, (i + 1) as nat) == revised(rel, dc, constraint.variables@, len as nat, i as int));
            assert(survives(rel, d0, constraint.variables@, len as nat, i as int) == ok);
        }
        if !ok {
            return false;
        }
        proof {
            let dn = doms(variables@);
            assert forall|p: int| #![trigger constraint.variables@[p]] 0 <= p < i + 1 implies dn[constraint.variables@[p] as int].len() > 0 by {
                if p < i && constraint.variables@[p] != constraint.variables@[i as int] {
                    assert(dn[constraint.variables@[p] as int] == dc[constraint.variables@[p] as int]);
                }
            }
        }
        i = i + 1;
    }
    proof {
        if doms(variables@) == d0 {
            assert forall|p: int| 0 <= p < sc implies #[trigger] consistent_at(rel, doms(variables@), constraint.variables@.take(sc as int), p) by {
            }
        }
    }
    true
}

/// Propagate a single constraint, removing values without support.
fn propagate_constraint<R: Predicate>(variables: &mut Vec<Variable>, constraint: &Constraint<R>, changed: &mut bool) -> (r: bool)
    requires
        propagatable(*constraint, old(variables)@.len()),
    ensures
        same_shape(old(variables)@, final(variables)@),
        all_shrunk(doms(old(variables)@), doms(final(variables)@)),
        total_size(doms(final(variables)@)) == total_size(doms(old(variables)@)) ==> doms(final(variables)@) == doms(old(variables)@),
        *final(changed) == (*old(changed) || total_size(doms(final(variables)@)) < total_size(doms(old(variables)@))),
        forall|fam: Seq<Seq<i64>>|
            below(fam, doms(old(variables)@)) && consistent_with(*constraint, fam) ==> #[trigger] below(fam, doms(final(variables)@)),
        r && doms(final(variables)@) == doms(old(variables)@) ==> consistent_with(*constraint, doms(final(variables)@)),
        r ==> scope_nonempty(*constraint, doms(final(variables)@)),
        !r ==> !scope_nonempty(*constraint, doms(final(variables)@)),
        pass_result(*constraint, doms(old(variables)@), r, doms(final(variables)@)),
        !r ==> exists|i: int| 0 <= i < final(variables)@.len() && doms(final(variables)@)[i].len() == 0,
{
    match constraint.constraint_type {
        ConstraintType::Unary => propagate_unary(variables, constraint, changed),
        ConstraintType::Binary => propagate_binary(variables, constraint, changed),
        ConstraintType::Nary(_) => propagate_nary(variables, constraint, changed),
    }
}

/// Perform constraint propagation: repeatedly remove from the domains the
/// values that have no support under some constraint, until nothing changes.
///
/// Returns false when a domain was wiped out.
pub fn propagate<R: Predicate>(variables: &mut Vec<Variable>, constraints: &[Constraint<R>]) -> (r: bool)
    requires
        forall|i: int| 0 <= i < constraints@.len() ==> #[trigger] propagatable(constraints@[i], old(variables)@.len()),
    ensures
        same_shape(old(variables)@, final(variables)@),
        all_shrunk(doms(old(variables)@), doms(final(variables)@)),
        keeps_consistent(constraints@, doms(old(variables)@), doms(final(variables)@)),
        r ==> all_consistent(constraints@, doms(final(variables)@)),
        r ==> forall|j: int| 0 <= j < constraints@.len() ==> #[trigger] scope_nonempty(constraints@[j], doms(final(variables)@)),
        !r ==> exists|j: int| 0 <= j < constraints@.len() && !#[trigger] scope_nonempty(constraints@[j], doms(final(variables)@)),
        !r ==> exists|i: int| 0 <= i < final(variables)@.len() && doms(final(variables)@)[i].len() == 0,
{
    let ghost ov = variables@;
    let ghost d0 = doms(variables@);
    let mut changed = true;
    proof {
        lemma_all_shrunk_refl(d0);
        lemma_total_nonneg(d0);
    }
    while changed
        invariant
            forall|i: int| 0 <= i < constraints@.len() ==> #[trigger] propagatable(constraints@[i], ov.len()),
            ov == old(variables)@,
            d0 == doms(ov),
            same_shape(ov, variables@),
            all_shrunk(d0, doms(variables@)),
            keeps_consistent(constraints@, d0, doms(variables@)),
            !changed ==> all_consistent(constraints@, doms(variables@)),
            !changed ==> forall|j: int| 0 <= j < constraints@.len() ==> #[trigger] scope_nonempty(constraints@[j], doms(variables@)),
        decreases total_size(doms(variables@)) + (if changed { 1int } else { 0int }),
    {
        let ghost start = doms(variables@);
        changed = false;
        proof {
            lemma_all_shrunk_refl(start);
        }
        let mut ci: usize = 0;
        while ci < constraints.len()
            invariant
                forall|i: int| 0 <= i < constraints@.len() ==> #[trigger] propagatable(constraints@[i], ov.len()),
                ov == old(variables)@,
                d0 == doms(ov),
                ci <= constraints@.len(),
                same_shape(ov, variables@),
                all_shrunk(d0, doms(variables@)),
                all_shrunk(start, doms(variables@)),
                keeps_consistent(constraints@, d0, doms(variables@)),
                changed == (total_size(doms(variables@)) < total_size(start)),
                total_size(doms(variables@)) <= total_size(start),
                !changed ==> doms(variables@) == start,
                !changed ==> forall|j: int| 0 <= j < ci ==> #[trigger] consistent_with(constraints@[j], doms(variables@)),
                !changed ==> forall|j: int| 0 <= j < ci ==> #[trigger] scope_nonempty(constraints@[j], doms(variables@)),
            decreases constraints@.len() - ci,
        {
            let ghost dc = doms(variables@);
            let ghost vc = variables@;
            let ok = propagate_constraint(variables, &constraints[ci], &mut changed);
            proof {
                let dn = doms(variables@);
                lemma_all_shrunk_trans(d0, dc, dn);
                lemma_all_shrunk_trans(start, dc, dn);
                lemma_total_shrunk(dc, dn);
                lemma_total_shrunk(start, dn);
                assert(same_shape(ov, variables@)) by {
                    assert forall|j: int| 0 <= j < ov.len() implies (#[trigger] ov[j]).id == variables@[j].id && ov[j].value == variables@[j].value by {
                        assert(vc[j].id == variables@[j].id);
                    }
                }
                assert forall|fam: Seq<Seq<i64>>| below(fam, d0) && all_consistent(constraints@, fam) implies #[trigger] below(fam, dn) by {
                    assert(below(fam, dc));
                    assert(consistent_with(constraints@[ci as int], fam));
                }
            }
            if !ok {
                return false;
            }
            ci = ci + 1;
        }
        proof {
            lemma_total_nonneg(doms(variables@));
            if !changed {
                assert forall|i: int| 0 <= i < constraints@.len() implies #[trigger] consistent_with(constraints@[i], doms(variables@)) by {
                }
                assert forall|i: int| 0 <= i < constraints@.len() implies #[trigger] scope_nonempty(constraints@[i], doms(variables@)) by {
                }
            }
        }
    }
    true
}


/// A binary constraint (by arity) whose variables lie among `n` variables.
pub open spec fn arc_revisable<R: Predicate>(c: Constraint<R>, n: nat) -> bool {
    c.variables@.len() == 2 ==> (c.variables@[0] as int) < n && (c.variables@[1] as int) < n && c.relation.min_len() <= 2
}

/// Both arcs of a constraint of arity two are consistent with `ds`.
pub open spec fn arc_consistent_with<R: Predicate>(c: Constraint<R>, ds: Seq<Seq<i64>>) -> bool {
    c.variables@.len() == 2 ==> consistent_at(c.relation, ds, c.variables@, 0) && consistent_at(c.relation, ds, c.variables@, 1)
}

/// Every constraint of arity two is arc consistent with `ds`.
pub open spec fn all_arc_consistent<R: Predicate>(cons: Seq<Constraint<R>>, ds: Seq<Seq<i64>>) -> bool {
    forall|i: int| 0 <= i < cons.len() ==> #[trigger] arc_consistent_with(cons[i], ds)
}

/// Both variables of a constraint of arity two have non-empty domains in `ds`.
pub open spec fn arc_nonempty<R: Predicate>(c: Constraint<R>, ds: Seq<Seq<i64>>) -> bool {
    c.variables@.len() == 2 ==> ds[c.variables@[0] as int].len() > 0 && ds[c.variables@[1] as int].len() > 0
}

/// The arc at position `p` of constraint `ci` is waiting in the queue or its
/// variable's domain is non-empty.
pub open spec fn arc_filled<R: Predicate>(cons: Seq<Constraint<R>>, ds: Seq<Seq<i64>>, queue: Seq<(usize, usize)>, ci: int, p: int) -> bool {
    queue.contains((cons[ci].variables@[p], ci as usize)) || ds[cons[ci].variables@[p] as int].len() > 0
}

/// Every family within `orig` that is arc consistent lies within `ds`.
pub open spec fn keeps_arc_consistent<R: Predicate>(cons: Seq<Constraint<R>>, orig: Seq<Seq<i64>>, ds: Seq<Seq<i64>>) -> bool {
    forall|fam: Seq<Seq<i64>>| below(fam, orig) && all_arc_consistent(cons, fam) ==> #[trigger] below(fam, ds)
}

/// An arc, a variable and a constraint of arity two over it, waiting to be revised.
pub open spec fn arc_in_queue<R: Predicate>(cons: Seq<Constraint<R>>, e: (usize, usize)) -> bool {
    &&& (e.1 as int) < cons.len()
    &&& cons[e.1 as int].variables@.len() == 2
    &&& (e.0 == cons[e.1 as int].variables@[0] || e.0 == cons[e.1 as int].variables@[1])
}

/// The arc at position `p` of constraint `ci` is waiting in the queue or consistent.
pub open spec fn arc_settled<R: Predicate>(cons: Seq<Constraint<R>>, ds: Seq<Seq<i64>>, queue: Seq<(usize, usize)>, ci: int, p: int) -> bool {
    queue.contains((cons[ci].variables@[p], ci as usize)) || consistent_at(cons[ci].relation, ds, cons[ci].variables@, p)
}

proof fn lemma_consistent_at_frame<R: Predicate>(rel: R, ds: Seq<Seq<i64>>, ds2: Seq<Seq<i64>>, vs: Seq<usize>, p: int)
    requires
        0 <= p < vs.len(),
        consistent_at(rel, ds, vs, p),
        forall|q: int| 0 <= q < vs.len() && q != p ==> ds2[vs[q] as int] == ds[vs[q] as int],
        forall|v: i64| ds2[vs[p] as int].contains(v) ==> ds[vs[p] as int].contains(v),
    ensures
        consistent_at(rel, ds2, vs, p),
{
    assert forall|v: i64| #[trigger] ds2[vs[p] as int].contains(v) implies supported(rel, ds2, vs, p, v) by {
        assert(ds[vs[p] as int].contains(v));
        let t = choose|t: Seq<i64>|
            #[trigger] rel.holds(t) && t.len() == vs.len() && t[p] == v && forall|q: int|
                0 <= q < vs.len() && q != p ==> ds[vs[q] as int].contains(t[q]);
        assert forall|q: int| 0 <= q < vs.len() && q != p implies ds2[vs[q] as int].contains(t[q]) by {
            assert(ds[vs[q] as int].contains(t[q]));
        }
    }
}

/// Enforce arc consistency (AC-3) on the constraints of arity two: revise arcs
/// from a work queue, re-queueing the arcs that lean on a domain that shrank.
///
/// Returns false when a domain was wiped out.
pub fn arc_consistency<R: Predicate>(variables: &mut Vec<Variable>, constraints: &[Constraint<R>]) -> (r: bool)
    requires
        forall|i: int| 0 <= i < constraints@.len() ==> #[trigger] arc_revisable(constraints@[i], old(variables)@.len()),
    ensures
        same_shape(old(variables)@, final(variables)@),
        all_shrunk(doms(old(variables)@), doms(final(variables)@)),
        keeps_arc_consistent(constraints@, doms(old(variables)@), doms(final(variables)@)),
        r ==> forall|i: int|
            0 <= i < constraints@.len() && constraints@[i].variables@.len() == 2 && constraints@[i].variables@[0]
                != constraints@[i].variables@[1] ==> #[trigger] arc_consistent_with(constraints@[i], doms(final(variables)@)),
        r ==> forall|i: int| 0 <= i < constraints@.len() ==> #[trigger] arc_nonempty(constraints@[i], doms(final(variables)@)),
        !r ==> exists|i: int| 0 <= i < constraints@.len() && !#[trigger] arc_nonempty(constraints@[i], doms(final(variables)@)),
        !r ==> exists|i: int| 0 <= i < final(variables)@.len() && doms(final(variables)@)[i].len() == 0,
{
    let ghost ov = variables@;
    let ghost d0 = doms(variables@);
    let ghost cons = constraints@;
    let n = constraints.len();
    // Queue of arcs (var_idx, constraint_idx).
    let mut queue: Vec<(usize, usize)> = Vec::new();
    let mut ci: usize = 0;
    while ci < n
        invariant
            n == cons.len(),
            cons == constraints@,
            ci <= n,
            forall|j: int| 0 <= j < queue@.len() ==> #[trigger] arc_in_queue(cons, queue@[j]),
            forall|c2: int, p: int|
                0 <= c2 < ci && cons[c2].variables@.len() == 2 && 0 <= p < 2 ==> #[trigger] arc_settled(cons, d0, queue@, c2, p),
            forall|c2: int, p: int|
                0 <= c2 < ci && cons[c2].variables@.len() == 2 && 0 <= p < 2 ==> #[trigger] arc_filled(cons, d0, queue@, c2, p),
        decreases n - ci,
    {
        if constraints[ci].arity() == 2 {
            let ghost q0 = queue@;
            queue.push((constraints[ci].variables[0], ci));
            queue.push((constraints[ci].variables[1], ci));
            proof {
                assert forall|c2: int, p: int|
                    0 <= c2 <= ci && cons[c2].variables@.len() == 2 && 0 <= p < 2 implies #[trigger] arc_settled(cons, d0, queue@, c2, p) by {
                    let e = (cons[c2].variables@[p], c2 as usize);
                    if c2 < ci {
                        assert(arc_settled(cons, d0, q0, c2, p));
                        assert(arc_filled(cons, d0, q0, c2, p));
                        if q0.contains(e) {
                            let j = choose|j: int| 0 <= j < q0.len() && q0[j] == e;
                            assert(queue@[j] == q0[j]);
                            assert(queue@.contains(e));
                        }
                    } else if p == 0 {
                        assert(queue@[q0.len() as int] == e);
                        assert(queue@.contains(e));
                    } else {
                        assert(queue@[q0.len() + 1int] == e);
                        assert(queue@.contains(e));
                    }
                }
                assert forall|c2: int, p: int|
                    0 <= c2 <= ci && cons[c2].variables@.len() == 2 && 0 <= p < 2 implies #[trigger] arc_filled(cons, d0, queue@, c2, p) by {
                    let e = (cons[c2].variables@[p], c2 as usize);
                    if c2 < ci {
                        assert(arc_filled(cons, d0, q0, c2, p));
                        if q0.contains(e) {
                            let j = choose|j: int| 0 <= j < q0.len() && q0[j] == e;
                            assert(queue@[j] == q0[j]);
                        }
                    } else if p == 0 {
                        assert(queue@[q0.len() as int] == e);
                    } else {
                        assert(queue@[q0.len() + 1int] == e);
                    }
                }
                assert forall|j: int| 0 <= j < queue@.len() implies #[trigger] arc_in_queue(cons, queue@[j]) by {
                    if j < q0.len() {
                        assert(queue@[j] == q0[j]);
                    }
                }
            }
        }
        ci = ci + 1;
    }
    proof {
        lemma_all_shrunk_refl(d0);
        lemma_total_nonneg(d0);
    }
    while queue.len() > 0
        invariant
            n == cons.len(),
            cons == constraints@,
            ov == old(variables)@,
            d0 == doms(ov),
            forall|i: int| 0 <= i < cons.len() ==> #[trigger] arc_revisable(cons[i], ov.len()),
            same_shape(ov, variables@),
            all_shrunk(d0, doms(variables@)),
            keeps_arc_consistent(cons, d0, doms(variables@)),
            forall|j: int| 0 <= j < queue@.len() ==> #[trigger] arc_in_queue(cons, queue@[j]),
            forall|c2: int, p: int|
                0 <= c2 < n && cons[c2].variables@.len() == 2 && cons[c2].variables@[0] != cons[c2].variables@[1] && 0 <= p < 2
                    ==> #[trigger] arc_settled(cons, doms(variables@), queue@, c2, p),
            forall|c2: int, p: int|
                0 <= c2 < n && cons[c2].variables@.len() == 2 && 0 <= p < 2 ==> #[trigger] arc_filled(cons, doms(variables@), queue@, c2, p),
        decreases total_size(doms(variables@)), queue@.len(),
    {
        let ghost qv = queue@;
        let ghost dc = doms(variables@);
        let ghost vc = variables@;
        let (var_idx, ci) = match queue.pop() {
            Some(e) => e,
            None => { return true; },
        };
        assert(qv[qv.len() - 1] == (var_idx, ci));
        assert(queue@ =~= qv.drop_last());
        assert forall|j: int| 0 <= j < qv.len() - 1 implies queue@.contains(#[trigger] qv[j]) by {
            assert(queue@[j] == qv[j]);
        }
        assert(arc_in_queue(cons, qv[qv.len() - 1]));
        let constraint = &constraints[ci];
        assert(arc_revisable(cons[ci as int], ov.len()));
        let p: usize = if constraint.variables[0] == var_idx { 0 } else { 1 };
        let ghost vs = constraint.variables@;
        assert(vs.take(2) =~= vs);
        let original_len = variables[var_idx].domain.len();
        let mut ch = false;
        let nonempty = revise(variables, constraint.relation, &constraint.variables, 2, p, &mut ch);
        let ghost dr = doms(variables@);
        proof {
            lemma_shrunk_len(dc[var_idx as int], dr[var_idx as int]);
            lemma_total_update(dc, var_idx as int, dr[var_idx as int]);
            lemma_all_shrunk_trans(d0, dc, dr);
            assert(dr =~= dc.update(var_idx as int, dr[var_idx as int]));
        }
        let reduced = variables[var_idx].domain.len() < original_len;
        if reduced {
            // The domain of var_idx shrank: revisit the arcs that lean on it.
            let mut nci: usize = 0;
            while nci < n
                invariant
                    n == cons.len(),
                    cons == constraints@,
                    nci <= n,
                    (ci as int) < n,
                    forall|j: int| 0 <= j < queue@.len() ==> #[trigger] arc_in_queue(cons, queue@[j]),
                    forall|j: int| 0 <= j < qv.len() - 1 ==> queue@.contains(#[trigger] qv[j]),
                    forall|c2: int|
                        0 <= c2 < nci && c2 != ci && cons[c2].variables@.len() == 2 && cons[c2].variables@[0] == var_idx
                            ==> queue@.contains((#[trigger] cons[c2].variables@[1], c2 as usize)),
                    forall|c2: int|
                        0 <= c2 < nci && c2 != ci && cons[c2].variables@.len() == 2 && cons[c2].variables@[0] != var_idx
                            && cons[c2].variables@[1] == var_idx ==> queue@.contains((#[trigger] cons[c2].variables@[0], c2 as usize)),
                decreases n - nci,
            {
                let ghost q0 = queue@;
                let nc = &constraints[nci];
                if nci != ci && nc.arity() == 2 {
                    if nc.variables[0] == var_idx {
                        queue.push((nc.variables[1], nci));
                    } else if nc.variables[1] == var_idx {
                        queue.push((nc.variables[0], nci));
                    }
                }
                proof {
                    assert forall|e: (usize, usize)| q0.contains(e) implies queue@.contains(e) by {
                        let j = choose|j: int| 0 <= j < q0.len() && q0[j] == e;
                        assert(queue@[j] == q0[j]);
                    }
                    assert forall|j: int| 0 <= j < queue@.len() implies #[trigger] arc_in_queue(cons, queue@[j]) by {
                        if j < q0.len() {
                            assert(queue@[j] == q0[j]);
                        }
                    }
                    if nci != ci && nc.variables@.len() == 2 {
                        if nc.variables@[0] == var_idx {
                            assert(queue@[q0.len() as int] == (cons[nci as int].variables@[1], nci));
                        } else if nc.variables@[1] == var_idx {
                            assert(queue@[q0.len() as int] == (cons[nci as int].variables@[0], nci));
                        }
                    }
                }
                nci = nci + 1;
            }
        }
        proof {
            let dn = doms(variables@);
            assert(dn == dr);
            let qn = queue@;
            // Soundness: arc-consistent families survive.
            assert forall|fam: Seq<Seq<i64>>| below(fam, d0) && all_arc_consistent(cons, fam) implies #[trigger] below(fam, dn) by {
                assert(below(fam, dc));
                assert(arc_consistent_with(cons[ci as int], fam));
                assert(consistent_at(constraint.relation, fam, vs.take(2), p as int));
            }
            assert forall|j: int| 0 <= j < qv.len() - 1 implies qn.contains(#[trigger] qv[j]) by {
                if !reduced {
                    assert(qn =~= qv.drop_last());
                    assert(qn[j] == qv[j]);
                }
            }
            // Completeness: every arc is still waiting or consistent.
            assert forall|c2: int, q: int|
                0 <= c2 < n && cons[c2].variables@.len() == 2 && cons[c2].variables@[0] != cons[c2].variables@[1] && 0 <= q < 2
                    implies #[trigger] arc_settled(cons, dn, qn, c2, q) by {
                let vs2 = cons[c2].variables@;
                let e = (vs2[q], c2 as usize);
                assert(arc_settled(cons, dc, qv, c2, q));
                let in_old = qv.contains(e);
                if in_old && e != (var_idx, ci) {
                    let j = choose|j: int| 0 <= j < qv.len() && qv[j] == e;
                    assert(j < qv.len() - 1);
                    assert(qn.contains(qv[j]));
                } else if c2 == ci {
                    if vs2[q] == var_idx {
                        assert(q == p);
                        assert(vs2.take(2) =~= vs2);
                    } else {
                        assert(q != p);
                        assert(vs2.take(2) =~= vs2);
                        if !in_old {
                            assert(consistent_at(cons[c2].relation, dc, vs2, q));
                        } else {
                            assert(false);
                        }
                    }
                } else {
                    assert(!in_old || e == (var_idx, ci));
                    assert(consistent_at(cons[c2].relation, dc, vs2, q));
                    if !reduced {
                        lemma_shrunk_len(dc[var_idx as int], dr[var_idx as int]);
                        assert(dn == dc);
                    } else if vs2[1 - q] == var_idx {
                        if q == 1 {
                            assert(vs2[0] == var_idx);
                        } else {
                            assert(vs2[0] != var_idx);
                        }
                    } else {
                        assert(arc_revisable(cons[c2], ov.len()));
                        assert forall|v: i64| dn[vs2[q] as int].contains(v) implies dc[vs2[q] as int].contains(v) by {
                            if vs2[q] != var_idx {
                                assert(dn[vs2[q] as int] == dc[vs2[q] as int]);
                            } else {
                                lemma_shrunk_contains(dc[var_idx as int], dr[var_idx as int], v);
                            }
                        }
                        lemma_consistent_at_frame(cons[c2].relation, dc, dn, vs2, q);
                    }
                }
            }
            lemma_total_nonneg(dn);
            assert(same_shape(ov, variables@)) by {
                assert forall|j: int| 0 <= j < ov.len() implies (#[trigger] ov[j]).id == variables@[j].id && ov[j].value == variables@[j].value by {
                    assert(vc[j].id == variables@[j].id);
                }
            }
        }
        if !nonempty {
            proof {
                assert(vs[p as int] == var_idx);
                assert(!arc_nonempty(cons[ci as int], doms(variables@)));
            }
            return false;
        }
        proof {
            let dn = doms(variables@);
            let qn = queue@;
            assert forall|c2: int, q: int|
                0 <= c2 < n && cons[c2].variables@.len() == 2 && 0 <= q < 2 implies #[trigger] arc_filled(cons, dn, qn, c2, q) by {
                let y = cons[c2].variables@[q];
                let e = (y, c2 as usize);
                assert(arc_filled(cons, dc, qv, c2, q));
                if y == var_idx {
                    assert(dn[var_idx as int].len() > 0);
                } else {
                    assert(arc_revisable(cons[c2], ov.len()));
                    assert(dn[y as int] == dc[y as int]);
                    if qv.contains(e) {
                        let j = choose|j: int| 0 <= j < qv.len() && qv[j] == e;
                        if j < qv.len() - 1 {
                            assert(qn.contains(qv[j]));
                        }
                    }
                }
            }
        }
    }
    proof {
        assert forall|i: int| 0 <= i < constraints@.len() implies #[trigger] arc_nonempty(constraints@[i], doms(variables@)) by {
            if constraints@[i].variables@.len() == 2 {
                assert(arc_filled(cons, doms(variables@), queue@, i, 0));
                assert(arc_filled(cons, doms(variables@), queue@, i, 1));
            }
        }
        assert forall|i: int|
            0 <= i < constraints@.len() && constraints@[i].variables@.len() == 2 && constraints@[i].variables@[0]
                != constraints@[i].variables@[1] implies #[trigger] arc_consistent_with(constraints@[i], doms(variables@)) by {
            assert(arc_settled(cons, doms(variables@), queue@, i, 0));
            assert(arc_settled(cons, doms(variables@), queue@, i, 1));
        }
    }
    true
}


/// The other variable of a constraint of arity two that contains `x`.
pub open spec fn other_of<R: Predicate>(c: Constraint<R>, x: usize) -> usize {
    if c.variables@[0] == x {
        c.variables@[1]
    } else {
        c.variables@[0]
    }
}

/// Forward checking from `x` prunes the other variable of `c`: `c` has arity
/// two, contains `x`, and its other variable is unassigned.
pub open spec fn fc_applies<R: Predicate>(c: Constraint<R>, x: usize, vars: Seq<Variable>) -> bool {
    &&& c.variables@.len() == 2
    &&& c.variables@.contains(x)
    &&& vars[other_of(c, x) as int].value is None
}

/// Value `w` of the other variable of `c` is compatible with `x = a`.
pub open spec fn fc_keeps<R: Predicate>(c: Constraint<R>, x: usize, a: i64, w: i64) -> bool {
    if c.variables@[0] == x {
        c.satisfied_by(seq![a, w])
    } else {
        c.satisfied_by(seq![w, a])
    }
}

/// The domain of `y` once forward checking from `x` has applied the first
/// `k` constraints: the values compatible with the value of `x` under each of
/// them that prunes `y`.
pub open spec fn fc_domain<R: Predicate>(vars: Seq<Variable>, cons: Seq<Constraint<R>>, x: usize, k: int, y: int) -> Seq<i64> {
    vars[y].domain@.filter(
        |w: i64|
            forall|j: int|
                0 <= j < k && fc_applies(cons[j], x, vars) && other_of(cons[j], x) == y ==> #[trigger] fc_keeps(
                    cons[j],
                    x,
                    vars[x as int].value.unwrap(),
                    w,
                ),
    )
}

/// The domains `ds` are those after forward checking from `x` has applied
/// the first `k` constraints.
pub open spec fn fc_stage<R: Predicate>(vars: Seq<Variable>, cons: Seq<Constraint<R>>, x: usize, k: int, ds: Seq<Seq<i64>>) -> bool {
    &&& 0 <= k <= cons.len()
    &&& ds.len() == vars.len()
    &&& forall|y: int| 0 <= y < vars.len() ==> #[trigger] ds[y] == fc_domain(vars, cons, x, k, y)
}

proof fn lemma_fc_domain_step<R: Predicate>(vars: Seq<Variable>, cons: Seq<Constraint<R>>, x: usize, k: int, y: int)
    requires
        0 <= k < cons.len(),
    ensures
        fc_applies(cons[k], x, vars) && other_of(cons[k], x) == y ==> fc_domain(vars, cons, x, k + 1, y)
            == fc_domain(vars, cons, x, k, y).filter(|w: i64| fc_keeps(cons[k], x, vars[x as int].value.unwrap(), w)),
        !(fc_applies(cons[k], x, vars) && other_of(cons[k], x) == y) ==> fc_domain(vars, cons, x, k + 1, y)
            == fc_domain(vars, cons, x, k, y),
{
    let a = vars[x as int].value.unwrap();
    let d = vars[y].domain@;
    let pk = |w: i64|
        forall|j: int|
            0 <= j < k && fc_applies(cons[j], x, vars) && other_of(cons[j], x) == y ==> #[trigger] fc_keeps(cons[j], x, a, w);
    let pk1 = |w: i64|
        forall|j: int|
            0 <= j < k + 1 && fc_applies(cons[j], x, vars) && other_of(cons[j], x) == y ==> #[trigger] fc_keeps(cons[j], x, a, w);
    let keep = |w: i64| fc_keeps(cons[k], x, a, w);
    assert(fc_domain(vars, cons, x, k, y) == d.filter(pk));
    assert(fc_domain(vars, cons, x, k + 1, y) == d.filter(pk1));
    if fc_applies(cons[k], x, vars) && other_of(cons[k], x) == y {
        lemma_filter_filter(d, pk, keep);
        assert forall|i: int| 0 <= i < d.len() implies pk1(d[i]) == (pk(d[i]) && keep(d[i])) by {
            if pk(d[i]) && keep(d[i]) {
                assert forall|j: int|
                    0 <= j < k + 1 && fc_applies(cons[j], x, vars) && other_of(cons[j], x) == y implies #[trigger] fc_keeps(
                    cons[j],
                    x,
                    a,
                    d[i],
                ) by {
                    if j < k {
                    }
                }
            }
        }
        lemma_filter_ext(d, pk1, |w: i64| pk(w) && keep(w));
    } else {
        assert forall|i: int| 0 <= i < d.len() implies pk1(d[i]) == pk(d[i]) by {
            if pk(d[i]) {
                assert forall|j: int|
                    0 <= j < k + 1 && fc_applies(cons[j], x, vars) && other_of(cons[j], x) == y implies #[trigger] fc_keeps(
                    cons[j],
                    x,
                    a,
                    d[i],
                ) by {
                    if j < k {
                    }
                }
            }
        }
        lemma_filter_ext(d, pk1, pk);
    }
}

proof fn lemma_fc_domain_mono<R: Predicate>(vars: Seq<Variable>, cons: Seq<Constraint<R>>, x: usize, k1: int, k2: int, y: int)
    requires
        0 <= k1 <= k2 <= cons.len(),
    ensures
        fc_domain(vars, cons, x, k2, y).len() <= fc_domain(vars, cons, x, k1, y).len(),
    decreases k2 - k1,
{
    if k1 < k2 {
        lemma_fc_domain_mono(vars, cons, x, k1, k2 - 1, y);
        lemma_fc_domain_step(vars, cons, x, k2 - 1, y);
        let a = vars[x as int].value.unwrap();
        fc_domain(vars, cons, x, k2 - 1, y).lemma_filter_len(|w: i64| fc_keeps(cons[k2 - 1], x, a, w));
    }
}

/// The values of `d` compatible with the assigned value `a` under `c`, where
/// `a` stands first (`first`) or second in the pair of values.
fn compatible_values<R: Predicate>(c: &Constraint<R>, first: bool, a: i64, d: &Vec<i64>) -> (r: Vec<i64>)
    requires
        c.relation.min_len() <= 2,
    ensures
        r@ == d@.filter(
            |w: i64|
                if first {
                    c.satisfied_by(seq![a, w])
                } else {
                    c.satisfied_by(seq![w, a])
                },
        ),
{
    let ghost pred = |w: i64|
        if first {
            c.satisfied_by(seq![a, w])
        } else {
            c.satisfied_by(seq![w, a])
        };
    let mut r: Vec<i64> = Vec::new();
    let mut i: usize = 0;
    while i < d.len()
        invariant
            i <= d@.len(),
            c.relation.min_len() <= 2,
            pred == (|w: i64|
                if first {
                    c.satisfied_by(seq![a, w])
                } else {
                    c.satisfied_by(seq![w, a])
                }),
            r@ == d@.take(i as int).filter(pred),
        decreases d@.len() - i,
    {
        let w = d[i];
        let pair: [i64; 2] = if first { [a, w] } else { [w, a] };
        assert(pair@ =~= (if first { seq![a, w] } else { seq![w, a] }));
        let ok = c.is_satisfied(pair.as_slice());
        proof {
            assert(d@.take(i as int + 1) =~= d@.take(i as int).push(w));
            d@.take(i as int).lemma_filter_push(w, pred);
        }
        if ok {
            r.push(w);
        }
        i = i + 1;
    }
    assert(d@.take(d@.len() as int) =~= d@);
    r
}

/// Forward checking: with `assigned_var` assigned, remove from the domains of
/// its unassigned neighbours (under constraints of arity two) the values
/// incompatible with its value.
///
/// Returns false when a neighbour's domain was wiped out.
pub fn forward_check<R: Predicate>(variables: &mut Vec<Variable>, constraints: &[Constraint<R>], assigned_var: usize) -> (r: bool)
    requires
        forall|j: int|
            0 <= j < constraints@.len() && constraints@[j].variables@.len() == 2 && constraints@[j].variables@.contains(assigned_var)
                ==> (#[trigger] other_of(constraints@[j], assigned_var) as int) < old(variables)@.len(),
        (exists|j: int| 0 <= j < constraints@.len() && #[trigger] fc_applies(constraints@[j], assigned_var, old(variables)@))
            ==> (assigned_var as int) < old(variables)@.len() && old(variables)@[assigned_var as int].value is Some,
        forall|j: int|
            0 <= j < constraints@.len() && #[trigger] fc_applies(constraints@[j], assigned_var, old(variables)@)
                ==> constraints@[j].relation.min_len() <= 2,
    ensures
        same_shape(old(variables)@, final(variables)@),
        exists|k: int|
            #[trigger] fc_stage(old(variables)@, constraints@, assigned_var, k, doms(final(variables)@)) && (r ==> k
                == constraints@.len()),
        r == forall|j: int|
            0 <= j < constraints@.len() && #[trigger] fc_applies(constraints@[j], assigned_var, old(variables)@)
                ==> fc_domain(old(variables)@, constraints@, assigned_var, constraints@.len() as int, other_of(constraints@[j], assigned_var) as int).len() > 0,
{
    let ghost ov = variables@;
    let ghost cons = constraints@;
    let ghost x = assigned_var;
    let ghost n = cons.len() as int;
    let mut ci: usize = 0;
    proof {
        assert forall|y: int| 0 <= y < ov.len() implies #[trigger] doms(variables@)[y] == fc_domain(ov, cons, x, 0, y) by {
            let d = ov[y].domain@;
            let p0 = |w: i64|
                forall|j: int|
                    0 <= j < 0 && fc_applies(cons[j], x, ov) && other_of(cons[j], x) == y ==> #[trigger] fc_keeps(
                        cons[j],
                        x,
                        ov[x as int].value.unwrap(),
                        w,
                    );
            lemma_filter_ext(d, p0, |w: i64| true);
            lemma_filter_all(d);
        }
    }
    while ci < constraints.len()
        invariant
            ov == old(variables)@,
            cons == constraints@,
            x == assigned_var,
            n == cons.len(),
            ci <= n,
            forall|j: int|
                0 <= j < cons.len() && cons[j].variables@.len() == 2 && cons[j].variables@.contains(x)
                    ==> (#[trigger] other_of(cons[j], x) as int) < ov.len(),
            (exists|j: int| 0 <= j < cons.len() && #[trigger] fc_applies(cons[j], x, ov)) ==> (x as int) < ov.len()
                && ov[x as int].value is Some,
            forall|j: int| 0 <= j < cons.len() && #[trigger] fc_applies(cons[j], x, ov) ==> cons[j].relation.min_len() <= 2,
            same_shape(ov, variables@),
            forall|y: int| 0 <= y < ov.len() ==> #[trigger] doms(variables@)[y] == fc_domain(ov, cons, x, ci as int, y),
            forall|j: int|
                0 <= j < ci && #[trigger] fc_applies(cons[j], x, ov) ==> fc_domain(ov, cons, x, ci as int, other_of(cons[j], x) as int).len() > 0,
        decreases n - ci,
    {
        let constraint = &constraints[ci];
        let ghost vc = variables@;
        let mut pruned = false;
        if constraint.variables.len() == 2 && (constraint.variables[0] == assigned_var || constraint.variables[1] == assigned_var) {
            assert(constraint.variables@.contains(assigned_var)) by {
                if constraint.variables@[0] == assigned_var {
                    assert(constraint.variables@[0] == assigned_var);
                } else {
                    assert(constraint.variables@[1] == assigned_var);
                }
            }
            let first = constraint.variables[0] == assigned_var;
            let other_idx = if first { constraint.variables[1] } else { constraint.variables[0] };
            assert(other_idx == other_of(cons[ci as int], x));
            if !variables[other_idx].is_assigned() {
                assert(fc_applies(cons[ci as int], x, ov));
                let assigned_val = variables[assigned_var].value.unwrap();
                let newd = compatible_values(constraint, first, assigned_val, &variables[other_idx].domain);
                let empty = newd.len() == 0;
                variables[other_idx].domain = newd;
                proof {
                    let a = ov[x as int].value.unwrap();
                    assert(vc[x as int].value == ov[x as int].value);
                    assert(assigned_val == a);
                    let fd = fc_domain(ov, cons, x, ci as int, other_idx as int);
                    assert(doms(vc)[other_idx as int] == fd);
                    assert forall|i: int| 0 <= i < fd.len() implies (if first {
                        constraint.satisfied_by(seq![assigned_val, fd[i]])
                    } else {
                        constraint.satisfied_by(seq![fd[i], assigned_val])
                    }) == fc_keeps(cons[ci as int], x, a, fd[i]) by {
                    }
                    lemma_fc_domain_step(ov, cons, x, ci as int, other_idx as int);
                    lemma_filter_ext(
                        fc_domain(ov, cons, x, ci as int, other_idx as int),
                        |w: i64|
                            if first {
                                constraint.satisfied_by(seq![assigned_val, w])
                            } else {
                                constraint.satisfied_by(seq![w, assigned_val])
                            },
                        |w: i64| fc_keeps(cons[ci as int], x, a, w),
                    );
                    assert(doms(variables@)[other_idx as int] == fc_domain(ov, cons, x, ci + 1, other_idx as int));
                }
                if empty {
                    proof {
                        lemma_fc_domain_mono(ov, cons, x, ci as int + 1, n, other_idx as int);
                        assert(fc_applies(cons[ci as int], x, ov));
                        assert(!(forall|j: int|
                            0 <= j < cons.len() && #[trigger] fc_applies(cons[j], x, ov)
                                ==> fc_domain(ov, cons, x, n, other_of(cons[j], x) as int).len() > 0));
                        assert forall|y: int| 0 <= y < ov.len() implies #[trigger] doms(variables@)[y] == fc_domain(ov, cons, x, ci + 1, y) by {
                            lemma_fc_domain_step(ov, cons, x, ci as int, y);
                            if y != other_idx {
                                assert(doms(variables@)[y] == doms(vc)[y]);
                            }
                        }
                        assert(same_shape(ov, variables@)) by {
                            assert forall|j: int| 0 <= j < ov.len() implies (#[trigger] ov[j]).id == variables@[j].id && ov[j].value == variables@[j].value by {
                                assert(vc[j].id == variables@[j].id);
                            }
                        }
                        assert(fc_stage(ov, cons, x, ci + 1, doms(variables@)));
                    }
                    return false;
                }
                pruned = true;
            }
        }
        proof {
            assert forall|y: int| 0 <= y < ov.len() implies #[trigger] doms(variables@)[y] == fc_domain(ov, cons, x, ci + 1, y) by {
                lemma_fc_domain_step(ov, cons, x, ci as int, y);
                if !pruned || y != other_of(cons[ci as int], x) {
                    assert(doms(variables@)[y] == doms(vc)[y]);
                }
            }
            assert forall|j: int|
                0 <= j < ci + 1 && #[trigger] fc_applies(cons[j], x, ov) implies fc_domain(ov, cons, x, ci + 1, other_of(cons[j], x) as int).len() > 0 by {
                let y = other_of(cons[j], x) as int;
                lemma_fc_domain_step(ov, cons, x, ci as int, y);
                if j < ci {
                    if fc_applies(cons[ci as int], x, ov) && other_of(cons[ci as int], x) == y {
                        assert(pruned);
                    }
                }
            }
            assert(same_shape(ov, variables@)) by {
                assert forall|j: int| 0 <= j < ov.len() implies (#[trigger] ov[j]).id == variables@[j].id && ov[j].value == variables@[j].value by {
                    assert(vc[j].id == variables@[j].id);
                }
            }
        }
        ci = ci + 1;
    }
    assert(fc_stage(ov, cons, x, n, doms(variables@)));
    true
}


/// The values of the variables of `c` under the assignment `tau`, which gives
/// one value per variable position.
pub open spec fn values_at<R: Predicate>(c: Constraint<R>, tau: Seq<i64>) -> Seq<i64> {
    c.variables@.map_values(|x: usize| tau[x as int])
}

/// `tau` takes each variable's value from its domain in `ds` and satisfies
/// every constraint.
pub open spec fn is_solution<R: Predicate>(cons: Seq<Constraint<R>>, ds: Seq<Seq<i64>>, tau: Seq<i64>) -> bool {
    &&& tau.len() == ds.len()
    &&& forall|i: int| 0 <= i < tau.len() ==> #[trigger] ds[i].contains(tau[i])
    &&& forall|j: int| 0 <= j < cons.len() ==> #[trigger] cons[j].satisfied_by(values_at(cons[j], tau))
}

/// The variables of every constraint lie among `n` variables.
pub open spec fn vars_within<R: Predicate>(cons: Seq<Constraint<R>>, n: nat) -> bool {
    forall|j: int, q: int| 0 <= j < cons.len() && 0 <= q < cons[j].variables@.len() ==> (#[trigger] cons[j].variables@[q] as int) < n
}

/// The constraint's type agrees with its number of variables, as `Constraint::new` sets it.
pub open spec fn well_typed<R: Predicate>(c: Constraint<R>) -> bool {
    c.constraint_type == crate::constraint::type_for_arity(c.variables@.len())
}

/// The family that holds only the value `tau` gives each variable.
pub open spec fn singletons(tau: Seq<i64>) -> Seq<Seq<i64>> {
    Seq::new(tau.len(), |i: int| seq![tau[i]])
}

proof fn lemma_singletons_support<R: Predicate>(c: Constraint<R>, tau: Seq<i64>, vs: Seq<usize>, p: int)
    requires
        vs == c.variables@,
        0 <= p < vs.len(),
        forall|q: int| 0 <= q < vs.len() ==> (vs[q] as int) < tau.len(),
        c.satisfied_by(values_at(c, tau)),
    ensures
        consistent_at(c.relation, singletons(tau), vs, p),
{
    let fam = singletons(tau);
    assert forall|v: i64| #[trigger] fam[vs[p] as int].contains(v) implies supported(c.relation, fam, vs, p, v) by {
        let t = values_at(c, tau);
        assert(fam[vs[p] as int] =~= seq![tau[vs[p] as int]]);
        assert(t[p] == v);
        assert forall|q: int| 0 <= q < vs.len() && q != p implies fam[vs[q] as int].contains(t[q]) by {
            assert(fam[vs[q] as int][0] == t[q]);
        }
        assert(c.relation.holds(t));
    }
}

proof fn lemma_solution_below<R: Predicate>(cons: Seq<Constraint<R>>, ds: Seq<Seq<i64>>, tau: Seq<i64>)
    requires
        is_solution(cons, ds, tau),
    ensures
        below(singletons(tau), ds),
{
    let fam = singletons(tau);
    assert forall|i: int, v: i64| 0 <= i < fam.len() && #[trigger] fam[i].contains(v) implies ds[i].contains(v) by {
        assert(fam[i] =~= seq![tau[i]]);
        assert(ds[i].contains(tau[i]));
    }
}

/// Propagation loses no solution: an assignment that takes its values from
/// the original domains and satisfies every constraint takes them from the
/// propagated domains too.
pub proof fn lemma_propagation_keeps_solutions<R: Predicate>(cons: Seq<Constraint<R>>, orig: Seq<Seq<i64>>, ds: Seq<Seq<i64>>, tau: Seq<i64>)
    requires
        keeps_consistent(cons, orig, ds),
        vars_within(cons, orig.len()),
        forall|j: int| 0 <= j < cons.len() ==> #[trigger] well_typed(cons[j]),
        is_solution(cons, orig, tau),
    ensures
        is_solution(cons, ds, tau),
{
    let fam = singletons(tau);
    lemma_solution_below(cons, orig, tau);
    assert forall|j: int| 0 <= j < cons.len() implies #[trigger] consistent_with(cons[j], fam) by {
        let c = cons[j];
        assert(well_typed(c));
        assert(c.satisfied_by(values_at(c, tau)));
        assert forall|p: int| 0 <= p < scope(c) implies #[trigger] consistent_at(c.relation, fam, c.variables@.take(scope(c) as int), p) by {
            assert(c.variables@.take(scope(c) as int) =~= c.variables@);
            assert forall|q: int| 0 <= q < c.variables@.len() implies (c.variables@[q] as int) < tau.len() by {
                assert(cons[j].variables@[q] < orig.len());
            }
            lemma_singletons_support(c, tau, c.variables@, p);
        }
    }
    assert(below(fam, ds));
    assert forall|i: int| 0 <= i < tau.len() implies #[trigger] ds[i].contains(tau[i]) by {
        assert(fam[i] =~= seq![tau[i]]);
        assert(fam[i][0] == tau[i]);
        assert(fam[i].contains(tau[i]));
    }
}

/// When propagation wipes out a domain, the problem had no solution.
pub proof fn lemma_wipeout_means_no_solution<R: Predicate>(cons: Seq<Constraint<R>>, orig: Seq<Seq<i64>>, ds: Seq<Seq<i64>>, i: int, tau: Seq<i64>)
    requires
        keeps_consistent(cons, orig, ds),
        vars_within(cons, orig.len()),
        forall|j: int| 0 <= j < cons.len() ==> #[trigger] well_typed(cons[j]),
        0 <= i < ds.len(),
        ds[i].len() == 0,
    ensures
        !is_solution(cons, orig, tau),
{
    if is_solution(cons, orig, tau) {
        lemma_propagation_keeps_solutions(cons, orig, ds, tau);
        assert(ds[i].contains(tau[i]));
    }
}

/// Propagation reaches a fixpoint: domains that are already consistent with
/// every constraint come out of propagation unchanged.
pub proof fn lemma_propagation_fixpoint<R: Predicate>(cons: Seq<Constraint<R>>, orig: Seq<Seq<i64>>, ds: Seq<Seq<i64>>)
    requires
        all_consistent(cons, orig),
        all_shrunk(orig, ds),
        keeps_consistent(cons, orig, ds),
    ensures
        ds == orig,
{
    assert(below(orig, orig));
    assert(below(orig, ds));
    assert forall|i: int| 0 <= i < orig.len() implies #[trigger] orig[i] == ds[i] by {
        let a = orig[i];
        let b = ds[i];
        assert(shrunk(a, b));
        assert forall|k: int| 0 <= k < a.len() implies (|v: i64| b.contains(v))(a[k]) == (|v: i64| true)(a[k]) by {
            assert(a.contains(a[k]));
        }
        lemma_filter_ext(a, |v: i64| b.contains(v), |v: i64| true);
        lemma_filter_all(a);
    }
    assert(ds =~= orig);
}

/// Arc consistency loses no solution.
pub proof fn lemma_arc_consistency_keeps_solutions<R: Predicate>(cons: Seq<Constraint<R>>, orig: Seq<Seq<i64>>, ds: Seq<Seq<i64>>, tau: Seq<i64>)
    requires
        keeps_arc_consistent(cons, orig, ds),
        vars_within(cons, orig.len()),
        is_solution(cons, orig, tau),
    ensures
        is_solution(cons, ds, tau),
{
    let fam = singletons(tau);
    lemma_solution_below(cons, orig, tau);
    assert forall|j: int| 0 <= j < cons.len() implies #[trigger] arc_consistent_with(cons[j], fam) by {
        let c = cons[j];
        assert(c.satisfied_by(values_at(c, tau)));
        if c.variables@.len() == 2 {
            assert forall|q: int| 0 <= q < c.variables@.len() implies (c.variables@[q] as int) < tau.len() by {
                assert(cons[j].variables@[q] < orig.len());
            }
            lemma_singletons_support(c, tau, c.variables@, 0);
            lemma_singletons_support(c, tau, c.variables@, 1);
        }
    }
    assert(below(fam, ds));
    assert forall|i: int| 0 <= i < tau.len() implies #[trigger] ds[i].contains(tau[i]) by {
        assert(fam[i] =~= seq![tau[i]]);
        assert(fam[i][0] == tau[i]);
        assert(fam[i].contains(tau[i]));
    }
}

/// Forward checking loses no solution that agrees with the assigned value:
/// each such solution's values stay in the pruned domains.
pub proof fn lemma_forward_check_keeps_solutions<R: Predicate>(
    vars: Seq<Variable>,
    cons: Seq<Constraint<R>>,
    x: usize,
    tau: Seq<i64>,
    y: int,
    k: int,
)
    requires
        0 <= k <= cons.len(),
        (x as int) < vars.len(),
        vars[x as int].value == Some(tau[x as int]),
        tau.len() == vars.len(),
        forall|j: int| 0 <= j < cons.len() ==> #[trigger] cons[j].satisfied_by(values_at(cons[j], tau)),
        vars_within(cons, vars.len()),
        0 <= y < vars.len(),
        doms(vars)[y].contains(tau[y]),
    ensures
        fc_domain(vars, cons, x, k, y).contains(tau[y]),
{
    let a = tau[x as int];
    let p = |w: i64|
        forall|j: int|
            0 <= j < k && fc_applies(cons[j], x, vars) && other_of(cons[j], x) == y ==> #[trigger] fc_keeps(cons[j], x, vars[x as int].value.unwrap(), w);
    assert(doms(vars)[y].contains(tau[y]));
    assert forall|j: int| 0 <= j < k && fc_applies(cons[j], x, vars) && other_of(cons[j], x) == y implies #[trigger] fc_keeps(
        cons[j],
        x,
        vars[x as int].value.unwrap(),
        tau[y],
    ) by {
        let c = cons[j];
        assert(c.satisfied_by(values_at(c, tau)));
        assert(c.variables@[0] < vars.len() && c.variables@[1] < vars.len());
        if c.variables@[0] == x {
            assert(values_at(c, tau) =~= seq![a, tau[y]]);
        } else {
            let i = choose|i: int| 0 <= i < c.variables@.len() && c.variables@[i] == x;
            assert(c.variables@[1] == x);
            assert(values_at(c, tau) =~= seq![tau[y], a]);
        }
    }
    lemma_filter_membership(vars[y].domain@, p, tau[y]);
}

/// Families shrunk from the same domains, each within the other, are equal.
proof fn lemma_mutually_below(orig: Seq<Seq<i64>>, a: Seq<Seq<i64>>, b: Seq<Seq<i64>>)
    requires
        all_shrunk(orig, a),
        all_shrunk(orig, b),
        below(a, b),
        below(b, a),
    ensures
        a == b,
{
    assert forall|i: int| 0 <= i < a.len() implies #[trigger] a[i] == b[i] by {
        assert(shrunk(orig[i], a[i]));
        assert(shrunk(orig[i], b[i]));
        assert forall|k: int| 0 <= k < orig[i].len() implies (|v: i64| a[i].contains(v))(orig[i][k]) == (|v: i64|
            b[i].contains(v))(orig[i][k]) by {
            let v = orig[i][k];
            if a[i].contains(v) {
                assert(b[i].contains(v));
            }
            if b[i].contains(v) {
                assert(a[i].contains(v));
            }
        }
        crate::domains::lemma_filter_ext(orig[i], |v: i64| a[i].contains(v), |v: i64| b[i].contains(v));
    }
    assert(a =~= b);
}

/// Shrunk domains lie within the domains they were shrunk from.
proof fn lemma_shrunk_below(orig: Seq<Seq<i64>>, ds: Seq<Seq<i64>>)
    requires
        all_shrunk(orig, ds),
    ensures
        below(ds, orig),
{
    assert forall|i: int, v: i64| 0 <= i < ds.len() && #[trigger] ds[i].contains(v) implies orig[i].contains(v) by {
        assert(shrunk(orig[i], ds[i]));
        lemma_shrunk_contains(orig[i], ds[i], v);
    }
}

/// On binary constraints over two distinct variables, propagation and arc
/// consistency agree: `dp` (with result `rp`) and `da` (with result `ra`)
/// are what `propagate` and `arc_consistency` leave of the same domains
/// `orig`, as their contracts state. Then both succeed or both fail, and
/// when they succeed they leave the same domains.
pub proof fn lemma_arc_consistency_agrees_with_propagation<R: Predicate>(
    cons: Seq<Constraint<R>>,
    orig: Seq<Seq<i64>>,
    dp: Seq<Seq<i64>>,
    rp: bool,
    da: Seq<Seq<i64>>,
    ra: bool,
)
    requires
        forall|j: int|
            0 <= j < cons.len() ==> (#[trigger] cons[j]).variables@.len() == 2 && cons[j].variables@[0] != cons[j].variables@[1]
                && well_typed(cons[j]),
        vars_within(cons, orig.len()),
        all_shrunk(orig, dp),
        keeps_consistent(cons, orig, dp),
        rp ==> all_consistent(cons, dp),
        rp ==> forall|j: int| 0 <= j < cons.len() ==> #[trigger] scope_nonempty(cons[j], dp),
        !rp ==> exists|j: int| 0 <= j < cons.len() && !#[trigger] scope_nonempty(cons[j], dp),
        all_shrunk(orig, da),
        keeps_arc_consistent(cons, orig, da),
        ra ==> forall|j: int| 0 <= j < cons.len() ==> #[trigger] arc_consistent_with(cons[j], da),
        ra ==> forall|j: int| 0 <= j < cons.len() ==> #[trigger] arc_nonempty(cons[j], da),
        !ra ==> exists|j: int| 0 <= j < cons.len() && !#[trigger] arc_nonempty(cons[j], da),
    ensures
        rp == ra,
        rp ==> dp == da,
{
    // On these constraints the two notions of consistency, and of non-empty
    // domains, coincide.
    assert forall|j: int, ds: Seq<Seq<i64>>| 0 <= j < cons.len() implies (#[trigger] consistent_with(cons[j], ds)
        == arc_consistent_with(cons[j], ds)) && (scope_nonempty(cons[j], ds) == arc_nonempty(cons[j], ds)) by {
        let c = cons[j];
        assert(scope(c) == 2);
        assert(c.variables@.take(2) =~= c.variables@);
        if arc_consistent_with(c, ds) {
            assert forall|p: int| 0 <= p < scope(c) implies #[trigger] consistent_at(c.relation, ds, c.variables@.take(scope(c) as int), p) by {
            }
        }
        if consistent_with(c, ds) {
            assert(consistent_at(c.relation, ds, c.variables@.take(scope(c) as int), 0));
            assert(consistent_at(c.relation, ds, c.variables@.take(scope(c) as int), 1));
        }
        if arc_nonempty(c, ds) {
            assert forall|p: int| #![trigger c.variables@[p]] 0 <= p < scope(c) implies ds[c.variables@[p] as int].len() > 0 by {
            }
        }
        if scope_nonempty(c, ds) {
            assert(ds[c.variables@[0] as int].len() > 0);
            assert(ds[c.variables@[1] as int].len() > 0);
        }
    }
    lemma_shrunk_below(orig, dp);
    lemma_shrunk_below(orig, da);
    if rp {
        assert(all_arc_consistent(cons, dp)) by {
            assert forall|j: int| 0 <= j < cons.len() implies #[trigger] arc_consistent_with(cons[j], dp) by {
                assert(consistent_with(cons[j], dp));
            }
        }
        assert(below(dp, da));
        if ra {
            assert(all_consistent(cons, da)) by {
                assert forall|j: int| 0 <= j < cons.len() implies #[trigger] consistent_with(cons[j], da) by {
                    assert(arc_consistent_with(cons[j], da));
                }
            }
            assert(below(da, dp));
            lemma_mutually_below(orig, dp, da);
        } else {
            let j = choose|j: int| 0 <= j < cons.len() && !#[trigger] arc_nonempty(cons[j], da);
            assert(scope_nonempty(cons[j], dp));
            let c = cons[j];
            let x = if da[c.variables@[0] as int].len() == 0 { c.variables@[0] } else { c.variables@[1] };
            assert(c.variables@[0] < orig.len() && c.variables@[1] < orig.len());
            assert(da[x as int].len() == 0);
            assert(dp[x as int].len() > 0);
            assert(dp[x as int].contains(dp[x as int][0]));
            assert(da[x as int].contains(dp[x as int][0]));
        }
    } else if ra {
        assert(all_consistent(cons, da)) by {
            assert forall|j: int| 0 <= j < cons.len() implies #[trigger] consistent_with(cons[j], da) by {
                assert(arc_consistent_with(cons[j], da));
            }
        }
        assert(below(da, dp));
        let j = choose|j: int| 0 <= j < cons.len() && !#[trigger] scope_nonempty(cons[j], dp);
        assert(arc_nonempty(cons[j], da));
        let c = cons[j];
        let x = if dp[c.variables@[0] as int].len() == 0 { c.variables@[0] } else { c.variables@[1] };
        assert(c.variables@[0] < orig.len() && c.variables@[1] < orig.len());
        assert(dp[x as int].len() == 0);
        assert(da[x as int].len() > 0);
        assert(da[x as int].contains(da[x as int][0]));
        assert(dp[x as int].contains(da[x as int][0]));
    }
}

} // verus!
