//! The mathematical model of variable domains: how they shrink, and when a
//! value of one variable is supported by the domains of the others.

use vstd::prelude::*;
use crate::constraint::{Predicate, Variable};

verus! {

/// The domains of the variables, position by position.
pub open spec fn doms(vars: Seq<Variable>) -> Seq<Seq<i64>> {
    Seq::new(vars.len(), |i: int| vars[i].domain@)
}

/// The number of values in all domains together.
pub open spec fn total_size(ds: Seq<Seq<i64>>) -> int
    decreases ds.len(),
{
    if ds.len() == 0 {
        0
    } else {
        total_size(ds.drop_last()) + ds.last().len()
    }
}

/// `b` is `a` with some values removed (every copy of each removed value),
/// the rest kept in order.
pub open spec fn shrunk(a: Seq<i64>, b: Seq<i64>) -> bool {
    b == a.filter(|v: i64| b.contains(v))
}

/// Every domain of `b` is the one of `a` at the same position, shrunk.
pub open spec fn all_shrunk(a: Seq<Seq<i64>>, b: Seq<Seq<i64>>) -> bool {
    &&& a.len() == b.len()
    &&& forall|i: int| 0 <= i < a.len() ==> shrunk(#[trigger] a[i], b[i])
}

/// The variables keep their number, ids and values.
pub open spec fn same_shape(a: Seq<Variable>, b: Seq<Variable>) -> bool {
    &&& a.len() == b.len()
    &&& forall|i: int| 0 <= i < a.len() ==> (#[trigger] a[i]).id == b[i].id && a[i].value == b[i].value
}

/// Every set of the family `fam` lies within the domain at the same position.
pub open spec fn below(fam: Seq<Seq<i64>>, ds: Seq<Seq<i64>>) -> bool {
    &&& fam.len() == ds.len()
    &&& forall|i: int, v: i64| 0 <= i < fam.len() && #[trigger] fam[i].contains(v) ==> ds[i].contains(v)
}

/// Value `v` at position `p` of a constraint over the variables `vs` has a
/// support: values for the other positions, each from its variable's domain,
/// such that the relation holds.
pub open spec fn supported<R: Predicate>(rel: R, ds: Seq<Seq<i64>>, vs: Seq<usize>, p: int, v: i64) -> bool {
    exists|t: Seq<i64>|
        #[trigger] rel.holds(t) && t.len() == vs.len() && t[p] == v && forall|q: int|
            0 <= q < vs.len() && q != p ==> ds[vs[q] as int].contains(t[q])
}

/// Every value of the variable at position `p` of `vs` is supported.
pub open spec fn consistent_at<R: Predicate>(rel: R, ds: Seq<Seq<i64>>, vs: Seq<usize>, p: int) -> bool {
    forall|v: i64| #[trigger] ds[vs[p] as int].contains(v) ==> supported(rel, ds, vs, p, v)
}

/// A support whose first values are `pre`.
pub open spec fn completes<R: Predicate>(rel: R, ds: Seq<Seq<i64>>, vs: Seq<usize>, p: int, v: i64, pre: Seq<i64>) -> bool {
    exists|t: Seq<i64>|
        #[trigger] rel.holds(t) && t.len() == vs.len() && t[p] == v && t.subrange(0, pre.len() as int) == pre
            && forall|q: int| pre.len() <= q < vs.len() && q != p ==> ds[vs[q] as int].contains(t[q])
}

pub proof fn lemma_filter_ext<A>(s: Seq<A>, p: spec_fn(A) -> bool, q: spec_fn(A) -> bool)
    requires
        forall|i: int| 0 <= i < s.len() ==> p(s[i]) == q(s[i]),
    ensures
        s.filter(p) == s.filter(q),
    decreases s.len(),
{
    reveal(Seq::filter);
    if s.len() > 0 {
        lemma_filter_ext(s.drop_last(), p, q);
    }
}

pub proof fn lemma_filter_filter<A>(s: Seq<A>, p: spec_fn(A) -> bool, q: spec_fn(A) -> bool)
    ensures
        s.filter(p).filter(q) == s.filter(|v: A| p(v) && q(v)),
    decreases s.len(),
{
    reveal(Seq::filter);
    if s.len() > 0 {
        lemma_filter_filter(s.drop_last(), p, q);
        let sub = s.drop_last().filter(p);
        if p(s.last()) {
            sub.lemma_filter_push(s.last(), q);
        }
    }
}

pub proof fn lemma_filter_membership<A>(s: Seq<A>, p: spec_fn(A) -> bool, v: A)
    ensures
        s.filter(p).contains(v) <==> s.contains(v) && p(v),
{
    broadcast use vstd::seq_lib::group_filter_ensures;
    if s.filter(p).contains(v) {
        let j = choose|j: int| 0 <= j < s.filter(p).len() && s.filter(p)[j] == v;
        s.lemma_filter_pred(p, j);
        s.lemma_filter_contains_rev(p, v);
    }
    if s.contains(v) && p(v) {
        let i = choose|i: int| 0 <= i < s.len() && s[i] == v;
        s.lemma_filter_contains(p, i);
    }
}

pub proof fn lemma_filter_same_len<A>(s: Seq<A>, p: spec_fn(A) -> bool)
    requires
        s.filter(p).len() == s.len(),
    ensures
        s.filter(p) == s,
        forall|i: int| 0 <= i < s.len() ==> p(#[trigger] s[i]),
    decreases s.len(),
{
    reveal(Seq::filter);
    if s.len() > 0 {
        s.drop_last().lemma_filter_len(p);
        if !p(s.last()) {
            assert(false);
        }
        lemma_filter_same_len(s.drop_last(), p);
        assert(s.drop_last().push(s.last()) =~= s);
        assert forall|i: int| 0 <= i < s.len() implies p(#[trigger] s[i]) by {
            if i < s.len() - 1 {
                assert(s.drop_last()[i] == s[i]);
            }
        }
    }
}

/// Filtering gives a shrunk sequence.
pub proof fn lemma_filter_shrunk(a: Seq<i64>, p: spec_fn(i64) -> bool)
    ensures
        shrunk(a, a.filter(p)),
{
    let b = a.filter(p);
    assert forall|i: int| 0 <= i < a.len() implies p(a[i]) == b.contains(a[i]) by {
        lemma_filter_membership(a, p, a[i]);
        assert(a.contains(a[i]));
    }
    lemma_filter_ext(a, p, |v: i64| b.contains(v));
}

pub proof fn lemma_shrunk_refl(a: Seq<i64>)
    ensures
        shrunk(a, a),
{
    let t = |v: i64| true;
    assert forall|i: int| 0 <= i < a.len() implies t(a[i]) == a.contains(a[i]) by {
        assert(a.contains(a[i]));
    }
    lemma_filter_ext(a, t, |v: i64| a.contains(v));
    assert(a.filter(t).len() == a.len()) by {
        lemma_filter_all(a);
    }
    lemma_filter_same_len(a, t);
}

pub proof fn lemma_filter_all(a: Seq<i64>)
    ensures
        a.filter(|v: i64| true) == a,
    decreases a.len(),
{
    reveal(Seq::filter);
    if a.len() > 0 {
        lemma_filter_all(a.drop_last());
        assert(a.drop_last().push(a.last()) =~= a);
    }
}

pub proof fn lemma_shrunk_contains(a: Seq<i64>, b: Seq<i64>, v: i64)
    requires
        shrunk(a, b),
        b.contains(v),
    ensures
        a.contains(v),
{
    lemma_filter_membership(a, |w: i64| b.contains(w), v);
}

pub proof fn lemma_shrunk_trans(a: Seq<i64>, b: Seq<i64>, c: Seq<i64>)
    requires
        shrunk(a, b),
        shrunk(b, c),
    ensures
        shrunk(a, c),
{
    let pb = |v: i64| b.contains(v);
    let pc = |v: i64| c.contains(v);
    lemma_filter_filter(a, pb, pc);
    assert forall|i: int| 0 <= i < a.len() implies (pb(a[i]) && pc(a[i])) == pc(a[i]) by {
        if pc(a[i]) {
            lemma_shrunk_contains(b, c, a[i]);
        }
    }
    lemma_filter_ext(a, |v: i64| pb(v) && pc(v), pc);
}

pub proof fn lemma_shrunk_len(a: Seq<i64>, b: Seq<i64>)
    requires
        shrunk(a, b),
    ensures
        b.len() <= a.len(),
        b.len() == a.len() ==> b == a,
{
    let pb = |v: i64| b.contains(v);
    a.lemma_filter_len(pb);
    if b.len() == a.len() {
        lemma_filter_same_len(a, pb);
    }
}

pub proof fn lemma_all_shrunk_trans(a: Seq<Seq<i64>>, b: Seq<Seq<i64>>, c: Seq<Seq<i64>>)
    requires
        all_shrunk(a, b),
        all_shrunk(b, c),
    ensures
        all_shrunk(a, c),
{
    assert forall|i: int| 0 <= i < a.len() implies shrunk(#[trigger] a[i], c[i]) by {
        lemma_shrunk_trans(a[i], b[i], c[i]);
    }
}

pub proof fn lemma_all_shrunk_refl(a: Seq<Seq<i64>>)
    ensures
        all_shrunk(a, a),
{
    assert forall|i: int| 0 <= i < a.len() implies shrunk(#[trigger] a[i], a[i]) by {
        lemma_shrunk_refl(a[i]);
    }
}

pub proof fn lemma_total_update(ds: Seq<Seq<i64>>, x: int, d: Seq<i64>)
    requires
        0 <= x < ds.len(),
    ensures
        total_size(ds.update(x, d)) == total_size(ds) - ds[x].len() + d.len(),
    decreases ds.len(),
{
    let u = ds.update(x, d);
    if x == ds.len() - 1 {
        assert(u.drop_last() =~= ds.drop_last());
    } else {
        lemma_total_update(ds.drop_last(), x, d);
        assert(u.drop_last() =~= ds.drop_last().update(x, d));
    }
}

pub proof fn lemma_total_shrunk(a: Seq<Seq<i64>>, b: Seq<Seq<i64>>)
    requires
        all_shrunk(a, b),
    ensures
        total_size(b) <= total_size(a),
        total_size(b) == total_size(a) ==> b == a,
    decreases a.len(),
{
    if a.len() > 0 {
        let n = a.len() - 1;
        assert(all_shrunk(a.drop_last(), b.drop_last())) by {
            assert forall|i: int| 0 <= i < a.drop_last().len() implies shrunk(
                #[trigger] a.drop_last()[i],
                b.drop_last()[i],
            ) by {
                assert(shrunk(a[i], b[i]));
            }
        }
        lemma_total_shrunk(a.drop_last(), b.drop_last());
        lemma_shrunk_len(a[n], b[n]);
        if total_size(b) == total_size(a) {
            assert(a.drop_last().push(a[n]) =~= a);
            assert(b.drop_last().push(b[n]) =~= b);
        }
    } else {
        assert(a =~= b);
    }
}

pub proof fn lemma_total_nonneg(ds: Seq<Seq<i64>>)
    ensures
        total_size(ds) >= 0,
    decreases ds.len(),
{
    if ds.len() > 0 {
        lemma_total_nonneg(ds.drop_last());
    }
}

/// A support for `v` within `fam` is one within any larger family.
pub proof fn lemma_supported_mono<R: Predicate>(rel: R, fam: Seq<Seq<i64>>, ds: Seq<Seq<i64>>, vs: Seq<usize>, p: int, v: i64)
    requires
        below(fam, ds),
        forall|q: int| 0 <= q < vs.len() ==> vs[q] < fam.len(),
        supported(rel, fam, vs, p, v),
    ensures
        supported(rel, ds, vs, p, v),
{
    let t = choose|t: Seq<i64>|
        #[trigger] rel.holds(t) && t.len() == vs.len() && t[p] == v && forall|q: int|
            0 <= q < vs.len() && q != p ==> fam[vs[q] as int].contains(t[q]);
    assert forall|q: int| 0 <= q < vs.len() && q != p implies ds[vs[q] as int].contains(t[q]) by {
        assert(fam[vs[q] as int].contains(t[q]));
    }
}

pub proof fn lemma_supported_is_completes<R: Predicate>(rel: R, ds: Seq<Seq<i64>>, vs: Seq<usize>, p: int, v: i64)
    ensures
        supported(rel, ds, vs, p, v) == completes(rel, ds, vs, p, v, Seq::empty()),
{
    if supported(rel, ds, vs, p, v) {
        let t = choose|t: Seq<i64>|
            #[trigger] rel.holds(t) && t.len() == vs.len() && t[p] == v && forall|q: int|
                0 <= q < vs.len() && q != p ==> ds[vs[q] as int].contains(t[q]);
        assert(t.subrange(0, 0) =~= Seq::<i64>::empty());
    }
    if completes(rel, ds, vs, p, v, Seq::empty()) {
        let t = choose|t: Seq<i64>|
            #[trigger] rel.holds(t) && t.len() == vs.len() && t[p] == v && t.subrange(0, 0) == Seq::<i64>::empty()
                && forall|q: int| 0 <= q < vs.len() && q != p ==> ds[vs[q] as int].contains(t[q]);
        assert(rel.holds(t));
    }
}

pub proof fn lemma_completes_full<R: Predicate>(rel: R, ds: Seq<Seq<i64>>, vs: Seq<usize>, p: int, v: i64, pre: Seq<i64>)
    requires
        pre.len() == vs.len(),
        0 <= p < pre.len(),
        pre[p] == v,
    ensures
        completes(rel, ds, vs, p, v, pre) == rel.holds(pre),
{
    if completes(rel, ds, vs, p, v, pre) {
        let t = choose|t: Seq<i64>|
            #[trigger] rel.holds(t) && t.len() == vs.len() && t[p] == v && t.subrange(0, pre.len() as int) == pre
                && forall|q: int| pre.len() <= q < vs.len() && q != p ==> ds[vs[q] as int].contains(t[q]);
        assert(t =~= t.subrange(0, pre.len() as int));
    }
    if rel.holds(pre) {
        assert(pre.subrange(0, pre.len() as int) =~= pre);
    }
}

pub proof fn lemma_completes_at_p<R: Predicate>(rel: R, ds: Seq<Seq<i64>>, vs: Seq<usize>, p: int, v: i64, pre: Seq<i64>)
    requires
        pre.len() == p,
        p < vs.len(),
    ensures
        completes(rel, ds, vs, p, v, pre) == completes(rel, ds, vs, p, v, pre.push(v)),
{
    if completes(rel, ds, vs, p, v, pre) {
        let t = choose|t: Seq<i64>|
            #[trigger] rel.holds(t) && t.len() == vs.len() && t[p] == v && t.subrange(0, pre.len() as int) == pre
                && forall|q: int| pre.len() <= q < vs.len() && q != p ==> ds[vs[q] as int].contains(t[q]);
        assert(t.subrange(0, p + 1) =~= pre.push(v)) by {
            assert forall|i: int| 0 <= i < p implies t.subrange(0, p + 1)[i] == pre.push(v)[i] by {
                assert(t.subrange(0, p)[i] == t[i]);
            }
        }
    }
    if completes(rel, ds, vs, p, v, pre.push(v)) {
        let t = choose|t: Seq<i64>|
            #[trigger] rel.holds(t) && t.len() == vs.len() && t[p] == v && t.subrange(0, pre.len() + 1 as int) == pre.push(v)
                && forall|q: int| pre.len() + 1 <= q < vs.len() && q != p ==> ds[vs[q] as int].contains(t[q]);
        assert(t.subrange(0, p) =~= pre) by {
            assert forall|i: int| 0 <= i < p implies t.subrange(0, p)[i] == pre[i] by {
                assert(t.subrange(0, p + 1)[i] == pre.push(v)[i]);
            }
        }
    }
}

pub proof fn lemma_completes_step<R: Predicate>(rel: R, ds: Seq<Seq<i64>>, vs: Seq<usize>, p: int, v: i64, pre: Seq<i64>, w: i64)
    requires
        pre.len() < vs.len(),
        pre.len() != p,
        ds[vs[pre.len() as int] as int].contains(w),
    ensures
        completes(rel, ds, vs, p, v, pre.push(w)) ==> completes(rel, ds, vs, p, v, pre),
{
    let j = pre.len() as int;
    if completes(rel, ds, vs, p, v, pre.push(w)) {
        let t = choose|t: Seq<i64>|
            #[trigger] rel.holds(t) && t.len() == vs.len() && t[p] == v && t.subrange(0, j + 1) == pre.push(w)
                && forall|q: int| j + 1 <= q < vs.len() && q != p ==> ds[vs[q] as int].contains(t[q]);
        assert(t.subrange(0, j) =~= pre) by {
            assert forall|i: int| 0 <= i < j implies t.subrange(0, j)[i] == pre[i] by {
                assert(t.subrange(0, j + 1)[i] == pre.push(w)[i]);
            }
        }
        assert(t[j] == t.subrange(0, j + 1)[j]);
    }
}

pub proof fn lemma_completes_split<R: Predicate>(rel: R, ds: Seq<Seq<i64>>, vs: Seq<usize>, p: int, v: i64, pre: Seq<i64>)
    requires
        pre.len() < vs.len(),
        pre.len() != p,
        completes(rel, ds, vs, p, v, pre),
    ensures
        exists|w: i64| ds[vs[pre.len() as int] as int].contains(w) && #[trigger] completes(rel, ds, vs, p, v, pre.push(w)),
{
    let j = pre.len() as int;
    let t = choose|t: Seq<i64>|
        #[trigger] rel.holds(t) && t.len() == vs.len() && t[p] == v && t.subrange(0, j) == pre
            && forall|q: int| j <= q < vs.len() && q != p ==> ds[vs[q] as int].contains(t[q]);
    let w = t[j];
    assert(t.subrange(0, j + 1) =~= pre.push(w)) by {
        assert forall|i: int| 0 <= i < j implies t.subrange(0, j + 1)[i] == pre.push(w)[i] by {
            assert(t.subrange(0, j)[i] == t[i]);
        }
    }
    assert(completes(rel, ds, vs, p, v, pre.push(w)));
}

} // verus!
