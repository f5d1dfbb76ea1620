//! Arc consistency over all arcs: AC-1 and AC-3.

use vstd::prelude::*;
use crate::consistency::model::{precedes, 
    all_consistent, all_wf, arc_consistent, can_undo, family_closed, family_consistent, fits,
    revised, shrinks, sub_family, supported, supports, total_live, undo, Doms,
};
use crate::consistency::revise::{
    lemma_fits_shrinks, lemma_revised, lemma_revised_keeps, lemma_shrinks_trans,
    lemma_supports_stable, revise_logged,
};
use crate::domains::{Chain, DomMap};
use crate::problem::{well_formed, Constraints, Problem, Variable};

verus! {

/// For each variable the arcs of `c` that end in it, and nothing else.
pub open spec fn neighbors_of<C: Constraints>(c: &C, nb: Seq<Vec<(Variable, Variable)>>) -> bool {
    &&& forall|x: int, k: int|
        0 <= x < nb.len() && 0 <= k < nb[x]@.len() ==> c.spec_arcs().contains(#[trigger] nb[x]@[k])
            && nb[x]@[k].1.0 == x
    &&& forall|k: int|
        0 <= k < c.spec_arcs().len() ==> c.spec_arcs()[k].1.0 < nb.len() && nb[c.spec_arcs()[k].1.0 as int]@.contains(
            #[trigger] c.spec_arcs()[k],
        )
}

/// Some choice of slots is consistent along every arc and leaves no domain
/// empty that has a linked slot.
pub open spec fn has_kernel<C: Constraints>(c: &C, d: Doms) -> bool {
    exists|f: Seq<Set<usize>>|
        #![trigger sub_family(f, d)]
        sub_family(f, d) && family_closed(c, d, f) && forall|x: int|
            0 <= x < d.len() && d[x].order.len() > 0 ==> exists|i: usize| #[trigger] f[x].contains(i)
}

/// The slots that are linked in `d`, as a choice of slots.
pub open spec fn linked(d: Doms) -> Seq<Set<usize>> {
    Seq::new(d.len(), |x: int| Set::new(|i: usize| d[x].order.contains(i)))
}

/// A choice of slots that is consistent along every arc stays so when the
/// domains shrink.
pub proof fn lemma_closed_stable<C: Constraints>(c: &C, a: Doms, b: Doms, f: Seq<Set<usize>>)
    requires
        all_wf(a),
        fits(c, a),
        shrinks(a, b),
        sub_family(f, a),
        family_closed(c, a, f),
    ensures
        family_closed(c, b, f),
{
    assert forall|k: int| 0 <= k < c.spec_arcs().len() implies family_consistent(
        c,
        b,
        f,
        (#[trigger] c.spec_arcs()[k]).0,
        c.spec_arcs()[k].1,
    ) by {
        let x = c.spec_arcs()[k].0;
        let y = c.spec_arcs()[k].1;
        assert(family_consistent(c, a, f, x, y));
        assert forall|i: usize| #[trigger] f[x.0 as int].contains(i) implies exists|j: usize|
            f[y.0 as int].contains(j) && #[trigger] supports(c, b, x, i, y, j) by {
            let j = choose|j: usize| f[y.0 as int].contains(j) && #[trigger] supports(c, a, x, i, y, j);
            lemma_linked_in_range(a, x.0 as int, i);
            lemma_linked_in_range(a, y.0 as int, j);
            lemma_supports_stable(c, a, b, x, i, y, j);
        }
    }
}

/// A linked slot is a slot.
pub proof fn lemma_linked_in_range(d: Doms, x: int, i: usize)
    requires
        all_wf(d),
        0 <= x < d.len(),
        d[x].order.contains(i),
    ensures
        1 <= i < d[x].nodes.len(),
{
    assert(d[x].wf());
    assert(d[x].order[d[x].order.index_of(i)] == i);
}

/// Where a run that kept every consistent choice of slots ended with all
/// arcs consistent and no domain newly empty, the domains had a kernel; where
/// it emptied a domain, they had none.
pub proof fn lemma_kernel<C: Constraints>(c: &C, a: Doms, b: Doms, r: bool)
    requires
        all_wf(a),
        all_wf(b),
        fits(c, a),
        shrinks(a, b),
        forall|f: Seq<Set<usize>>| #[trigger]
            sub_family(f, a) && family_closed(c, a, f) ==> sub_family(f, b),
        r ==> all_consistent(c, b) && forall|x: int|
            0 <= x < a.len() && a[x].order.len() > 0 ==> (#[trigger] b[x]).order.len() > 0,
        !r ==> exists|x: int| 0 <= x < a.len() && (#[trigger] b[x]).order.len() == 0 && a[x].order.len() > 0,
    ensures
        r == has_kernel(c, a),
{
    if r {
        let f = linked(b);
        assert(sub_family(f, a)) by {
            assert forall|x: int, i: usize| 0 <= x < a.len() && (#[trigger] f[x].contains(i)) implies a[x].order.contains(
                i,
            ) by {
                assert(b[x].order.contains(i));
            }
        }
        assert(family_closed(c, a, f)) by {
            assert forall|k: int| 0 <= k < c.spec_arcs().len() implies family_consistent(
                c,
                a,
                f,
                (#[trigger] c.spec_arcs()[k]).0,
                c.spec_arcs()[k].1,
            ) by {
                let x = c.spec_arcs()[k].0;
                let y = c.spec_arcs()[k].1;
                assert(arc_consistent(c, b, x, y));
                assert forall|i: usize| #[trigger] f[x.0 as int].contains(i) implies exists|j: usize|
                    f[y.0 as int].contains(j) && #[trigger] supports(c, a, x, i, y, j) by {
                    assert(b[x.0 as int].order.contains(i));
                    assert(supported(c, b, x, i, y));
                    let j = choose|j: usize|
                        b[y.0 as int].order.contains(j) && #[trigger] supports(c, b, x, i, y, j);
                    lemma_linked_in_range(b, x.0 as int, i);
                    lemma_linked_in_range(b, y.0 as int, j);
                    lemma_supports_stable(c, a, b, x, i, y, j);
                    assert(f[y.0 as int].contains(j));
                }
            }
        }
        assert forall|x: int| 0 <= x < a.len() && a[x].order.len() > 0 implies exists|i: usize| #[trigger]
            f[x].contains(i) by {
            assert(b[x].order.len() > 0);
            assert(f[x].contains(b[x].order[0]));
        }
    } else {
        if has_kernel(c, a) {
            let f = choose|f: Seq<Set<usize>>|
                #![trigger sub_family(f, a)]
                sub_family(f, a) && family_closed(c, a, f) && forall|x: int|
                    0 <= x < a.len() && a[x].order.len() > 0 ==> exists|i: usize| #[trigger] f[x].contains(i);
            let x = choose|x: int| 0 <= x < a.len() && (#[trigger] b[x]).order.len() == 0 && a[x].order.len() > 0;
            assert(sub_family(f, b));
            let i = choose|i: usize| #[trigger] f[x].contains(i);
            assert(b[x].order.contains(i));
        }
    }
}

/// For each variable of `constraints` the arcs that end in it, in the order
/// of `arcs`.
pub fn neighbor_arcs<C: Constraints>(constraints: &C, n: usize) -> (r: Vec<Vec<(Variable, Variable)>>)
    requires
        forall|k: int|
            0 <= k < constraints.spec_arcs().len() ==> (#[trigger] constraints.spec_arcs()[k]).1.0 < n,
    ensures
        r@.len() == n,
        neighbors_of(constraints, r@),
{
    let mut neighbors: Vec<Vec<(Variable, Variable)>> = Vec::new();
    let mut x: usize = 0;
    while x < n
        invariant
            x <= n,
            neighbors.len() == x,
            forall|z: int| 0 <= z < x ==> (#[trigger] neighbors[z])@.len() == 0,
        decreases n - x,
    {
        neighbors.push(Vec::new());
        x = x + 1;
    }
    let arcs = constraints.arcs();
    let mut k: usize = 0;
    while k < arcs.len()
        invariant
            k <= arcs.len(),
            arcs@ == constraints.spec_arcs(),
            neighbors.len() == n,
            forall|j: int| 0 <= j < arcs.len() ==> (#[trigger] arcs[j]).1.0 < n,
            forall|z: int, j: int|
                0 <= z < n && 0 <= j < neighbors[z]@.len() ==> arcs@.contains(
                    #[trigger] neighbors[z]@[j],
                ) && neighbors[z]@[j].1.0 == z,
            forall|j: int| 0 <= j < k ==> neighbors[arcs[j].1.0 as int]@.contains(#[trigger] arcs[j]),
        decreases arcs.len() - k,
    {
        let arc = arcs[k];
        let t = arc.1.0;
        let ghost before = neighbors@;
        neighbors[t].push(arc);
        proof {
            assert(neighbors[t as int]@ == before[t as int]@.push(arc));
            assert forall|z: int, j: int| 0 <= z < n && 0 <= j < neighbors[z]@.len() implies arcs@.contains(
                #[trigger] neighbors[z]@[j],
            ) && neighbors[z]@[j].1.0 == z by {
                if z == t && j == before[t as int]@.len() {
                    assert(arcs@[k as int] == arc);
                } else {
                    assert(neighbors[z]@[j] == before[z]@[j]);
                }
            }
            assert forall|j: int| 0 <= j <= k implies neighbors[arcs[j].1.0 as int]@.contains(
                #[trigger] arcs[j],
            ) by {
                if j == k {
                    assert(neighbors[t as int]@[before[t as int]@.len() as int] == arc);
                } else {
                    let z = arcs[j].1.0 as int;
                    assert(before[z]@.contains(arcs[j]));
                    let w = before[z]@.index_of(arcs[j]);
                    assert(neighbors[z]@[w] == arcs[j]);
                }
            }
        }
        k = k + 1;
    }
    neighbors
}

/// Revises the arcs of `work_list`, the last one first, and after every
/// revision that unlinked a slot of a variable adds the arcs that end in
/// that variable. Stops with `false` as soon as a domain is empty, with
/// `true` when the list is empty. Removals are logged and checks counted as
/// `revise_logged` does.
pub fn propagate<C: Constraints>(
    domains: &mut DomMap,
    constraints: &C,
    neighbors: &Vec<Vec<(Variable, Variable)>>,
    work_list: Vec<(Variable, Variable)>,
    log: &mut Vec<(Variable, usize)>,
    record: bool,
    checks: &mut u32,
) -> (r: bool)
    requires
        old(domains).wf(),
        fits(constraints, old(domains)@),
        neighbors@.len() == old(domains)@.len(),
        neighbors_of(constraints, neighbors@),
        forall|k: int| 0 <= k < work_list@.len() ==> constraints.spec_arcs().contains(#[trigger] work_list@[k]),
        forall|k: int|
            0 <= k < constraints.spec_arcs().len() ==> arc_consistent(
                constraints,
                old(domains)@,
                (#[trigger] constraints.spec_arcs()[k]).0,
                constraints.spec_arcs()[k].1,
            ) || work_list@.contains(constraints.spec_arcs()[k]),
    ensures
        final(domains).wf(),
        fits(constraints, final(domains)@),
        shrinks(old(domains)@, final(domains)@),
        forall|f: Seq<Set<usize>>| #[trigger]
            sub_family(f, old(domains)@) && family_closed(constraints, old(domains)@, f) ==> sub_family(
                f,
                final(domains)@,
            ),
        r ==> all_consistent(constraints, final(domains)@),
        r ==> forall|x: int|
            0 <= x < old(domains)@.len() && old(domains)@[x].order.len() > 0 ==> (#[trigger] final(domains)@[x]).order.len() > 0,
        !r ==> exists|x: int|
            0 <= x < old(domains)@.len() && (#[trigger] final(domains)@[x]).order.len() == 0 && old(domains)@[x].order.len() > 0,
        !record ==> final(log)@ == old(log)@,
        record && can_undo(old(domains)@, old(log)@) ==> can_undo(final(domains)@, final(log)@),
        record ==> undo(final(domains)@, final(log)@) == undo(old(domains)@, old(log)@),
        *final(checks) >= *old(checks),
{
    let ghost d0 = domains@;
    let ghost arcs = constraints.spec_arcs();
    let mut work_list = work_list;
    proof {
        assert(shrinks(d0, d0));
    }
    while work_list.len() > 0
        invariant
            domains.wf(),
            d0 == old(domains)@,
            all_wf(d0),
            arcs == constraints.spec_arcs(),
            fits(constraints, d0),
            fits(constraints, domains@),
            shrinks(d0, domains@),
            neighbors@.len() == d0.len(),
            neighbors_of(constraints, neighbors@),
            forall|k: int| 0 <= k < work_list@.len() ==> arcs.contains(#[trigger] work_list@[k]),
            forall|k: int|
                0 <= k < arcs.len() ==> arc_consistent(
                    constraints,
                    domains@,
                    (#[trigger] arcs[k]).0,
                    arcs[k].1,
                ) || work_list@.contains(arcs[k]),
            forall|f: Seq<Set<usize>>| #[trigger]
                sub_family(f, d0) && family_closed(constraints, d0, f) ==> sub_family(f, domains@),
            forall|x: int|
                0 <= x < d0.len() && d0[x].order.len() > 0 ==> (#[trigger] domains@[x]).order.len() > 0,
            !record ==> log@ == old(log)@,
            record && can_undo(d0, old(log)@) ==> can_undo(domains@, log@),
            record ==> undo(domains@, log@) == undo(d0, old(log)@),
            *checks >= *old(checks),
        decreases total_live(domains@), work_list.len(),
    {
        let ghost d = domains@;
        let ghost wl = work_list@;
        let (x, y) = work_list.pop().unwrap();
        proof {
            assert(wl == work_list@.push((x, y)));
            assert(arcs.contains(wl[wl.len() - 1]));
            let k = arcs.index_of((x, y));
            assert(arcs[k] == (x, y));
            assert(d[x.0 as int].wf());
        }
        let res = revise_logged(domains, constraints, x, y, log, record, checks);
        proof {
            lemma_revised(constraints, d, x, y, d[x.0 as int].order);
            lemma_shrinks_trans(d0, d, domains@);
            lemma_fits_shrinks(constraints, d, domains@);
            assert forall|f: Seq<Set<usize>>| #[trigger]
                sub_family(f, d0) && family_closed(constraints, d0, f) implies sub_family(f, domains@) by {
                lemma_closed_stable(constraints, d0, d, f);
                let k = arcs.index_of((x, y));
                assert(family_consistent(constraints, d, f, arcs[k].0, arcs[k].1));
                lemma_revised_keeps(constraints, d, x, y, d[x.0 as int].order, f);
            }
        }
        match res {
            None => {
                proof {
                    assert(d0[x.0 as int].order.len() >= d[x.0 as int].order.len());
                }
                return false;
            },
            Some(mutated) => {
                let ghost wl1 = work_list@;
                if mutated {
                    let nb = &neighbors[x.0];
                    let mut k: usize = 0;
                    while k < nb.len()
                        invariant
                            k <= nb.len(),
                            arcs == constraints.spec_arcs(),
                            x.0 < neighbors@.len(),
                            nb@ == neighbors@[x.0 as int]@,
                            neighbors_of(constraints, neighbors@),
                            work_list@ == wl1 + nb@.take(k as int),
                            forall|j: int| 0 <= j < work_list@.len() ==> arcs.contains(#[trigger] work_list@[j]),
                        decreases nb.len() - k,
                    {
                        work_list.push(nb[k]);
                        proof {
                            assert(nb@.take(k as int + 1) =~= nb@.take(k as int).push(nb@[k as int]));
                            assert(work_list@ =~= wl1 + nb@.take(k as int + 1));
                            assert(arcs.contains(neighbors@[x.0 as int]@[k as int]));
                        }
                        k = k + 1;
                    }
                    proof {
                        assert(nb@.take(nb@.len() as int) =~= nb@);
                    }
                }
                proof {
                    let d1 = domains@;
                    assert forall|k: int| 0 <= k < arcs.len() implies arc_consistent(
                        constraints,
                        d1,
                        (#[trigger] arcs[k]).0,
                        arcs[k].1,
                    ) || work_list@.contains(arcs[k]) by {
                        let u = arcs[k].0;
                        let v = arcs[k].1;
                        if wl1.contains(arcs[k]) {
                            let w = wl1.index_of(arcs[k]);
                            assert(work_list@[w] == arcs[k]);
                        } else if mutated && v == x {
                            let nbx = neighbors@[x.0 as int]@;
                            assert(nbx.contains(arcs[k]));
                            let w = nbx.index_of(arcs[k]);
                            assert(work_list@[wl1.len() + w] == arcs[k]);
                        } else if arcs[k] == (x, y) {
                            if mutated {
                                // x != y here, as v != x
                                assert forall|i: usize| #[trigger] d1[x.0 as int].order.contains(i) implies supported(
                                    constraints,
                                    d1,
                                    x,
                                    i,
                                    y,
                                ) by {
                                    assert(d[x.0 as int].order.contains(i));
                                }
                            } else {
                                assert(d1 == d);
                            }
                        } else {
                            // The arc was consistent before the revision.
                            assert(!wl.contains(arcs[k])) by {
                                if wl.contains(arcs[k]) {
                                    let w = wl.index_of(arcs[k]);
                                    if w < wl1.len() {
                                        assert(wl1[w] == arcs[k]);
                                    }
                                }
                            }
                            assert(arc_consistent(constraints, d, u, v));
                            if mutated {
                                assert(d1[v.0 as int] == d[v.0 as int]);
                                assert forall|i: usize| #[trigger] d1[u.0 as int].order.contains(i) implies supported(
                                    constraints,
                                    d1,
                                    u,
                                    i,
                                    v,
                                ) by {
                                    assert(d[u.0 as int].order.contains(i));
                                    assert(supported(constraints, d, u, i, v));
                                    let j = choose|j: usize|
                                        d[v.0 as int].order.contains(j) && #[trigger] supports(
                                            constraints,
                                            d,
                                            u,
                                            i,
                                            v,
                                            j,
                                        );
                                    lemma_linked_in_range(d, u.0 as int, i);
                                    lemma_linked_in_range(d, v.0 as int, j);
                                    lemma_supports_stable(constraints, d, d1, u, i, v, j);
                                }
                            } else {
                                assert(d1 == d);
                            }
                        }
                    }
                }
            },
        }
    }
    proof {
        assert forall|k: int| 0 <= k < arcs.len() implies arc_consistent(
            constraints,
            domains@,
            (#[trigger] arcs[k]).0,
            arcs[k].1,
        ) by {
            assert(!work_list@.contains(arcs[k]));
        }
    }
    true
}

/// AC-3: revises arcs from a work list that starts with all arcs, until the
/// list is empty or a domain is.
///
/// The domains shrink. Every choice of slots that is consistent along all
/// arcs stays linked; where the answer is `true` the linked slots are such a
/// choice themselves, so they are the largest one. The answer is `true`
/// exactly where a choice exists that leaves no domain empty.
pub fn ac_3<C: Constraints>(domains: &mut DomMap, constraints: &C) -> (r: bool)
    requires
        old(domains).wf(),
        fits(constraints, old(domains)@),
    ensures
        final(domains).wf(),
        fits(constraints, final(domains)@),
        shrinks(old(domains)@, final(domains)@),
        forall|f: Seq<Set<usize>>| #[trigger]
            sub_family(f, old(domains)@) && family_closed(constraints, old(domains)@, f) ==> sub_family(
                f,
                final(domains)@,
            ),
        r ==> all_consistent(constraints, final(domains)@),
        r ==> forall|x: int|
            0 <= x < old(domains)@.len() && old(domains)@[x].order.len() > 0 ==> (#[trigger] final(domains)@[x]).order.len() > 0,
        !r ==> exists|x: int|
            0 <= x < old(domains)@.len() && (#[trigger] final(domains)@[x]).order.len() == 0 && old(domains)@[x].order.len() > 0,
        r == has_kernel(constraints, old(domains)@),
{
    let work_list = constraints.arcs();
    let neighbors = neighbor_arcs(constraints, domains.vars_count());
    let mut log: Vec<(Variable, usize)> = Vec::new();
    let mut checks: u32 = 0;
    proof {
        assert forall|k: int| 0 <= k < work_list@.len() implies constraints.spec_arcs().contains(
            #[trigger] work_list@[k],
        ) by {}
    }
    let r = propagate(domains, constraints, &neighbors, work_list, &mut log, false, &mut checks);
    proof {
        lemma_kernel(constraints, old(domains)@, domains@, r);
    }
    r
}

/// AC-1: revises every arc in turn, again and again, until a full pass
/// unlinks nothing or a domain is empty. It prunes as `ac_3` does.
pub fn ac_1<C: Constraints>(domains: &mut DomMap, constraints: &C) -> (r: bool)
    requires
        old(domains).wf(),
        fits(constraints, old(domains)@),
    ensures
        final(domains).wf(),
        fits(constraints, final(domains)@),
        shrinks(old(domains)@, final(domains)@),
        forall|f: Seq<Set<usize>>| #[trigger]
            sub_family(f, old(domains)@) && family_closed(constraints, old(domains)@, f) ==> sub_family(
                f,
                final(domains)@,
            ),
        r ==> all_consistent(constraints, final(domains)@),
        r ==> forall|x: int|
            0 <= x < old(domains)@.len() && old(domains)@[x].order.len() > 0 ==> (#[trigger] final(domains)@[x]).order.len() > 0,
        !r ==> exists|x: int|
            0 <= x < old(domains)@.len() && (#[trigger] final(domains)@[x]).order.len() == 0 && old(domains)@[x].order.len() > 0,
        r == has_kernel(constraints, old(domains)@),
{
    let ghost d0 = domains@;
    let ghost arcs = constraints.spec_arcs();
    let mut log: Vec<(Variable, usize)> = Vec::new();
    let mut checks: u32 = 0;
    let mut changed = true;
    proof {
        assert(shrinks(d0, d0));
    }
    while changed
        invariant
            domains.wf(),
            d0 == old(domains)@,
            all_wf(d0),
            arcs == constraints.spec_arcs(),
            fits(constraints, d0),
            fits(constraints, domains@),
            shrinks(d0, domains@),
            forall|f: Seq<Set<usize>>| #[trigger]
                sub_family(f, d0) && family_closed(constraints, d0, f) ==> sub_family(f, domains@),
            forall|x: int|
                0 <= x < d0.len() && d0[x].order.len() > 0 ==> (#[trigger] domains@[x]).order.len() > 0,
            !changed ==> all_consistent(constraints, domains@),
        decreases total_live(domains@), (if changed { 1int } else { 0int }),
    {
        changed = false;
        let ghost start = domains@;
        let list = constraints.arcs();
        let mut k: usize = 0;
        while k < list.len()
            invariant
                domains.wf(),
                d0 == old(domains)@,
                all_wf(d0),
                arcs == constraints.spec_arcs(),
                list@ == arcs,
                k <= list.len(),
                fits(constraints, d0),
                fits(constraints, domains@),
                shrinks(d0, domains@),
                forall|f: Seq<Set<usize>>| #[trigger]
                    sub_family(f, d0) && family_closed(constraints, d0, f) ==> sub_family(f, domains@),
                forall|x: int|
                    0 <= x < d0.len() && d0[x].order.len() > 0 ==> (#[trigger] domains@[x]).order.len() > 0,
                total_live(domains@) <= total_live(start),
                changed ==> total_live(domains@) < total_live(start),
                !changed ==> domains@ == start,
                !changed ==> forall|j: int|
                    0 <= j < k ==> arc_consistent(constraints, domains@, (#[trigger] arcs[j]).0, arcs[j].1),
            decreases list.len() - k,
        {
            let ghost d = domains@;
            let (x, y) = list[k];
            proof {
                assert(arcs[k as int] == (x, y));
                assert(d[x.0 as int].wf());
            }
            let res = revise_logged(domains, constraints, x, y, &mut log, false, &mut checks);
            proof {
                lemma_revised(constraints, d, x, y, d[x.0 as int].order);
                lemma_shrinks_trans(d0, d, domains@);
                lemma_fits_shrinks(constraints, d, domains@);
                assert forall|f: Seq<Set<usize>>| #[trigger]
                    sub_family(f, d0) && family_closed(constraints, d0, f) implies sub_family(f, domains@) by {
                    lemma_closed_stable(constraints, d0, d, f);
                    assert(family_consistent(constraints, d, f, arcs[k as int].0, arcs[k as int].1));
                    lemma_revised_keeps(constraints, d, x, y, d[x.0 as int].order, f);
                }
            }
            match res {
                None => {
                    proof {
                        assert(d0[x.0 as int].order.len() >= d[x.0 as int].order.len());
                        lemma_kernel(constraints, d0, domains@, false);
                    }
                    return false;
                },
                Some(mutated) => {
                    if mutated {
                        changed = true;
                    } else {
                        proof {
                            assert(domains@ == d);
                            assert forall|i: usize| #[trigger] d[x.0 as int].order.contains(i) implies supported(
                                constraints,
                                d,
                                x,
                                i,
                                y,
                            ) by {}
                        }
                    }
                },
            }
            k = k + 1;
        }
    }
    proof {
        lemma_kernel(constraints, d0, domains@, true);
    }
    true
}

/// The domains that a problem starts with: for each variable the list of
/// its values, all linked.
pub open spec fn initial<P: Problem>(p: &P) -> Doms {
    Seq::new(p.spec_size(), |x: int| Chain::fresh(p.spec_domain(Variable(x as usize))))
}

/// Slot `i` of variable `x` belongs to some choice of slots that is
/// consistent along every arc.
pub open spec fn survives<C: Constraints>(c: &C, d: Doms, x: int, i: usize) -> bool {
    exists|f: Seq<Set<usize>>|
        #![trigger sub_family(f, d)]
        sub_family(f, d) && family_closed(c, d, f) && f[x].contains(i)
}

/// Slot `i` is the only slot of variable `x` that belongs to a choice of
/// slots that is consistent along every arc.
pub open spec fn sole_survivor<C: Constraints>(c: &C, d: Doms, x: int, i: usize) -> bool {
    survives(c, d, x, i) && forall|j: usize| #[trigger] survives(c, d, x, j) ==> j == i
}

/// Variable `x` has exactly one slot that belongs to a choice of slots that
/// is consistent along every arc.
pub open spec fn single<C: Constraints>(c: &C, d: Doms, x: int) -> bool {
    exists|i: usize| #[trigger] sole_survivor(c, d, x, i)
}

/// Every variable has exactly one slot that belongs to a choice of slots
/// that is consistent along every arc.
pub open spec fn all_single<C: Constraints>(c: &C, d: Doms) -> bool {
    forall|x: int| 0 <= x < d.len() ==> #[trigger] single(c, d, x)
}

/// Arc-consistent domains that have shrunk from others are, as a choice of
/// slots, consistent along every arc of the others.
pub proof fn lemma_linked_closed<C: Constraints>(c: &C, a: Doms, b: Doms)
    requires
        all_wf(a),
        all_wf(b),
        fits(c, a),
        shrinks(a, b),
        all_consistent(c, b),
    ensures
        sub_family(linked(b), a),
        family_closed(c, a, linked(b)),
{
    let f = linked(b);
    assert forall|x: int, i: usize| 0 <= x < a.len() && (#[trigger] f[x].contains(i)) implies a[x].order.contains(
        i,
    ) by {
        assert(b[x].order.contains(i));
    }
    assert forall|k: int| 0 <= k < c.spec_arcs().len() implies family_consistent(
        c,
        a,
        f,
        (#[trigger] c.spec_arcs()[k]).0,
        c.spec_arcs()[k].1,
    ) by {
        let x = c.spec_arcs()[k].0;
        let y = c.spec_arcs()[k].1;
        assert(arc_consistent(c, b, x, y));
        assert forall|i: usize| #[trigger] f[x.0 as int].contains(i) implies exists|j: usize|
            f[y.0 as int].contains(j) && #[trigger] supports(c, a, x, i, y, j) by {
            assert(b[x.0 as int].order.contains(i));
            assert(supported(c, b, x, i, y));
            let j = choose|j: usize| b[y.0 as int].order.contains(j) && #[trigger] supports(c, b, x, i, y, j);
            lemma_linked_in_range(b, x.0 as int, i);
            lemma_linked_in_range(b, y.0 as int, j);
            lemma_supports_stable(c, a, b, x, i, y, j);
            assert(f[y.0 as int].contains(j));
        }
    }
}

/// Whether arc consistency alone leaves every variable of the problem
/// exactly one value.
pub fn determined<P: Problem>(problem: &P) -> (r: bool)
    requires
        well_formed(problem),
    ensures
        r == all_single(problem, initial(problem)),
{
    let mut domains = DomMap::new(problem);
    let ghost d0 = domains@;
    let n = domains.vars_count();
    proof {
        assert forall|k: int| 0 <= k < d0.len() implies d0[k] == initial(problem)[k] by {
            let x = k as usize;
            assert(d0[x as int] == Chain::fresh(problem.spec_domain(Variable(x))));
        }
        assert(d0 =~= initial(problem));
        assert forall|y: usize, i: int| y < d0.len() && 1 <= i < d0[y as int].nodes.len() implies problem.admits(
            (Variable(y), #[trigger] d0[y as int].item(i)),
        ) by {
            assert(d0[y as int] == Chain::fresh(problem.spec_domain(Variable(y))));
            assert(d0[y as int].wf());
            assert(d0[y as int].item(i) == problem.spec_domain(Variable(y))[i - 1]);
        }
    }
    let ok = ac_3(&mut domains, problem);
    let ghost d1 = domains@;
    proof {
        if ok {
            lemma_linked_closed(problem, d0, d1);
            assert forall|x: int, i: usize| 0 <= x < d0.len() implies (#[trigger] survives(problem, d0, x, i)
                <==> d1[x].order.contains(i)) by {
                if d1[x].order.contains(i) {
                    assert(linked(d1)[x].contains(i));
                    assert(sub_family(linked(d1), d0));
                }
                if survives(problem, d0, x, i) {
                    let f = choose|f: Seq<Set<usize>>|
                        #![trigger sub_family(f, d0)]
                        sub_family(f, d0) && family_closed(problem, d0, f) && f[x].contains(i);
                    assert(sub_family(f, d1));
                }
            }
        } else {
            let z = choose|z: int| 0 <= z < d0.len() && (#[trigger] d1[z]).order.len() == 0 && d0[z].order.len() > 0;
            assert forall|i: usize| !#[trigger] survives(problem, d0, z, i) by {
                if survives(problem, d0, z, i) {
                    let f = choose|f: Seq<Set<usize>>|
                        #![trigger sub_family(f, d0)]
                        sub_family(f, d0) && family_closed(problem, d0, f) && f[z].contains(i);
                    assert(sub_family(f, d1));
                    assert(d1[z].order.contains(i));
                }
            }
            assert(!single(problem, d0, z)) by {
                if single(problem, d0, z) {
                    let i = choose|i: usize| #[trigger] sole_survivor(problem, d0, z, i);
                    assert(survives(problem, d0, z, i));
                }
            }
            assert(!all_single(problem, d0));
        }
    }
    let mut x: usize = 0;
    while x < n
        invariant
            x <= n,
            n == d1.len(),
            n == d0.len(),
            d0 == initial(problem),
            d1 == domains@,
            domains.wf(),
            ok ==> forall|z: int, i: usize|
                0 <= z < d0.len() ==> (#[trigger] survives(problem, d0, z, i) <==> d1[z].order.contains(i)),
            !ok ==> !all_single(problem, d0),
            forall|z: int| 0 <= z < x ==> (#[trigger] d1[z]).order.len() == 1,
        decreases n - x,
    {
        if domains.live(Variable(x)) != 1 {
            proof {
                if ok {
                    let ord = d1[x as int].order;
                    assert(d1[x as int].wf());
                    if all_single(problem, d0) {
                        assert(single(problem, d0, x as int));
                        let i = choose|i: usize| #[trigger] sole_survivor(problem, d0, x as int, i);
                        assert(survives(problem, d0, x as int, i));
                        assert(ord.contains(i));
                        if ord.len() >= 2 {
                            assert(ord.contains(ord[0]));
                            assert(ord.contains(ord[1]));
                            assert(survives(problem, d0, x as int, ord[0]));
                            assert(survives(problem, d0, x as int, ord[1]));
                        }
                    }
                }
            }
            return false;
        }
        x = x + 1;
    }
    proof {
        if !ok {
            let z = choose|z: int| 0 <= z < d0.len() && (#[trigger] d1[z]).order.len() == 0 && d0[z].order.len() > 0;
            assert(d1[z].order.len() == 1);
        }
        assert forall|z: int| 0 <= z < d0.len() implies #[trigger] single(problem, d0, z) by {
            let ord = d1[z].order;
            let i = ord[0];
            assert(ord.contains(i));
            assert forall|j: usize| #[trigger] survives(problem, d0, z, j) implies j == i by {
                assert(ord.contains(j));
                assert(ord[ord.index_of(j)] == j);
            }
            assert(sole_survivor(problem, d0, z, i));
        }
    }
    true
}

/// Two rows without repetition that hold the same slots, each in the order
/// in which `o` holds them, are the same row.
pub proof fn lemma_same_row(o: Seq<usize>, s: Seq<usize>, t: Seq<usize>)
    requires
        s.no_duplicates(),
        t.no_duplicates(),
        forall|i: usize| s.contains(i) == t.contains(i),
        forall|k: int, l: int| 0 <= k < l < s.len() ==> o.index_of(#[trigger] s[k]) < o.index_of(#[trigger] s[l]),
        forall|k: int, l: int| 0 <= k < l < t.len() ==> o.index_of(#[trigger] t[k]) < o.index_of(#[trigger] t[l]),
    ensures
        s == t,
    decreases s.len(),
{
    if s.len() == 0 {
        if t.len() > 0 {
            assert(t.contains(t[0]));
            assert(s.contains(t[0]));
        }
        assert(s =~= t);
    } else {
        assert(s.contains(s[0]));
        assert(t.contains(s[0]));
        let p = t.index_of(s[0]);
        assert(t[p] == s[0]);
        if p > 0 {
            assert(t.contains(t[0]));
            assert(s.contains(t[0]));
            let q = s.index_of(t[0]);
            assert(s[q] == t[0]);
            assert(q != 0);
            assert(o.index_of(s[0]) < o.index_of(s[q]));
            assert(o.index_of(t[0]) < o.index_of(t[p]));
        }
        let s1 = s.drop_first();
        let t1 = t.drop_first();
        assert forall|i: usize| s1.contains(i) == t1.contains(i) by {
            if s1.contains(i) {
                let k = s1.index_of(i);
                assert(s[k + 1] == i);
                assert(s.contains(i));
                assert(t.contains(i));
                let l = t.index_of(i);
                assert(t[l] == i);
                assert(l != 0);
                assert(t1[l - 1] == i);
            }
            if t1.contains(i) {
                let k = t1.index_of(i);
                assert(t[k + 1] == i);
                assert(t.contains(i));
                assert(s.contains(i));
                let l = s.index_of(i);
                assert(s[l] == i);
                assert(l != 0);
                assert(s1[l - 1] == i);
            }
        }
        assert forall|k: int, l: int| 0 <= k < l < s1.len() implies o.index_of(#[trigger] s1[k]) < o.index_of(
            #[trigger] s1[l],
        ) by {
            assert(s1[k] == s[k + 1] && s1[l] == s[l + 1]);
        }
        assert forall|k: int, l: int| 0 <= k < l < t1.len() implies o.index_of(#[trigger] t1[k]) < o.index_of(
            #[trigger] t1[l],
        ) by {
            assert(t1[k] == t[k + 1] && t1[l] == t[l + 1]);
        }
        lemma_same_row(o, s1, t1);
        assert(s =~= seq![s[0]] + s1);
        assert(t =~= seq![t[0]] + t1);
    }
}

/// Arc consistency has one outcome: two arc-consistent domains that have
/// shrunk from the same domains and kept every consistent choice of slots
/// have the same slots linked, in the same order, with the same values.
pub proof fn lemma_one_closure<C: Constraints>(c: &C, a: Doms, b: Doms, d: Doms, x: int)
    requires
        all_wf(a),
        all_wf(b),
        all_wf(d),
        fits(c, a),
        shrinks(a, b),
        shrinks(a, d),
        all_consistent(c, b),
        all_consistent(c, d),
        forall|f: Seq<Set<usize>>| #[trigger] sub_family(f, a) && family_closed(c, a, f) ==> sub_family(f, b),
        forall|f: Seq<Set<usize>>| #[trigger] sub_family(f, a) && family_closed(c, a, f) ==> sub_family(f, d),
        0 <= x < a.len(),
    ensures
        b[x].order == d[x].order,
        b[x].items() == d[x].items(),
{
    lemma_linked_closed(c, a, b);
    lemma_linked_closed(c, a, d);
    assert(sub_family(linked(b), d));
    assert(sub_family(linked(d), b));
    let s = b[x].order;
    let t = d[x].order;
    let o = a[x].order;
    assert forall|i: usize| s.contains(i) == t.contains(i) by {
        if s.contains(i) {
            assert(linked(b)[x].contains(i));
        }
        if t.contains(i) {
            assert(linked(d)[x].contains(i));
        }
    }
    assert forall|k: int, l: int| 0 <= k < l < s.len() implies o.index_of(#[trigger] s[k]) < o.index_of(
        #[trigger] s[l],
    ) by {
        assert(s.contains(s[k]) && s.contains(s[l]));
        assert(s.index_of(s[k]) == k && s.index_of(s[l]) == l);
        assert(precedes(s, s[k], s[l]));
    }
    assert forall|k: int, l: int| 0 <= k < l < t.len() implies o.index_of(#[trigger] t[k]) < o.index_of(
        #[trigger] t[l],
    ) by {
        assert(t.contains(t[k]) && t.contains(t[l]));
        assert(t.index_of(t[k]) == k && t.index_of(t[l]) == l);
        assert(precedes(t, t[k], t[l]));
    }
    lemma_same_row(o, s, t);
    assert forall|k: int| 0 <= k < s.len() implies b[x].items()[k] == d[x].items()[k] by {
        assert(s.contains(s[k]));
        assert(o.contains(s[k]));
        lemma_linked_in_range(a, x, s[k]);
        assert(b[x].nodes[s[k] as int].value == a[x].nodes[s[k] as int].value);
        assert(d[x].nodes[s[k] as int].value == a[x].nodes[s[k] as int].value);
    }
    assert(b[x].items() =~= d[x].items());
}

} // verus!
