//! Singleton arc consistency: SAC-1.

use vstd::prelude::*;
use crate::consistency::ac::{ac_1, ac_3, has_kernel};
use crate::consistency::model::{
    all_wf, family_closed, family_consistent, fits, shrinks, sub_family, supports, total_live, Doms,
};
use crate::consistency::revise::{lemma_fits_shrinks, lemma_shrinks_trans, lemma_unlink_shrinks};
use crate::consistency::solutions::{lemma_holding, lemma_solution_kept, satisfies, takes, within};
use crate::domains::{Chain, DomMap};
use crate::problem::{Constraints, Value, Variable};

verus! {

/// The algorithm with which `sac_1` makes domains arc consistent.
#[derive(Clone, Copy, Debug, PartialEq, Eq, Structural)]
pub enum ArcConsistency {
    Ac1,
    Ac3,
}

/// The domains in which `x` can only take the value of its slot `i`.
pub open spec fn probe(d: Doms, x: Variable, i: usize) -> Doms {
    d.update(x.0 as int, Chain::fresh(seq![d[x.0 as int].item(i as int)]))
}

/// Every linked slot of every variable passes its probe: the domains in
/// which the variable takes only that slot's value have a kernel.
pub open spec fn singleton_consistent<C: Constraints>(c: &C, d: Doms) -> bool {
    forall|x: int, i: usize|
        0 <= x < d.len() && #[trigger] d[x].order.contains(i) ==> has_kernel(
            c,
            probe(d, Variable(x as usize), i),
        )
}

/// The probe of a slot fits the constraints, and holds every valuation of
/// the domains that gives the variable that slot's value.
pub proof fn lemma_probe<C: Constraints>(c: &C, d: Doms, x: Variable, i: usize)
    requires
        all_wf(d),
        fits(c, d),
        x.0 < d.len(),
        d[x.0 as int].order.contains(i),
    ensures
        all_wf(probe(d, x, i)),
        fits(c, probe(d, x, i)),
        forall|s: Seq<Value>|
            within(d, s) && s[x.0 as int] == d[x.0 as int].item(i as int) ==> #[trigger] within(
                probe(d, x, i),
                s,
            ),
{
    let v = d[x.0 as int].item(i as int);
    let p = probe(d, x, i);
    Chain::lemma_fresh(seq![v]);
    crate::consistency::ac::lemma_linked_in_range(d, x.0 as int, i);
    assert forall|z: usize, j: int| z < p.len() && 1 <= j < p[z as int].nodes.len() implies c.admits(
        (Variable(z), #[trigger] p[z as int].item(j)),
    ) by {
        if z == x.0 {
            assert(p[z as int].item(j) == v);
            assert(c.admits((Variable(x.0), d[x.0 as int].item(i as int))));
        } else {
            assert(c.admits((Variable(z), d[z as int].item(j))));
        }
    }
    assert forall|s: Seq<Value>|
        within(d, s) && s[x.0 as int] == d[x.0 as int].item(i as int) implies #[trigger] within(
        p,
        s,
    ) by {
        assert forall|z: int| 0 <= z < p.len() implies takes(p, z, #[trigger] s[z]) by {
            if z == x.0 {
                assert(p[z].order[0] == 1usize);
                assert(p[z].order.contains(1usize) && p[z].item(1) == s[z]);
            } else {
                assert(takes(d, z, s[z]));
                let j = choose|j: usize| #[trigger] d[z].order.contains(j) && d[z].item(j as int) == s[z];
                assert(p[z].order.contains(j) && p[z].item(j as int) == s[z]);
            }
        }
    }
}

/// The choice of slots `g` gives the variable `y` a slot.
pub open spec fn has_slot(g: Seq<Set<usize>>, y: int) -> bool {
    exists|j: usize| g[y].contains(j)
}

/// `g` is a choice of slots among those of `f` that gives every variable a
/// slot, and `x` its slot `i` and no other.
pub open spec fn pinned(f: Seq<Set<usize>>, x: int, i: usize, g: Seq<Set<usize>>) -> bool {
    &&& g.len() == f.len()
    &&& forall|y: int, j: usize| 0 <= y < f.len() && #[trigger] g[y].contains(j) ==> f[y].contains(j)
    &&& forall|j: usize| #[trigger] g[x].contains(j) <==> j == i
    &&& forall|y: int| 0 <= y < f.len() ==> #[trigger] has_slot(g, y)
}

/// `f` is a singleton-consistent choice of slots of `d`: it gives every
/// variable a slot, and for every slot that it gives a variable, a choice
/// among its slots that gives the variable that slot only is consistent
/// along every arc.
pub open spec fn singleton_family<C: Constraints>(c: &C, d: Doms, f: Seq<Set<usize>>) -> bool {
    &&& sub_family(f, d)
    &&& forall|y: int| 0 <= y < d.len() ==> #[trigger] has_slot(f, y)
    &&& forall|x: int, i: usize|
        0 <= x < d.len() && #[trigger] f[x].contains(i) ==> exists|g: Seq<Set<usize>>| #[trigger]
            pinned(f, x, i, g) && family_closed(c, d, g)
}

/// A singleton-consistent choice of slots is consistent along every arc.
pub proof fn lemma_singleton_closed<C: Constraints>(c: &C, d: Doms, f: Seq<Set<usize>>)
    requires
        fits(c, d),
        singleton_family(c, d, f),
    ensures
        family_closed(c, d, f),
{
    assert forall|k: int| 0 <= k < c.spec_arcs().len() implies family_consistent(
        c,
        d,
        f,
        (#[trigger] c.spec_arcs()[k]).0,
        c.spec_arcs()[k].1,
    ) by {
        let x = c.spec_arcs()[k].0;
        let y = c.spec_arcs()[k].1;
        assert forall|i: usize| #[trigger] f[x.0 as int].contains(i) implies exists|j: usize|
            f[y.0 as int].contains(j) && #[trigger] supports(c, d, x, i, y, j) by {
            let g = choose|g: Seq<Set<usize>>| #[trigger] pinned(f, x.0 as int, i, g) && family_closed(c, d, g);
            assert(family_consistent(c, d, g, x, y));
            assert(g[x.0 as int].contains(i));
            let j = choose|j: usize| g[y.0 as int].contains(j) && #[trigger] supports(c, d, x, i, y, j);
            assert(f[y.0 as int].contains(j));
        }
    }
}

/// A slot whose probe has no kernel belongs to no singleton-consistent
/// choice of slots of the domains from which these have shrunk.
pub proof fn lemma_singleton_probe<C: Constraints>(
    c: &C,
    a: Doms,
    d: Doms,
    x: Variable,
    i: usize,
    f: Seq<Set<usize>>,
)
    requires
        all_wf(a),
        all_wf(d),
        fits(c, a),
        shrinks(a, d),
        x.0 < d.len(),
        d[x.0 as int].order.contains(i),
        singleton_family(c, a, f),
        sub_family(f, d),
        !has_kernel(c, probe(d, x, i)),
    ensures
        !f[x.0 as int].contains(i),
{
    if f[x.0 as int].contains(i) {
        let g = choose|g: Seq<Set<usize>>| #[trigger] pinned(f, x.0 as int, i, g) && family_closed(c, a, g);
        assert(sub_family(g, a)) by {
            assert forall|y: int, j: usize| 0 <= y < a.len() && (#[trigger] g[y].contains(j)) implies a[y].order.contains(
                j,
            ) by {
                assert(f[y].contains(j));
            }
        }
        crate::consistency::ac::lemma_closed_stable(c, a, d, g);
        let p = probe(d, x, i);
        let h = g.update(x.0 as int, Set::new(|j: usize| j == 1));
        Chain::lemma_fresh(seq![d[x.0 as int].item(i as int)]);
        assert(p[x.0 as int].order == seq![1usize]);
        assert(sub_family(h, p)) by {
            assert forall|y: int, j: usize| 0 <= y < p.len() && (#[trigger] h[y].contains(j)) implies p[y].order.contains(
                j,
            ) by {
                if y == x.0 {
                    assert(p[y].order[0] == 1usize);
                } else {
                    assert(g[y].contains(j));
                    assert(f[y].contains(j));
                }
            }
        }
        assert(family_closed(c, p, h)) by {
            assert forall|k: int| 0 <= k < c.spec_arcs().len() implies family_consistent(
                c,
                p,
                h,
                (#[trigger] c.spec_arcs()[k]).0,
                c.spec_arcs()[k].1,
            ) by {
                let u = c.spec_arcs()[k].0;
                let w = c.spec_arcs()[k].1;
                assert(family_consistent(c, d, g, u, w));
                assert forall|s: usize| #[trigger] h[u.0 as int].contains(s) implies exists|t: usize|
                    h[w.0 as int].contains(t) && #[trigger] supports(c, p, u, s, w, t) by {
                    let s0 = if u == x { i } else { s };
                    assert(g[u.0 as int].contains(s0));
                    let t0 = choose|t0: usize| g[w.0 as int].contains(t0) && #[trigger] supports(c, d, u, s0, w, t0);
                    let t = if w == x { 1usize } else { t0 };
                    if w == x {
                        assert(t0 == i);
                    }
                    assert(h[w.0 as int].contains(t));
                    assert(p[u.0 as int].item(s as int) == d[u.0 as int].item(s0 as int));
                    assert(p[w.0 as int].item(t as int) == d[w.0 as int].item(t0 as int));
                    assert(supports(c, p, u, s, w, t));
                }
            }
        }
        assert forall|y: int| 0 <= y < p.len() && p[y].order.len() > 0 implies exists|j: usize| #[trigger] h[y].contains(j) by {
            if y == x.0 {
                assert(h[y].contains(1usize));
            } else {
                assert(has_slot(g, y));
                let j = choose|j: usize| g[y].contains(j);
                assert(h[y].contains(j));
            }
        }
        assert(has_kernel(c, p));
    }
}

/// Domains of which one is empty hold no singleton-consistent choice of
/// slots, and so the domains from which they kept every such choice had
/// none.
pub proof fn lemma_no_family<C: Constraints>(c: &C, a: Doms, d: Doms)
    requires
        a.len() == d.len(),
        forall|f: Seq<Set<usize>>| #[trigger] singleton_family(c, a, f) ==> sub_family(f, d),
        exists|x: int| 0 <= x < d.len() && (#[trigger] d[x]).order.len() == 0,
    ensures
        forall|f: Seq<Set<usize>>| !#[trigger] singleton_family(c, a, f),
{
    let x = choose|x: int| 0 <= x < d.len() && (#[trigger] d[x]).order.len() == 0;
    assert forall|f: Seq<Set<usize>>| !#[trigger] singleton_family(c, a, f) by {
        if singleton_family(c, a, f) {
            assert(sub_family(f, d));
            assert(has_slot(f, x));
            let j = choose|j: usize| f[x].contains(j);
            assert(d[x].order.contains(j));
            assert(d[x].order[d[x].order.index_of(j)] == j);
        }
    }
}

/// Runs the chosen arc-consistency algorithm.
fn run<C: Constraints>(domains: &mut DomMap, constraints: &C, ac: ArcConsistency) -> (r: bool)
    requires
        old(domains).wf(),
        fits(constraints, old(domains)@),
    ensures
        final(domains).wf(),
        fits(constraints, final(domains)@),
        shrinks(old(domains)@, final(domains)@),
        forall|f: Seq<Set<usize>>| #[trigger]
            sub_family(f, old(domains)@) && family_closed(constraints, old(domains)@, f) ==> sub_family(
                f,
                final(domains)@,
            ),
        !r ==> exists|x: int|
            0 <= x < old(domains)@.len() && (#[trigger] final(domains)@[x]).order.len() == 0 && old(domains)@[x].order.len()
                > 0,
        r == has_kernel(constraints, old(domains)@),
{
    match ac {
        ArcConsistency::Ac1 => ac_1(domains, constraints),
        ArcConsistency::Ac3 => ac_3(domains, constraints),
    }
}

/// SAC-1: makes the domains arc consistent, then probes every linked slot
/// of every variable, again and again, until a full sweep unlinks nothing.
/// To probe a slot, a copy of the domains in which the variable has only
/// that slot's value is made arc consistent; where that fails, the slot is
/// unlinked.
///
/// The answer is `false` where arc consistency fails at the start or a
/// variable has no linked slot left after its probes; the domains then had
/// no singleton-consistent choice of slots. No valuation that satisfies
/// every arc is lost, and no singleton-consistent choice of slots. Where the
/// answer is `true`, every linked slot passes its probe.
pub fn sac_1<C: Constraints>(domains: &mut DomMap, constraints: &C, ac: ArcConsistency) -> (r: bool)
    requires
        old(domains).wf(),
        fits(constraints, old(domains)@),
    ensures
        final(domains).wf(),
        fits(constraints, final(domains)@),
        shrinks(old(domains)@, final(domains)@),
        forall|s: Seq<Value>|
            within(old(domains)@, s) && satisfies(constraints, s) ==> #[trigger] within(
                final(domains)@,
                s,
            ),
        r ==> singleton_consistent(constraints, final(domains)@),
        r ==> forall|x: int| 0 <= x < final(domains)@.len() ==> (#[trigger] final(domains)@[x]).order.len() > 0,
        !r ==> exists|x: int| 0 <= x < final(domains)@.len() && (#[trigger] final(domains)@[x]).order.len() == 0,
        forall|f: Seq<Set<usize>>| #[trigger]
            singleton_family(constraints, old(domains)@, f) ==> sub_family(f, final(domains)@),
        !r ==> forall|f: Seq<Set<usize>>| !#[trigger] singleton_family(constraints, old(domains)@, f),
{
    let ghost d0 = domains@;
    let first = run(domains, constraints, ac);
    proof {
        assert forall|f: Seq<Set<usize>>| #[trigger] singleton_family(constraints, d0, f) implies sub_family(
            f,
            domains@,
        ) by {
            lemma_singleton_closed(constraints, d0, f);
        }
    }
    if !first {
        proof {
            lemma_no_family(constraints, d0, domains@);
            assert forall|s: Seq<Value>| within(d0, s) && satisfies(constraints, s) implies #[trigger] within(
                domains@,
                s,
            ) by {
                lemma_solution_kept(constraints, d0, domains@, s);
            }
        }
        return false;
    }
    proof {
        assert forall|s: Seq<Value>| within(d0, s) && satisfies(constraints, s) implies #[trigger] within(
            domains@,
            s,
        ) by {
            lemma_solution_kept(constraints, d0, domains@, s);
        }
    }
    let n = domains.vars_count();
    let mut changed = true;
    while changed
        invariant
            domains.wf(),
            d0 == old(domains)@,
            n == domains@.len(),
            fits(constraints, domains@),
            shrinks(d0, domains@),
            forall|f: Seq<Set<usize>>| #[trigger] singleton_family(constraints, d0, f) ==> sub_family(f, domains@),
            all_wf(d0),
            fits(constraints, d0),
            forall|s: Seq<Value>|
                within(d0, s) && satisfies(constraints, s) ==> #[trigger] within(domains@, s),
            !changed ==> singleton_consistent(constraints, domains@),
            !changed ==> forall|x: int| 0 <= x < n ==> (#[trigger] domains@[x]).order.len() > 0,
        decreases total_live(domains@), (if changed { 1int } else { 0int }),
    {
        changed = false;
        let ghost start = domains@;
        let mut x: usize = 0;
        while x < n
            invariant
                domains.wf(),
                d0 == old(domains)@,
                n == domains@.len(),
                x <= n,
                fits(constraints, domains@),
                shrinks(d0, domains@),
                forall|f: Seq<Set<usize>>| #[trigger] singleton_family(constraints, d0, f) ==> sub_family(f, domains@),
                all_wf(d0),
                fits(constraints, d0),
                forall|s: Seq<Value>|
                    within(d0, s) && satisfies(constraints, s) ==> #[trigger] within(domains@, s),
                total_live(domains@) <= total_live(start),
                changed ==> total_live(domains@) < total_live(start),
                !changed ==> domains@ == start,
                !changed ==> forall|z: int, i: usize|
                    0 <= z < x && #[trigger] domains@[z].order.contains(i) ==> has_kernel(
                        constraints,
                        probe(domains@, Variable(z as usize), i),
                    ),
                !changed ==> forall|z: int| 0 <= z < x ==> (#[trigger] domains@[z]).order.len() > 0,
            decreases n - x,
        {
            let var = Variable(x);
            let slots = domains.slots(var);
            let ghost at_x = domains@;
            let ghost changed_before = changed;
            let mut p: usize = 0;
            proof {
                assert(at_x[x as int].wf());
            }
            while p < slots.len()
                invariant
                    domains.wf(),
                    d0 == old(domains)@,
                    n == domains@.len(),
                    x < n,
                    var == Variable(x),
                    p <= slots.len(),
                    slots@ == at_x[x as int].order,
                    slots@.no_duplicates(),
                    fits(constraints, domains@),
                    shrinks(d0, domains@),
                    forall|f: Seq<Set<usize>>| #[trigger]
                        singleton_family(constraints, d0, f) ==> sub_family(f, domains@),
                    all_wf(d0),
                    fits(constraints, d0),
                    shrinks(at_x, domains@),
                    forall|z: int| 0 <= z < n && z != x ==> domains@[z] == at_x[z],
                    forall|k: int| p <= k < slots.len() ==> domains@[x as int].order.contains(#[trigger] slots[k]),
                    forall|s: Seq<Value>|
                        within(d0, s) && satisfies(constraints, s) ==> #[trigger] within(domains@, s),
                    total_live(domains@) <= total_live(start),
                    changed ==> total_live(domains@) < total_live(start),
                    !changed ==> domains@ == start && domains@ == at_x && !changed_before,
                    !changed ==> forall|k: int|
                        0 <= k < p ==> has_kernel(constraints, probe(domains@, var, #[trigger] slots[k])),
                decreases slots.len() - p,
            {
                let i = slots[p];
                let ghost d = domains@;
                proof {
                    assert(d[x as int].order.contains(slots[p as int]));
                    lemma_probe(constraints, d, var, i);
                    crate::consistency::ac::lemma_linked_in_range(d, x as int, i);
                }
                let mut probed = domains.clone();
                probed.set(var, i);
                assert(probed@ == probe(d, var, i));
                if !run(&mut probed, constraints, ac) {
                    proof {
                        lemma_unlink_shrinks(d, var, i);
                        d[x as int].lemma_unlink_relink(i);
                    }
                    domains.remove(var, i);
                    changed = true;
                    proof {
                        assert forall|f: Seq<Set<usize>>| #[trigger] singleton_family(constraints, d0, f) implies sub_family(
                            f,
                            domains@,
                        ) by {
                            lemma_singleton_probe(constraints, d0, d, var, i, f);
                            assert forall|y: int, j: usize| 0 <= y < d.len() && (#[trigger] f[y].contains(j)) implies domains@[y].order.contains(
                                j,
                            ) by {
                                assert(d[y].order.contains(j));
                            }
                        }
                        lemma_shrinks_trans(d0, d, domains@);
                        lemma_shrinks_trans(at_x, d, domains@);
                        lemma_fits_shrinks(constraints, d, domains@);
                        assert forall|k: int| p < k < slots.len() implies domains@[x as int].order.contains(
                            #[trigger] slots[k],
                        ) by {
                            assert(slots[k] != slots[p as int]);
                            assert(d[x as int].order.contains(slots[k]));
                        }
                        assert forall|s: Seq<Value>|
                            within(d0, s) && satisfies(constraints, s) implies #[trigger] within(
                            domains@,
                            s,
                        ) by {
                            assert(within(d, s));
                            if s[x as int] == d[x as int].item(i as int) {
                                assert(within(probe(d, var, i), s));
                                lemma_holding(constraints, probe(d, var, i), s);
                                assert(false);
                            }
                            assert forall|z: int| 0 <= z < n implies takes(domains@, z, #[trigger] s[z]) by {
                                assert(takes(d, z, s[z]));
                                let j = choose|j: usize| #[trigger]
                                    d[z].order.contains(j) && d[z].item(j as int) == s[z];
                                crate::consistency::ac::lemma_linked_in_range(d, z, j);
                                assert(domains@[z].nodes[j as int].value == d[z].nodes[j as int].value);
                                assert(domains@[z].order.contains(j) && domains@[z].item(j as int) == s[z]);
                            }
                        }
                    }
                }
                p = p + 1;
            }
            if domains.live(var) == 0 {
                proof {
                    lemma_no_family(constraints, d0, domains@);
                }
                return false;
            }
            proof {
                if !changed {
                    assert forall|z: int, i: usize|
                        0 <= z < x + 1 && #[trigger] domains@[z].order.contains(i) implies has_kernel(
                        constraints,
                        probe(domains@, Variable(z as usize), i),
                    ) by {
                        if z == x {
                            let k = slots@.index_of(i);
                            assert(slots[k] == i);
                        }
                    }
                }
            }
            x = x + 1;
        }
    }
    true
}

} // verus!
