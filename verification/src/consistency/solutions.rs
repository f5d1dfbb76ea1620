//! Valuations that satisfy every arc, and what pruning does to them.

use vstd::prelude::*;
use crate::consistency::ac::{all_single, has_kernel, initial, lemma_linked_in_range, single, sole_survivor, survives};
use crate::consistency::model::{
    all_wf, family_closed, family_consistent, fits, shrinks, sub_family, supports, Doms,
};
use crate::domains::Chain;
use crate::problem::{is_solution, well_formed, Constraints, Problem, Value, Variable};

verus! {

/// Some slot that is linked in the domain of `x` holds the value `v`.
pub open spec fn takes(d: Doms, x: int, v: Value) -> bool {
    exists|i: usize| #[trigger] d[x].order.contains(i) && d[x].item(i as int) == v
}

/// `s` gives every variable the value of a slot that is linked in its domain.
pub open spec fn within(d: Doms, s: Seq<Value>) -> bool {
    &&& s.len() == d.len()
    &&& forall|x: int| 0 <= x < d.len() ==> takes(d, x, #[trigger] s[x])
}

/// Every arc of `c` holds between the two values that `s` gives its ends.
pub open spec fn satisfies<C: Constraints>(c: &C, s: Seq<Value>) -> bool {
    forall|k: int|
        0 <= k < c.spec_arcs().len() ==> c.spec_check(
            ((#[trigger] c.spec_arcs()[k]).0, s[c.spec_arcs()[k].0.0 as int]),
            (c.spec_arcs()[k].1, s[c.spec_arcs()[k].1.0 as int]),
        )
}

/// For each variable the linked slots that hold the value that `s` gives it.
pub open spec fn holding(d: Doms, s: Seq<Value>) -> Seq<Set<usize>> {
    Seq::new(d.len(), |x: int| Set::new(|i: usize| d[x].order.contains(i) && d[x].item(i as int) == s[x]))
}

/// The slots that hold a satisfying valuation are a choice of slots that is
/// consistent along every arc, with a slot for every variable.
pub proof fn lemma_holding<C: Constraints>(c: &C, d: Doms, s: Seq<Value>)
    requires
        fits(c, d),
        within(d, s),
        satisfies(c, s),
    ensures
        sub_family(holding(d, s), d),
        family_closed(c, d, holding(d, s)),
        has_kernel(c, d),
{
    let f = holding(d, s);
    assert forall|k: int| 0 <= k < c.spec_arcs().len() implies family_consistent(
        c,
        d,
        f,
        (#[trigger] c.spec_arcs()[k]).0,
        c.spec_arcs()[k].1,
    ) by {
        let x = c.spec_arcs()[k].0;
        let y = c.spec_arcs()[k].1;
        assert forall|i: usize| #[trigger] f[x.0 as int].contains(i) implies exists|j: usize|
            f[y.0 as int].contains(j) && #[trigger] supports(c, d, x, i, y, j) by {
            assert(takes(d, y.0 as int, s[y.0 as int]));
            let j = choose|j: usize| #[trigger]
                d[y.0 as int].order.contains(j) && d[y.0 as int].item(j as int) == s[y.0 as int];
            assert(f[y.0 as int].contains(j));
            assert(supports(c, d, x, i, y, j));
        }
    }
    assert(sub_family(f, d));
    assert forall|x: int| 0 <= x < d.len() && d[x].order.len() > 0 implies exists|i: usize| #[trigger]
        f[x].contains(i) by {
        assert(takes(d, x, s[x]));
        let i = choose|i: usize| #[trigger] d[x].order.contains(i) && d[x].item(i as int) == s[x];
        assert(f[x].contains(i));
    }
    assert(has_kernel(c, d));
}

/// Pruning that keeps every consistent choice of slots keeps every
/// satisfying valuation.
pub proof fn lemma_solution_kept<C: Constraints>(c: &C, a: Doms, b: Doms, s: Seq<Value>)
    requires
        all_wf(a),
        fits(c, a),
        shrinks(a, b),
        forall|f: Seq<Set<usize>>| #[trigger]
            sub_family(f, a) && family_closed(c, a, f) ==> sub_family(f, b),
        within(a, s),
        satisfies(c, s),
    ensures
        within(b, s),
{
    lemma_holding(c, a, s);
    let f = holding(a, s);
    assert(sub_family(f, b));
    assert forall|x: int| 0 <= x < b.len() implies takes(b, x, #[trigger] s[x]) by {
        assert(takes(a, x, s[x]));
        let i = choose|i: usize| #[trigger] a[x].order.contains(i) && a[x].item(i as int) == s[x];
        assert(f[x].contains(i));
        assert(b[x].order.contains(i));
        lemma_linked_in_range(a, x, i);
        assert(b[x].nodes[i as int].value == a[x].nodes[i as int].value);
        assert(b[x].order.contains(i) && b[x].item(i as int) == s[x]);
    }
}

/// No domain of `p` is too long for its slots to be numbered.
pub open spec fn countable<P: Problem>(p: &P) -> bool {
    forall|x: usize| x < p.spec_size() ==> (#[trigger] p.spec_domain(Variable(x))).len() < usize::MAX
}

/// A solution of a problem lies within the domains that the problem starts
/// with, and satisfies its arcs.
pub proof fn lemma_solution_within<P: Problem>(p: &P, s: Seq<Value>)
    requires
        well_formed(p),
        countable(p),
        p.spec_size() <= usize::MAX,
        is_solution(p, s),
    ensures
        fits(p, initial(p)),
        within(initial(p), s),
        satisfies(p, s),
{
    let d = initial(p);
    assert forall|x: usize, i: int| x < d.len() && 1 <= i < d[x as int].nodes.len() implies p.admits(
        (Variable(x), #[trigger] d[x as int].item(i)),
    ) by {
        let dom = p.spec_domain(Variable(x));
        assert(d[x as int] == Chain::fresh(dom));
        assert(d[x as int].item(i) == dom[i - 1]);
    }
    assert forall|x: int| 0 <= x < d.len() implies takes(d, x, #[trigger] s[x]) by {
        let dom = p.spec_domain(Variable(x as usize));
        assert(dom.contains(s[x as usize as int]));
        let k = dom.index_of(s[x]);
        assert(d[x] == Chain::fresh(dom));
        let i = (k + 1) as usize;
        assert(d[x].order[k] == i);
        assert(d[x].order.contains(i) && d[x].item(i as int) == s[x]);
    }
}

/// Where arc consistency leaves every variable of a problem one value, the
/// problem has at most one solution.
pub proof fn lemma_one_solution<P: Problem>(p: &P, s: Seq<Value>, t: Seq<Value>)
    requires
        well_formed(p),
        countable(p),
        p.spec_size() <= usize::MAX,
        all_single(p, initial(p)),
        is_solution(p, s),
        is_solution(p, t),
    ensures
        s == t,
{
    let d = initial(p);
    lemma_solution_within(p, s);
    lemma_solution_within(p, t);
    lemma_holding(p, d, s);
    lemma_holding(p, d, t);
    assert forall|x: int| 0 <= x < s.len() implies s[x] == t[x] by {
        assert(takes(d, x, s[x]));
        assert(takes(d, x, t[x]));
        let i = choose|i: usize| #[trigger] d[x].order.contains(i) && d[x].item(i as int) == s[x];
        let j = choose|j: usize| #[trigger] d[x].order.contains(j) && d[x].item(j as int) == t[x];
        assert(holding(d, s)[x].contains(i));
        assert(holding(d, t)[x].contains(j));
        assert(survives(p, d, x, i));
        assert(survives(p, d, x, j));
        assert(single(p, d, x));
        let k = choose|k: usize| #[trigger] sole_survivor(p, d, x, k);
        assert(i == k && j == k);
    }
    assert(s =~= t);
}

} // verus!
