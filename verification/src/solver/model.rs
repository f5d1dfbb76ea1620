//! The search as the proofs see it: the stack of assignments with the
//! domains that stood at each level, and what holds of them while the
//! search runs.

use vstd::prelude::*;
use crate::consistency::ac::lemma_linked_in_range;
use crate::consistency::model::{
    all_consistent, all_wf, arc_consistent, can_undo, family_closed, fits, lemma_log_removal,
    shrinks, sub_family, supported, supports, undo, Doms,
};
use crate::consistency::revise::{lemma_fits_shrinks, lemma_supports_stable, lemma_unlink_shrinks};
use crate::consistency::solutions::{lemma_holding, lemma_solution_kept, satisfies, takes, within};
use crate::domains::Chain;
use crate::problem::{is_solution, Problem, Value, Variable};
use crate::solver::order::arranged;

verus! {

/// One assignment that stands: the variable, the slot of its domain that was
/// chosen, the domain that the assignment replaced, and the removals made
/// while it stood.
#[verifier::ext_equal]
pub struct Frame {
    pub x: Variable,
    pub slot: usize,
    pub saved: Chain<Value>,
    pub log: Seq<(Variable, usize)>,
}

/// The state of a search.
#[verifier::ext_equal]
pub struct Search {
    pub vars: Seq<Variable>,
    pub doms: Doms,
    pub frames: Seq<Frame>,
    pub root: Seq<(Variable, usize)>,
}

impl Search {
    /// The number of assignments that stand.
    pub open spec fn depth(self) -> int {
        self.frames.len() as int
    }

    /// The log that records the removals made while `level` assignments
    /// stand.
    pub open spec fn log_at(self, level: int) -> Seq<(Variable, usize)> {
        if level <= 0 {
            self.root
        } else {
            self.frames[level - 1].log
        }
    }

    /// The value that assignment `j` gave its variable.
    pub open spec fn tried(self, j: int) -> Value {
        self.frames[j].saved.item(self.frames[j].slot as int)
    }

    /// The state with other domains and another log at the top.
    pub open spec fn with_top(self, doms: Doms, log: Seq<(Variable, usize)>) -> Search {
        if self.frames.len() == 0 {
            Search { vars: self.vars, doms, frames: self.frames, root: log }
        } else {
            let f = self.frames.last();
            Search {
                vars: self.vars,
                doms,
                frames: self.frames.update(
                    self.depth() - 1,
                    Frame { x: f.x, slot: f.slot, saved: f.saved, log },
                ),
                root: self.root,
            }
        }
    }

    /// The state after `x` was given the value of its slot `i`.
    pub open spec fn assign(self, x: Variable, i: usize) -> Search {
        Search {
            vars: self.vars,
            doms: self.doms.update(x.0 as int, Chain::fresh(seq![self.doms[x.0 as int].item(i as int)])),
            frames: self.frames.push(
                Frame { x, slot: i, saved: self.doms[x.0 as int], log: Seq::empty() },
            ),
            root: self.root,
        }
    }

    /// The state after the last assignment was taken back: its removals are
    /// undone and its variable has its former domain again.
    pub open spec fn popped(self) -> Search {
        let f = self.frames.last();
        Search {
            vars: self.vars,
            doms: undo(self.doms, f.log).update(f.x.0 as int, f.saved),
            frames: self.frames.drop_last(),
            root: self.root,
        }
    }

    /// The state after slot `i` of `x` was unlinked and the removal logged.
    pub open spec fn removed(self, x: Variable, i: usize) -> Search {
        self.with_top(
            self.doms.update(x.0 as int, self.doms[x.0 as int].unlink(i)),
            self.log_at(self.depth()).push((x, i)),
        )
    }
}

/// Every slot of `d` holds a value of its variable's domain in `p`.
pub open spec fn valued<P: Problem>(p: &P, d: Doms) -> bool {
    forall|x: usize, i: int|
        x < d.len() && 1 <= i < d[x as int].nodes.len() ==> p.spec_domain(Variable(x)).contains(
            #[trigger] d[x as int].item(i),
        )
}

/// The list holds the one value `v`, in its only slot, and that is linked.
pub open spec fn is_single(c: Chain<Value>, v: Value) -> bool {
    &&& c.nodes.len() == 2
    &&& c.order == seq![1usize]
    &&& c.item(1) == v
}

/// `b` has the slots and values of `a`, and every slot linked in `b` is
/// linked in `a`.
pub open spec fn shrinks_at(a: Chain<Value>, b: Chain<Value>) -> bool {
    &&& b.nodes.len() == a.nodes.len()
    &&& forall|i: int| 0 <= i < a.nodes.len() ==> (#[trigger] b.nodes[i]).value == a.nodes[i].value
    &&& forall|i: usize| #[trigger] b.order.contains(i) ==> a.order.contains(i)
}

/// The variables are arranged, and every assignment that stands is one of
/// the variable at its level to a slot of the domain that it replaced.
pub open spec fn shaped(m: Search, place: Seq<int>) -> bool {
    &&& arranged(m.vars, place)
    &&& m.doms.len() == m.vars.len()
    &&& m.frames.len() <= m.vars.len()
    &&& forall|k: int|
        0 <= k < m.frames.len() ==> (#[trigger] m.frames[k]).x == m.vars[k] && m.frames[k].saved.wf()
            && m.frames[k].saved.order.contains(m.frames[k].slot)
}

/// Assignment `k` replaced the domain that its variable had at level `k`,
/// and undoing its removals leads from level `k + 1` back to level `k`.
pub open spec fn frame_ok(m: Search, lv: Seq<Doms>, k: int) -> bool {
    let f = m.frames[k];
    &&& f.saved == lv[k][f.x.0 as int]
    &&& lv[k] == undo(lv[k + 1], f.log).update(f.x.0 as int, f.saved)
}

/// `lv` holds the domains of every level, the last being the domains as
/// they stand; every log can be undone, and undoing them all leads to
/// `base`.
pub open spec fn linked(m: Search, base: Doms, lv: Seq<Doms>) -> bool {
    &&& lv.len() == m.frames.len() + 1
    &&& lv[m.depth()] == m.doms
    &&& base.len() == m.vars.len()
    &&& forall|k: int|
        0 <= k <= m.depth() ==> all_wf(#[trigger] lv[k]) && lv[k].len() == m.vars.len() && can_undo(
            lv[k],
            m.log_at(k),
        )
    &&& undo(lv[0], m.root) == base
    &&& forall|k: int| 0 <= k < m.depth() ==> #[trigger] frame_ok(m, lv, k)
}

/// `s` gives the variables of the first `k` assignments the values that
/// these gave them.
pub open spec fn agrees(m: Search, s: Seq<Value>, k: int) -> bool {
    forall|j: int| 0 <= j < k ==> s[m.vars[j].0 as int] == #[trigger] m.tried(j)
}

/// Every arc is consistent in `d`, but for those that end in the variable
/// of level `k`.
pub open spec fn consistent_but<P: Problem>(p: &P, m: Search, d: Doms, k: int) -> bool {
    forall|a: int|
        0 <= a < p.spec_arcs().len() ==> (k < m.vars.len() && (#[trigger] p.spec_arcs()[a]).1 == m.vars[k])
            || arc_consistent(p, d, p.spec_arcs()[a].0, p.spec_arcs()[a].1)
}

/// Every solution that agrees with the first `k` assignments was found or
/// lies within `d`.
pub open spec fn owed<P: Problem>(p: &P, m: Search, d: Doms, found: Seq<Seq<Value>>, k: int) -> bool {
    forall|s: Seq<Value>| #[trigger] is_solution(p, s) && agrees(m, s, k) ==> found.contains(s) || within(d, s)
}

/// What holds of the domains of level `k`: the variables of the assignments
/// below have the one value that they were given; the others have what is
/// left of their base domain; the arcs are consistent but for those that
/// end in the variable of this level; and no solution was lost.
pub open spec fn level_ok<P: Problem>(
    p: &P,
    m: Search,
    base: Doms,
    lv: Seq<Doms>,
    found: Seq<Seq<Value>>,
    k: int,
) -> bool {
    let d = lv[k];
    &&& fits(p, d)
    &&& valued(p, d)
    &&& forall|j: int| 0 <= j < k ==> is_single(d[(#[trigger] m.vars[j]).0 as int], m.tried(j))
    &&& forall|j: int|
        k <= j < m.vars.len() ==> shrinks_at(
            base[(#[trigger] m.vars[j]).0 as int],
            d[m.vars[j].0 as int],
        )
    &&& consistent_but(p, m, d, k)
    &&& owed(p, m, d, found, k)
}

/// Every solution that agrees with all assignments that stand was found.
pub open spec fn dead_ok<P: Problem>(p: &P, m: Search, found: Seq<Seq<Value>>) -> bool {
    forall|s: Seq<Value>| #[trigger] is_solution(p, s) && agrees(m, s, m.depth()) ==> found.contains(s)
}

/// What holds while the search runs. Where `dead` is set, the last
/// assignment has nothing more to give and is about to be taken back.
pub open spec fn searching<P: Problem>(
    p: &P,
    m: Search,
    place: Seq<int>,
    base: Doms,
    lv: Seq<Doms>,
    found: Seq<Seq<Value>>,
    dead: bool,
) -> bool {
    &&& shaped(m, place)
    &&& m.vars.len() == p.spec_size()
    &&& linked(m, base, lv)
    &&& forall|k: int| 0 <= k < m.depth() ==> #[trigger] level_ok(p, m, base, lv, found, k)
    &&& !dead ==> level_ok(p, m, base, lv, found, m.depth())
    &&& dead ==> dead_ok(p, m, found) && m.depth() > 0
    &&& forall|e: int| 0 <= e < found.len() ==> is_solution(p, #[trigger] found[e])
}

/// An assignment whose trail has seen no removal can be taken back: only
/// its variable gets its former domain again.
pub proof fn lemma_empty_frame(m: Search)
    requires
        m.frames.len() > 0,
        m.frames.last().log.len() == 0,
    ensures
        can_undo(m.doms, m.frames.last().log),
        m.popped().doms == m.doms.update(m.frames.last().x.0 as int, m.frames.last().saved),
        m.popped().depth() == m.depth() - 1,
        m.frames.last().x.0 < m.doms.len() ==> m.popped().removed(m.frames.last().x, m.frames.last().slot).doms
            == m.doms.update(m.frames.last().x.0 as int, m.frames.last().saved.unlink(m.frames.last().slot)),
{
    let f = m.frames.last();
    if f.x.0 < m.doms.len() {
        let d = m.popped().doms;
        assert(d[f.x.0 as int] == f.saved);
        assert(m.popped().removed(f.x, f.slot).doms =~= m.doms.update(f.x.0 as int, f.saved.unlink(f.slot)));
    }
}

/// Two variables at different places are different.
pub proof fn lemma_distinct(vars: Seq<Variable>, place: Seq<int>, j: int, k: int)
    requires
        arranged(vars, place),
        0 <= j < vars.len(),
        0 <= k < vars.len(),
        j != k,
    ensures
        vars[j].0 != vars[k].0,
{
    assert(place[vars[j].0 as int] == j);
    assert(place[vars[k].0 as int] == k);
}

/// A solution stays a found one when another is found.
pub proof fn lemma_found_more<P: Problem>(
    p: &P,
    m: Search,
    base: Doms,
    lv: Seq<Doms>,
    found: Seq<Seq<Value>>,
    sol: Seq<Value>,
    k: int,
)
    requires
        level_ok(p, m, base, lv, found, k),
    ensures
        level_ok(p, m, base, lv, found.push(sol), k),
{
    let more = found.push(sol);
    assert forall|s: Seq<Value>| #[trigger] is_solution(p, s) && agrees(m, s, k) implies more.contains(s)
        || within(lv[k], s) by {
        if found.contains(s) {
            let e = found.index_of(s);
            assert(more[e] == s);
        }
    }
}

/// The levels below the top do not depend on the top of the stack.
pub proof fn lemma_level_below<P: Problem>(
    p: &P,
    m: Search,
    m2: Search,
    base: Doms,
    lv: Seq<Doms>,
    lv2: Seq<Doms>,
    found: Seq<Seq<Value>>,
    k: int,
)
    requires
        level_ok(p, m, base, lv, found, k),
        m2.vars == m.vars,
        0 <= k < lv.len(),
        k < lv2.len(),
        lv2[k] == lv[k],
        k <= m.frames.len(),
        k <= m2.frames.len(),
        forall|j: int| 0 <= j < k ==> m2.tried(j) == m.tried(j),
    ensures
        level_ok(p, m2, base, lv2, found, k),
{
    assert forall|s: Seq<Value>| #[trigger] is_solution(p, s) && agrees(m2, s, k) implies found.contains(s)
        || within(lv2[k], s) by {
        assert forall|j: int| 0 <= j < k implies s[m.vars[j].0 as int] == #[trigger] m.tried(j) by {
            assert(m2.tried(j) == m.tried(j));
        }
        assert(agrees(m, s, k));
    }
    assert forall|j: int| 0 <= j < k implies is_single(lv2[k][(#[trigger] m2.vars[j]).0 as int], m2.tried(j)) by {
        assert(is_single(lv[k][m.vars[j].0 as int], m.tried(j)));
    }
}

/// After an assignment: the levels are linked, the new domains fit, and
/// every arc is consistent or ends in the assigned variable.
pub proof fn lemma_assign<P: Problem>(
    p: &P,
    m: Search,
    place: Seq<int>,
    base: Doms,
    lv: Seq<Doms>,
    found: Seq<Seq<Value>>,
    i: usize,
)
    requires
        searching(p, m, place, base, lv, found, false),
        m.depth() < m.vars.len(),
        m.doms[m.vars[m.depth()].0 as int].order.contains(i),
    ensures
        ({
            let x = m.vars[m.depth()];
            let m1 = m.assign(x, i);
            let lv1 = lv.push(m1.doms);
            &&& shaped(m1, place)
            &&& linked(m1, base, lv1)
            &&& forall|k: int| 0 <= k <= m.depth() ==> #[trigger] level_ok(p, m1, base, lv1, found, k)
            &&& all_wf(m1.doms)
            &&& fits(p, m1.doms)
            &&& valued(p, m1.doms)
            &&& forall|a: int|
                0 <= a < p.spec_arcs().len() ==> (#[trigger] p.spec_arcs()[a]).1 == x || arc_consistent(
                    p,
                    m1.doms,
                    p.spec_arcs()[a].0,
                    p.spec_arcs()[a].1,
                )
        }),
{
    let d = m.depth();
    let x = m.vars[d];
    let xi = x.0 as int;
    let m1 = m.assign(x, i);
    let lv1 = lv.push(m1.doms);
    let dd = m.doms;
    let d1 = m1.doms;
    let v = dd[xi].item(i as int);
    assert(lv[d] == dd);
    assert(all_wf(dd));
    assert(level_ok(p, m, base, lv, found, d));
    lemma_linked_in_range(dd, xi, i);
    Chain::lemma_fresh(seq![v]);
    assert(d1[xi] == Chain::fresh(seq![v]));
    assert(d1[xi].order =~= seq![1usize]);
    assert(is_single(d1[xi], v));
    assert(all_wf(d1));
    // The stack.
    assert forall|k: int| 0 <= k < m1.frames.len() implies (#[trigger] m1.frames[k]).x == m1.vars[k]
        && m1.frames[k].saved.wf() && m1.frames[k].saved.order.contains(m1.frames[k].slot) by {
        if k < d {
            assert(m1.frames[k] == m.frames[k]);
        }
    }
    assert forall|k: int| 0 <= k <= m1.depth() implies all_wf(#[trigger] lv1[k]) && lv1[k].len() == m1.vars.len()
        && can_undo(lv1[k], m1.log_at(k)) by {
        if k <= d {
            assert(lv1[k] == lv[k]);
            assert(m1.log_at(k) == m.log_at(k)) by {
                if k > 0 {
                    assert(m1.frames[k - 1] == m.frames[k - 1]);
                }
            }
        }
    }
    assert forall|k: int| 0 <= k < m1.depth() implies #[trigger] frame_ok(m1, lv1, k) by {
        if k < d {
            assert(frame_ok(m, lv, k));
            assert(m1.frames[k] == m.frames[k]);
            assert(lv1[k] == lv[k]);
            assert(lv1[k + 1] == lv[k + 1]);
        } else {
            assert(undo(d1, Seq::empty()) == d1);
            assert(d1.update(xi, dd[xi]) =~= dd);
        }
    }
    assert(linked(m1, base, lv1));
    // The levels up to the old top.
    assert forall|k: int| 0 <= k <= d implies #[trigger] level_ok(p, m1, base, lv1, found, k) by {
        assert(level_ok(p, m, base, lv, found, k));
        assert forall|j: int| 0 <= j < k implies m1.tried(j) == m.tried(j) by {
            assert(m1.frames[j] == m.frames[j]);
        }
        lemma_level_below(p, m, m1, base, lv, lv1, found, k);
    }
    // The new domains.
    assert forall|z: usize, j: int| z < d1.len() && 1 <= j < d1[z as int].nodes.len() implies p.admits(
        (Variable(z), #[trigger] d1[z as int].item(j)),
    ) && p.spec_domain(Variable(z)).contains(d1[z as int].item(j)) by {
        if z == x.0 {
            assert(d1[z as int].item(j) == v);
            assert(p.admits((Variable(x.0), dd[x.0 as int].item(i as int))));
            assert(p.spec_domain(Variable(x.0)).contains(dd[x.0 as int].item(i as int)));
        } else {
            assert(p.admits((Variable(z), dd[z as int].item(j))));
            assert(p.spec_domain(Variable(z)).contains(dd[z as int].item(j)));
        }
    }
    assert forall|a: int| 0 <= a < p.spec_arcs().len() implies (#[trigger] p.spec_arcs()[a]).1 == x
        || arc_consistent(p, d1, p.spec_arcs()[a].0, p.spec_arcs()[a].1) by {
        let u = p.spec_arcs()[a].0;
        let w = p.spec_arcs()[a].1;
        if w != x {
            assert(arc_consistent(p, dd, u, w));
            assert(d1[w.0 as int] == dd[w.0 as int]);
            if u == x {
                assert forall|j: usize| #[trigger] d1[u.0 as int].order.contains(j) implies supported(
                    p,
                    d1,
                    u,
                    j,
                    w,
                ) by {
                    assert(d1[xi].order[0] == 1usize);
                    assert(j == 1);
                    assert(supported(p, dd, u, i, w));
                    let t = choose|t: usize| dd[w.0 as int].order.contains(t) && #[trigger] supports(p, dd, u, i, w, t);
                    assert(supports(p, d1, u, j, w, t));
                }
            } else {
                assert(d1[u.0 as int] == dd[u.0 as int]);
                assert forall|j: usize| #[trigger] d1[u.0 as int].order.contains(j) implies supported(
                    p,
                    d1,
                    u,
                    j,
                    w,
                ) by {
                    assert(supported(p, dd, u, j, w));
                    let t = choose|t: usize| dd[w.0 as int].order.contains(t) && #[trigger] supports(p, dd, u, j, w, t);
                    assert(supports(p, d1, u, j, w, t));
                }
            }
        }
    }
}

/// A list with one linked slot that shrinks and is not empty still has that
/// slot linked.
pub proof fn lemma_single_stays(a: Chain<Value>, b: Chain<Value>, v: Value)
    requires
        is_single(a, v),
        b.wf(),
        shrinks_at(a, b),
        b.order.len() > 0,
    ensures
        is_single(b, v),
{
    assert forall|k: int| 0 <= k < b.order.len() implies #[trigger] b.order[k] == 1 by {
        assert(b.order.contains(b.order[k]));
        assert(a.order.contains(b.order[k]));
    }
    if b.order.len() > 1 {
        assert(b.order[0] == b.order[1]);
    }
    assert(b.order =~= seq![1usize]);
    assert(b.nodes[1].value == a.nodes[1].value);
}

/// Where the domains shrink, each list shrinks.
pub proof fn lemma_shrinks_each(a: Doms, b: Doms, x: int)
    requires
        shrinks(a, b),
        0 <= x < a.len(),
    ensures
        shrinks_at(a[x], b[x]),
{
    assert forall|i: int| 0 <= i < a[x].nodes.len() implies (#[trigger] b[x].nodes[i]).value == a[x].nodes[i].value by {}
    assert forall|i: usize| #[trigger] b[x].order.contains(i) implies a[x].order.contains(i) by {}
}

/// Shrinking a list twice is shrinking it.
pub proof fn lemma_shrinks_at_trans(a: Chain<Value>, b: Chain<Value>, c: Chain<Value>)
    requires
        shrinks_at(a, b),
        shrinks_at(b, c),
    ensures
        shrinks_at(a, c),
{
    assert forall|i: int| 0 <= i < a.nodes.len() implies (#[trigger] c.nodes[i]).value == a.nodes[i].value by {
        assert(b.nodes[i].value == a.nodes[i].value);
    }
    assert forall|i: usize| #[trigger] c.order.contains(i) implies a.order.contains(i) by {
        assert(b.order.contains(i));
    }
}

/// Domains whose slots hold values of the problem still do when they
/// shrink.
pub proof fn lemma_valued_shrinks<P: Problem>(p: &P, a: Doms, b: Doms)
    requires
        valued(p, a),
        shrinks(a, b),
    ensures
        valued(p, b),
{
    assert forall|x: usize, i: int| x < b.len() && 1 <= i < b[x as int].nodes.len() implies p.spec_domain(
        Variable(x),
    ).contains(#[trigger] b[x as int].item(i)) by {
        assert(b[x as int].nodes[i].value == a[x as int].nodes[i].value);
        assert(p.spec_domain(Variable(x)).contains(a[x as int].item(i)));
    }
}

/// A solution of the problem satisfies every arc.
pub proof fn lemma_solution_satisfies<P: Problem>(p: &P, s: Seq<Value>)
    requires
        is_solution(p, s),
    ensures
        satisfies(p, s),
{
}

/// What the propagation that follows an assignment is known to have done.
pub open spec fn propagated<P: Problem>(p: &P, d1: Doms, d2: Doms, log: Seq<(Variable, usize)>) -> bool {
    &&& all_wf(d2)
    &&& fits(p, d2)
    &&& shrinks(d1, d2)
    &&& forall|f: Seq<Set<usize>>| #[trigger] sub_family(f, d1) && family_closed(p, d1, f) ==> sub_family(f, d2)
    &&& can_undo(d2, log)
    &&& undo(d2, log) == d1
}

/// After an assignment and the propagation that follows it, the stack is
/// linked and the levels below the new one are as they were.
pub proof fn lemma_propagated<P: Problem>(
    p: &P,
    m: Search,
    place: Seq<int>,
    base: Doms,
    lv: Seq<Doms>,
    found: Seq<Seq<Value>>,
    i: usize,
    d2: Doms,
    log: Seq<(Variable, usize)>,
)
    requires
        searching(p, m, place, base, lv, found, false),
        m.depth() < m.vars.len(),
        m.doms[m.vars[m.depth()].0 as int].order.contains(i),
        propagated(p, m.assign(m.vars[m.depth()], i).doms, d2, log),
    ensures
        ({
            let m2 = m.assign(m.vars[m.depth()], i).with_top(d2, log);
            let lv2 = lv.push(d2);
            &&& shaped(m2, place)
            &&& linked(m2, base, lv2)
            &&& m2.depth() == m.depth() + 1
            &&& forall|k: int| 0 <= k <= m.depth() ==> #[trigger] level_ok(p, m2, base, lv2, found, k)
            &&& m2.tried(m.depth()) == m.doms[m.vars[m.depth()].0 as int].item(i as int)
            &&& forall|j: int| 0 <= j < m.depth() ==> m2.tried(j) == m.tried(j)
        }),
{
    let d = m.depth();
    let x = m.vars[d];
    let xi = x.0 as int;
    let m1 = m.assign(x, i);
    let d1 = m1.doms;
    let lv1 = lv.push(d1);
    let m2 = m1.with_top(d2, log);
    let lv2 = lv.push(d2);
    let dd = m.doms;
    lemma_assign(p, m, place, base, lv, found, i);
    assert(lv[d] == dd);
    assert(m1.frames.len() == d + 1);
    assert forall|k: int| 0 <= k < m2.frames.len() implies (#[trigger] m2.frames[k]).x == m2.vars[k]
        && m2.frames[k].saved.wf() && m2.frames[k].saved.order.contains(m2.frames[k].slot) by {
        assert(m1.frames[k].x == m1.vars[k]);
    }
    assert forall|k: int| 0 <= k <= m2.depth() implies all_wf(#[trigger] lv2[k]) && lv2[k].len() == m2.vars.len()
        && can_undo(lv2[k], m2.log_at(k)) by {
        if k <= d {
            assert(lv2[k] == lv1[k]);
            assert(all_wf(lv1[k]) && can_undo(lv1[k], m1.log_at(k)));
            assert(m2.log_at(k) == m1.log_at(k));
        }
    }
    assert forall|k: int| 0 <= k < m2.depth() implies #[trigger] frame_ok(m2, lv2, k) by {
        assert(frame_ok(m1, lv1, k));
        if k < d {
            assert(m2.frames[k] == m1.frames[k]);
            assert(lv2[k] == lv1[k]);
            assert(lv2[k + 1] == lv1[k + 1]);
        } else {
            assert(undo(d1, Seq::empty()) == d1);
            assert(d1.update(xi, dd[xi]) =~= dd);
        }
    }
    assert forall|j: int| 0 <= j < d implies m2.tried(j) == m.tried(j) by {
        assert(m2.frames[j] == m.frames[j]);
    }
    assert forall|k: int| 0 <= k <= d implies #[trigger] level_ok(p, m2, base, lv2, found, k) by {
        assert(level_ok(p, m, base, lv, found, k));
        lemma_level_below(p, m, m2, base, lv, lv2, found, k);
    }
}

/// Every solution that agrees with the assignments up to the new one and
/// lies within the domains of the level below lies within the domains that
/// the propagation left.
pub proof fn lemma_carried<P: Problem>(
    p: &P,
    m: Search,
    place: Seq<int>,
    base: Doms,
    lv: Seq<Doms>,
    found: Seq<Seq<Value>>,
    i: usize,
    d2: Doms,
    log: Seq<(Variable, usize)>,
    s: Seq<Value>,
)
    requires
        searching(p, m, place, base, lv, found, false),
        m.depth() < m.vars.len(),
        m.doms[m.vars[m.depth()].0 as int].order.contains(i),
        propagated(p, m.assign(m.vars[m.depth()], i).doms, d2, log),
        is_solution(p, s),
        agrees(m.assign(m.vars[m.depth()], i).with_top(d2, log), s, m.depth() + 1),
    ensures
        found.contains(s) || within(d2, s),
{
    let d = m.depth();
    let x = m.vars[d];
    let xi = x.0 as int;
    let m1 = m.assign(x, i);
    let d1 = m1.doms;
    let m2 = m1.with_top(d2, log);
    let dd = m.doms;
    lemma_assign(p, m, place, base, lv, found, i);
    lemma_propagated(p, m, place, base, lv, found, i, d2, log);
    assert(lv[d] == dd);
    assert(level_ok(p, m, base, lv, found, d));
    assert forall|j: int| 0 <= j < d implies s[m.vars[j].0 as int] == #[trigger] m.tried(j) by {
        assert(s[m2.vars[j].0 as int] == m2.tried(j));
    }
    assert(agrees(m, s, d));
    if !found.contains(s) {
        assert(within(dd, s));
        let v = dd[xi].item(i as int);
        assert(s[m2.vars[d].0 as int] == m2.tried(d));
        assert(s[xi] == v);
        assert forall|z: int| 0 <= z < d1.len() implies takes(d1, z, #[trigger] s[z]) by {
            if z == xi {
                assert(d1[xi].order =~= seq![1usize]);
                assert(d1[xi].order[0] == 1usize);
                assert(d1[z].order.contains(1usize) && d1[z].item(1) == s[z]);
            } else {
                assert(takes(dd, z, s[z]));
                let t = choose|t: usize| #[trigger] dd[z].order.contains(t) && dd[z].item(t as int) == s[z];
                assert(d1[z].order.contains(t) && d1[z].item(t as int) == s[z]);
            }
        }
        assert(within(d1, s));
        lemma_solution_kept(p, d1, d2, s);
    }
}

/// After an assignment whose propagation left every arc consistent and no
/// domain newly empty, the search stands one level deeper.
pub proof fn lemma_descend<P: Problem>(
    p: &P,
    m: Search,
    place: Seq<int>,
    base: Doms,
    lv: Seq<Doms>,
    found: Seq<Seq<Value>>,
    i: usize,
    d2: Doms,
    log: Seq<(Variable, usize)>,
)
    requires
        searching(p, m, place, base, lv, found, false),
        m.depth() < m.vars.len(),
        m.doms[m.vars[m.depth()].0 as int].order.contains(i),
        propagated(p, m.assign(m.vars[m.depth()], i).doms, d2, log),
        all_consistent(p, d2),
        forall|z: int|
            0 <= z < d2.len() && m.assign(m.vars[m.depth()], i).doms[z].order.len() > 0 ==> (#[trigger] d2[z]).order.len()
                > 0,
    ensures
        searching(
            p,
            m.assign(m.vars[m.depth()], i).with_top(d2, log),
            place,
            base,
            lv.push(d2),
            found,
            false,
        ),
{
    let d = m.depth();
    let x = m.vars[d];
    let xi = x.0 as int;
    let m1 = m.assign(x, i);
    let d1 = m1.doms;
    let m2 = m1.with_top(d2, log);
    let lv2 = lv.push(d2);
    let dd = m.doms;
    lemma_assign(p, m, place, base, lv, found, i);
    lemma_propagated(p, m, place, base, lv, found, i, d2, log);
    assert(lv[d] == dd);
    assert(level_ok(p, m, base, lv, found, d));
    lemma_valued_shrinks(p, d1, d2);
    let v = dd[xi].item(i as int);
    Chain::lemma_fresh(seq![v]);
    assert(d1[xi].order =~= seq![1usize]);
    assert forall|j: int| 0 <= j < d + 1 implies is_single(d2[(#[trigger] m2.vars[j]).0 as int], m2.tried(j)) by {
        let z = m2.vars[j].0 as int;
        if j < d {
            lemma_distinct(m.vars, place, j, d);
            assert(is_single(dd[z], m.tried(j)));
            assert(d1[z] == dd[z]);
        } else {
            assert(is_single(d1[z], v));
        }
        lemma_shrinks_each(d1, d2, z);
        assert(d1[z].order.len() > 0);
        assert(d2[z].wf());
        lemma_single_stays(d1[z], d2[z], m2.tried(j));
    }
    assert forall|j: int| d + 1 <= j < m2.vars.len() implies shrinks_at(
        base[(#[trigger] m2.vars[j]).0 as int],
        d2[m2.vars[j].0 as int],
    ) by {
        let z = m2.vars[j].0 as int;
        lemma_distinct(m.vars, place, j, d);
        assert(shrinks_at(base[m.vars[j].0 as int], dd[z]));
        assert(d1[z] == dd[z]);
        lemma_shrinks_each(d1, d2, z);
        lemma_shrinks_at_trans(base[z], d1[z], d2[z]);
    }
    assert(consistent_but(p, m2, d2, d + 1));
    assert forall|s: Seq<Value>| #[trigger] is_solution(p, s) && agrees(m2, s, d + 1) implies found.contains(s)
        || within(d2, s) by {
        lemma_carried(p, m, place, base, lv, found, i, d2, log, s);
    }
    assert(lv2[d + 1] == d2);
    assert(level_ok(p, m2, base, lv2, found, d + 1));
}

/// After an assignment whose propagation emptied a domain, every solution
/// that agrees with the assignments is among those found.
pub proof fn lemma_refused<P: Problem>(
    p: &P,
    m: Search,
    place: Seq<int>,
    base: Doms,
    lv: Seq<Doms>,
    found: Seq<Seq<Value>>,
    i: usize,
    d2: Doms,
    log: Seq<(Variable, usize)>,
)
    requires
        searching(p, m, place, base, lv, found, false),
        m.depth() < m.vars.len(),
        m.doms[m.vars[m.depth()].0 as int].order.contains(i),
        propagated(p, m.assign(m.vars[m.depth()], i).doms, d2, log),
        exists|z: int| 0 <= z < d2.len() && (#[trigger] d2[z]).order.len() == 0,
    ensures
        searching(
            p,
            m.assign(m.vars[m.depth()], i).with_top(d2, log),
            place,
            base,
            lv.push(d2),
            found,
            true,
        ),
{
    let d = m.depth();
    let m2 = m.assign(m.vars[d], i).with_top(d2, log);
    lemma_propagated(p, m, place, base, lv, found, i, d2, log);
    let z = choose|z: int| 0 <= z < d2.len() && (#[trigger] d2[z]).order.len() == 0;
    assert forall|s: Seq<Value>| #[trigger] is_solution(p, s) && agrees(m2, s, m2.depth()) implies found.contains(
        s,
    ) by {
        lemma_carried(p, m, place, base, lv, found, i, d2, log, s);
        if within(d2, s) {
            assert(takes(d2, z, s[z]));
        }
    }
}

/// Taking back the last assignment leads to the domains of the level below.
pub proof fn lemma_popped(m: Search, place: Seq<int>, base: Doms, lv: Seq<Doms>)
    requires
        shaped(m, place),
        linked(m, base, lv),
        m.depth() > 0,
    ensures
        m.popped().doms == lv[m.depth() - 1],
        shaped(m.popped(), place),
        linked(m.popped(), base, lv.drop_last()),
        m.popped().depth() == m.depth() - 1,
        can_undo(m.doms, m.frames.last().log),
{
    let d = m.depth() - 1;
    let mp = m.popped();
    let lvp = lv.drop_last();
    assert(frame_ok(m, lv, d));
    assert(lv[d + 1] == m.doms);
    assert(can_undo(lv[d + 1], m.log_at(d + 1)));
    assert forall|k: int| 0 <= k < mp.frames.len() implies (#[trigger] mp.frames[k]).x == mp.vars[k]
        && mp.frames[k].saved.wf() && mp.frames[k].saved.order.contains(mp.frames[k].slot) by {
        assert(mp.frames[k] == m.frames[k]);
    }
    assert forall|k: int| 0 <= k <= mp.depth() implies all_wf(#[trigger] lvp[k]) && lvp[k].len() == mp.vars.len()
        && can_undo(lvp[k], mp.log_at(k)) by {
        assert(lvp[k] == lv[k]);
        assert(mp.log_at(k) == m.log_at(k));
    }
    assert forall|k: int| 0 <= k < mp.depth() implies #[trigger] frame_ok(mp, lvp, k) by {
        assert(frame_ok(m, lv, k));
        assert(mp.frames[k] == m.frames[k]);
    }
}

/// After the last assignment, which has nothing more to give, was taken
/// back and its slot unlinked, the search stands at the level below.
pub proof fn lemma_unassign<P: Problem>(
    p: &P,
    m: Search,
    place: Seq<int>,
    base: Doms,
    lv: Seq<Doms>,
    found: Seq<Seq<Value>>,
)
    requires
        searching(p, m, place, base, lv, found, true),
    ensures
        ({
            let f = m.frames.last();
            let m3 = m.popped().removed(f.x, f.slot);
            searching(p, m3, place, base, lv.drop_last().update(m.depth() - 1, m3.doms), found, false)
        }),
{
    let d = m.depth() - 1;
    let f = m.frames.last();
    let x = f.x;
    let xi = x.0 as int;
    let mp = m.popped();
    let lvp = lv.drop_last();
    let m3 = mp.removed(x, f.slot);
    let lv3 = lvp.update(d, m3.doms);
    let dd = lv[d];
    let d3 = m3.doms;
    lemma_popped(m, place, base, lv);
    assert(mp.doms == dd);
    assert(m.frames[d] == f);
    assert(f.x == m.vars[d]);
    assert(frame_ok(m, lv, d));
    assert(dd[xi] == f.saved);
    assert(dd[xi].order.contains(f.slot));
    assert(level_ok(p, m, base, lv, found, d));
    assert(all_wf(dd));
    lemma_unlink_shrinks(dd, x, f.slot);
    dd[xi].lemma_unlink_relink(f.slot);
    lemma_log_removal(dd, mp.log_at(d), x, f.slot);
    assert(d3 == dd.update(xi, dd[xi].unlink(f.slot)));
    assert(m3.log_at(d) == mp.log_at(d).push((x, f.slot)));
    // The stack.
    assert forall|k: int| 0 <= k < m3.frames.len() implies (#[trigger] m3.frames[k]).x == m3.vars[k]
        && m3.frames[k].saved.wf() && m3.frames[k].saved.order.contains(m3.frames[k].slot) by {
        assert(mp.frames[k].x == mp.vars[k]);
    }
    assert forall|k: int| 0 <= k <= m3.depth() implies all_wf(#[trigger] lv3[k]) && lv3[k].len() == m3.vars.len()
        && can_undo(lv3[k], m3.log_at(k)) by {
        if k < d {
            assert(lv3[k] == lvp[k]);
            assert(all_wf(lvp[k]) && can_undo(lvp[k], mp.log_at(k)));
            assert(m3.log_at(k) == mp.log_at(k));
        }
    }
    assert forall|k: int| 0 <= k < m3.depth() implies #[trigger] frame_ok(m3, lv3, k) by {
        assert(frame_ok(mp, lvp, k));
        if k < d - 1 {
            assert(m3.frames[k] == mp.frames[k]);
        }
    }
    assert(undo(lv3[0], m3.root) == base) by {
        if d == 0 {
            assert(m3.root == mp.root.push((x, f.slot)));
        }
    }
    assert(linked(m3, base, lv3));
    // The levels below.
    assert forall|j: int| 0 <= j < d implies m3.tried(j) == m.tried(j) by {
        assert(m3.frames[j].saved == m.frames[j].saved);
        assert(m3.frames[j].slot == m.frames[j].slot);
    }
    assert forall|k: int| 0 <= k < m3.depth() implies #[trigger] level_ok(p, m3, base, lv3, found, k) by {
        assert(level_ok(p, m, base, lv, found, k));
        lemma_level_below(p, m, m3, base, lv, lv3, found, k);
    }
    // This level.
    lemma_fits_shrinks(p, dd, d3);
    lemma_valued_shrinks(p, dd, d3);
    assert forall|j: int| 0 <= j < d implies is_single(d3[(#[trigger] m3.vars[j]).0 as int], m3.tried(j)) by {
        lemma_distinct(m.vars, place, j, d);
        assert(is_single(dd[m.vars[j].0 as int], m.tried(j)));
    }
    assert forall|j: int| d <= j < m3.vars.len() implies shrinks_at(
        base[(#[trigger] m3.vars[j]).0 as int],
        d3[m3.vars[j].0 as int],
    ) by {
        let z = m3.vars[j].0 as int;
        assert(shrinks_at(base[m.vars[j].0 as int], dd[z]));
        lemma_shrinks_each(dd, d3, z);
        lemma_shrinks_at_trans(base[z], dd[z], d3[z]);
    }
    assert forall|a: int| 0 <= a < p.spec_arcs().len() implies (d < m3.vars.len() && (#[trigger] p.spec_arcs()[a]).1
        == m3.vars[d]) || arc_consistent(p, d3, p.spec_arcs()[a].0, p.spec_arcs()[a].1) by {
        let u = p.spec_arcs()[a].0;
        let w = p.spec_arcs()[a].1;
        if w != x {
            assert(arc_consistent(p, dd, u, w));
            assert(d3[w.0 as int] == dd[w.0 as int]);
            assert forall|j: usize| #[trigger] d3[u.0 as int].order.contains(j) implies supported(p, d3, u, j, w) by {
                assert(dd[u.0 as int].order.contains(j));
                assert(supported(p, dd, u, j, w));
                let t = choose|t: usize| dd[w.0 as int].order.contains(t) && #[trigger] supports(p, dd, u, j, w, t);
                lemma_linked_in_range(dd, u.0 as int, j);
                lemma_linked_in_range(dd, w.0 as int, t);
                lemma_supports_stable(p, dd, d3, u, j, w, t);
            }
        }
    }
    assert forall|s: Seq<Value>| #[trigger] is_solution(p, s) && agrees(m3, s, d) implies found.contains(s)
        || within(d3, s) by {
        assert forall|j: int| 0 <= j < d implies s[m.vars[j].0 as int] == #[trigger] m.tried(j) by {
            assert(s[m3.vars[j].0 as int] == m3.tried(j));
        }
        assert(agrees(m, s, d));
        if !found.contains(s) {
            assert(within(dd, s));
            if s[xi] == m.tried(d) {
                assert forall|j: int| 0 <= j < d + 1 implies s[m.vars[j].0 as int] == #[trigger] m.tried(j) by {}
                assert(agrees(m, s, m.depth()));
                assert(false);
            }
            assert forall|z: int| 0 <= z < d3.len() implies takes(d3, z, #[trigger] s[z]) by {
                assert(takes(dd, z, s[z]));
                let t = choose|t: usize| #[trigger] dd[z].order.contains(t) && dd[z].item(t as int) == s[z];
                lemma_linked_in_range(dd, z, t);
                assert(d3[z].nodes[t as int].value == dd[z].nodes[t as int].value);
                assert(d3[z].order.contains(t) && d3[z].item(t as int) == s[z]);
            }
        }
    }
    assert(lv3[d] == d3);
    assert(level_ok(p, m3, base, lv3, found, d));
}

/// Where every variable is assigned, the values of the linked slots are a
/// solution, and it is the only one that agrees with the assignments.
pub proof fn lemma_emit<P: Problem>(
    p: &P,
    m: Search,
    place: Seq<int>,
    base: Doms,
    lv: Seq<Doms>,
    found: Seq<Seq<Value>>,
    sol: Seq<Value>,
)
    requires
        searching(p, m, place, base, lv, found, false),
        m.depth() == m.vars.len(),
        sol.len() == m.vars.len(),
        forall|x: int| 0 <= x < m.vars.len() ==> #[trigger] sol[x] == m.doms[x].item(m.doms[x].order[0] as int),
    ensures
        is_solution(p, sol),
        m.depth() > 0 ==> searching(p, m, place, base, lv, found.push(sol), true),
        m.depth() == 0 ==> forall|s: Seq<Value>| #[trigger] is_solution(p, s) ==> found.push(sol).contains(s),
        forall|e: int| 0 <= e < found.push(sol).len() ==> is_solution(p, #[trigger] found.push(sol)[e]),
{
    let n = m.depth();
    let d = m.doms;
    let more = found.push(sol);
    assert(lv[n] == d);
    assert(level_ok(p, m, base, lv, found, n));
    lemma_all_single(m, place, d, n);
    assert forall|x: usize| x < p.spec_size() implies p.spec_domain(Variable(x)).contains(#[trigger] sol[x as int]) by {
        let j = place[x as int];
        assert(m.vars[j].0 == x);
        assert(is_single(d[m.vars[j].0 as int], m.tried(j)));
        assert(sol[x as int] == d[x as int].item(1));
    }
    assert forall|k: int| 0 <= k < p.spec_arcs().len() implies p.spec_check(
        ((#[trigger] p.spec_arcs()[k]).0, sol[p.spec_arcs()[k].0.0 as int]),
        (p.spec_arcs()[k].1, sol[p.spec_arcs()[k].1.0 as int]),
    ) by {
        let u = p.spec_arcs()[k].0;
        let w = p.spec_arcs()[k].1;
        assert(arc_consistent(p, d, u, w));
        let ju = place[u.0 as int];
        let jw = place[w.0 as int];
        assert(is_single(d[m.vars[ju].0 as int], m.tried(ju)));
        assert(is_single(d[m.vars[jw].0 as int], m.tried(jw)));
        assert(d[u.0 as int].order[0] == 1usize);
        assert(d[u.0 as int].order.contains(1usize));
        assert(supported(p, d, u, 1usize, w));
        let t = choose|t: usize| d[w.0 as int].order.contains(t) && #[trigger] supports(p, d, u, 1usize, w, t);
        assert(d[w.0 as int].order[d[w.0 as int].order.index_of(t)] == t);
        assert(t == 1);
    }
    assert(is_solution(p, sol));
    assert forall|s: Seq<Value>| #[trigger] is_solution(p, s) && agrees(m, s, n) implies more.contains(s) by {
        assert forall|x: int| 0 <= x < n implies s[x] == sol[x] by {
            let j = place[x];
            assert(m.vars[j].0 == x);
            assert(s[m.vars[j].0 as int] == m.tried(j));
            assert(is_single(d[m.vars[j].0 as int], m.tried(j)));
        }
        assert(s =~= sol);
        assert(more[found.len() as int] == sol);
    }
    assert forall|e: int| 0 <= e < more.len() implies is_solution(p, #[trigger] more[e]) by {
        if e < found.len() {
            assert(more[e] == found[e]);
        }
    }
    if n > 0 {
        assert forall|k: int| 0 <= k < m.depth() implies #[trigger] level_ok(p, m, base, lv, more, k) by {
            lemma_found_more(p, m, base, lv, found, sol, k);
        }
    } else {
        assert forall|s: Seq<Value>| #[trigger] is_solution(p, s) implies more.contains(s) by {
            assert(agrees(m, s, 0));
        }
    }
}

/// Where every variable is assigned, every domain has its one slot linked.
pub proof fn lemma_all_single(m: Search, place: Seq<int>, d: Doms, n: int)
    requires
        shaped(m, place),
        n == m.vars.len(),
        d.len() == n,
        forall|j: int| 0 <= j < n ==> is_single(d[(#[trigger] m.vars[j]).0 as int], m.tried(j)),
    ensures
        forall|x: int| 0 <= x < n ==> (#[trigger] d[x]).order == seq![1usize],
{
    assert forall|x: int| 0 <= x < n implies (#[trigger] d[x]).order == seq![1usize] by {
        let j = place[x];
        assert(m.vars[j].0 == x);
        assert(is_single(d[m.vars[j].0 as int], m.tried(j)));
    }
}

/// Where the variable of this level has no slot left, every solution that
/// agrees with the assignments is among those found.
pub proof fn lemma_exhausted<P: Problem>(
    p: &P,
    m: Search,
    place: Seq<int>,
    base: Doms,
    lv: Seq<Doms>,
    found: Seq<Seq<Value>>,
)
    requires
        searching(p, m, place, base, lv, found, false),
        m.depth() < m.vars.len(),
        m.doms[m.vars[m.depth()].0 as int].order.len() == 0,
    ensures
        m.depth() > 0 ==> searching(p, m, place, base, lv, found, true),
        m.depth() == 0 ==> forall|s: Seq<Value>| #[trigger] is_solution(p, s) ==> found.contains(s),
{
    let d = m.depth();
    let x = m.vars[d].0 as int;
    assert(lv[d] == m.doms);
    assert(level_ok(p, m, base, lv, found, d));
    assert forall|s: Seq<Value>| #[trigger] is_solution(p, s) && agrees(m, s, d) implies found.contains(s) by {
        if within(m.doms, s) {
            assert(takes(m.doms, x, s[x]));
        }
    }
    if d == 0 {
        assert forall|s: Seq<Value>| #[trigger] is_solution(p, s) implies found.contains(s) by {
            assert(agrees(m, s, 0));
        }
    }
}

/// What the measure of the search reads: for every assignment that stands
/// the number of slots that were linked when it was made; for the variable
/// of this level the number of its linked slots; for every variable behind
/// it the number of its slots, or none once the level is given up.
pub open spec fn digits_ok(m: Search, base: Doms, digits: Seq<nat>, dead: bool) -> bool {
    &&& digits.len() == m.vars.len()
    &&& forall|k: int| 0 <= k < m.depth() ==> #[trigger] digits[k] == m.frames[k].saved.order.len()
    &&& !dead && m.depth() < m.vars.len() ==> digits[m.depth()] == m.doms[m.vars[m.depth()].0 as int].order.len()
    &&& !dead ==> forall|k: int|
        m.depth() < k < m.vars.len() ==> #[trigger] digits[k] == base[m.vars[k].0 as int].nodes.len()
    &&& dead ==> forall|k: int| m.depth() <= k < m.vars.len() ==> #[trigger] digits[k] == 0
}

/// The radix of each digit of the measure: one more than the number of
/// slots of the variable at that place.
pub open spec fn radix_of(vars: Seq<Variable>, base: Doms) -> Seq<nat> {
    Seq::new(vars.len(), |k: int| base[vars[k].0 as int].nodes.len() + 1)
}

/// The digits of the measure are below their radices.
pub proof fn lemma_digits_bounded<P: Problem>(
    p: &P,
    m: Search,
    place: Seq<int>,
    base: Doms,
    lv: Seq<Doms>,
    found: Seq<Seq<Value>>,
    dead: bool,
    digits: Seq<nat>,
)
    requires
        searching(p, m, place, base, lv, found, dead),
        digits_ok(m, base, digits, dead),
    ensures
        crate::solver::measure::bounded(digits, radix_of(m.vars, base)),
{
    let radix = radix_of(m.vars, base);
    assert forall|k: int| 0 <= k < radix.len() implies #[trigger] digits[k] < radix[k] by {
        let z = m.vars[k].0 as int;
        if k < m.depth() {
            assert(level_ok(p, m, base, lv, found, k));
            assert(frame_ok(m, lv, k));
            assert(m.frames[k].x == m.vars[k]);
            assert(shrinks_at(base[m.vars[k].0 as int], lv[k][z]));
            m.frames[k].saved.lemma_order_bound();
        } else if k == m.depth() && !dead {
            assert(level_ok(p, m, base, lv, found, k));
            assert(lv[k] == m.doms);
            assert(shrinks_at(base[m.vars[k].0 as int], m.doms[z]));
            assert(all_wf(lv[k]));
            m.doms[z].lemma_order_bound();
        }
    }
}

/// No domain of `d` holds a value in two of its slots.
pub open spec fn distinct(d: Doms) -> bool {
    forall|x: int, i: int, j: int|
        0 <= x < d.len() && 1 <= i < d[x].nodes.len() && 1 <= j < d[x].nodes.len() && i != j ==> #[trigger] d[x].item(i)
            != #[trigger] d[x].item(j)
}

/// No solution was found twice; a solution that was found and lies within
/// the domains of a level below the top gives the variable of that level
/// the value that the assignment of the level gave it; and unless the top
/// level is `dead`, no solution that was found lies within its domains.
pub open spec fn unseen(m: Search, lv: Seq<Doms>, found: Seq<Seq<Value>>, dead: bool) -> bool {
    &&& found.no_duplicates()
    &&& forall|k: int, e: int|
        0 <= k < m.depth() && 0 <= e < found.len() && #[trigger] within(lv[k], found[e]) ==> found[e][m.vars[k].0 as int]
            == m.tried(k)
    &&& !dead ==> forall|e: int| 0 <= e < found.len() ==> !within(lv[m.depth()], #[trigger] found[e])
}

/// A valuation that lies within domains lies within those from which they
/// have shrunk.
pub proof fn lemma_within_shrinks(a: Doms, b: Doms, s: Seq<Value>)
    requires
        all_wf(a),
        shrinks(a, b),
        within(b, s),
    ensures
        within(a, s),
{
    assert forall|x: int| 0 <= x < a.len() implies takes(a, x, #[trigger] s[x]) by {
        assert(takes(b, x, s[x]));
        let i = choose|i: usize| #[trigger] b[x].order.contains(i) && b[x].item(i as int) == s[x];
        assert(a[x].order.contains(i));
        assert(b[x].order.contains(i));
        lemma_linked_in_range(a, x, i);
        assert(b[x].nodes[i as int].value == a[x].nodes[i as int].value);
        assert(a[x].order.contains(i) && a[x].item(i as int) == s[x]);
    }
}

/// Domains that have shrunk from ones without a value in two slots have
/// none in two slots.
pub proof fn lemma_distinct_shrinks(a: Doms, b: Doms)
    requires
        shrinks(a, b),
        distinct(a),
    ensures
        distinct(b),
{
    assert forall|x: int, i: int, j: int|
        0 <= x < b.len() && 1 <= i < b[x].nodes.len() && 1 <= j < b[x].nodes.len() && i != j implies #[trigger] b[x].item(
        i,
    ) != #[trigger] b[x].item(j) by {
        assert(b[x].nodes.len() == a[x].nodes.len());
        assert(b[x].nodes[i].value == a[x].nodes[i].value);
        assert(b[x].nodes[j].value == a[x].nodes[j].value);
        assert(a[x].item(i) != a[x].item(j));
    }
}

/// An assignment with the propagation that follows it finds no solution
/// anew: what was found does not lie within the domains that it leaves.
pub proof fn lemma_unseen_descend<P: Problem>(
    p: &P,
    m: Search,
    place: Seq<int>,
    base: Doms,
    lv: Seq<Doms>,
    found: Seq<Seq<Value>>,
    i: usize,
    d2: Doms,
    log: Seq<(Variable, usize)>,
    dead: bool,
)
    requires
        searching(p, m, place, base, lv, found, false),
        unseen(m, lv, found, false),
        m.depth() < m.vars.len(),
        m.doms[m.vars[m.depth()].0 as int].order.contains(i),
        propagated(p, m.assign(m.vars[m.depth()], i).doms, d2, log),
    ensures
        unseen(m.assign(m.vars[m.depth()], i).with_top(d2, log), lv.push(d2), found, dead),
{
    let n = m.depth();
    let x = m.vars[n];
    let m1 = m.assign(x, i);
    let m2 = m1.with_top(d2, log);
    let lv2 = lv.push(d2);
    assert(lv[n] == m.doms);
    assert(all_wf(lv[n]));
    assert(m2.depth() == n + 1);
    assert forall|k: int| 0 <= k < n implies m2.tried(k) == m.tried(k) by {
        assert(m2.frames[k] == m.frames[k]);
    }
    assert forall|k: int, e: int|
        0 <= k < m2.depth() && 0 <= e < found.len() && #[trigger] within(lv2[k], found[e]) implies found[e][m2.vars[k].0 as int]
        == m2.tried(k) by {
        assert(lv2[k] == lv[k]);
        if k < n {
            assert(within(lv[k], found[e]));
        }
    }
    if !dead {
        assert forall|e: int| 0 <= e < found.len() implies !within(lv2[m2.depth()], #[trigger] found[e]) by {
            let s = found[e];
            if within(d2, s) {
                lemma_single_wf(m.doms, x, i);
                lemma_within_shrinks(m1.doms, d2, s);
                assert forall|y: int| 0 <= y < m.doms.len() implies takes(m.doms, y, #[trigger] s[y]) by {
                    assert(takes(m1.doms, y, s[y]));
                    if y == x.0 {
                        let j = choose|j: usize| #[trigger] m1.doms[y].order.contains(j) && m1.doms[y].item(j as int) == s[y];
                        assert(m1.doms[y].order[m1.doms[y].order.index_of(j)] == j);
                        assert(j == 1);
                        assert(m.doms[y].order.contains(i) && m.doms[y].item(i as int) == s[y]);
                    } else {
                        assert(m1.doms[y] == m.doms[y]);
                    }
                }
                assert(within(lv[n], s));
            }
        }
    }
}

/// The domains in which a variable has the one value of one of its slots
/// are well formed where the others were.
pub proof fn lemma_single_wf(d: Doms, x: Variable, i: usize)
    requires
        all_wf(d),
        x.0 < d.len(),
    ensures
        all_wf(d.update(x.0 as int, Chain::fresh(seq![d[x.0 as int].item(i as int)]))),
{
    Chain::lemma_fresh(seq![d[x.0 as int].item(i as int)]);
}

/// Taking an assignment back and unlinking its slot leaves domains within
/// which no solution lies that was found, where no base domain holds a
/// value in two slots.
pub proof fn lemma_unseen_unassign<P: Problem>(
    p: &P,
    m: Search,
    place: Seq<int>,
    base: Doms,
    lv: Seq<Doms>,
    found: Seq<Seq<Value>>,
)
    requires
        searching(p, m, place, base, lv, found, true),
        unseen(m, lv, found, true),
        distinct(base),
    ensures
        ({
            let f = m.frames.last();
            let m3 = m.popped().removed(f.x, f.slot);
            unseen(m3, lv.drop_last().update(m.depth() - 1, m3.doms), found, false)
        }),
{
    let f = m.frames.last();
    let d = m.depth() - 1;
    let m3 = m.popped().removed(f.x, f.slot);
    let lv3 = lv.drop_last().update(d, m3.doms);
    lemma_popped(m, place, base, lv);
    assert(m.popped().doms == lv[d]);
    assert(m3.depth() == d);
    let x = f.x;
    assert(x == m.vars[d]);
    assert(frame_ok(m, lv, d));
    assert(f.saved == lv[d][x.0 as int]);
    assert(all_wf(lv[d]));
    assert(m3.doms == lv[d].update(x.0 as int, lv[d][x.0 as int].unlink(f.slot)));
    lemma_unlink_shrinks(lv[d], x, f.slot);
    assert forall|k: int| 0 <= k < d implies m3.tried(k) == m.tried(k) by {
        assert(m.popped().frames[k] == m.frames[k]);
        assert(m3.frames[k].saved == m.frames[k].saved && m3.frames[k].slot == m.frames[k].slot);
    }
    assert forall|k: int, e: int|
        0 <= k < m3.depth() && 0 <= e < found.len() && #[trigger] within(lv3[k], found[e]) implies found[e][m3.vars[k].0 as int]
        == m3.tried(k) by {
        assert(lv3[k] == lv[k]);
        assert(within(lv[k], found[e]));
    }
    assert forall|e: int| 0 <= e < found.len() implies !within(lv3[m3.depth()], #[trigger] found[e]) by {
        let s = found[e];
        if within(m3.doms, s) {
            lemma_within_shrinks(lv[d], m3.doms, s);
            assert(within(lv[d], found[e]));
            assert(s[x.0 as int] == m.tried(d));
            assert(takes(m3.doms, x.0 as int, s[x.0 as int]));
            let c = lv[d][x.0 as int];
            let j = choose|j: usize| #[trigger] m3.doms[x.0 as int].order.contains(j) && m3.doms[x.0 as int].item(j as int) == s[x.0 as int];
            c.lemma_unlink_relink(f.slot);
            assert(c.order.contains(j));
            lemma_linked_in_range(lv[d], x.0 as int, j);
            lemma_linked_in_range(lv[d], x.0 as int, f.slot);
            assert(j != f.slot) by {
                if j == f.slot {
                    assert(c.unlink(f.slot).can_relink(f.slot));
                }
            }
            assert(c.unlink(f.slot).nodes[j as int].value == c.nodes[j as int].value);
            assert(c.item(j as int) == c.item(f.slot as int));
            assert(level_ok(p, m, base, lv, found, d));
            assert(shrinks_at(base[m.vars[d].0 as int], lv[d][m.vars[d].0 as int]));
            assert(base[x.0 as int].item(j as int) == base[x.0 as int].item(f.slot as int));
        }
    }
}

/// The solution that the domains hold when every variable is assigned was
/// not found before, and lies within no level but by the assignments that
/// stand.
pub proof fn lemma_unseen_emit<P: Problem>(
    p: &P,
    m: Search,
    place: Seq<int>,
    base: Doms,
    lv: Seq<Doms>,
    found: Seq<Seq<Value>>,
    sol: Seq<Value>,
)
    requires
        searching(p, m, place, base, lv, found, false),
        unseen(m, lv, found, false),
        m.depth() == m.vars.len(),
        sol.len() == m.vars.len(),
        forall|x: int| 0 <= x < m.vars.len() ==> #[trigger] sol[x] == m.doms[x].item(m.doms[x].order[0] as int),
    ensures
        unseen(m, lv, found.push(sol), true),
{
    let n = m.depth();
    let d = m.doms;
    let more = found.push(sol);
    assert(lv[n] == d);
    assert(level_ok(p, m, base, lv, found, n));
    assert forall|x: int| 0 <= x < d.len() implies takes(d, x, #[trigger] sol[x]) by {
        let j = place[x];
        assert(m.vars[j].0 == x);
        assert(is_single(d[m.vars[j].0 as int], m.tried(j)));
        assert(d[x].order[0] == 1usize);
        assert(d[x].order.contains(1usize) && d[x].item(1) == sol[x]);
    }
    assert(within(d, sol));
    assert forall|a: int, b: int| 0 <= a < more.len() && 0 <= b < more.len() && a != b implies more[a] != more[b] by {
        if a < found.len() && b < found.len() {
            assert(found[a] != found[b]);
        } else if a < found.len() {
            assert(!within(lv[n], found[a]));
        } else {
            assert(!within(lv[n], found[b]));
        }
    }
    assert forall|k: int, e: int|
        0 <= k < m.depth() && 0 <= e < more.len() && #[trigger] within(lv[k], more[e]) implies more[e][m.vars[k].0 as int]
        == m.tried(k) by {
        if e < found.len() {
            assert(more[e] == found[e]);
            assert(within(lv[k], found[e]));
        } else {
            assert(is_single(d[m.vars[k].0 as int], m.tried(k)));
            assert(d[m.vars[k].0 as int].order[0] == 1usize);
        }
    }
}

/// Where no domain of a problem holds a value twice, the domains that the
/// problem starts with hold no value in two slots.
pub proof fn lemma_distinct_initial<P: Problem>(p: &P)
    requires
        forall|x: usize| x < p.spec_size() ==> (#[trigger] p.spec_domain(Variable(x))).no_duplicates(),
        p.spec_size() <= usize::MAX,
    ensures
        distinct(crate::consistency::ac::initial(p)),
{
    let d = crate::consistency::ac::initial(p);
    assert forall|x: int, i: int, j: int|
        0 <= x < d.len() && 1 <= i < d[x].nodes.len() && 1 <= j < d[x].nodes.len() && i != j implies #[trigger] d[x].item(
        i,
    ) != #[trigger] d[x].item(j) by {
        let dom = p.spec_domain(Variable(x as usize));
        assert(dom.no_duplicates());
        assert(d[x] == Chain::fresh(dom));
        assert(d[x].item(i) == dom[i - 1]);
        assert(d[x].item(j) == dom[j - 1]);
    }
}

} // verus!
