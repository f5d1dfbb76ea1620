//! What the consistency algorithms are stated over: support between slots,
//! the revision of one arc, and the undoing of a log of removals.

use vstd::prelude::*;
use crate::domains::Chain;
use crate::problem::{Constraints, Value, Variable};

verus! {

/// The domains as the contracts see them: one list model for each variable.
pub type Doms = Seq<Chain<Value>>;

/// Every list of `d` is well formed.
pub open spec fn all_wf(d: Doms) -> bool {
    forall|x: int| 0 <= x < d.len() ==> (#[trigger] d[x]).wf()
}

/// The arcs of `c` join variables of `d`, and `check` may be asked about the
/// value of every slot of `d`.
pub open spec fn fits<C: Constraints>(c: &C, d: Doms) -> bool {
    &&& forall|k: int|
        0 <= k < c.spec_arcs().len() ==> (#[trigger] c.spec_arcs()[k]).0.0 < d.len()
            && c.spec_arcs()[k].1.0 < d.len()
    &&& forall|x: usize, i: int|
        x < d.len() && 1 <= i < d[x as int].nodes.len() ==> c.admits(
            (Variable(x), #[trigger] d[x as int].item(i)),
        )
}

/// Slot `i` comes before slot `j` in the order of the linked slots.
pub open spec fn precedes(order: Seq<usize>, i: usize, j: usize) -> bool {
    order.contains(i) && order.contains(j) && order.index_of(i) < order.index_of(j)
}

/// `b` has the variables, slots and values of `a`, and every slot linked in
/// `b` is linked in `a`; the slots linked in `b` stand in the order in which
/// they stand in `a`.
pub open spec fn shrinks(a: Doms, b: Doms) -> bool {
    &&& a.len() == b.len()
    &&& forall|x: int, i: usize, j: usize|
        0 <= x < a.len() && #[trigger] precedes(b[x].order, i, j) ==> precedes(a[x].order, i, j)
    &&& forall|x: int| 0 <= x < a.len() ==> (#[trigger] b[x]).nodes.len() == a[x].nodes.len()
    &&& forall|x: int, i: int|
        0 <= x < a.len() && 0 <= i < a[x].nodes.len() ==> (#[trigger] b[x].nodes[i]).value
            == a[x].nodes[i].value
    &&& forall|x: int, i: usize|
        0 <= x < a.len() && (#[trigger] b[x].order.contains(i)) ==> a[x].order.contains(i)
    &&& forall|x: int| 0 <= x < a.len() ==> (#[trigger] b[x]).order.len() <= a[x].order.len()
}

/// The number of linked slots over all variables.
pub open spec fn total_live(d: Doms) -> nat
    decreases d.len(),
{
    if d.len() == 0 {
        0
    } else {
        total_live(d.drop_last()) + d.last().order.len()
    }
}

/// The value of slot `i` of `x` and the value of slot `j` of `y` are
/// consistent with each other.
pub open spec fn supports<C: Constraints>(
    c: &C,
    d: Doms,
    x: Variable,
    i: usize,
    y: Variable,
    j: usize,
) -> bool {
    c.spec_check((x, d[x.0 as int].item(i as int)), (y, d[y.0 as int].item(j as int)))
}

/// Some linked slot of `y` supports slot `i` of `x`.
pub open spec fn supported<C: Constraints>(c: &C, d: Doms, x: Variable, i: usize, y: Variable) -> bool {
    exists|j: usize| d[y.0 as int].order.contains(j) && #[trigger] supports(c, d, x, i, y, j)
}

/// Every linked slot of `x` is supported by a linked slot of `y`.
pub open spec fn arc_consistent<C: Constraints>(c: &C, d: Doms, x: Variable, y: Variable) -> bool {
    forall|i: usize| #[trigger] d[x.0 as int].order.contains(i) ==> supported(c, d, x, i, y)
}

/// Every arc of `c` is consistent in `d`.
pub open spec fn all_consistent<C: Constraints>(c: &C, d: Doms) -> bool {
    forall|k: int|
        0 <= k < c.spec_arcs().len() ==> arc_consistent(
            c,
            d,
            (#[trigger] c.spec_arcs()[k]).0,
            c.spec_arcs()[k].1,
        )
}

/// The revision of the arc from `x` to `y`: the slots of `queue` are taken in
/// turn, and a slot is unlinked from the domain of `x` when no slot linked in
/// the domain of `y` at that moment supports it.
pub open spec fn revised<C: Constraints>(
    c: &C,
    d: Doms,
    x: Variable,
    y: Variable,
    queue: Seq<usize>,
) -> Doms
    decreases queue.len(),
{
    if queue.len() == 0 {
        d
    } else {
        let i = queue[0];
        let d1 = if supported(c, d, x, i, y) {
            d
        } else {
            d.update(x.0 as int, d[x.0 as int].unlink(i))
        };
        revised(c, d1, x, y, queue.drop_first())
    }
}

/// A choice of slots for each variable, all of them linked in `d`.
pub open spec fn sub_family(f: Seq<Set<usize>>, d: Doms) -> bool {
    &&& f.len() == d.len()
    &&& forall|x: int, i: usize|
        0 <= x < d.len() && (#[trigger] f[x].contains(i)) ==> d[x].order.contains(i)
}

/// Within the choice `f`, every slot chosen for `x` is supported by a slot
/// chosen for `y`.
pub open spec fn family_consistent<C: Constraints>(
    c: &C,
    d: Doms,
    f: Seq<Set<usize>>,
    x: Variable,
    y: Variable,
) -> bool {
    forall|i: usize| #[trigger]
        f[x.0 as int].contains(i) ==> exists|j: usize|
            f[y.0 as int].contains(j) && #[trigger] supports(c, d, x, i, y, j)
}

/// The choice `f` is consistent along every arc of `c`.
pub open spec fn family_closed<C: Constraints>(c: &C, d: Doms, f: Seq<Set<usize>>) -> bool {
    forall|k: int|
        0 <= k < c.spec_arcs().len() ==> family_consistent(
            c,
            d,
            f,
            (#[trigger] c.spec_arcs()[k]).0,
            c.spec_arcs()[k].1,
        )
}

/// Every removal of `log` can be undone, the last one first.
pub open spec fn can_undo(d: Doms, log: Seq<(Variable, usize)>) -> bool
    decreases log.len(),
{
    log.len() == 0 || {
        let x = log.last().0.0 as int;
        let i = log.last().1;
        &&& 0 <= x < d.len()
        &&& d[x].can_relink(i)
        &&& can_undo(d.update(x, d[x].relink(i)), log.drop_last())
    }
}

/// The domains after the removals of `log` were undone, the last one first.
pub open spec fn undo(d: Doms, log: Seq<(Variable, usize)>) -> Doms
    decreases log.len(),
{
    if log.len() == 0 {
        d
    } else {
        let x = log.last().0.0 as int;
        let i = log.last().1;
        undo(d.update(x, d[x].relink(i)), log.drop_last())
    }
}

/// A log without removals can be undone, and undoing it changes nothing.
pub proof fn lemma_undo_nothing(d: Doms)
    ensures
        can_undo(d, Seq::empty()),
        undo(d, Seq::empty()) == d,
{
}

/// A removal that is logged can be undone, and undoing the log then leads
/// where it led before the removal.
pub proof fn lemma_log_removal(d: Doms, log: Seq<(Variable, usize)>, x: Variable, i: usize)
    requires
        all_wf(d),
        x.0 < d.len(),
        d[x.0 as int].order.contains(i),
    ensures
        can_undo(d, log) ==> can_undo(
            d.update(x.0 as int, d[x.0 as int].unlink(i)),
            log.push((x, i)),
        ),
        undo(d.update(x.0 as int, d[x.0 as int].unlink(i)), log.push((x, i))) == undo(d, log),
{
    let d1 = d.update(x.0 as int, d[x.0 as int].unlink(i));
    let log1 = log.push((x, i));
    d[x.0 as int].lemma_unlink_relink(i);
    assert(log1.drop_last() =~= log);
    assert(d1.update(x.0 as int, d1[x.0 as int].relink(i)) =~= d);
}

/// Undoing a log leaves the number of variables as it is.
pub proof fn lemma_undo_len(d: Doms, log: Seq<(Variable, usize)>)
    requires
        can_undo(d, log),
    ensures
        undo(d, log).len() == d.len(),
    decreases log.len(),
{
    if log.len() > 0 {
        let x = log.last().0.0 as int;
        let i = log.last().1;
        lemma_undo_len(d.update(x, d[x].relink(i)), log.drop_last());
    }
}

/// Unlinking a slot lowers the number of linked slots by one.
pub proof fn lemma_total_live_update(d: Doms, x: int, c: Chain<Value>)
    requires
        0 <= x < d.len(),
    ensures
        total_live(d.update(x, c)) == total_live(d) - d[x].order.len() + c.order.len(),
    decreases d.len(),
{
    let d1 = d.update(x, c);
    if x == d.len() - 1 {
        assert(d1.drop_last() =~= d.drop_last());
    } else {
        assert(d1.drop_last() =~= d.drop_last().update(x, c));
        lemma_total_live_update(d.drop_last(), x, c);
    }
}

} // verus!
