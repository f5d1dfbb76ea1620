//! The revision of one arc.

use vstd::prelude::*;
use crate::consistency::model::{all_wf, can_undo, fits, lemma_log_removal, lemma_total_live_update, revised, shrinks, sub_family, family_consistent, supported, supports, total_live, undo, Doms};
use crate::domains::DomMap;
use crate::problem::{Constraints, Variable};

verus! {

/// Support between two slots depends on their values only, and slots keep
/// their values when domains shrink.
pub proof fn lemma_supports_stable<C: Constraints>(
    c: &C,
    a: Doms,
    b: Doms,
    x: Variable,
    i: usize,
    y: Variable,
    j: usize,
)
    requires
        shrinks(a, b),
        x.0 < a.len(),
        y.0 < a.len(),
        i < a[x.0 as int].nodes.len(),
        j < a[y.0 as int].nodes.len(),
    ensures
        supports(c, a, x, i, y, j) == supports(c, b, x, i, y, j),
{
    assert(b[x.0 as int].nodes[i as int].value == a[x.0 as int].nodes[i as int].value);
    assert(b[y.0 as int].nodes[j as int].value == a[y.0 as int].nodes[j as int].value);
}

/// Shrinking twice is shrinking.
pub proof fn lemma_shrinks_trans(a: Doms, b: Doms, c: Doms)
    requires
        shrinks(a, b),
        shrinks(b, c),
    ensures
        shrinks(a, c),
{
    assert forall|x: int, i: int| 0 <= x < a.len() && 0 <= i < a[x].nodes.len() implies (#[trigger] c[x].nodes[i]).value
        == a[x].nodes[i].value by {
        assert(b[x].nodes.len() == a[x].nodes.len());
        assert(b[x].nodes[i].value == a[x].nodes[i].value);
    }
    assert forall|x: int, i: usize| 0 <= x < a.len() && (#[trigger] c[x].order.contains(i)) implies a[x].order.contains(
        i,
    ) by {
        assert(b[x].order.contains(i));
    }
    assert forall|x: int| 0 <= x < a.len() implies (#[trigger] c[x]).order.len() <= a[x].order.len() by {
        assert(b[x].order.len() <= a[x].order.len());
    }
    assert forall|x: int| 0 <= x < a.len() implies (#[trigger] c[x]).nodes.len() == a[x].nodes.len() by {
        assert(b[x].nodes.len() == a[x].nodes.len());
    }
}

/// Unlinking a linked slot shrinks the domains and keeps them well formed.
pub proof fn lemma_unlink_shrinks(d: Doms, x: Variable, i: usize)
    requires
        all_wf(d),
        x.0 < d.len(),
        d[x.0 as int].order.contains(i),
    ensures
        all_wf(d.update(x.0 as int, d[x.0 as int].unlink(i))),
        shrinks(d, d.update(x.0 as int, d[x.0 as int].unlink(i))),
        total_live(d.update(x.0 as int, d[x.0 as int].unlink(i))) == total_live(d) - 1,
{
    d[x.0 as int].lemma_unlink_relink(i);
    lemma_total_live_update(d, x.0 as int, d[x.0 as int].unlink(i));
}

/// Domains that fit the constraints still fit them when they have shrunk.
pub proof fn lemma_fits_shrinks<C: Constraints>(c: &C, a: Doms, b: Doms)
    requires
        fits(c, a),
        shrinks(a, b),
    ensures
        fits(c, b),
{
    assert forall|x: usize, i: int| x < b.len() && 1 <= i < b[x as int].nodes.len() implies c.admits(
        (Variable(x), #[trigger] b[x as int].item(i)),
    ) by {
        assert(b[x as int].nodes[i].value == a[x as int].nodes[i].value);
        assert(c.admits((Variable(x), a[x as int].item(i))));
    }
}

/// What a revision leaves: well-formed domains that have shrunk in the
/// domain of `x` only; nothing changed where the domain of `x` kept its
/// size; and every slot of `queue` that is still linked had a support.
pub proof fn lemma_revised<C: Constraints>(c: &C, d: Doms, x: Variable, y: Variable, queue: Seq<usize>)
    requires
        all_wf(d),
        x.0 < d.len(),
        y.0 < d.len(),
        queue.no_duplicates(),
        forall|k: int| 0 <= k < queue.len() ==> d[x.0 as int].order.contains(#[trigger] queue[k]),
    ensures
        all_wf(revised(c, d, x, y, queue)),
        shrinks(d, revised(c, d, x, y, queue)),
        forall|z: int|
            0 <= z < d.len() && z != x.0 ==> #[trigger] revised(c, d, x, y, queue)[z] == d[z],
        revised(c, d, x, y, queue)[x.0 as int].order.len() == d[x.0 as int].order.len() ==> revised(
            c,
            d,
            x,
            y,
            queue,
        ) == d,
        total_live(revised(c, d, x, y, queue)) == total_live(d) - d[x.0 as int].order.len() + revised(
            c,
            d,
            x,
            y,
            queue,
        )[x.0 as int].order.len(),
        forall|i: usize|
            d[x.0 as int].order.contains(i) && !queue.contains(i) ==> #[trigger] revised(
                c,
                d,
                x,
                y,
                queue,
            )[x.0 as int].order.contains(i),
        x != y ==> forall|i: usize|
            queue.contains(i) && #[trigger] revised(c, d, x, y, queue)[x.0 as int].order.contains(i)
                ==> supported(c, revised(c, d, x, y, queue), x, i, y),
        revised(c, d, x, y, queue) == d ==> forall|i: usize| #[trigger]
            queue.contains(i) ==> supported(c, d, x, i, y),
    decreases queue.len(),
{
    let r = revised(c, d, x, y, queue);
    if queue.len() == 0 {
        lemma_total_live_update(d, x.0 as int, d[x.0 as int]);
        assert(d.update(x.0 as int, d[x.0 as int]) =~= d);
    } else {
        let i = queue[0];
        let rest = queue.drop_first();
        assert(d[x.0 as int].order.contains(i));
        assert forall|k: int| 0 <= k < rest.len() implies rest[k] != i && queue.contains(
            #[trigger] rest[k],
        ) by {
            assert(rest[k] == queue[k + 1]);
        }
        assert(rest.no_duplicates());
        assert forall|j: usize| queue.contains(j) implies j == i || rest.contains(j) by {
            let k = choose|k: int| 0 <= k < queue.len() && queue[k] == j;
            if k > 0 {
                assert(rest[k - 1] == j);
            }
        }
        if supported(c, d, x, i, y) {
            lemma_revised(c, d, x, y, rest);
            assert(r == revised(c, d, x, y, rest));
            if x != y {
                assert forall|j: usize| queue.contains(j) && #[trigger] r[x.0 as int].order.contains(
                    j,
                ) implies supported(c, r, x, j, y) by {
                    if j == i && !rest.contains(j) {
                        let w = choose|w: usize|
                            d[y.0 as int].order.contains(w) && #[trigger] supports(c, d, x, i, y, w);
                        assert(r[y.0 as int] == d[y.0 as int]);
                        assert(d[x.0 as int].order[d[x.0 as int].order.index_of(i)] == i);
                        assert(d[y.0 as int].order[d[y.0 as int].order.index_of(w)] == w);
                        lemma_supports_stable(c, d, r, x, i, y, w);
                    }
                }
            }
        } else {
            let d1 = d.update(x.0 as int, d[x.0 as int].unlink(i));
            lemma_unlink_shrinks(d, x, i);
            d[x.0 as int].lemma_unlink_relink(i);
            assert forall|k: int| 0 <= k < rest.len() implies d1[x.0 as int].order.contains(
                #[trigger] rest[k],
            ) by {
                assert(rest[k] == queue[k + 1]);
            }
            lemma_revised(c, d1, x, y, rest);
            assert(r == revised(c, d1, x, y, rest));
            lemma_shrinks_trans(d, d1, r);
            assert(r[x.0 as int].order.len() < d[x.0 as int].order.len());
            assert(r != d);
            assert forall|j: usize|
                d[x.0 as int].order.contains(j) && !queue.contains(j) implies #[trigger] r[x.0 as int].order.contains(
                j,
            ) by {
                assert(j != i);
                assert(d1[x.0 as int].order.contains(j));
                assert(!rest.contains(j));
            }
            if x != y {
                assert forall|j: usize| queue.contains(j) && #[trigger] r[x.0 as int].order.contains(
                    j,
                ) implies supported(c, r, x, j, y) by {
                    assert(d1[x.0 as int].order.contains(j));
                    assert(j != i);
                    assert(rest.contains(j));
                }
            }
        }
    }
}

/// A revision unlinks no slot of a choice of slots that is consistent along
/// the revised arc.
pub proof fn lemma_revised_keeps<C: Constraints>(
    c: &C,
    d: Doms,
    x: Variable,
    y: Variable,
    queue: Seq<usize>,
    f: Seq<Set<usize>>,
)
    requires
        all_wf(d),
        x.0 < d.len(),
        y.0 < d.len(),
        queue.no_duplicates(),
        forall|k: int| 0 <= k < queue.len() ==> d[x.0 as int].order.contains(#[trigger] queue[k]),
        sub_family(f, d),
        family_consistent(c, d, f, x, y),
    ensures
        sub_family(f, revised(c, d, x, y, queue)),
    decreases queue.len(),
{
    if queue.len() > 0 {
        let i = queue[0];
        let rest = queue.drop_first();
        assert(d[x.0 as int].order.contains(i));
        assert forall|k: int| 0 <= k < rest.len() implies rest[k] != i && queue.contains(
            #[trigger] rest[k],
        ) by {
            assert(rest[k] == queue[k + 1]);
        }
        assert(rest.no_duplicates());
        if supported(c, d, x, i, y) {
            lemma_revised_keeps(c, d, x, y, rest, f);
        } else {
            let d1 = d.update(x.0 as int, d[x.0 as int].unlink(i));
            lemma_unlink_shrinks(d, x, i);
            d[x.0 as int].lemma_unlink_relink(i);
            if f[x.0 as int].contains(i) {
                let j = choose|j: usize| f[y.0 as int].contains(j) && #[trigger] supports(c, d, x, i, y, j);
                assert(d[y.0 as int].order.contains(j));
                assert(false);
            }
            assert(sub_family(f, d1));
            assert forall|a: usize| #[trigger] f[x.0 as int].contains(a) implies exists|b: usize|
                f[y.0 as int].contains(b) && #[trigger] supports(c, d1, x, a, y, b) by {
                let b = choose|b: usize| f[y.0 as int].contains(b) && #[trigger] supports(c, d, x, a, y, b);
                assert(d[x.0 as int].order.contains(a));
                assert(d[y.0 as int].order.contains(b));
                assert(d[x.0 as int].order[d[x.0 as int].order.index_of(a)] == a);
                assert(d[y.0 as int].order[d[y.0 as int].order.index_of(b)] == b);
                lemma_supports_stable(c, d, d1, x, a, y, b);
            }
            assert forall|k: int| 0 <= k < rest.len() implies d1[x.0 as int].order.contains(
                #[trigger] rest[k],
            ) by {
                assert(rest[k] == queue[k + 1]);
            }
            lemma_revised_keeps(c, d1, x, y, rest, f);
        }
    }
}

/// What a revision answers: `None` where it emptied the domain of `x`, else
/// whether it unlinked any slot.
pub open spec fn outcome(before: nat, after: nat) -> Option<bool> {
    if before > 0 && after == 0 {
        None
    } else {
        Some(after < before)
    }
}

/// Revises the arc from `x` to `y`, as `revise` does. Where `record` is set,
/// every removal is appended to `log`, so that the log can be undone; each
/// call of `check` is counted in `checks`, which stays at its maximum once it
/// has reached it.
pub fn revise_logged<C: Constraints>(
    domains: &mut DomMap,
    constraints: &C,
    x: Variable,
    y: Variable,
    log: &mut Vec<(Variable, usize)>,
    record: bool,
    checks: &mut u32,
) -> (r: Option<bool>)
    requires
        old(domains).wf(),
        x.0 < old(domains)@.len(),
        y.0 < old(domains)@.len(),
        fits(constraints, old(domains)@),
    ensures
        final(domains).wf(),
        final(domains)@ == revised(
            constraints,
            old(domains)@,
            x,
            y,
            old(domains)@[x.0 as int].order,
        ),
        r == outcome(
            old(domains)@[x.0 as int].order.len(),
            final(domains)@[x.0 as int].order.len(),
        ),
        !record ==> final(log)@ == old(log)@,
        record && can_undo(old(domains)@, old(log)@) ==> can_undo(final(domains)@, final(log)@),
        record ==> undo(final(domains)@, final(log)@) == undo(old(domains)@, old(log)@),
        *final(checks) >= *old(checks),
{
    let ghost d0 = domains@;
    let ghost log0 = log@;
    let ghost queue = d0[x.0 as int].order;
    let n = domains.vars_count();
    let snapshot = domains.slots(x);
    let mut mutated = false;
    let mut p: usize = 0;
    proof {
        assert(d0[x.0 as int].wf());
        assert(snapshot@.skip(0) =~= queue);
    }
    while p < snapshot.len()
        invariant
            domains.wf(),
            d0 == old(domains)@,
            log0 == old(log)@,
            domains@.len() == d0.len(),
            x.0 < d0.len(),
            y.0 < d0.len(),
            snapshot@ == queue,
            queue == d0[x.0 as int].order,
            queue.no_duplicates(),
            p <= snapshot.len(),
            fits(constraints, domains@),
            shrinks(d0, domains@),
            revised(constraints, d0, x, y, queue) == revised(
                constraints,
                domains@,
                x,
                y,
                queue.skip(p as int),
            ),
            forall|k: int| p <= k < queue.len() ==> domains@[x.0 as int].order.contains(#[trigger] queue[k]),
            mutated == (domains@[x.0 as int].order.len() < d0[x.0 as int].order.len()),
            !mutated ==> domains@ == d0,
            d0[x.0 as int].order.len() > 0 ==> domains@[x.0 as int].order.len() > 0,
            !record ==> log@ == log0,
            record && can_undo(d0, log0) ==> can_undo(domains@, log@),
            record ==> undo(domains@, log@) == undo(d0, log0),
            *checks >= *old(checks),
        decreases snapshot.len() - p,
    {
        let i = snapshot[p];
        let ghost d = domains@;
        proof {
            assert(d[x.0 as int].wf());
            assert(d[y.0 as int].wf());
            assert(d[x.0 as int].order.contains(queue[p as int]));
            assert(d[x.0 as int].order[d[x.0 as int].order.index_of(i)] == i);
        }
        let vi = domains.value(x, i);
        let ys = domains.slots(y);
        let mut possible = false;
        let mut q: usize = 0;
        while q < ys.len() && !possible
            invariant
                domains.wf(),
                domains@ == d,
                x.0 < d.len(),
                y.0 < d.len(),
                fits(constraints, d),
                ys@ == d[y.0 as int].order,
                d[y.0 as int].wf(),
                q <= ys.len(),
                1 <= i < d[x.0 as int].nodes.len(),
                vi == d[x.0 as int].item(i as int),
                possible ==> supported(constraints, d, x, i, y),
                !possible ==> forall|k: int| 0 <= k < q ==> !supports(constraints, d, x, i, y, #[trigger] ys[k]),
                *checks >= *old(checks),
            decreases ys.len() - q + (if possible { 0int } else { 1int }),
        {
            let j = ys[q];
            assert(d[y.0 as int].order[q as int] == j);
            let vj = domains.value(y, j);
            if *checks < u32::MAX {
                *checks = *checks + 1;
            }
            if constraints.check((x, vi), (y, vj)) {
                possible = true;
                assert(d[y.0 as int].order.contains(j));
                assert(supports(constraints, d, x, i, y, j));
            } else {
                q = q + 1;
            }
        }
        proof {
            if !possible {
                assert forall|j: usize| d[y.0 as int].order.contains(j) implies !supports(
                    constraints,
                    d,
                    x,
                    i,
                    y,
                    j,
                ) by {
                    let k = d[y.0 as int].order.index_of(j);
                    assert(ys[k] == j);
                }
                assert(!supported(constraints, d, x, i, y));
            }
            assert(queue.skip(p as int)[0] == i);
            assert(queue.skip(p as int).drop_first() =~= queue.skip(p as int + 1));
            assert(revised(constraints, d, x, y, queue.skip(p as int)) == revised(
                constraints,
                if possible {
                    d
                } else {
                    d.update(x.0 as int, d[x.0 as int].unlink(i))
                },
                x,
                y,
                queue.skip(p as int + 1),
            ));
        }
        if !possible {
            proof {
                lemma_unlink_shrinks(d, x, i);
                d[x.0 as int].lemma_unlink_relink(i);
                lemma_log_removal(d, log@, x, i);
            }
            domains.remove(x, i);
            if record {
                log.push((x, i));
            }
            mutated = true;
            proof {
                lemma_shrinks_trans(d0, d, domains@);
                lemma_fits_shrinks(constraints, d, domains@);
                assert forall|k: int| p < k < queue.len() implies domains@[x.0 as int].order.contains(
                    #[trigger] queue[k],
                ) by {
                    assert(queue[k] != queue[p as int]);
                    assert(d[x.0 as int].order.contains(queue[k]));
                }
                assert(d[x.0 as int].order.len() <= d0[x.0 as int].order.len());
            }
            if domains.live(x) == 0 {
                proof {
                    if p + 1 < queue.len() {
                        assert(domains@[x.0 as int].order.contains(queue[p as int + 1]));
                    }
                    assert(queue.skip(p as int + 1).len() == 0);
                    assert(revised(constraints, domains@, x, y, queue.skip(p as int + 1)) == domains@);
                    assert(d0[x.0 as int].order.len() >= d[x.0 as int].order.len());
                    assert(d[x.0 as int].order.len() >= 1);
                }
                return None;
            }
        }
        p = p + 1;
    }
    proof {
        assert(queue.skip(p as int).len() == 0);
        if domains@[x.0 as int].order.len() == 0 && d0[x.0 as int].order.len() > 0 {
            // An emptied domain is reported at the removal that emptied it.
            assert(mutated);
        }
    }
    Some(mutated)
}

/// Revises the arc from `x` to `y`: the linked slots of `x` are taken in
/// link order, and a slot is unlinked when no slot linked in the domain of
/// `y` at that moment supports it. Answers `None` as soon as the domain of
/// `x` is empty, else whether any slot was unlinked.
pub fn revise<C: Constraints>(domains: &mut DomMap, constraints: &C, x: Variable, y: Variable) -> (r:
    Option<bool>)
    requires
        old(domains).wf(),
        x.0 < old(domains)@.len(),
        y.0 < old(domains)@.len(),
        fits(constraints, old(domains)@),
    ensures
        final(domains).wf(),
        final(domains)@ == revised(
            constraints,
            old(domains)@,
            x,
            y,
            old(domains)@[x.0 as int].order,
        ),
        r == outcome(
            old(domains)@[x.0 as int].order.len(),
            final(domains)@[x.0 as int].order.len(),
        ),
        r.is_none() <==> old(domains)@[x.0 as int].order.len() > 0 && final(domains)@[x.0 as int].order.len()
            == 0,
{
    let mut log: Vec<(Variable, usize)> = Vec::new();
    let mut checks: u32 = 0;
    revise_logged(domains, constraints, x, y, &mut log, false, &mut checks)
}

} // verus!
