//! The order in which the search takes the variables.

use vstd::prelude::*;
use crate::problem::Variable;

verus! {

/// `u` is taken before `v`: it has the larger domain, or an equal one and
/// the lower number.
pub open spec fn before(sizes: Seq<usize>, u: Variable, v: Variable) -> bool {
    sizes[u.0 as int] > sizes[v.0 as int] || (sizes[u.0 as int] == sizes[v.0 as int] && u.0 < v.0)
}

/// `vars` holds each of the variables 0 to `vars.len()` once; `place` says
/// where each stands.
pub open spec fn arranged(vars: Seq<Variable>, place: Seq<int>) -> bool {
    &&& place.len() == vars.len()
    &&& forall|k: int|
        0 <= k < vars.len() ==> (#[trigger] vars[k]).0 < vars.len() && place[vars[k].0 as int] == k
    &&& forall|x: int|
        0 <= x < vars.len() ==> 0 <= #[trigger] place[x] < vars.len() && vars[place[x]].0 == x
}

/// Every variable of `vars` is taken before those behind it.
pub open spec fn ordered(sizes: Seq<usize>, vars: Seq<Variable>, upto: int) -> bool {
    forall|a: int, b: int| 0 <= a < b < upto ==> before(sizes, #[trigger] vars[a], #[trigger] vars[b])
}

/// Whether `u` is taken before `v`.
pub fn is_before(sizes: &Vec<usize>, u: Variable, v: Variable) -> (r: bool)
    requires
        u.0 < sizes.len(),
        v.0 < sizes.len(),
    ensures
        r == before(sizes@, u, v),
{
    sizes[u.0] > sizes[v.0] || (sizes[u.0] == sizes[v.0] && u.0 < v.0)
}

/// Sorts the variables so that the one with the largest domain comes first,
/// and of two with equal domains the one with the lower number.
pub(crate) fn sort_variables(vars: &mut Vec<Variable>, sizes: &Vec<usize>, place: Ghost<Seq<int>>) -> (r: Ghost<
    Seq<int>,
>)
    requires
        arranged(old(vars)@, place@),
        sizes.len() == old(vars).len(),
    ensures
        arranged(final(vars)@, r@),
        final(vars).len() == old(vars).len(),
        ordered(sizes@, final(vars)@, final(vars).len() as int),
{
    let n = vars.len();
    let ghost mut pl = place@;
    let mut i: usize = 1;
    while i < n
        invariant
            1 <= i,
            vars.len() == n,
            sizes.len() == n,
            arranged(vars@, pl),
            ordered(sizes@, vars@, if i <= n { i as int } else { n as int }),
        decreases n - i,
    {
        let mut j: usize = i;
        while j > 0 && is_before(sizes, vars[j], vars[j - 1])
            invariant
                j <= i < n,
                vars.len() == n,
                sizes.len() == n,
                arranged(vars@, pl),
                forall|a: int, b: int|
                    0 <= a < b <= i && a != j && b != j ==> before(sizes@, #[trigger] vars[a], #[trigger] vars[b]),
                forall|b: int| j < b <= i ==> before(sizes@, vars[j as int], #[trigger] vars[b]),
            decreases j,
        {
            let ghost before_swap = vars@;
            let u = vars[j];
            let v = vars[j - 1];
            vars.set(j, v);
            vars.set(j - 1, u);
            proof {
                assert(u != v) by {
                    assert(pl[before_swap[j as int].0 as int] == j);
                    assert(pl[before_swap[j - 1].0 as int] == j - 1);
                }
                assert forall|k: int| 0 <= k < n && k != j && k != j - 1 implies (#[trigger] before_swap[k]).0
                    != u.0 && before_swap[k].0 != v.0 by {
                    assert(pl[before_swap[k].0 as int] == k);
                    assert(pl[before_swap[j as int].0 as int] == j);
                    assert(pl[before_swap[j - 1].0 as int] == j - 1);
                }
                pl = pl.update(u.0 as int, j - 1).update(v.0 as int, j as int);
                assert forall|k: int| 0 <= k < vars.len() implies (#[trigger] vars[k]).0 < vars.len() && pl[vars[k].0 as int]
                    == k by {
                    if k != j && k != j - 1 {
                        assert(vars[k] == before_swap[k]);
                        assert(before_swap[k].0 != u.0 && before_swap[k].0 != v.0);
                    }
                }
                assert forall|a: int, b: int|
                    0 <= a < b <= i && a != j - 1 && b != j - 1 implies before(
                    sizes@,
                    #[trigger] vars[a],
                    #[trigger] vars[b],
                ) by {
                    if a == j {
                        assert(before(sizes@, before_swap[j - 1], before_swap[b]));
                    } else if b == j {
                        assert(before(sizes@, before_swap[a], before_swap[j - 1]));
                    } else {
                        assert(before(sizes@, before_swap[a], before_swap[b]));
                    }
                }
                assert forall|b: int| j - 1 < b <= i implies before(sizes@, vars[j - 1], #[trigger] vars[b]) by {
                    if b == j {
                    } else {
                        assert(before(sizes@, before_swap[j as int], before_swap[b]));
                    }
                }
            }
            j = j - 1;
        }
        proof {
            assert forall|a: int, b: int| 0 <= a < b < i + 1 implies before(
                sizes@,
                #[trigger] vars[a],
                #[trigger] vars[b],
            ) by {
                if a == j {
                } else if b == j {
                    // vars[j] is not before vars[j - 1], and vars[a] is before
                    // or equal to vars[j - 1]
                    assert(j > 0);
                    assert(!before(sizes@, vars[j as int], vars[j - 1]));
                    assert(vars[j as int].0 != vars[j - 1].0) by {
                        assert(pl[vars[j as int].0 as int] == j);
                        assert(pl[vars[j - 1].0 as int] == j - 1);
                    }
                    if a != j - 1 {
                        assert(before(sizes@, vars[a], vars[j - 1]));
                    }
                }
            }
        }
        i = i + 1;
    }
    Ghost(pl)
}

} // verus!
