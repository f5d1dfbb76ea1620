//! The majority condition and the weak near-unanimity conditions of three
//! places or more: their classes fit the powers of every graph, so the
//! colouring problem built for one of them has a solution exactly where the
//! graph has such a polymorphism.

use vstd::prelude::*;
use crate::algebra::classes::{body, classes, row, rows, spread, spreads, Condition, Tag};
use crate::algebra::colourings::{
    classes_fit, lemma_level_filter, lemma_polymorphisms, lemma_power_of, lemma_powers, lemma_powers_vertices,
    levelled, polymorphism, sources, unlevelled_one,
};
use crate::algebra::indicator::{built, homogeneous, kept};
use crate::algebra::merging::disjoint;
use crate::algebra::metaproblem::{arities_of, MetaProblem};
use crate::digraph::AdjMatrix;
use crate::hcoloring::Instance;
use crate::problem::{is_solution, Value};

verus! {

/// The vertex that a class of such a condition holds at all places but one
/// of every tuple.
pub open spec fn major(c: Seq<Tag>) -> usize {
    c[1].1[0]
}

/// The vertex that a class of the majority condition holds once in every
/// tuple.
pub open spec fn minor(c: Seq<Tag>) -> usize {
    c[0].1[0]
}

/// `c` is the class of the tuples of length `n` that hold `y` at one place
/// and `x` at the others.
pub open spec fn is_class(n: nat, c: Seq<Tag>, x: usize, y: usize) -> bool {
    c == spreads(n, x, y) && x != y
}

/// The condition identifies the tuples of length `n` that hold one vertex
/// at all places but one: it is the majority condition, or the weak
/// near-unanimity condition of at least three places.
pub open spec fn spreading(c: Condition, n: nat) -> bool {
    match c {
        Condition::Majority => n == 3,
        Condition::Wnu(k) => k == n && n >= 3,
        _ => false,
    }
}

/// One of the first `upto` vertices is `y`.
pub open spec fn listed(vs: Seq<usize>, upto: int, y: usize) -> bool {
    exists|j: int| 0 <= j < upto && j < vs.len() && #[trigger] vs[j] == y
}

/// The classes of `x` are those of `x` with each other vertex, none twice.
pub proof fn lemma_row(c: Condition, n: nat, vs: Seq<usize>, x: usize, upto: int)
    requires
        spreading(c, n),
        vs.no_duplicates(),
        0 <= upto <= vs.len(),
    ensures
        forall|k: int|
            0 <= k < row(c, vs, x, upto).len() ==> is_class(
                n,
                #[trigger] row(c, vs, x, upto)[k],
                x,
                minor(row(c, vs, x, upto)[k]),
            ) && listed(vs, upto, minor(row(c, vs, x, upto)[k])),
        forall|k: int, l: int|
            0 <= k < l < row(c, vs, x, upto).len() ==> minor(
                #[trigger] row(c, vs, x, upto)[k],
            ) != minor(#[trigger] row(c, vs, x, upto)[l]),
    decreases upto,
{
    if upto > 0 {
        lemma_row(c, n, vs, x, upto - 1);
        let before = row(c, vs, x, upto - 1);
        let all = row(c, vs, x, upto);
        let y = vs[upto - 1];
        let more = body(c, vs, x, y);
        assert(all == before + more);
        assert(minor(spreads(n, x, y)) == y);
        assert(major(spreads(n, x, y)) == x);
        assert forall|k: int| 0 <= k < all.len() implies is_class(n, #[trigger] all[k], x, minor(all[k])) && listed(
            vs,
            upto,
            minor(all[k]),
        ) by {
            if k < before.len() {
                assert(all[k] == before[k]);
                let j = choose|j: int| 0 <= j < upto - 1 && j < vs.len() && #[trigger] vs[j] == minor(before[k]);
                assert(vs[j] == minor(all[k]));
            } else {
                assert(all[k] == more[k - before.len()]);
                assert(vs[upto - 1] == minor(all[k]));
            }
        }
        assert forall|k: int, l: int| 0 <= k < l < all.len() implies minor(#[trigger] all[k]) != minor(
            #[trigger] all[l],
        ) by {
            if l < before.len() {
                assert(all[k] == before[k] && all[l] == before[l]);
            } else {
                assert(all[k] == before[k]);
                assert(all[l] == more[l - before.len()]);
                let j = choose|j: int| 0 <= j < upto - 1 && j < vs.len() && #[trigger] vs[j] == minor(before[k]);
            }
        }
    }
}

/// The classes of such a condition are those of each vertex with each
/// other vertex, none twice.
pub proof fn lemma_rows(c: Condition, n: nat, vs: Seq<usize>, upto: int)
    requires
        spreading(c, n),
        vs.no_duplicates(),
        0 <= upto <= vs.len(),
    ensures
        forall|k: int|
            0 <= k < rows(c, vs, upto).len() ==> is_class(
                n,
                #[trigger] rows(c, vs, upto)[k],
                major(rows(c, vs, upto)[k]),
                minor(rows(c, vs, upto)[k]),
            ) && listed(vs, upto, major(rows(c, vs, upto)[k])),
        forall|k: int, l: int|
            0 <= k < l < rows(c, vs, upto).len() ==> major(
                #[trigger] rows(c, vs, upto)[k],
            ) != major(#[trigger] rows(c, vs, upto)[l]) || minor(
                rows(c, vs, upto)[k],
            ) != minor(rows(c, vs, upto)[l]),
    decreases upto,
{
    if upto > 0 {
        lemma_rows(c, n, vs, upto - 1);
        let x = vs[upto - 1];
        lemma_row(c, n, vs, x, vs.len() as int);
        let before = rows(c, vs, upto - 1);
        let more = row(c, vs, x, vs.len() as int);
        let all = rows(c, vs, upto);
        assert(all =~= before + more);
        assert forall|k: int| 0 <= k < more.len() implies major(#[trigger] more[k]) == x by {
            assert(is_class(n, more[k], x, minor(more[k])));
        }
        assert forall|k: int| 0 <= k < all.len() implies is_class(n, #[trigger] all[k], major(all[k]), minor(all[k]))
            && listed(vs, upto, major(all[k])) by {
            if k < before.len() {
                assert(all[k] == before[k]);
                let j = choose|j: int| 0 <= j < upto - 1 && j < vs.len() && #[trigger] vs[j] == major(before[k]);
                assert(vs[j] == major(all[k]));
            } else {
                assert(all[k] == more[k - before.len()]);
                assert(vs[upto - 1] == major(all[k]));
            }
        }
        assert forall|k: int, l: int| 0 <= k < l < all.len() implies major(#[trigger] all[k]) != major(
            #[trigger] all[l],
        ) || minor(all[k]) != minor(all[l]) by {
            if l < before.len() {
                assert(all[k] == before[k] && all[l] == before[l]);
            } else if k < before.len() {
                assert(all[k] == before[k]);
                assert(all[l] == more[l - before.len()]);
                let j = choose|j: int| 0 <= j < upto - 1 && j < vs.len() && #[trigger] vs[j] == major(before[k]);
            } else {
                assert(all[k] == more[k - before.len()]);
                assert(all[l] == more[l - before.len()]);
            }
        }
    }
}

/// A tuple that holds one vertex at all places but one, and another there,
/// is in the class of these two vertices only.
pub proof fn lemma_one_class(n: nat, x: usize, y: usize, j: int, a: usize, b: usize, i: int)
    requires
        n >= 3,
        x != y,
        a != b,
        0 <= j < n,
        0 <= i < n,
        spreads(n, x, y)[j] == spreads(n, a, b)[i],
    ensures
        x == a,
        y == b,
{
    let s = spread(n, x, y, j);
    let t = spread(n, a, b, i);
    assert(s == t);
    let w: int = if i != 0 && j != 0 {
        0
    } else if i != 1 && j != 1 {
        1
    } else {
        2
    };
    assert(s[w] == t[w]);
    assert(s[j] == t[j]);
    assert(s[i] == t[i]);
}

/// No term is in two classes of such a condition.
pub proof fn lemma_spreading_disjoint(c: Condition, n: nat, vs: Seq<usize>)
    requires
        spreading(c, n),
        vs.no_duplicates(),
    ensures
        disjoint(classes(c, vs)),
{
    let cs = classes(c, vs);
    lemma_rows(c, n, vs, vs.len() as int);
    assert forall|k: int, j: int, l: int, i: int|
        0 <= k < cs.len() && 0 <= l < cs.len() && k != l && 0 <= j < cs[k].len() && 0 <= i < cs[l].len() implies #[trigger] cs[k][j]
        != #[trigger] cs[l][i] by {
        assert(is_class(n, cs[k], major(cs[k]), minor(cs[k])));
        assert(is_class(n, cs[l], major(cs[l]), minor(cs[l])));
        if cs[k][j] == cs[l][i] {
            lemma_one_class(n, major(cs[k]), minor(cs[k]), j, major(cs[l]), minor(cs[l]), i);
            if k < l {
                assert(major(cs[k]) != major(cs[l]) || minor(cs[k]) != minor(cs[l]));
            } else {
                assert(major(cs[l]) != major(cs[k]) || minor(cs[l]) != minor(cs[k]));
            }
        }
    }
}

/// The place that changes places with place 0 where `j` does.
pub open spec fn swapped(j: int, i: int) -> int {
    if i == 0 {
        j
    } else if i == j {
        0
    } else {
        i
    }
}

/// Where a tuple with `y` at one place and `x` at the others is a term of
/// the powers of a graph, the first tuple of its class is one.
pub proof fn lemma_spread_present(
    m: MetaProblem,
    h: &AdjMatrix,
    levels: Seq<usize>,
    n: nat,
    x: usize,
    y: usize,
    j: int,
)
    requires
        spreading(m.condition, n),
        0 <= j < n,
        sources(m, h, levels).v.contains(spreads(n, x, y)[j]),
    ensures
        sources(m, h, levels).v.contains(spreads(n, x, y)[0]),
{
    let p = sources(m, h, levels);
    let ar = arities_of(m.condition);
    let edges = h.arrows();
    assert(ar =~= seq![n as usize]);
    lemma_powers(edges, ar, m.level_wise, levels, 1);
    lemma_powers_vertices(edges, ar, m.level_wise, levels, 1, spreads(n, x, y)[j]);
    let t = spread(n, x, y, j);
    let s = spread(n, x, y, 0);
    let k = choose|k: int| 0 <= k < p.e.len() && ((#[trigger] p.e[k]).0 == (0usize, t) || p.e[k].1 == (0usize, t));
    let c = p.e[k].0;
    let d = p.e[k].1;
    assert(p.e.contains((c, d)));
    lemma_power_of(edges, n, c.1, d.1);
    assert forall|i: int| 0 <= i < n implies s[i] == t[swapped(j, i)] by {}
    if c == (0usize, t) {
        let u = Seq::new(n, |i: int| d.1[swapped(j, i)]);
        assert forall|i: int| 0 <= i < n implies edges.contains((#[trigger] s[i], u[i])) by {
            assert(edges.contains((t[swapped(j, i)], d.1[swapped(j, i)])));
        }
        lemma_power_of(edges, n, s, u);
        assert(kept(m.level_wise, levels, (s, u))) by {
            if m.level_wise {
                assert(homogeneous(t, levels));
                assert forall|i: int| 0 <= i < s.len() implies levels[#[trigger] s[i] as int] == levels[s[0] as int] by {
                    assert(levels[t[swapped(j, i)] as int] == levels[t[0] as int]);
                    assert(levels[t[swapped(j, 0)] as int] == levels[t[0] as int]);
                }
            }
        }
        assert(p.e.contains(((0usize, s), (0usize, u))));
    } else {
        let u = Seq::new(n, |i: int| c.1[swapped(j, i)]);
        assert forall|i: int| 0 <= i < n implies edges.contains((#[trigger] u[i], s[i])) by {
            assert(edges.contains((c.1[swapped(j, i)], t[swapped(j, i)])));
        }
        lemma_power_of(edges, n, u, s);
        assert(kept(m.level_wise, levels, (u, s))) by {
            if m.level_wise {
                assert(homogeneous(c.1, levels));
                assert forall|i: int| 0 <= i < u.len() implies levels[#[trigger] u[i] as int] == levels[u[0] as int] by {
                    assert(levels[c.1[swapped(j, i)] as int] == levels[c.1[0] as int]);
                    assert(levels[c.1[swapped(j, 0)] as int] == levels[c.1[0] as int]);
                }
            }
        }
        assert(p.e.contains(((0usize, u), (0usize, s))));
    }
}

/// The classes of such a condition fit the powers of every graph.
pub proof fn lemma_spreading_fits(m: MetaProblem, h: &AdjMatrix, levels: Seq<usize>, n: nat)
    requires
        spreading(m.condition, n),
        h.order() <= usize::MAX,
    ensures
        classes_fit(m, h, levels),
{
    let vs = Seq::new(h.order(), |k: int| k as usize);
    let cs = classes(m.condition, vs);
    assert(vs.no_duplicates());
    lemma_spreading_disjoint(m.condition, n, vs);
    lemma_rows(m.condition, n, vs, vs.len() as int);
    assert forall|k: int, j: int|
        0 <= k < cs.len() && 0 <= j < cs[k].len() && sources(m, h, levels).v.contains(#[trigger] cs[k][j]) implies sources(
        m,
        h,
        levels,
    ).v.contains(cs[k][0]) by {
        assert(is_class(n, cs[k], major(cs[k]), minor(cs[k])));
        lemma_spread_present(m, h, levels, n, major(cs[k]), minor(cs[k]), j);
    }
}

/// The colouring problem built for the majority condition has a solution
/// exactly where the graph has a majority polymorphism.
pub proof fn lemma_majority(m: MetaProblem, h: &AdjMatrix, levels: Seq<usize>, inst: Instance)
    requires
        m.condition == Condition::Majority,
        h.order() <= usize::MAX,
        built(m, h, levels, Ok(inst)),
    ensures
        (exists|s: Seq<Value>| is_solution(&inst, s)) == (exists|f: spec_fn(Tag) -> usize|
            polymorphism(m, h, levels, f)),
{
    lemma_spreading_fits(m, h, levels, 3);
    lemma_polymorphisms(m, h, levels, inst);
}

/// The colouring problem built for the weak near-unanimity condition of
/// three places or more has a solution exactly where the graph has a weak
/// near-unanimity polymorphism of that many places.
pub proof fn lemma_weak_near_unanimity(m: MetaProblem, h: &AdjMatrix, levels: Seq<usize>, inst: Instance, k: usize)
    requires
        m.condition == Condition::Wnu(k),
        k >= 3,
        h.order() <= usize::MAX,
        built(m, h, levels, Ok(inst)),
    ensures
        (exists|s: Seq<Value>| is_solution(&inst, s)) == (exists|f: spec_fn(Tag) -> usize|
            polymorphism(m, h, levels, f)),
{
    lemma_spreading_fits(m, h, levels, k as nat);
    lemma_polymorphisms(m, h, levels, inst);
}

/// For such a condition the level filter loses no polymorphism: where the
/// problem built without the filter has a solution, the problem built with
/// it has one.
pub proof fn lemma_filter_keeps(
    m: MetaProblem,
    h: &AdjMatrix,
    levels: Seq<usize>,
    n: nat,
    with: Instance,
    without: Instance,
)
    requires
        spreading(m.condition, n),
        h.order() <= usize::MAX,
        built(levelled(m), h, levels, Ok(with)),
        built(unlevelled_one(m), h, Seq::empty(), Ok(without)),
        exists|s: Seq<Value>| is_solution(&without, s),
    ensures
        exists|s: Seq<Value>| is_solution(&with, s),
{
    let free = Seq::<usize>::empty();
    lemma_spreading_fits(levelled(m), h, levels, n);
    lemma_spreading_fits(unlevelled_one(m), h, free, n);
    lemma_polymorphisms(unlevelled_one(m), h, free, without);
    lemma_polymorphisms(levelled(m), h, levels, with);
    let f = choose|f: spec_fn(Tag) -> usize| polymorphism(unlevelled_one(m), h, free, f);
    lemma_level_filter(m, h, levels, free, f);
}

} // verus!
