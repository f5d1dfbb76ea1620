//! What the solutions of the colouring problem of a condition are: the
//! colourings of the terms of the powers of the graph that keep the edges of
//! the powers, give contracted terms one colour, and take the colour of each
//! remaining term from its list.

use vstd::prelude::*;
use crate::algebra::adj_map::{lemma_place, Quiver};
use crate::algebra::classes::{classes, length_ok, Tag};
use crate::algebra::indicator::{built, indicator, kept, list_for, power_of, powers, renumbered, sown, unbalanced};
use crate::algebra::merging::{
    classed, disjoint, folded, lemma_constant_on_classes, lemma_quotient, lemma_quotient_class, lemma_quotient_leaves,
    lemma_tidy_empty, lemma_tidy_with_edge, quotient_to, tidy,
};
use crate::algebra::metaproblem::{arities_of, Error, MetaProblem};
use crate::digraph::levels::{least_levels, unlevelled};
use crate::digraph::AdjMatrix;
use crate::solver::BTSolver;
use crate::hcoloring::Instance;
use crate::problem::{is_solution, Constraints, Domains, Value, Variable};

verus! {

/// One of the first `upto` edges of the power `p` is kept and leads, under
/// the operation `f`, from the term `x` to the term `y`.
pub open spec fn sown_edge(
    f: usize,
    p: Seq<(Seq<usize>, Seq<usize>)>,
    level_wise: bool,
    levels: Seq<usize>,
    upto: int,
    x: Tag,
    y: Tag,
) -> bool {
    exists|k: int|
        0 <= k < upto && k < p.len() && kept(level_wise, levels, #[trigger] p[k]) && x == (f, p[k].0) && y == (
            f,
            p[k].1,
        )
}

/// Sowing the edges of a power into a tidy graph leaves a tidy graph with
/// these edges more.
pub proof fn lemma_sown(
    q: Quiver,
    f: usize,
    p: Seq<(Seq<usize>, Seq<usize>)>,
    level_wise: bool,
    levels: Seq<usize>,
    upto: int,
)
    requires
        tidy(q),
        0 <= upto <= p.len(),
    ensures
        tidy(sown(q, f, p, level_wise, levels, upto)),
        forall|x: Tag, y: Tag| #[trigger]
            sown(q, f, p, level_wise, levels, upto).e.contains((x, y)) == (q.e.contains((x, y)) || sown_edge(
                f,
                p,
                level_wise,
                levels,
                upto,
                x,
                y,
            )),
    decreases upto,
{
    if upto > 0 {
        lemma_sown(q, f, p, level_wise, levels, upto - 1);
        let g = sown(q, f, p, level_wise, levels, upto - 1);
        let h = sown(q, f, p, level_wise, levels, upto);
        let a = (f, p[upto - 1].0);
        let b = (f, p[upto - 1].1);
        if kept(level_wise, levels, p[upto - 1]) {
            lemma_tidy_with_edge(g, a, b);
        }
        assert forall|x: Tag, y: Tag| #[trigger] h.e.contains((x, y)) == (q.e.contains((x, y)) || sown_edge(
            f,
            p,
            level_wise,
            levels,
            upto,
            x,
            y,
        )) by {
            assert(g.e.contains((x, y)) == (q.e.contains((x, y)) || sown_edge(
                f,
                p,
                level_wise,
                levels,
                upto - 1,
                x,
                y,
            )));
            if sown_edge(f, p, level_wise, levels, upto, x, y) {
                let k = choose|k: int|
                    0 <= k < upto && k < p.len() && kept(level_wise, levels, #[trigger] p[k]) && x == (f, p[k].0) && y
                        == (f, p[k].1);
                if k < upto - 1 {
                    assert(sown_edge(f, p, level_wise, levels, upto - 1, x, y));
                }
            }
            if sown_edge(f, p, level_wise, levels, upto - 1, x, y) {
                let k = choose|k: int|
                    0 <= k < upto - 1 && k < p.len() && kept(level_wise, levels, #[trigger] p[k]) && x == (f, p[k].0)
                        && y == (f, p[k].1);
                assert(kept(level_wise, levels, p[k]) && x == (f, p[k].0) && y == (f, p[k].1));
            }
            if kept(level_wise, levels, p[upto - 1]) && x == a && y == b {
                assert(kept(level_wise, levels, p[upto - 1]) && x == (f, p[upto - 1].0) && y == (f, p[upto - 1].1));
            }
        }
    } else {
        assert forall|x: Tag, y: Tag| !sown_edge(f, p, level_wise, levels, 0, x, y) by {}
    }
}

/// An edge of the power of one of the first `upto` operations that is kept
/// leads from the term `x` to the term `y`.
pub open spec fn power_edge(
    edges: Seq<(usize, usize)>,
    ar: Seq<usize>,
    level_wise: bool,
    levels: Seq<usize>,
    upto: int,
    x: Tag,
    y: Tag,
) -> bool {
    &&& x.0 == y.0
    &&& x.0 < upto
    &&& x.0 < ar.len()
    &&& power_of(edges, ar[x.0 as int] as nat).contains((x.1, y.1))
    &&& kept(level_wise, levels, (x.1, y.1))
}

/// The graph of the powers is tidy, and its edges are the kept edges of the
/// powers, each under its operation.
pub proof fn lemma_powers(edges: Seq<(usize, usize)>, ar: Seq<usize>, level_wise: bool, levels: Seq<usize>, upto: int)
    requires
        0 <= upto <= ar.len(),
        ar.len() <= usize::MAX,
    ensures
        tidy(powers(edges, ar, level_wise, levels, upto)),
        forall|x: Tag, y: Tag| #[trigger]
            powers(edges, ar, level_wise, levels, upto).e.contains((x, y)) == power_edge(
                edges,
                ar,
                level_wise,
                levels,
                upto,
                x,
                y,
            ),
    decreases upto,
{
    if upto <= 0 {
        lemma_tidy_empty();
        assert(powers(edges, ar, level_wise, levels, upto).e =~= Seq::empty());
    } else {
        lemma_powers(edges, ar, level_wise, levels, upto - 1);
        let g = powers(edges, ar, level_wise, levels, upto - 1);
        let f = (upto - 1) as usize;
        let p = power_of(edges, ar[upto - 1] as nat);
        lemma_sown(g, f, p, level_wise, levels, p.len() as int);
        let h = powers(edges, ar, level_wise, levels, upto);
        assert forall|x: Tag, y: Tag| #[trigger] h.e.contains((x, y)) == power_edge(
            edges,
            ar,
            level_wise,
            levels,
            upto,
            x,
            y,
        ) by {
            assert(g.e.contains((x, y)) == power_edge(edges, ar, level_wise, levels, upto - 1, x, y));
            if sown_edge(f, p, level_wise, levels, p.len() as int, x, y) {
                let k = choose|k: int|
                    0 <= k < p.len() && k < p.len() && kept(level_wise, levels, #[trigger] p[k]) && x == (f, p[k].0)
                        && y == (f, p[k].1);
                assert(p.contains(p[k]));
                assert(p[k] == (x.1, y.1));
            }
            if power_edge(edges, ar, level_wise, levels, upto, x, y) && x.0 == f {
                let k = p.index_of((x.1, y.1));
                assert(p[k] == (x.1, y.1));
                assert(kept(level_wise, levels, p[k]) && x == (f, p[k].0) && y == (f, p[k].1));
            }
        }
    }
}

/// The edges of a power are the pairs of tuples of its length that are
/// joined place by place.
pub proof fn lemma_power_of(edges: Seq<(usize, usize)>, n: nat, u: Seq<usize>, v: Seq<usize>)
    ensures
        power_of(edges, n).contains((u, v)) == (u.len() == n && v.len() == n && forall|i: int|
            0 <= i < n ==> edges.contains((#[trigger] u[i], v[i]))),
    decreases n,
{
    let p = power_of(edges, n);
    if n == 0 {
        assert(p[0] == (Seq::<usize>::empty(), Seq::<usize>::empty()));
        if u.len() == 0 && v.len() == 0 {
            assert(u =~= Seq::<usize>::empty());
            assert(v =~= Seq::<usize>::empty());
            assert(p[0] == (u, v));
        }
        if p.contains((u, v)) {
            let k = p.index_of((u, v));
            assert(p[k] == (u, v));
        }
    } else {
        let acc = power_of(edges, (n - 1) as nat);
        let m = edges.len() as int;
        if p.contains((u, v)) {
            let k = p.index_of((u, v));
            assert(p[k] == (u, v));
            assert(m > 0) by (nonlinear_arith)
                requires
                    0 <= k < acc.len() * m,
                    0 <= m,
            ;
            let a = k / m;
            let b = k % m;
            assert(0 <= a < acc.len() && 0 <= b < m) by (nonlinear_arith)
                requires
                    0 <= k < acc.len() * m,
                    0 < m,
                    a == k / m,
                    b == k % m,
            ;
            assert(acc.contains(acc[a]));
            lemma_power_of(edges, (n - 1) as nat, acc[a].0, acc[a].1);
            assert(u == acc[a].0.push(edges[b].0));
            assert(v == acc[a].1.push(edges[b].1));
            assert forall|i: int| 0 <= i < n implies edges.contains((#[trigger] u[i], v[i])) by {
                if i < n - 1 {
                    assert(u[i] == acc[a].0[i]);
                } else {
                    assert(edges[b] == (u[i], v[i]));
                }
            }
        }
        if u.len() == n && v.len() == n && forall|i: int| 0 <= i < n ==> edges.contains((#[trigger] u[i], v[i])) {
            let u0 = u.drop_last();
            let v0 = v.drop_last();
            lemma_power_of(edges, (n - 1) as nat, u0, v0);
            assert forall|i: int| 0 <= i < n - 1 implies edges.contains((#[trigger] u0[i], v0[i])) by {
                assert(edges.contains((u[i], v[i])));
            }
            let a = acc.index_of((u0, v0));
            assert(edges.contains((u[n - 1], v[n - 1])));
            let b = edges.index_of((u[n - 1], v[n - 1]));
            let k = a * m + b;
            vstd::arithmetic::div_mod::lemma_fundamental_div_mod_converse(k, m, a, b);
            assert(0 <= k < acc.len() * m) by (nonlinear_arith)
                requires
                    0 <= a < acc.len(),
                    0 <= b < m,
                    k == a * m + b,
            ;
            assert(p[k].0 =~= u);
            assert(p[k].1 =~= v);
            assert(p[k] == (u, v));
        }
    }
}

/// Whether `x` is an end of one of the edges.
pub open spec fn is_end(e: Seq<(Tag, Tag)>, x: Tag) -> bool {
    exists|k: int| 0 <= k < e.len() && ((#[trigger] e[k]).0 == x || e[k].1 == x)
}

/// An end of an edge that the edges hold is an end of one of the edges.
pub proof fn lemma_is_end(e: Seq<(Tag, Tag)>, x: Tag, y: Tag)
    requires
        e.contains((x, y)),
    ensures
        is_end(e, x),
        is_end(e, y),
{
    let k = e.index_of((x, y));
    assert(e[k].0 == x && e[k].1 == y);
}

/// Every vertex of a sown graph was a vertex before or is an end of one of
/// its edges.
pub proof fn lemma_sown_vertices(
    q: Quiver,
    f: usize,
    p: Seq<(Seq<usize>, Seq<usize>)>,
    level_wise: bool,
    levels: Seq<usize>,
    upto: int,
    x: Tag,
)
    requires
        tidy(q),
        0 <= upto <= p.len(),
        sown(q, f, p, level_wise, levels, upto).v.contains(x),
    ensures
        q.v.contains(x) || is_end(sown(q, f, p, level_wise, levels, upto).e, x),
    decreases upto,
{
    if upto > 0 {
        let g = sown(q, f, p, level_wise, levels, upto - 1);
        let h = sown(q, f, p, level_wise, levels, upto);
        lemma_sown(q, f, p, level_wise, levels, upto - 1);
        let a = (f, p[upto - 1].0);
        let b = (f, p[upto - 1].1);
        if kept(level_wise, levels, p[upto - 1]) {
            assert(h == g.with_edge(a, b));
            lemma_tidy_with_edge(g, a, b);
            assert(h.e.contains((a, b)));
            lemma_is_end(h.e, a, b);
        } else {
            assert(h == g);
        }
        if g.v.contains(x) {
            lemma_sown_vertices(q, f, p, level_wise, levels, upto - 1, x);
            if !q.v.contains(x) {
                let k = choose|k: int| 0 <= k < g.e.len() && ((#[trigger] g.e[k]).0 == x || g.e[k].1 == x);
                let c = g.e[k].0;
                let d = g.e[k].1;
                assert(g.e.contains((c, d)));
                assert(h.e.contains((c, d)));
                lemma_is_end(h.e, c, d);
            }
        }
    }
}

/// Every vertex of the graph of the powers is an end of one of its edges.
pub proof fn lemma_powers_vertices(
    edges: Seq<(usize, usize)>,
    ar: Seq<usize>,
    level_wise: bool,
    levels: Seq<usize>,
    upto: int,
    x: Tag,
)
    requires
        0 <= upto <= ar.len(),
        ar.len() <= usize::MAX,
        powers(edges, ar, level_wise, levels, upto).v.contains(x),
    ensures
        is_end(powers(edges, ar, level_wise, levels, upto).e, x),
    decreases upto,
{
    if upto > 0 {
        let g = powers(edges, ar, level_wise, levels, upto - 1);
        let h = powers(edges, ar, level_wise, levels, upto);
        let f = (upto - 1) as usize;
        let p = power_of(edges, ar[upto - 1] as nat);
        lemma_powers(edges, ar, level_wise, levels, upto - 1);
        lemma_sown(g, f, p, level_wise, levels, p.len() as int);
        lemma_sown_vertices(g, f, p, level_wise, levels, p.len() as int, x);
        if g.v.contains(x) {
            lemma_powers_vertices(edges, ar, level_wise, levels, upto - 1, x);
            let k = choose|k: int| 0 <= k < g.e.len() && ((#[trigger] g.e[k]).0 == x || g.e[k].1 == x);
            let c = g.e[k].0;
            let d = g.e[k].1;
            assert(g.e.contains((c, d)));
            assert(h.e.contains((c, d)));
            lemma_is_end(h.e, c, d);
        }
    } else {
        assert(powers(edges, ar, level_wise, levels, upto).v =~= Seq::empty());
    }
}

/// The edges of a tidy graph, renumbered, are as many as its edges, and
/// each joins the places of the ends of its edge.
pub proof fn lemma_renumbered(q: Quiver, upto: int)
    requires
        tidy(q),
        0 <= upto <= q.e.len(),
    ensures
        renumbered(q, upto).len() == upto,
        forall|k: int|
            0 <= k < upto ==> #[trigger] renumbered(q, upto)[k] == (
                q.v.index_of(q.e[k].0) as usize,
                q.v.index_of(q.e[k].1) as usize,
            ),
    decreases upto,
{
    if upto > 0 {
        lemma_renumbered(q, upto - 1);
        let e = q.e[upto - 1];
        assert(q.e.contains((e.0, e.1)));
    }
}

/// In the problem built from a tidy graph with fewer vertices than a
/// `usize` counts, two places are joined exactly where their vertices are.
pub proof fn lemma_renumbered_edges(q: Quiver, i: usize, j: usize)
    requires
        tidy(q),
        q.v.len() <= usize::MAX,
        i < q.v.len(),
        j < q.v.len(),
    ensures
        renumbered(q, q.e.len() as int).contains((i, j)) == q.e.contains((q.v[i as int], q.v[j as int])),
{
    let r = renumbered(q, q.e.len() as int);
    lemma_renumbered(q, q.e.len() as int);
    lemma_place(q.v, i as int);
    lemma_place(q.v, j as int);
    if r.contains((i, j)) {
        let k = r.index_of((i, j));
        assert(r[k] == (i, j));
        let e = q.e[k];
        assert(q.e.contains((e.0, e.1)));
        assert(q.v[q.v.index_of(e.0)] == e.0);
        assert(q.v[q.v.index_of(e.1)] == e.1);
        assert(q.e[k] == (q.v[i as int], q.v[j as int]));
    }
    if q.e.contains((q.v[i as int], q.v[j as int])) {
        let k = q.e.index_of((q.v[i as int], q.v[j as int]));
        assert(r[k] == (i, j));
    }
}

/// The graph of the powers from which the problem of `m` for the graph `h`
/// is built.
pub open spec fn sources(m: MetaProblem, h: &AdjMatrix, levels: Seq<usize>) -> Quiver {
    powers(h.arrows(), arities_of(m.condition), m.level_wise, levels, arities_of(m.condition).len() as int)
}

/// The term of the indicator graph into which the term `x` of the powers
/// was contracted.
pub open spec fn stands_for(m: MetaProblem, h: &AdjMatrix, levels: Seq<usize>, x: Tag) -> Tag {
    let cs = classes(m.condition, Seq::new(h.order(), |k: int| k as usize));
    quotient_to(sources(m, h, levels), cs, cs.len() as int, x)
}

/// The indicator graph is the graph of the powers, folded along
/// `stands_for`.
pub proof fn lemma_indicator(m: MetaProblem, h: &AdjMatrix, levels: Seq<usize>)
    requires
        length_ok(m.condition),
    ensures
        folded(
            sources(m, h, levels),
            indicator(m.condition, h.order(), h.arrows(), m.level_wise, levels),
            |x: Tag| stands_for(m, h, levels, x),
        ),
{
    let ar = arities_of(m.condition);
    let cs = classes(m.condition, Seq::new(h.order(), |k: int| k as usize));
    lemma_powers(h.arrows(), ar, m.level_wise, levels, ar.len() as int);
    lemma_quotient(sources(m, h, levels), cs, cs.len() as int);
    let to = |x: Tag| stands_for(m, h, levels, x);
    let via = |x: Tag| quotient_to(sources(m, h, levels), cs, cs.len() as int, x);
    assert forall|x: Tag| #[trigger] to(x) == via(x) by {}
    let q = sources(m, h, levels);
    let g = indicator(m.condition, h.order(), h.arrows(), m.level_wise, levels);
    assert(folded(q, g, via));
    assert forall|a: Tag, b: Tag| #[trigger] g.e.contains((a, b)) implies exists|c: Tag, d: Tag| #[trigger]
        q.e.contains((c, d)) && to(c) == a && to(d) == b by {
        let (c, d) = choose|c: Tag, d: Tag| #[trigger] q.e.contains((c, d)) && via(c) == a && via(d) == b;
        assert(q.e.contains((c, d)) && to(c) == a && to(d) == b);
    }
    assert forall|x: Tag| #[trigger] g.v.contains(x) implies q.v.contains(x) && to(x) == x by {
        assert(via(x) == x);
    }
    assert forall|x: Tag| #[trigger] q.v.contains(x) implies g.v.contains(to(x)) by {
        assert(g.v.contains(via(x)));
    }
    assert forall|a: Tag, b: Tag| #[trigger] q.e.contains((a, b)) implies g.e.contains((to(a), to(b))) by {
        assert(g.e.contains((via(a), via(b))));
    }
}

/// The colour that the valuation `s` of the vertices of the indicator graph
/// gives the term `x` of the powers: that of the term that stands for it.
pub open spec fn colour(m: MetaProblem, h: &AdjMatrix, levels: Seq<usize>, s: Seq<Value>, x: Tag) -> usize {
    let q = indicator(m.condition, h.order(), h.arrows(), m.level_wise, levels);
    s[q.v.index_of(stands_for(m, h, levels, x))].0
}

/// The colouring `f` of the terms is one that the problem of `m` for the
/// graph `h` asks for: every kept edge of a power leads from a colour to a
/// colour that the graph joins, every term of the powers has the colour of
/// the term that stands for it, and the colour of every vertex of the
/// indicator graph is in the list of its term.
pub open spec fn respects(m: MetaProblem, h: &AdjMatrix, levels: Seq<usize>, f: spec_fn(Tag) -> usize) -> bool {
    let q = indicator(m.condition, h.order(), h.arrows(), m.level_wise, levels);
    &&& forall|a: Tag, b: Tag| #[trigger] sources(m, h, levels).e.contains((a, b)) ==> h.arrows().contains((f(a), f(b)))
    &&& forall|x: Tag| #[trigger] sources(m, h, levels).v.contains(x) ==> f(stands_for(m, h, levels, x)) == f(x)
    &&& forall|i: int| 0 <= i < q.v.len() ==> list_for(m, h.order(), #[trigger] q.v[i]).contains(f(q.v[i]))
}

/// A solution of the problem built for a condition colours the terms of
/// the powers so that every kept edge of a power leads from a colour to a
/// colour that the graph joins, and it takes the colour of every vertex of
/// the indicator graph from the list of its term. Terms that were
/// contracted into one have one colour, that of the term that stands for
/// them.
pub proof fn lemma_solution_colours(
    m: MetaProblem,
    h: &AdjMatrix,
    levels: Seq<usize>,
    inst: Instance,
    s: Seq<Value>,
)
    requires
        length_ok(m.condition),
        built(m, h, levels, Ok(inst)),
        is_solution(&inst, s),
    ensures
        forall|a: Tag, b: Tag| #[trigger]
            sources(m, h, levels).e.contains((a, b)) ==> h.arrows().contains(
                (colour(m, h, levels, s, a), colour(m, h, levels, s, b)),
            ),
        forall|i: int|
            0 <= i < s.len() ==> list_for(
                m,
                h.order(),
                indicator(m.condition, h.order(), h.arrows(), m.level_wise, levels).v[i],
            ).contains((#[trigger] s[i]).0),
        respects(m, h, levels, |x: Tag| colour(m, h, levels, s, x)),
{
    let p = sources(m, h, levels);
    let q = indicator(m.condition, h.order(), h.arrows(), m.level_wise, levels);
    lemma_indicator(m, h, levels);
    lemma_renumbered(q, q.e.len() as int);
    assert(q.v.len() <= usize::MAX) by (nonlinear_arith)
        requires
            q.v.len() * q.v.len() <= usize::MAX,
    ;
    assert forall|a: Tag, b: Tag| #[trigger] p.e.contains((a, b)) implies h.arrows().contains(
        (colour(m, h, levels, s, a), colour(m, h, levels, s, b)),
    ) by {
        let x = stands_for(m, h, levels, a);
        let y = stands_for(m, h, levels, b);
        assert(q.e.contains((x, y)));
        assert(q.v.contains(x) && q.v.contains(y));
        let i = q.v.index_of(x) as usize;
        let j = q.v.index_of(y) as usize;
        lemma_renumbered_edges(q, i, j);
        let r = inst.source().arrows();
        assert(r.contains((i, j)));
        let k = r.index_of((i, j));
        assert(inst.spec_arcs()[2 * k] == (Variable(i), Variable(j)));
    }
    assert forall|i: int| 0 <= i < s.len() implies list_for(m, h.order(), q.v[i]).contains((#[trigger] s[i]).0) by {
        let list = list_for(m, h.order(), q.v[i]);
        assert(inst.lists()[i] == list);
        let dom = inst.spec_domain(Variable(i as usize));
        assert(dom.contains(s[i as usize as int]));
        let k = dom.index_of(s[i]);
        assert(dom[k] == Value(list[k]));
        assert(list[k] == s[i].0);
    }
    let f = |x: Tag| colour(m, h, levels, s, x);
    assert forall|x: Tag| #[trigger] p.v.contains(x) implies f(stands_for(m, h, levels, x)) == f(x) by {
        let y = stands_for(m, h, levels, x);
        assert(q.v.contains(y));
        assert(stands_for(m, h, levels, y) == y);
    }
    assert forall|i: int| 0 <= i < q.v.len() implies list_for(m, h.order(), #[trigger] q.v[i]).contains(f(q.v[i])) by {
        lemma_place(q.v, i);
        assert(stands_for(m, h, levels, q.v[i]) == q.v[i]);
        assert(f(q.v[i]) == s[i].0);
    }
}

/// A colouring of the terms of the powers is a solution of the problem
/// built for a condition, as a valuation of the vertices of the indicator
/// graph, where every kept edge of a power leads from a colour to a colour
/// that the graph joins, every term has the colour of the term that stands
/// for it, and the colour of every vertex of the indicator graph is in the
/// list of its term.
pub proof fn lemma_colouring_solves(
    m: MetaProblem,
    h: &AdjMatrix,
    levels: Seq<usize>,
    inst: Instance,
    f: spec_fn(Tag) -> usize,
)
    requires
        length_ok(m.condition),
        built(m, h, levels, Ok(inst)),
        respects(m, h, levels, f),
    ensures
        is_solution(
            &inst,
            Seq::new(
                indicator(m.condition, h.order(), h.arrows(), m.level_wise, levels).v.len(),
                |i: int| Value(f(indicator(m.condition, h.order(), h.arrows(), m.level_wise, levels).v[i])),
            ),
        ),
{
    let p = sources(m, h, levels);
    let q = indicator(m.condition, h.order(), h.arrows(), m.level_wise, levels);
    let s = Seq::new(q.v.len(), |i: int| Value(f(q.v[i])));
    lemma_indicator(m, h, levels);
    lemma_renumbered(q, q.e.len() as int);
    assert(q.v.len() <= usize::MAX) by (nonlinear_arith)
        requires
            q.v.len() * q.v.len() <= usize::MAX,
    ;
    let r = inst.source().arrows();
    inst.lemma_well_formed();
    inst.source().lemma_arrows_in_range();
    assert forall|i: usize, j: usize| #[trigger] r.contains((i, j)) implies h.arrows().contains((s[i as int].0, s[j as int].0)) by {
        let k = r.index_of((i, j));
        assert(r[k] == (i, j));
        assert(i < q.v.len() && j < q.v.len());
        lemma_renumbered_edges(q, i, j);
        let a = q.v[i as int];
        let b = q.v[j as int];
        assert(q.e.contains((a, b)));
        let (c, d) = choose|c: Tag, d: Tag| #[trigger]
            p.e.contains((c, d)) && stands_for(m, h, levels, c) == a && stands_for(m, h, levels, d) == b;
        assert(p.v.contains(c) && p.v.contains(d));
        assert(h.arrows().contains((f(c), f(d))));
    }
    assert forall|x: usize| x < inst.spec_size() implies inst.spec_domain(Variable(x)).contains(#[trigger] s[x as int]) by {
        let list = list_for(m, h.order(), q.v[x as int]);
        assert(inst.lists()[x as int] == list);
        assert(list.contains(f(q.v[x as int])));
        let k = list.index_of(f(q.v[x as int]));
        assert(inst.spec_domain(Variable(x))[k] == s[x as int]);
    }
    assert forall|k: int| 0 <= k < inst.spec_arcs().len() implies inst.spec_check(
        ((#[trigger] inst.spec_arcs()[k]).0, s[inst.spec_arcs()[k].0.0 as int]),
        (inst.spec_arcs()[k].1, s[inst.spec_arcs()[k].1.0 as int]),
    ) by {
        let e = r[k / 2];
        assert(r.contains((e.0, e.1)));
        assert(e.0 < q.v.len() && e.1 < q.v.len());
    }
}

/// The problem built for a condition has a solution exactly where the
/// terms have a colouring that the problem asks for.
pub proof fn lemma_solutions_are_colourings(m: MetaProblem, h: &AdjMatrix, levels: Seq<usize>, inst: Instance)
    requires
        length_ok(m.condition),
        built(m, h, levels, Ok(inst)),
    ensures
        (exists|s: Seq<Value>| is_solution(&inst, s)) == (exists|f: spec_fn(Tag) -> usize| respects(m, h, levels, f)),
{
    if exists|s: Seq<Value>| is_solution(&inst, s) {
        let s = choose|s: Seq<Value>| is_solution(&inst, s);
        lemma_solution_colours(m, h, levels, inst, s);
        assert(respects(m, h, levels, |x: Tag| colour(m, h, levels, s, x)));
    }
    if exists|f: spec_fn(Tag) -> usize| respects(m, h, levels, f) {
        let f = choose|f: spec_fn(Tag) -> usize| respects(m, h, levels, f);
        lemma_colouring_solves(m, h, levels, inst, f);
        let q = indicator(m.condition, h.order(), h.arrows(), m.level_wise, levels);
        assert(is_solution(&inst, Seq::new(q.v.len(), |i: int| Value(f(q.v[i])))));
    }
}

/// The classes of the condition fit the powers: no term is in two classes,
/// and the first member of a class is a term of the powers wherever a
/// member is.
pub open spec fn classes_fit(m: MetaProblem, h: &AdjMatrix, levels: Seq<usize>) -> bool {
    let cs = classes(m.condition, Seq::new(h.order(), |k: int| k as usize));
    &&& disjoint(cs)
    &&& forall|k: int, j: int|
        0 <= k < cs.len() && 0 <= j < cs[k].len() && sources(m, h, levels).v.contains(#[trigger] cs[k][j])
            ==> sources(m, h, levels).v.contains(cs[k][0])
}

/// The colouring `f` of the terms is a polymorphism of `h` that satisfies
/// the condition of `m`: every kept edge of a power leads from a colour to
/// a colour that the graph joins, the members of a class that are terms of
/// the powers have one colour, and the colour of every vertex of the
/// indicator graph is in the list of its term.
pub open spec fn polymorphism(m: MetaProblem, h: &AdjMatrix, levels: Seq<usize>, f: spec_fn(Tag) -> usize) -> bool {
    let cs = classes(m.condition, Seq::new(h.order(), |k: int| k as usize));
    let q = indicator(m.condition, h.order(), h.arrows(), m.level_wise, levels);
    &&& forall|a: Tag, b: Tag| #[trigger] sources(m, h, levels).e.contains((a, b)) ==> h.arrows().contains((f(a), f(b)))
    &&& forall|k: int, j: int|
        0 <= k < cs.len() && 0 <= j < cs[k].len() && sources(m, h, levels).v.contains(#[trigger] cs[k][j]) ==> f(
            cs[k][j],
        ) == f(cs[k][0])
    &&& forall|i: int| 0 <= i < q.v.len() ==> list_for(m, h.order(), #[trigger] q.v[i]).contains(f(q.v[i]))
}

/// Where the classes of the condition fit the powers, the problem built for
/// the condition has a solution exactly where the graph has a polymorphism
/// that satisfies the condition.
pub proof fn lemma_polymorphisms(m: MetaProblem, h: &AdjMatrix, levels: Seq<usize>, inst: Instance)
    requires
        length_ok(m.condition),
        built(m, h, levels, Ok(inst)),
        classes_fit(m, h, levels),
    ensures
        (exists|s: Seq<Value>| is_solution(&inst, s)) == (exists|f: spec_fn(Tag) -> usize|
            polymorphism(m, h, levels, f)),
{
    let cs = classes(m.condition, Seq::new(h.order(), |k: int| k as usize));
    let p = sources(m, h, levels);
    let ar = arities_of(m.condition);
    lemma_powers(h.arrows(), ar, m.level_wise, levels, ar.len() as int);
    lemma_solutions_are_colourings(m, h, levels, inst);
    assert forall|f: spec_fn(Tag) -> usize| respects(m, h, levels, f) == polymorphism(m, h, levels, f) by {
        lemma_constant_on_classes(p, cs, f);
        assert forall|x: Tag| stands_for(m, h, levels, x) == quotient_to(p, cs, cs.len() as int, x) by {}
    }
    if exists|f: spec_fn(Tag) -> usize| respects(m, h, levels, f) {
        let f = choose|f: spec_fn(Tag) -> usize| respects(m, h, levels, f);
        assert(polymorphism(m, h, levels, f));
    }
    if exists|f: spec_fn(Tag) -> usize| polymorphism(m, h, levels, f) {
        let f = choose|f: spec_fn(Tag) -> usize| polymorphism(m, h, levels, f);
        assert(respects(m, h, levels, f));
    }
}

/// The problem `m` with the level filter on.
pub open spec fn levelled(m: MetaProblem) -> MetaProblem {
    MetaProblem { level_wise: true, ..m }
}

/// The problem `m` with the level filter off.
pub open spec fn unlevelled_one(m: MetaProblem) -> MetaProblem {
    MetaProblem { level_wise: false, ..m }
}

/// The level filter rules out no polymorphism: where the classes of the
/// condition fit the powers with the filter and without it, a polymorphism
/// that satisfies the condition without the filter satisfies it with the
/// filter.
pub proof fn lemma_level_filter(
    m: MetaProblem,
    h: &AdjMatrix,
    levels: Seq<usize>,
    free: Seq<usize>,
    f: spec_fn(Tag) -> usize,
)
    requires
        length_ok(m.condition),
        classes_fit(levelled(m), h, levels),
        classes_fit(unlevelled_one(m), h, free),
        polymorphism(unlevelled_one(m), h, free, f),
    ensures
        polymorphism(levelled(m), h, levels, f),
{
    let mt = levelled(m);
    let mf = unlevelled_one(m);
    let ar = arities_of(m.condition);
    let cs = classes(m.condition, Seq::new(h.order(), |k: int| k as usize));
    let pt = sources(mt, h, levels);
    let pf = sources(mf, h, free);
    let qt = indicator(m.condition, h.order(), h.arrows(), true, levels);
    let qf = indicator(m.condition, h.order(), h.arrows(), false, free);
    lemma_powers(h.arrows(), ar, true, levels, ar.len() as int);
    lemma_powers(h.arrows(), ar, false, free, ar.len() as int);
    lemma_indicator(mt, h, levels);
    lemma_indicator(mf, h, free);
    assert forall|a: Tag, b: Tag| #[trigger] pt.e.contains((a, b)) implies pf.e.contains((a, b)) by {
        assert(power_edge(h.arrows(), ar, true, levels, ar.len() as int, a, b));
        assert(power_edge(h.arrows(), ar, false, free, ar.len() as int, a, b));
    }
    assert forall|x: Tag| #[trigger] pt.v.contains(x) implies pf.v.contains(x) by {
        lemma_powers_vertices(h.arrows(), ar, true, levels, ar.len() as int, x);
        let k = choose|k: int| 0 <= k < pt.e.len() && ((#[trigger] pt.e[k]).0 == x || pt.e[k].1 == x);
        let c = pt.e[k].0;
        let d = pt.e[k].1;
        assert(pt.e.contains((c, d)));
        assert(pf.e.contains((c, d)));
    }
    assert forall|a: Tag, b: Tag| #[trigger] pt.e.contains((a, b)) implies h.arrows().contains((f(a), f(b))) by {
        assert(pf.e.contains((a, b)));
    }
    assert forall|k: int, j: int|
        0 <= k < cs.len() && 0 <= j < cs[k].len() && pt.v.contains(#[trigger] cs[k][j]) implies f(cs[k][j]) == f(
        cs[k][0],
    ) by {
        assert(pf.v.contains(cs[k][j]));
    }
    assert forall|i: int| 0 <= i < qt.v.len() implies list_for(mt, h.order(), #[trigger] qt.v[i]).contains(f(qt.v[i])) by {
        let t = qt.v[i];
        assert(qt.v.contains(t));
        assert(pt.v.contains(t) && stands_for(mt, h, levels, t) == t);
        assert(pf.v.contains(t));
        let n = cs.len() as int;
        if classed(cs, n, t) {
            let (k, j) = choose|k: int, j: int| 0 <= k < n && k < cs.len() && 0 <= j < cs[k].len() && #[trigger] cs[k][j] == t;
            assert(pt.v.contains(cs[k][j]));
            assert(pt.v.contains(cs[k][0]));
            lemma_quotient_class(pt, cs, n, k, j);
            assert(t == cs[k][0]);
            lemma_quotient_class(pf, cs, n, k, 0);
            assert(qf.v.contains(t));
        } else {
            lemma_quotient_leaves(pf, cs, n, t);
            assert(qf.v.contains(t));
        }
        let w = qf.v.index_of(t);
        assert(qf.v[w] == t);
        assert(list_for(mf, h.order(), qf.v[w]).contains(f(qf.v[w])));
        assert(list_for(mt, h.order(), t) == list_for(mf, h.order(), t));
    }
}

/// The levels with which the problem of `m` is built: levels of least
/// height where the problem is level-wise, and none where it is not.
pub open spec fn levels_for(m: MetaProblem, h: &AdjMatrix, levels: Seq<usize>) -> bool {
    if m.level_wise {
        least_levels(h.arrows(), h.order(), levels)
    } else {
        levels == Seq::<usize>::empty()
    }
}

/// What `has_polymorphism` answers: whether the terms have a colouring that
/// the problem asks for, with the levels with which it was built; or that
/// the graph has no levels though the problem is level-wise; or that the
/// indicator graph is too large.
pub open spec fn decided(m: MetaProblem, h: &AdjMatrix, r: Result<bool, Error>) -> bool {
    match r {
        Ok(found) => exists|levels: Seq<usize>| #[trigger]
            levels_for(m, h, levels) && found == (exists|f: spec_fn(Tag) -> usize| respects(m, h, levels, f)),
        Err(Error::Unbalanced) => m.level_wise && unlevelled(h.arrows(), h.order()),
        Err(Error::TooLarge) => exists|levels: Seq<usize>| #[trigger]
            levels_for(m, h, levels) && !AdjMatrix::can_hold(
                indicator(m.condition, h.order(), h.arrows(), m.level_wise, levels).v.len(),
            ),
    }
}

impl MetaProblem {
    /// Whether the graph `h` has operations that satisfy the condition:
    /// the colouring problem is built and searched for a solution.
    pub fn has_polymorphism(self, h: &AdjMatrix) -> (r: Result<bool, Error>)
        requires
            length_ok(self.condition),
            h.wf(),
            self.level_wise ==> AdjMatrix::can_hold(h.order() + 1),
        ensures
            decided(self, h, r),
    {
        let built_one = self.instance(h);
        let ghost levels: Seq<usize> = if self.level_wise && !unbalanced(h, built_one) {
            choose|lv: Seq<usize>| #[trigger] least_levels(h.arrows(), h.order(), lv) && built(self, h, lv, built_one)
        } else {
            Seq::empty()
        };
        match built_one {
            Err(e) => {
                proof {
                    assert(levels_for(self, h, levels) || unbalanced(h, built_one));
                }
                Err(e)
            },
            Ok(inst) => {
                proof {
                    assert(levels_for(self, h, levels));
                    assert(built(self, h, levels, Ok(inst)));
                    inst.lemma_well_formed();
                    lemma_solutions_are_colourings(self, h, levels, inst);
                }
                let mut solver = BTSolver::new(&inst);
                let found = solver.solution_exists();
                Ok(found)
            },
        }
    }
}

} // verus!
