//! The indicator graph of a graph and a condition: the powers of the graph,
//! one for each operation, with the terms that the condition identifies
//! contracted.

use vstd::prelude::*;
use crate::algebra::adj_map::{copy_label, lemma_place, AdjMap, Quiver};
use crate::algebra::classes::{class_tags, classes, eq_classes, length_ok, tag, Condition, Label, Tag};
use crate::algebra::metaproblem::{
    all_equal, arities, arities_of, is_all_equal, is_term, precolor, precolor_of, Error, MetaProblem,
};
use crate::digraph::classes::Buildable;
use crate::digraph::traits::{Edges, Vertices};
use crate::digraph::AdjMatrix;
use crate::hcoloring::Instance;

verus! {

/// `bimap::BiHashMap`, a map that can be read from both sides. Nothing
/// inside it is seen here: what it holds is spoken of as `pairing`.
#[verifier::external_type_specification]
#[verifier::external_body]
#[verifier::reject_recursive_types(L)]
#[verifier::reject_recursive_types(R)]
#[verifier::reject_recursive_types(LS)]
#[verifier::reject_recursive_types(RS)]
pub struct ExBiHashMap<L, R, LS, RS>(bimap::BiHashMap<L, R, LS, RS>);

/// The number that a two-way map gives each term.
pub uninterp spec fn pairing(b: bimap::BiMap<Label, usize>) -> Map<Tag, usize>;

/// The pairs of `m` but those with the term `t` or the number `n`, and the
/// pair of `t` and `n`.
pub open spec fn paired(m: Map<Tag, usize>, t: Tag, n: usize) -> Map<Tag, usize> {
    Map::new(|k: Tag| k == t || (m.dom().contains(k) && m[k] != n), |k: Tag| if k == t { n } else { m[k] })
}

/// No pairs.
pub open spec fn unpaired() -> Map<Tag, usize> {
    Map::empty()
}

/// A two-way map without pairs, from `BiMap::new`.
#[verifier::external_body]
fn bimap_new() -> (r: bimap::BiMap<Label, usize>)
    ensures
        pairing(r) == unpaired(),
{
    bimap::BiMap::new()
}

/// Pairs the term with the number by `BiMap::insert`, which first takes out
/// the pair of the term and the pair of the number, where there are such.
#[verifier::external_body]
fn bimap_insert(b: &mut bimap::BiMap<Label, usize>, t: Label, n: usize)
    ensures
        pairing(*final(b)) == paired(pairing(*old(b)), tag(t), n),
{
    b.insert(t, n);
}

/// The number of the term, from `BiMap::get_by_left`.
#[verifier::external_body]
fn bimap_left(b: &bimap::BiMap<Label, usize>, t: &Label) -> (r: Option<usize>)
    ensures
        r == (if pairing(*b).dom().contains(tag(*t)) {
            Some(pairing(*b)[tag(*t)])
        } else {
            None
        }),
{
    b.get_by_left(t).copied()
}

/// A copy of the term of the number, from `BiMap::get_by_right`.
#[verifier::external_body]
fn bimap_right(b: &bimap::BiMap<Label, usize>, n: usize) -> (r: Option<Label>)
    ensures
        r.is_some() ==> pairing(*b).dom().contains(tag(r.unwrap())) && pairing(*b)[tag(r.unwrap())] == n,
        r.is_none() ==> forall|k: Tag| pairing(*b).dom().contains(k) ==> #[trigger] pairing(*b)[k] != n,
{
    b.get_by_right(&n).cloned()
}

/// The first `upto` vertices of `q` are paired with their places, and
/// nothing else is paired.
pub open spec fn numbered_by(m: Map<Tag, usize>, q: Quiver, upto: int) -> bool {
    &&& forall|j: int| 0 <= j < upto ==> m.dom().contains(#[trigger] q.v[j]) && m[q.v[j]] == j
    &&& forall|k: Tag| m.dom().contains(k) ==> 0 <= #[trigger] m[k] < upto && q.v[m[k] as int] == k
}

/// An edge between two tuples, as the contracts see it.
pub type Arrow = (Seq<usize>, Seq<usize>);

/// The edges between tuples that a list holds.
pub open spec fn arrow_tags(p: Seq<(Vec<usize>, Vec<usize>)>) -> Seq<Arrow> {
    Seq::new(p.len(), |k: int| (p[k].0@, p[k].1@))
}

/// Each edge of `acc`, lengthened by each edge of `edges` in turn.
pub open spec fn lengthened(acc: Seq<Arrow>, edges: Seq<(usize, usize)>) -> Seq<Arrow> {
    Seq::new(
        acc.len() * edges.len(),
        |k: int|
            (
                acc[k / (edges.len() as int)].0.push(edges[k % (edges.len() as int)].0),
                acc[k / (edges.len() as int)].1.push(edges[k % (edges.len() as int)].1),
            ),
    )
}

/// The edges of the `n`-th power of a graph with the given edges: an edge
/// for every tuple of `n` edges, from the tuple of their sources to the
/// tuple of their targets; the last edge of the tuple changes fastest.
pub open spec fn power_of(edges: Seq<(usize, usize)>, n: nat) -> Seq<Arrow>
    decreases n,
{
    if n == 0 {
        seq![(Seq::<usize>::empty(), Seq::<usize>::empty())]
    } else {
        lengthened(power_of(edges, (n - 1) as nat), edges)
    }
}

/// A copy of `u` with `x` behind it.
fn extended(u: &Vec<usize>, x: usize) -> (r: Vec<usize>)
    ensures
        r@ == u@.push(x),
{
    let mut r: Vec<usize> = Vec::new();
    let mut k: usize = 0;
    while k < u.len()
        invariant
            k <= u.len(),
            r@ == u@.take(k as int),
        decreases u.len() - k,
    {
        r.push(u[k]);
        proof {
            assert(r@ =~= u@.take(k as int + 1));
        }
        k = k + 1;
    }
    proof {
        assert(u@.take(u@.len() as int) =~= u@);
    }
    r.push(x);
    r
}

/// The edges of the `n`-th power of a graph with the given edges.
pub fn power(edges: &Vec<(usize, usize)>, n: usize) -> (r: Vec<(Vec<usize>, Vec<usize>)>)
    ensures
        arrow_tags(r@) == power_of(edges@, n as nat),
{
    let mut acc: Vec<(Vec<usize>, Vec<usize>)> = Vec::new();
    acc.push((Vec::new(), Vec::new()));
    proof {
        assert(arrow_tags(acc@) =~= power_of(edges@, 0));
    }
    let m = edges.len();
    let mut round: usize = 0;
    while round < n
        invariant
            round <= n,
            m == edges.len(),
            arrow_tags(acc@) == power_of(edges@, round as nat),
        decreases n - round,
    {
        let ghost before = arrow_tags(acc@);
        let ghost want = lengthened(before, edges@);
        let mut next: Vec<(Vec<usize>, Vec<usize>)> = Vec::new();
        let mut a: usize = 0;
        while a < acc.len()
            invariant
                a <= acc.len(),
                m == edges.len(),
                before == arrow_tags(acc@),
                want == lengthened(before, edges@),
                next.len() == a * m,
                forall|k: int| 0 <= k < next.len() ==> (#[trigger] next@[k].0@, next@[k].1@) == want[k],
            decreases acc.len() - a,
        {
            let mut b: usize = 0;
            while b < m
                invariant
                    a < acc.len(),
                    b <= m,
                    m == edges.len(),
                    before == arrow_tags(acc@),
                    want == lengthened(before, edges@),
                    next.len() == a * m + b,
                    forall|k: int| 0 <= k < next.len() ==> (#[trigger] next@[k].0@, next@[k].1@) == want[k],
                decreases m - b,
            {
                let (e0, e1) = edges[b];
                let u = extended(&acc[a].0, e0);
                let v = extended(&acc[a].1, e1);
                proof {
                    let k = a * m + b;
                    vstd::arithmetic::div_mod::lemma_fundamental_div_mod_converse(
                        k as int,
                        m as int,
                        a as int,
                        b as int,
                    );
                    assert(a * m + b < acc.len() * m) by (nonlinear_arith)
                        requires
                            a < acc.len(),
                            b < m,
                    ;
                    assert(before[a as int] == (acc@[a as int].0@, acc@[a as int].1@));
                    assert(want[k as int] == (u@, v@));
                }
                next.push((u, v));
                b = b + 1;
            }
            proof {
                assert(a * m + m == (a + 1) * m) by (nonlinear_arith);
            }
            a = a + 1;
        }
        proof {
            assert(arrow_tags(next@) =~= want);
        }
        acc = next;
        round = round + 1;
    }
    acc
}

/// Every vertex of the tuple has the level of the first.
pub open spec fn homogeneous(u: Seq<usize>, levels: Seq<usize>) -> bool {
    forall|j: int| 0 <= j < u.len() ==> levels[#[trigger] u[j] as int] == levels[u[0] as int]
}

/// Whether every vertex of the tuple has the level of the first.
fn is_homogeneous(u: &Vec<usize>, levels: &Vec<usize>) -> (r: bool)
    requires
        forall|j: int| 0 <= j < u@.len() ==> #[trigger] u@[j] < levels@.len(),
    ensures
        r == homogeneous(u@, levels@),
{
    let mut k: usize = 0;
    while k < u.len()
        invariant
            k <= u.len(),
            forall|j: int| 0 <= j < u@.len() ==> #[trigger] u@[j] < levels@.len(),
            forall|j: int| 0 <= j < k ==> levels@[#[trigger] u@[j] as int] == levels@[u@[0] as int],
        decreases u.len() - k,
    {
        if levels[u[k]] != levels[u[0]] {
            return false;
        }
        k = k + 1;
    }
    true
}

/// Whether an edge of a power belongs to the indicator graph: always, or
/// where the search is level-wise, only where its source is homogeneous.
pub open spec fn kept(level_wise: bool, levels: Seq<usize>, a: Arrow) -> bool {
    !level_wise || homogeneous(a.0, levels)
}

/// The graph `q` with the first `upto` edges of the power `p` under the
/// operation `f`, each with its two ends.
pub open spec fn sown(q: Quiver, f: usize, p: Seq<Arrow>, level_wise: bool, levels: Seq<usize>, upto: int) -> Quiver
    decreases upto,
{
    if upto <= 0 {
        q
    } else {
        let g = sown(q, f, p, level_wise, levels, upto - 1);
        if kept(level_wise, levels, p[upto - 1]) {
            g.with_edge((f, p[upto - 1].0), (f, p[upto - 1].1))
        } else {
            g
        }
    }
}

/// The graph with the powers of the first `upto` operations.
pub open spec fn powers(
    edges: Seq<(usize, usize)>,
    ar: Seq<usize>,
    level_wise: bool,
    levels: Seq<usize>,
    upto: int,
) -> Quiver
    decreases upto,
{
    if upto <= 0 {
        Quiver::empty()
    } else {
        let p = power_of(edges, ar[upto - 1] as nat);
        sown(
            powers(edges, ar, level_wise, levels, upto - 1),
            (upto - 1) as usize,
            p,
            level_wise,
            levels,
            p.len() as int,
        )
    }
}

/// The graph in which the first `upto` members of the class behind the
/// first are contracted into the first.
pub open spec fn merged(q: Quiver, class: Seq<Tag>, upto: int) -> Quiver
    decreases upto,
{
    if upto <= 1 {
        q
    } else {
        merged(q, class, upto - 1).contract(class[0], class[upto - 1])
    }
}

/// The graph in which the first `upto` classes are contracted, each into
/// its first member.
pub open spec fn quotient(q: Quiver, cs: Seq<Seq<Tag>>, upto: int) -> Quiver
    decreases upto,
{
    if upto <= 0 {
        q
    } else {
        merged(quotient(q, cs, upto - 1), cs[upto - 1], cs[upto - 1].len() as int)
    }
}

/// The indicator graph of the graph with `n` vertices and the given edges.
pub open spec fn indicator(
    c: Condition,
    n: nat,
    edges: Seq<(usize, usize)>,
    level_wise: bool,
    levels: Seq<usize>,
) -> Quiver {
    let cs = classes(c, Seq::new(n, |k: int| k as usize));
    quotient(
        powers(edges, arities_of(c), level_wise, levels, arities_of(c).len() as int),
        cs,
        cs.len() as int,
    )
}

/// Contracting and adding keep a graph well formed.
pub proof fn lemma_contract_wf(q: Quiver, u: Tag, w: Tag)
    requires
        q.wf(),
    ensures
        q.contract(u, w).wf(),
{
    if u != w && q.v.contains(u) && q.v.contains(w) {
        let i = q.v.index_of(w);
        crate::algebra::adj_map::lemma_swap_removed(q.v, i);
        let bare = Quiver {
            v: crate::algebra::adj_map::swap_removed(q.v, i),
            out: crate::algebra::adj_map::swap_removed(q.out, i),
            inn: crate::algebra::adj_map::swap_removed(q.inn, i),
            e: q.e,
        };
        assert(bare.wf()) by {
            assert forall|j: int| 0 <= j < bare.out.len() implies (#[trigger] bare.out[j]).no_duplicates() by {
                let j0 = if j == i { q.out.len() - 1 } else { j };
                assert(bare.out[j] == q.out[j0]);
            }
            assert forall|j: int| 0 <= j < bare.inn.len() implies (#[trigger] bare.inn[j]).no_duplicates() by {
                let j0 = if j == i { q.inn.len() - 1 } else { j };
                assert(bare.inn[j] == q.inn[j0]);
            }
        }
        lemma_move_outs_wf(bare, u, w, q.out[i], q.out[i].len() as int);
        lemma_move_ins_wf(
            bare.move_outs(u, w, q.out[i], q.out[i].len() as int),
            u,
            w,
            q.inn[i],
            q.inn[i].len() as int,
        );
    }
}

/// Moving edges away from a contracted vertex keeps a graph well formed.
pub proof fn lemma_move_outs_wf(q: Quiver, u: Tag, w: Tag, o: Seq<Tag>, upto: int)
    requires
        q.wf(),
    ensures
        q.move_outs(u, w, o, upto).wf(),
    decreases upto,
{
    if upto > 0 {
        lemma_move_outs_wf(q, u, w, o, upto - 1);
        let g = q.move_outs(u, w, o, upto - 1);
        let x = o[upto - 1];
        let t = if x == w { u } else { x };
        g.lemma_add_edge(u, t);
        g.add_edge(u, t).lemma_forget(x, w);
        g.add_edge(u, t).forget_in(x, w).lemma_forget(x, w);
    }
}

/// Moving edges away from a contracted vertex keeps a graph well formed.
pub proof fn lemma_move_ins_wf(q: Quiver, u: Tag, w: Tag, o: Seq<Tag>, upto: int)
    requires
        q.wf(),
    ensures
        q.move_ins(u, w, o, upto).wf(),
    decreases upto,
{
    if upto > 0 {
        lemma_move_ins_wf(q, u, w, o, upto - 1);
        let g = q.move_ins(u, w, o, upto - 1);
        let x = o[upto - 1];
        let t = if x == w { u } else { x };
        g.lemma_add_edge(t, u);
        g.add_edge(t, u).lemma_forget(x, w);
        g.add_edge(t, u).forget_out(x, w).lemma_forget(x, w);
    }
}

/// The indicator graph before the contractions.
pub fn sow(
    condition: Condition,
    h: &AdjMatrix,
    level_wise: bool,
    levels: &Vec<usize>,
) -> (graph: AdjMap)
    requires
        length_ok(condition),
        h.wf(),
        level_wise ==> levels@.len() == h.order(),
    ensures
        graph.wf(),
        graph@ == powers(
            h.arrows(),
            arities_of(condition),
            level_wise,
            levels@,
            arities_of(condition).len() as int,
        ),
{
    let ar = arities(condition);
    let edges = h.edges();
    let mut graph = AdjMap::new();
    let mut f: usize = 0;
    proof {
        h.lemma_arrows_in_range();
    }
    while f < ar.len()
        invariant
            f <= ar.len(),
            ar@ == arities_of(condition),
            edges@ == h.arrows(),
            level_wise ==> levels@.len() == h.order(),
            forall|k: int|
                0 <= k < h.arrows().len() ==> (#[trigger] h.arrows()[k]).0 < h.order() && h.arrows()[k].1
                    < h.order(),
            graph.wf(),
            graph@ == powers(edges@, ar@, level_wise, levels@, f as int),
        decreases ar.len() - f,
    {
        let p = power(&edges, ar[f]);
        let ghost start = graph@;
        let ghost pt = arrow_tags(p@);
        let mut k: usize = 0;
        while k < p.len()
            invariant
                k <= p.len(),
                f < ar.len(),
                pt == arrow_tags(p@),
                pt == power_of(edges@, ar@[f as int] as nat),
                edges@ == h.arrows(),
                level_wise ==> levels@.len() == h.order(),
                forall|j: int|
                    0 <= j < h.arrows().len() ==> (#[trigger] h.arrows()[j]).0 < h.order() && h.arrows()[j].1
                        < h.order(),
                graph.wf(),
                graph@ == sown(start, f, pt, level_wise, levels@, k as int),
            decreases p.len() - k,
        {
            let u = &p[k].0;
            let v = &p[k].1;
            proof {
                assert(pt[k as int] == (u@, v@));
                lemma_power_in_range(edges@, ar@[f as int] as nat, h.order(), k as int);
            }
            if !level_wise || is_homogeneous(u, levels) {
                let a: Label = (f, extended_none(u));
                let b: Label = (f, extended_none(v));
                proof {
                    let g = graph@;
                    g.lemma_add_vertex(tag(a));
                    g.add_vertex(tag(a)).lemma_add_vertex(tag(b));
                    g.add_vertex(tag(a)).add_vertex(tag(b)).lemma_add_edge(tag(a), tag(b));
                }
                graph.add_vertex(copy_label(&a));
                graph.add_vertex(copy_label(&b));
                graph.link(&a, &b);
            }
            k = k + 1;
        }
        f = f + 1;
    }
    graph
}

/// A copy of a tuple.
fn extended_none(u: &Vec<usize>) -> (r: Vec<usize>)
    ensures
        r@ == u@,
{
    let mut r: Vec<usize> = Vec::new();
    let mut k: usize = 0;
    while k < u.len()
        invariant
            k <= u.len(),
            r@ == u@.take(k as int),
        decreases u.len() - k,
    {
        r.push(u[k]);
        proof {
            assert(r@ =~= u@.take(k as int + 1));
        }
        k = k + 1;
    }
    proof {
        assert(u@.take(u@.len() as int) =~= u@);
    }
    r
}

/// The tuples of a power hold ends of the edges that it is a power of.
pub proof fn lemma_power_in_range(edges: Seq<(usize, usize)>, n: nat, bound: nat, k: int)
    requires
        forall|j: int| 0 <= j < edges.len() ==> (#[trigger] edges[j]).0 < bound && edges[j].1 < bound,
        0 <= k < power_of(edges, n).len(),
    ensures
        power_of(edges, n)[k].0.len() == n,
        power_of(edges, n)[k].1.len() == n,
        forall|j: int| 0 <= j < n ==> #[trigger] power_of(edges, n)[k].0[j] < bound,
        forall|j: int| 0 <= j < n ==> #[trigger] power_of(edges, n)[k].1[j] < bound,
    decreases n,
{
    if n > 0 {
        let acc = power_of(edges, (n - 1) as nat);
        let m = edges.len() as int;
        assert(power_of(edges, n) == lengthened(acc, edges));
        assert(m > 0) by (nonlinear_arith)
            requires
                0 <= k < acc.len() * m,
                m >= 0,
        ;
        let a = k / m;
        let b = k % m;
        vstd::arithmetic::div_mod::lemma_fundamental_div_mod(k, m);
        vstd::arithmetic::div_mod::lemma_mod_bound(k, m);
        vstd::arithmetic::div_mod::lemma_div_pos_is_pos(k, m);
        assert(a < acc.len()) by (nonlinear_arith)
            requires
                k == m * a + b,
                0 <= b,
                k < acc.len() * m,
                m > 0,
        ;
        lemma_power_in_range(edges, (n - 1) as nat, bound, a);
    }
}

/// The indicator graph: the powers, with the classes of the condition
/// contracted in turn.
pub fn contracted(
    condition: Condition,
    h: &AdjMatrix,
    level_wise: bool,
    levels: &Vec<usize>,
) -> (graph: AdjMap)
    requires
        length_ok(condition),
        h.wf(),
        level_wise ==> levels@.len() == h.order(),
    ensures
        graph.wf(),
        graph@ == indicator(condition, h.order(), h.arrows(), level_wise, levels@),
{
    let mut graph = sow(condition, h, level_wise, levels);
    let vertices = h.vertices();
    let cs = eq_classes(condition, &vertices);
    let ghost start = graph@;
    let ghost ct = class_tags(cs@);
    let mut k: usize = 0;
    while k < cs.len()
        invariant
            k <= cs.len(),
            ct == class_tags(cs@),
            graph.wf(),
            graph@ == quotient(start, ct, k as int),
        decreases cs.len() - k,
    {
        let class = &cs[k];
        let ghost g0 = graph@;
        let ghost tags = ct[k as int];
        let mut i: usize = 1;
        proof {
            assert(tags == crate::algebra::classes::tags(class@));
        }
        while i < class.len()
            invariant
                1 <= i,
                tags == crate::algebra::classes::tags(class@),
                graph.wf(),
                graph@ == merged(g0, tags, if i <= class.len() { i as int } else { class.len() as int }),
            decreases class.len() - i,
        {
            proof {
                lemma_contract_wf(graph@, tags[0], tags[i as int]);
            }
            graph.contract_vertices(&class[0], &class[i]);
            i = i + 1;
        }
        proof {
            if class.len() <= 1 {
                assert(merged(g0, tags, class.len() as int) == g0);
            }
        }
        k = k + 1;
    }
    graph
}

/// The edges of the first `upto` edges of `q` whose ends are vertices, as
/// pairs of the places of their ends.
pub open spec fn renumbered(q: Quiver, upto: int) -> Seq<(usize, usize)>
    decreases upto,
{
    if upto <= 0 {
        Seq::empty()
    } else {
        let r = renumbered(q, upto - 1);
        let a = q.e[upto - 1].0;
        let b = q.e[upto - 1].1;
        if q.v.contains(a) && q.v.contains(b) {
            r.push((q.v.index_of(a) as usize, q.v.index_of(b) as usize))
        } else {
            r
        }
    }
}

/// The first `upto` vertices of the tuple, each once, in the order of their
/// first occurrence.
pub open spec fn deduped(t: Seq<usize>, upto: int) -> Seq<usize>
    decreases upto,
{
    if upto <= 0 {
        Seq::empty()
    } else {
        let d = deduped(t, upto - 1);
        if d.contains(t[upto - 1]) {
            d
        } else {
            d.push(t[upto - 1])
        }
    }
}

/// The list of a vertex of the indicator graph that stands for the term
/// `t`: the value that the condition fixes for it; else, where the problem
/// is conservative, the vertices of its tuple; else, where the problem is
/// idempotent and the tuple holds one vertex only, that vertex; else all
/// `n` vertices of the graph.
pub open spec fn list_for(m: MetaProblem, n: nat, t: Tag) -> Seq<usize> {
    if is_term(m.condition, t) && precolor_of(m.condition, t).is_some() {
        seq![precolor_of(m.condition, t).unwrap()]
    } else if m.conservative {
        deduped(t.1, t.1.len() as int)
    } else if m.idempotent && t.1.len() > 0 && all_equal(t.1) {
        seq![t.1[0]]
    } else {
        Seq::new(n, |j: int| j as usize)
    }
}

/// Whether the term is one of the condition.
fn is_term_exec(condition: Condition, term: &Label) -> (r: bool)
    requires
        length_ok(condition),
    ensures
        r == is_term(condition, tag(*term)),
{
    let ar = arities(condition);
    term.0 < ar.len() && term.1.len() == ar[term.0]
}

/// Whether `list` holds `x`.
fn holds(list: &Vec<usize>, x: usize) -> (r: bool)
    ensures
        r == list@.contains(x),
{
    let mut k: usize = 0;
    while k < list.len()
        invariant
            k <= list.len(),
            forall|j: int| 0 <= j < k ==> #[trigger] list@[j] != x,
        decreases list.len() - k,
    {
        if list[k] == x {
            return true;
        }
        k = k + 1;
    }
    false
}

/// The list of the vertex that stands for `term`.
pub fn list_of(m: &MetaProblem, h: &AdjMatrix, term: &Label) -> (r: Vec<usize>)
    requires
        length_ok(m.condition),
        h.wf(),
    ensures
        r@ == list_for(*m, h.order(), tag(*term)),
{
    if is_term_exec(m.condition, term) {
        match precolor(m.condition, term) {
            Some(u) => {
                let mut one: Vec<usize> = Vec::new();
                one.push(u);
                assert(one@ =~= seq![u]);
                return one;
            },
            None => {},
        }
    }
    if m.conservative {
        let mut list: Vec<usize> = Vec::new();
        let mut k: usize = 0;
        while k < term.1.len()
            invariant
                k <= term.1.len(),
                list@ == deduped(term.1@, k as int),
            decreases term.1.len() - k,
        {
            if !holds(&list, term.1[k]) {
                list.push(term.1[k]);
            }
            k = k + 1;
        }
        list
    } else if m.idempotent && term.1.len() > 0 && is_all_equal(&term.1) {
        let mut one: Vec<usize> = Vec::new();
        one.push(term.1[0]);
        assert(one@ =~= seq![term.1@[0]]);
        one
    } else {
        h.vertices()
    }
}

/// What `build` answers for the given levels: the instance whose graph is
/// the indicator graph with its vertices numbered in their order, whose
/// target is `h`, and in which every vertex has the list of its term; or
/// that the indicator graph is too large.
pub open spec fn built(
    m: MetaProblem,
    h: &AdjMatrix,
    levels: Seq<usize>,
    r: Result<Instance, Error>,
) -> bool {
    let q = indicator(m.condition, h.order(), h.arrows(), m.level_wise, levels);
    match r {
        Ok(inst) => {
            &&& AdjMatrix::can_hold(q.v.len())
            &&& inst.wf()
            &&& inst.source().order() == q.v.len()
            &&& inst.source().arrows() == renumbered(q, q.e.len() as int)
            &&& inst.target().order() == h.order()
            &&& inst.target().arrows() == h.arrows()
            &&& inst.lists() == Seq::new(q.v.len(), |i: int| list_for(m, h.order(), q.v[i]))
        },
        Err(e) => e == Error::TooLarge && !AdjMatrix::can_hold(q.v.len()),
    }
}

impl MetaProblem {
    /// The colouring problem whose solutions are the polymorphisms of `h`
    /// that satisfy the condition, for the given levels of the vertices of
    /// `h`. The levels are read only where the problem is level-wise.
    pub fn build(&self, h: &AdjMatrix, levels: &Vec<usize>) -> (r: Result<Instance, Error>)
        requires
            length_ok(self.condition),
            h.wf(),
            self.level_wise ==> levels@.len() == h.order(),
        ensures
            built(*self, h, levels@, r),
    {
        let graph = contracted(self.condition, h, self.level_wise, levels);
        let ghost q = graph@;
        let n = graph.vertex_count();
        if n > 0 && n > usize::MAX / n {
            proof {
                assert(n * n > usize::MAX) by (nonlinear_arith)
                    requires
                        n > usize::MAX as int / n as int,
                        n >= 1,
                ;
            }
            return Err(Error::TooLarge);
        }
        proof {
            if n > 0 {
                assert(n * n <= usize::MAX) by (nonlinear_arith)
                    requires
                        n <= usize::MAX as int / n as int,
                        n >= 1,
                ;
            }
        }
        let mut matrix = AdjMatrix::with_capacities(n, graph.edge_count());
        let mut id_map = bimap_new();
        let mut i: usize = 0;
        while i < n
            invariant
                i <= n,
                n == q.v.len(),
                n * n <= usize::MAX,
                q == graph@,
                graph.wf(),
                matrix.wf(),
                matrix.order() == i,
                matrix.arrows().len() == 0,
                numbered_by(pairing(id_map), q, i as int),
            decreases n - i,
        {
            proof {
                assert((i + 1) * (i + 1) <= n * n) by (nonlinear_arith)
                    requires
                        0 <= i < n,
                ;
            }
            let id = matrix.add_vertex();
            let term = graph.vertex(i);
            let ghost before = pairing(id_map);
            bimap_insert(&mut id_map, term, id);
            proof {
                let now = pairing(id_map);
                assert forall|j: int| 0 <= j < i + 1 implies now.dom().contains(#[trigger] q.v[j]) && now[q.v[j]]
                    == j by {
                    if j < i {
                        assert(before[q.v[j]] == j);
                        lemma_place(q.v, j);
                        lemma_place(q.v, i as int);
                    }
                }
                assert forall|k: Tag| now.dom().contains(k) implies 0 <= #[trigger] now[k] < i + 1 && q.v[now[k] as int]
                    == k by {
                    if k != q.v[i as int] {
                        assert(before.dom().contains(k));
                    }
                }
            }
            i = i + 1;
        }
        let mut lists: Vec<Vec<usize>> = Vec::new();
        let mut i: usize = 0;
        while i < n
            invariant
                i <= n,
                n == q.v.len(),
                q == graph@,
                length_ok(self.condition),
                h.wf(),
                numbered_by(pairing(id_map), q, n as int),
                lists.len() == i,
                forall|j: int| 0 <= j < i ==> (#[trigger] lists[j])@ == list_for(*self, h.order(), q.v[j]),
            decreases n - i,
        {
            let found = bimap_right(&id_map, i);
            proof {
                if found.is_none() {
                    assert(pairing(id_map)[q.v[i as int]] == i);
                }
            }
            let term = found.unwrap();
            proof {
                assert(q.v[pairing(id_map)[tag(term)] as int] == tag(term));
            }
            lists.push(list_of(self, h, &term));
            i = i + 1;
        }
        let m = graph.edge_count();
        let mut k: usize = 0;
        assert(matrix.arrows() =~= renumbered(q, 0));
        while k < m
            invariant
                k <= m,
                m == q.e.len(),
                n == q.v.len(),
                q == graph@,
                graph.wf(),
                numbered_by(pairing(id_map), q, n as int),
                matrix.wf(),
                matrix.order() == n,
                matrix.arrows() == renumbered(q, k as int),
            decreases m - k,
        {
            let (a, b) = graph.edge(k);
            proof {
                if q.v.contains(tag(a)) {
                    let ia = q.v.index_of(tag(a));
                    assert(pairing(id_map)[q.v[ia]] == ia);
                }
                if q.v.contains(tag(b)) {
                    let ib = q.v.index_of(tag(b));
                    assert(pairing(id_map)[q.v[ib]] == ib);
                }
                if pairing(id_map).dom().contains(tag(a)) {
                    assert(q.v[pairing(id_map)[tag(a)] as int] == tag(a));
                    lemma_place(q.v, pairing(id_map)[tag(a)] as int);
                }
                if pairing(id_map).dom().contains(tag(b)) {
                    assert(q.v[pairing(id_map)[tag(b)] as int] == tag(b));
                    lemma_place(q.v, pairing(id_map)[tag(b)] as int);
                }
            }
            match (bimap_left(&id_map, &a), bimap_left(&id_map, &b)) {
                (Some(ia), Some(ib)) => {
                    matrix.add_edge(ia, ib);
                },
                _ => {},
            }
            k = k + 1;
        }
        let inst = Instance::from_lists(matrix, h.clone(), lists);
        proof {
            assert(inst.lists() =~= Seq::new(q.v.len(), |i: int| list_for(*self, h.order(), q.v[i])));
        }
        Ok(inst)
    }
}

/// The answer is `Unbalanced`, and `h` has no levels of at most the number
/// of its vertices.
pub open spec fn unbalanced(h: &AdjMatrix, r: Result<Instance, Error>) -> bool {
    &&& r == Err::<Instance, Error>(Error::Unbalanced)
    &&& crate::digraph::levels::unlevelled(h.arrows(), h.order())
}

/// The answer is what `build` answers for some levels of `h`.
pub open spec fn levelled_built(m: MetaProblem, h: &AdjMatrix, r: Result<Instance, Error>) -> bool {
    exists|lv: Seq<usize>| #[trigger] crate::digraph::levels::least_levels(h.arrows(), h.order(), lv) && built(m, h, lv, r)
}

impl MetaProblem {
    /// The colouring problem whose solutions are the polymorphisms of `h`
    /// that satisfy the condition. Where the problem is level-wise, the
    /// levels of `h` are found first; `Unbalanced` where it has none.
    pub fn instance(self, h: &AdjMatrix) -> (r: Result<Instance, Error>)
        requires
            length_ok(self.condition),
            h.wf(),
            self.level_wise ==> AdjMatrix::can_hold(h.order() + 1),
        ensures
            !self.level_wise ==> built(self, h, Seq::empty(), r),
            self.level_wise ==> unbalanced(h, r) || levelled_built(self, h, r),
    {
        if self.level_wise {
            proof {
                h.lemma_numbered();
            }
            match crate::digraph::levels::levels(h) {
                None => Err(Error::Unbalanced),
                Some(lv) => {
                    let r = self.build(h, &lv);
                    proof {
                        assert(crate::digraph::levels::least_levels(h.arrows(), h.order(), lv@) && built(
                            self,
                            h,
                            lv@,
                            r,
                        ));
                    }
                    r
                },
            }
        } else {
            let none: Vec<usize> = Vec::new();
            let r = self.build(h, &none);
            proof {
                assert(none@ =~= Seq::empty());
            }
            r
        }
    }
}

} // verus!
