//! The levels of a balanced graph.

use vstd::prelude::*;
use crate::digraph::classes::{directed_path, path_edges, roomy, Buildable};
use crate::digraph::traits::{numbered, Digraph, Edges, Vertices};
use crate::digraph::AdjMatrix;
use crate::hcoloring::{all_values, arcs_of, as_values, Instance};
use crate::problem::{is_solution, Constraints, Domains, Value, Variable};
use crate::solver::BTSolver;

verus! {

/// `lv` gives each of `n` vertices a level of at most `top`, and every edge
/// leads one level up.
pub open spec fn is_levelling(edges: Seq<(usize, usize)>, n: nat, lv: Seq<usize>, top: nat) -> bool {
    &&& lv.len() == n
    &&& forall|x: int| 0 <= x < n ==> #[trigger] lv[x] <= top
    &&& forall|k: int|
        0 <= k < edges.len() ==> lv[(#[trigger] edges[k]).1 as int] == lv[edges[k].0 as int] + 1
}

/// The graph has levels of at most `top`.
pub open spec fn levelled(edges: Seq<(usize, usize)>, n: nat, top: nat) -> bool {
    exists|lv: Seq<usize>| #[trigger] is_levelling(edges, n, lv, top)
}

/// `lv` gives the graph levels of at most `k + 1`, and `k` is the least
/// number for which the graph has such levels.
pub open spec fn least_levelling(edges: Seq<(usize, usize)>, n: nat, lv: Seq<usize>, k: nat) -> bool {
    &&& k < n
    &&& is_levelling(edges, n, lv, k + 1)
    &&& forall|j: nat| j < k ==> !#[trigger] levelled(edges, n, j + 1)
}

/// `lv` gives the graph levels of at most `k + 1` for the least `k` for
/// which it has such levels.
pub open spec fn least_levels(edges: Seq<(usize, usize)>, n: nat, lv: Seq<usize>) -> bool {
    exists|k: nat| #[trigger] least_levelling(edges, n, lv, k)
}

/// The graph has no levels of at most the number of its vertices.
pub open spec fn unlevelled(edges: Seq<(usize, usize)>, n: nat) -> bool {
    forall|k: nat| k < n ==> !#[trigger] levelled(edges, n, k + 1)
}

/// The numbers behind the values.
pub open spec fn numbers(s: Seq<Value>) -> Seq<usize> {
    Seq::new(s.len(), |x: int| s[x].0)
}

/// The colourings of a graph by the path with `top` edges are its levellings
/// with levels of at most `top`.
pub proof fn lemma_levelling(p: &Instance, edges: Seq<(usize, usize)>, n: nat, top: nat, s: Seq<Value>)
    requires
        p.wf(),
        p.source().arrows() == edges,
        p.source().order() == n,
        n <= usize::MAX,
        p.target().arrows() == path_edges(top),
        top < usize::MAX,
        p.lists() == Seq::new(n, |k: int| Seq::new(top + 1, |j: int| j as usize)),
        forall|k: int| 0 <= k < edges.len() ==> (#[trigger] edges[k]).0 < n && edges[k].1 < n,
    ensures
        is_solution(p, s) <==> is_levelling(edges, n, numbers(s), top),
{
    let lv = numbers(s);
    let path = path_edges(top);
    if is_solution(p, s) {
        assert forall|x: int| 0 <= x < n implies #[trigger] lv[x] <= top by {
            let dom = p.spec_domain(Variable(x as usize));
            assert(dom.contains(s[x as usize as int]));
            let i = dom.index_of(s[x]);
            assert(dom[i] == s[x]);
        }
        assert forall|k: int| 0 <= k < edges.len() implies lv[(#[trigger] edges[k]).1 as int] == lv[edges[k].0 as int]
            + 1 by {
            let u = edges[k].0;
            let v = edges[k].1;
            let arc = p.spec_arcs()[2 * k];
            assert(arc == (Variable(u), Variable(v)));
            assert(p.spec_check((arc.0, s[arc.0.0 as int]), (arc.1, s[arc.1.0 as int])));
            assert(edges.contains((u, v)));
            assert(path.contains((s[u as int].0, s[v as int].0)));
            let i = path.index_of((s[u as int].0, s[v as int].0));
            assert(path[i] == (i as usize, (i + 1) as usize));
        }
    }
    if is_levelling(edges, n, lv, top) {
        assert(s.len() == n);
        assert forall|x: usize| x < p.spec_size() implies p.spec_domain(Variable(x)).contains(
            #[trigger] s[x as int],
        ) by {
            let dom = p.spec_domain(Variable(x));
            assert(lv[x as int] <= top);
            assert(dom[lv[x as int] as int] == s[x as int]);
        }
        assert forall|a: int| 0 <= a < p.spec_arcs().len() implies p.spec_check(
            ((#[trigger] p.spec_arcs()[a]).0, s[p.spec_arcs()[a].0.0 as int]),
            (p.spec_arcs()[a].1, s[p.spec_arcs()[a].1.0 as int]),
        ) by {
            let e = a / 2;
            let u = edges[e].0;
            let v = edges[e].1;
            assert(edges.contains((u, v)));
            assert(lv[v as int] == lv[u as int] + 1);
            assert(path[lv[u as int] as int] == (lv[u as int], lv[v as int]));
            assert(path.contains((lv[u as int], lv[v as int])));
            if a % 2 == 1 && edges.contains((v, u)) {
                let back = edges.index_of((v, u));
                assert(lv[edges[back].1 as int] == lv[edges[back].0 as int] + 1);
            }
        }
    }
}

/// The levels of the vertices of `g`: for the least `k` below the number of
/// vertices for which the path with `k + 1` edges colours `g`, a colouring
/// by that path. `None` where there is no such `k`.
pub fn levels<G: Digraph>(g: &G) -> (r: Option<Vec<usize>>)
    requires
        g.graph_ok(),
        numbered(g),
        AdjMatrix::can_hold(g.spec_vertices().len() + 1),
    ensures
        r.is_some() ==> least_levels(g.spec_edges(), g.spec_vertices().len(), r.unwrap()@),
        r.is_none() ==> unlevelled(g.spec_edges(), g.spec_vertices().len()),
{
    let n = g.vertex_count();
    let ghost edges = g.spec_edges();
    proof {
        assert(n * n <= (n + 1) * (n + 1)) by (nonlinear_arith)
            requires
                n >= 0,
        ;
        g.lemma_edges_join_vertices();
        assert forall|k: int| 0 <= k < edges.len() implies (#[trigger] edges[k]).0 < n && edges[k].1 < n by {
            let a = g.spec_vertices().index_of(edges[k].0);
            let b = g.spec_vertices().index_of(edges[k].1);
            assert(g.spec_vertices()[a] == a);
            assert(g.spec_vertices()[b] == b);
        }
    }
    let mut k: usize = 0;
    while k < n
        invariant
            k <= n,
            n == g.spec_vertices().len(),
            edges == g.spec_edges(),
            g.graph_ok(),
            numbered(g),
            n * n <= usize::MAX,
            (n + 1) * (n + 1) <= usize::MAX,
            forall|j: int| 0 <= j < edges.len() ==> (#[trigger] edges[j]).0 < n && edges[j].1 < n,
            forall|j: nat| j < k ==> !#[trigger] levelled(edges, n as nat, j + 1),
        decreases n - k,
    {
        let gm = AdjMatrix::build_from(g);
        proof {
            assert forall|j: nat| j <= (k + 2) as nat implies #[trigger] AdjMatrix::holds(j) by {
                assert(j * j <= (n + 1) * (n + 1)) by (nonlinear_arith)
                    requires
                        0 <= j <= n + 1,
                ;
            }
            assert(n + 1 < usize::MAX) by (nonlinear_arith)
                requires
                    (n + 1) * (n + 1) <= usize::MAX,
                    n >= 1,
            ;
        }
        let path: AdjMatrix = directed_path(k + 1);
        let problem = Instance::new(gm, path);
        proof {
            problem.lemma_well_formed();
        }
        let mut solver = BTSolver::new(&problem);
        match solver.solve_first() {
            Some(sol) => {
                let mut lv: Vec<usize> = Vec::new();
                let mut x: usize = 0;
                while x < sol.len()
                    invariant
                        x <= sol.len(),
                        lv.len() == x,
                        forall|j: int| 0 <= j < x ==> #[trigger] lv[j] == sol[j].0,
                    decreases sol.len() - x,
                {
                    lv.push(sol[x].0);
                    x = x + 1;
                }
                proof {
                    assert(lv@ =~= numbers(sol@));
                    lemma_levelling(&problem, edges, n as nat, (k + 1) as nat, sol@);
                    assert(least_levelling(g.spec_edges(), g.spec_vertices().len(), lv@, k as nat));
                    assert(least_levels(g.spec_edges(), g.spec_vertices().len(), lv@));
                }
                return Some(lv);
            },
            None => {
                proof {
                    if levelled(edges, n as nat, (k + 1) as nat) {
                        let lv = choose|lv: Seq<usize>| #[trigger] is_levelling(edges, n as nat, lv, (k + 1) as nat);
                        let s = Seq::new(n as nat, |x: int| Value(lv[x]));
                        assert(numbers(s) =~= lv);
                        lemma_levelling(&problem, edges, n as nat, (k + 1) as nat, s);
                        assert(is_solution(&problem, s));
                    }
                }
            },
        }
        k = k + 1;
    }
    None
}

} // verus!
