//! Oriented trees: connected digraphs without cycles.

pub mod generate;
pub mod node;
pub mod triad;

pub use node::Node;
pub use triad::Triad;

use vstd::prelude::*;
use crate::consistency::ac::{all_single, determined, initial, single, sole_survivor, survives};
use crate::consistency::model::{family_closed, family_consistent, sub_family, supports, Doms};
use crate::consistency::solutions::{countable, lemma_one_solution};
use crate::problem::{is_solution, Constraints, Domains, Value, Variable};
use crate::digraph::traits::{numbered, Digraph, Edges, Vertices};
use crate::digraph::AdjMatrix;
use crate::hcoloring::Instance;

verus! {

/// A rooted tree is a tree in which one vertex is the root.
pub trait Rooted: Digraph {
    /// The root, as a specification.
    spec fn spec_root(&self) -> usize;

    /// The root.
    fn root(&self) -> (r: usize)
        requires
            self.graph_ok(),
        ensures
            r == self.spec_root(),
            self.spec_vertices().contains(r),
    ;
}

impl Rooted for Node {
    open spec fn spec_root(&self) -> usize {
        0
    }

    fn root(&self) -> (r: usize) {
        proof {
            crate::tree::node::lemma_size_bounds(self.shape());
            assert(self.spec_vertices()[0] == 0);
        }
        0
    }
}

/// `p` is the problem of colouring the graph with `n` vertices and the
/// given edges by itself, where every vertex may get any vertex.
pub open spec fn colours_itself(p: &Instance, n: nat, edges: Seq<(usize, usize)>) -> bool {
    &&& p.wf()
    &&& p.source().order() == n
    &&& p.source().arrows() == edges
    &&& p.target().order() == n
    &&& p.target().arrows() == edges
    &&& p.lists() == Seq::new(n, |k: int| Seq::new(n, |j: int| j as usize))
}

/// The lists in which `root` has only itself and each other of `n` vertices
/// all of them.
pub open spec fn rooted_lists(n: nat, root: usize) -> Seq<Seq<usize>> {
    Seq::new(
        n,
        |k: int|
            if k == root {
                seq![root]
            } else {
                Seq::new(n, |j: int| j as usize)
            },
    )
}

/// `p` is the problem of colouring the graph with `n` vertices and the
/// given edges by itself, where `root` may get only itself and every other
/// vertex any vertex.
pub open spec fn colours_itself_rooted(p: &Instance, n: nat, edges: Seq<(usize, usize)>, root: usize) -> bool {
    &&& p.wf()
    &&& p.source().order() == n
    &&& p.source().arrows() == edges
    &&& p.target().order() == n
    &&& p.target().arrows() == edges
    &&& p.lists() == rooted_lists(n, root)
}

/// Arc consistency finds the graph with `n` vertices and the given edges to
/// be a core: on the problem of colouring the graph by itself it leaves
/// every vertex only one colour.
pub open spec fn core_found(n: nat, edges: Seq<(usize, usize)>) -> bool {
    exists|p: Instance| #[trigger] colours_itself(&p, n, edges) && all_single(&p, initial(&p))
}

/// Arc consistency finds the graph with `n` vertices and the given edges to
/// be a core among the graphs with the root `root`.
pub open spec fn rooted_core_found(n: nat, edges: Seq<(usize, usize)>, root: usize) -> bool {
    exists|p: Instance| #[trigger] colours_itself_rooted(&p, n, edges, root) && all_single(&p, initial(&p))
}

/// What arc consistency leaves of a colouring problem depends on its two
/// graphs and its lists only.
pub proof fn lemma_same_problem(p: &Instance, q: &Instance)
    requires
        p.wf(),
        q.wf(),
        p.source().order() == q.source().order(),
        p.source().arrows() == q.source().arrows(),
        p.target().arrows() == q.target().arrows(),
        p.lists() == q.lists(),
    ensures
        all_single(p, initial(p)) == all_single(q, initial(q)),
{
    lemma_same_single(p, q);
    lemma_same_single(q, p);
}

/// One half of `lemma_same_problem`.
pub proof fn lemma_same_single(p: &Instance, q: &Instance)
    requires
        p.wf(),
        q.wf(),
        p.source().order() == q.source().order(),
        p.source().arrows() == q.source().arrows(),
        p.target().arrows() == q.target().arrows(),
        p.lists() == q.lists(),
    ensures
        all_single(p, initial(p)) ==> all_single(q, initial(q)),
{
    let d = initial(p);
    assert(initial(q) =~= d);
    assert forall|f: Seq<Set<usize>>| family_closed(p, d, f) == family_closed(q, d, f) by {
        if family_closed(p, d, f) {
            lemma_same_closed(p, q, d, f);
        }
        if family_closed(q, d, f) {
            lemma_same_closed(q, p, d, f);
        }
    }
    assert forall|x: int, i: usize| survives(p, d, x, i) == survives(q, d, x, i) by {
        if survives(p, d, x, i) {
            let f = choose|f: Seq<Set<usize>>|
                #![trigger sub_family(f, d)]
                sub_family(f, d) && family_closed(p, d, f) && f[x].contains(i);
            assert(sub_family(f, d) && family_closed(q, d, f) && f[x].contains(i));
        }
        if survives(q, d, x, i) {
            let f = choose|f: Seq<Set<usize>>|
                #![trigger sub_family(f, d)]
                sub_family(f, d) && family_closed(q, d, f) && f[x].contains(i);
            assert(sub_family(f, d) && family_closed(p, d, f) && f[x].contains(i));
        }
    }
    if all_single(p, d) {
        assert forall|x: int| 0 <= x < d.len() implies #[trigger] single(q, d, x) by {
            assert(single(p, d, x));
            let i = choose|i: usize| #[trigger] sole_survivor(p, d, x, i);
            assert(survives(q, d, x, i));
            assert forall|j: usize| #[trigger] survives(q, d, x, j) implies j == i by {
                assert(survives(p, d, x, j));
            }
            assert(sole_survivor(q, d, x, i));
        }
    }
}

/// A choice of slots that is consistent along the arcs of one problem is so
/// along those of another with the same graphs.
pub proof fn lemma_same_closed(p: &Instance, q: &Instance, d: Doms, f: Seq<Set<usize>>)
    requires
        p.source().arrows() == q.source().arrows(),
        p.target().arrows() == q.target().arrows(),
        family_closed(p, d, f),
    ensures
        family_closed(q, d, f),
{
    assert forall|k: int| 0 <= k < q.spec_arcs().len() implies family_consistent(
        q,
        d,
        f,
        (#[trigger] q.spec_arcs()[k]).0,
        q.spec_arcs()[k].1,
    ) by {
        let x = q.spec_arcs()[k].0;
        let y = q.spec_arcs()[k].1;
        assert(p.spec_arcs()[k] == (x, y));
        assert(family_consistent(p, d, f, x, y));
        assert forall|i: usize| #[trigger] f[x.0 as int].contains(i) implies exists|j: usize|
            f[y.0 as int].contains(j) && #[trigger] supports(q, d, x, i, y, j) by {
            let j = choose|j: usize| f[y.0 as int].contains(j) && #[trigger] supports(p, d, x, i, y, j);
            assert(supports(q, d, x, i, y, j));
        }
    }
}

/// The valuation that gives each of `n` vertices itself.
pub open spec fn identity(n: nat) -> Seq<Value> {
    Seq::new(n, |v: int| Value(v as usize))
}

/// A graph that arc consistency finds to be a core is one: a map of its
/// vertices that keeps its edges gives every vertex itself, and so is a
/// bijection.
pub proof fn lemma_core_found(p: &Instance, n: nat, edges: Seq<(usize, usize)>, s: Seq<Value>)
    requires
        colours_itself(p, n, edges),
        all_single(p, initial(p)),
        is_solution(p, s),
    ensures
        s == identity(n),
{
    p.lemma_well_formed();
    p.source().lemma_arrows_in_range();
    assert(n < usize::MAX) by (nonlinear_arith)
        requires
            n * n <= usize::MAX,
    ;
    let id = identity(n);
    assert forall|x: usize| x < p.spec_size() implies p.spec_domain(Variable(x)).contains(#[trigger] id[x as int]) by {
        assert(p.spec_domain(Variable(x))[x as int] == Value(x));
    }
    assert forall|k: int| 0 <= k < p.spec_arcs().len() implies p.spec_check(
        ((#[trigger] p.spec_arcs()[k]).0, id[p.spec_arcs()[k].0.0 as int]),
        (p.spec_arcs()[k].1, id[p.spec_arcs()[k].1.0 as int]),
    ) by {
        let e = edges[k / 2];
        assert(edges.contains(e));
        assert(e.0 < n && e.1 < n);
    }
    assert(is_solution(p, id));
    assert(countable(p));
    lemma_one_solution(p, s, id);
}

/// The graph with one vertex and no edge is found to be a core: on the
/// problem of colouring it by itself the one vertex has the one colour.
pub proof fn lemma_one_vertex(p: &Instance)
    requires
        colours_itself(p, 1, Seq::empty()),
    ensures
        all_single(p, initial(p)),
{
    let d = initial(p);
    let dom = p.spec_domain(Variable(0));
    assert(p.lists()[0] =~= seq![0usize]);
    assert(dom =~= seq![crate::problem::Value(0)]);
    crate::domains::Chain::lemma_fresh(dom);
    assert(d[0] == crate::domains::Chain::fresh(dom));
    assert(d[0].order =~= seq![1usize]);
    let f = seq![Set::new(|i: usize| i == 1)];
    assert(sub_family(f, d)) by {
        assert forall|x: int, i: usize| 0 <= x < d.len() && (#[trigger] f[x].contains(i)) implies d[x].order.contains(
            i,
        ) by {
            assert(d[0].order[0] == 1usize);
        }
    }
    assert(family_closed(p, d, f)) by {
        assert(p.spec_arcs().len() == 0);
    }
    assert(f[0].contains(1usize));
    assert(survives(p, d, 0, 1usize));
    assert forall|j: usize| #[trigger] survives(p, d, 0, j) implies j == 1 by {
        let g = choose|g: Seq<Set<usize>>|
            #![trigger sub_family(g, d)]
            sub_family(g, d) && family_closed(p, d, g) && g[0].contains(j);
        assert(d[0].order.contains(j));
        assert(d[0].order[d[0].order.index_of(j)] == j);
    }
    assert(sole_survivor(p, d, 0, 1usize));
    assert forall|x: int| 0 <= x < d.len() implies #[trigger] single(p, d, x) by {
        assert(x == 0);
    }
}

/// Whether the tree is found to be a core: whether arc consistency, on the
/// problem of colouring the tree by itself, leaves every vertex only one
/// colour.
pub fn is_core_tree<T: Digraph>(t: &T) -> (r: bool)
    requires
        t.graph_ok(),
        numbered(t),
        AdjMatrix::can_hold(t.spec_vertices().len()),
    ensures
        r == core_found(t.spec_vertices().len(), t.spec_edges()),
{
    let mat = AdjMatrix::build_from(t);
    let problem = Instance::new(mat.clone(), mat);
    proof {
        problem.lemma_well_formed();
    }
    let r = determined(&problem);
    proof {
        let n = t.spec_vertices().len();
        let edges = t.spec_edges();
        assert(colours_itself(&problem, n, edges));
        if core_found(n, edges) {
            let p = choose|p: Instance| #[trigger] colours_itself(&p, n, edges) && all_single(&p, initial(&p));
            lemma_same_problem(&p, &problem);
        }
    }
    r
}

/// Whether the rooted tree is found to be a core among rooted trees:
/// whether arc consistency, on the problem of colouring the tree by itself
/// with the root coloured by itself, leaves every vertex only one colour.
pub fn is_rooted_core_tree<R: Rooted>(rt: &R) -> (r: bool)
    requires
        rt.graph_ok(),
        numbered(rt),
        AdjMatrix::can_hold(rt.spec_vertices().len()),
    ensures
        r == rooted_core_found(rt.spec_vertices().len(), rt.spec_edges(), rt.spec_root()),
{
    let root = rt.root();
    let mat = AdjMatrix::build_from(rt);
    let n = mat.vertex_count();
    let mut lists: Vec<Vec<usize>> = Vec::new();
    let mut v: usize = 0;
    while v < n
        invariant
            v <= n,
            mat.wf(),
            n == mat.order(),
            lists.len() == v,
            forall|k: int|
                0 <= k < v ==> (#[trigger] lists[k])@ == (if k == root {
                    seq![root]
                } else {
                    Seq::new(n as nat, |j: int| j as usize)
                }),
        decreases n - v,
    {
        if v == root {
            let mut one: Vec<usize> = Vec::new();
            one.push(root);
            assert(one@ =~= seq![root]);
            lists.push(one);
        } else {
            lists.push(mat.vertices());
        }
        v = v + 1;
    }
    let problem = Instance::from_lists(mat.clone(), mat, lists);
    proof {
        problem.lemma_well_formed();
    }
    let r = determined(&problem);
    proof {
        assert(problem.lists() =~= rooted_lists(n as nat, root));
        assert(problem.source().order() == rt.spec_vertices().len());
        assert(problem.source().arrows() == rt.spec_edges());
        assert(problem.target().arrows() == rt.spec_edges());
        let m = rt.spec_vertices().len();
        let edges = rt.spec_edges();
        assert(colours_itself_rooted(&problem, m, edges, root));
        if rooted_core_found(m, edges, root) {
            let p = choose|p: Instance| #[trigger]
                colours_itself_rooted(&p, m, edges, root) && all_single(&p, initial(&p));
            lemma_same_problem(&p, &problem);
        }
        assert(r == rooted_core_found(m, edges, root));
    }
    r
}

} // verus!
