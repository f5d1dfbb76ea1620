//! The H-colouring problem: is there a homomorphism from a graph G to a
//! graph H that gives each vertex of G a vertex of its list?

use vstd::prelude::*;
use crate::digraph::traits::{Edges, Vertices};
use crate::digraph::AdjMatrix;
use crate::problem::{well_formed, Constraints, Domains, Problem, Value, Variable};

verus! {

/// The arcs of the problem: each edge of G, followed by its reverse.
pub open spec fn arcs_of(edges: Seq<(usize, usize)>) -> Seq<(Variable, Variable)> {
    Seq::new(
        2 * edges.len(),
        |k: int|
            if k % 2 == 0 {
                (Variable(edges[k / 2].0), Variable(edges[k / 2].1))
            } else {
                (Variable(edges[k / 2].1), Variable(edges[k / 2].0))
            },
    )
}

/// All vertices of a graph with `n` vertices, as values.
pub open spec fn all_values(n: nat) -> Seq<Value> {
    Seq::new(n, |k: int| Value(k as usize))
}

/// The given vertices, as values.
pub open spec fn as_values(list: Seq<usize>) -> Seq<Value> {
    Seq::new(list.len(), |k: int| Value(list[k]))
}

/// The list of a vertex for which a precolouring gave `p`: the one vertex
/// that it named, or all `n` vertices.
pub open spec fn precoloured(p: Option<usize>, n: nat) -> Seq<usize> {
    match p {
        Some(w) => seq![w],
        None => Seq::new(n, |j: int| j as usize),
    }
}

/// `list` is the list that follows from some answer of `c` about `v`.
pub open spec fn coloured_by<FP: Fn(usize) -> Option<usize>>(c: FP, v: usize, list: Seq<usize>, n: nat) -> bool {
    exists|p: Option<usize>| #[trigger] call_ensures(c, (v,), p) && list == precoloured(p, n)
}

/// `list` is some answer of `l` about `v`.
pub open spec fn listed_by<FL: Fn(usize) -> Vec<usize>>(l: FL, v: usize, list: Seq<usize>) -> bool {
    exists|out: Vec<usize>| #[trigger] call_ensures(l, (v,), out) && out@ == list
}

/// An instance of the H-colouring problem.
pub struct Instance {
    domains: Vec<Vec<usize>>,
    g: AdjMatrix,
    h: AdjMatrix,
}

impl Instance {
    /// The graph to be coloured.
    pub closed spec fn source(&self) -> AdjMatrix {
        self.g
    }

    /// The graph whose vertices are the colours.
    pub closed spec fn target(&self) -> AdjMatrix {
        self.h
    }

    /// The list of each vertex of the graph to be coloured.
    pub closed spec fn lists(&self) -> Seq<Seq<usize>> {
        Seq::new(self.domains@.len(), |k: int| self.domains@[k]@)
    }

    /// Both graphs are well formed, and every vertex of the graph to be
    /// coloured has a list.
    pub closed spec fn wf(&self) -> bool {
        &&& self.g.wf()
        &&& self.h.wf()
        &&& self.domains@.len() == self.g.order()
    }

    #[verifier::type_invariant]
    spec fn inv(&self) -> bool {
        self.wf()
    }

    /// Where no list holds a vertex twice, the domains that the problem
    /// starts with hold no value in two slots: the solver then returns no
    /// solution twice.
    pub proof fn lemma_distinct_lists(&self)
        requires
            self.wf(),
            forall|k: int| 0 <= k < self.lists().len() ==> (#[trigger] self.lists()[k]).no_duplicates(),
        ensures
            crate::solver::model::distinct(crate::consistency::ac::initial(self)),
    {
        self.lemma_well_formed();
        self.source().lemma_numbered();
        assert forall|x: usize| x < self.spec_size() implies (#[trigger] self.spec_domain(Variable(x))).no_duplicates() by {
            let list = self.lists()[x as int];
            let dom = self.spec_domain(Variable(x));
            assert(list.no_duplicates());
            assert forall|i: int, j: int| 0 <= i < dom.len() && 0 <= j < dom.len() && i != j implies dom[i] != dom[j] by {
                assert(list[i] != list[j]);
            }
        }
        crate::solver::model::lemma_distinct_initial(self);
    }

    /// The instance fits the solver: its arcs join its variables. Its two
    /// graphs are well formed, and it has a list for every vertex.
    pub proof fn lemma_well_formed(&self)
        requires
            self.wf(),
        ensures
            well_formed(self),
            self.source().wf(),
            self.target().wf(),
            self.lists().len() == self.source().order(),
    {
        self.g.lemma_arrows_in_range();
        assert forall|k: int| 0 <= k < self.spec_arcs().len() implies (#[trigger] self.spec_arcs()[k]).0.0
            < self.spec_size() && self.spec_arcs()[k].1.0 < self.spec_size() by {
            let e = self.g.arrows()[k / 2];
            assert(e.0 < self.g.order() && e.1 < self.g.order());
        }
    }

    /// The instance in which every vertex of `g` may get any vertex of `h`.
    pub fn new(g: AdjMatrix, h: AdjMatrix) -> (r: Instance)
        requires
            g.wf(),
            h.wf(),
        ensures
            r.wf(),
            r.source() == g,
            r.target() == h,
            r.lists() == Seq::new(g.order(), |k: int| Seq::new(h.order(), |j: int| j as usize)),
    {
        let n = g.vertex_count();
        let mut domains: Vec<Vec<usize>> = Vec::new();
        let mut k: usize = 0;
        while k < n
            invariant
                k <= n,
                h.wf(),
                domains.len() == k,
                forall|j: int| 0 <= j < k ==> (#[trigger] domains[j])@ == h.spec_vertices(),
            decreases n - k,
        {
            domains.push(h.vertices());
            k = k + 1;
        }
        let r = Instance { domains, g, h };
        proof {
            assert(r.lists() =~= Seq::new(g.order(), |k: int| Seq::new(h.order(), |j: int| j as usize)));
        }
        r
    }

    /// The instance in which a vertex of `g` for which `c` names a vertex of
    /// `h` may get only that one, and every other vertex of `g` any vertex
    /// of `h`.
    pub fn with_precoloring<FP: Fn(usize) -> Option<usize>>(g: AdjMatrix, h: AdjMatrix, c: FP) -> (r:
        Instance)
        requires
            g.wf(),
            h.wf(),
            forall|v: usize| v < g.order() ==> call_requires(c, (v,)),
        ensures
            r.wf(),
            r.source() == g,
            r.target() == h,
            r.lists().len() == g.order(),
            forall|v: usize| v < g.order() ==> coloured_by(c, v, #[trigger] r.lists()[v as int], h.order()),
    {
        let n = g.vertex_count();
        let mut domains: Vec<Vec<usize>> = Vec::new();
        let mut v: usize = 0;
        while v < n
            invariant
                v <= n,
                n == g.order(),
                h.wf(),
                domains.len() == v,
                forall|u: usize| u < g.order() ==> call_requires(c, (u,)),
                forall|u: usize| u < v ==> coloured_by(c, u, (#[trigger] domains[u as int])@, h.order()),
            decreases n - v,
        {
            let p = c(v);
            let list = match p {
                Some(w) => {
                    let mut one: Vec<usize> = Vec::new();
                    one.push(w);
                    assert(one@ =~= seq![w]);
                    one
                },
                None => h.vertices(),
            };
            proof {
                assert(call_ensures(c, (v,), p) && list@ == precoloured(p, h.order()));
            }
            domains.push(list);
            v = v + 1;
        }
        let r = Instance { domains, g, h };
        proof {
            assert forall|u: usize| u < g.order() implies coloured_by(
                c,
                u,
                #[trigger] r.lists()[u as int],
                h.order(),
            ) by {
                assert(r.lists()[u as int] == r.domains[u as int]@);
            }
        }
        r
    }

    /// The instance in which each vertex of `g` may get the vertices that
    /// `l` lists for it.
    pub fn with_lists<FL: Fn(usize) -> Vec<usize>>(g: AdjMatrix, h: AdjMatrix, l: FL) -> (r: Instance)
        requires
            g.wf(),
            h.wf(),
            forall|v: usize| v < g.order() ==> call_requires(l, (v,)),
        ensures
            r.wf(),
            r.source() == g,
            r.target() == h,
            r.lists().len() == g.order(),
            forall|v: usize| v < g.order() ==> listed_by(l, v, #[trigger] r.lists()[v as int]),
    {
        let n = g.vertex_count();
        let mut domains: Vec<Vec<usize>> = Vec::new();
        let mut v: usize = 0;
        while v < n
            invariant
                v <= n,
                n == g.order(),
                domains.len() == v,
                forall|u: usize| u < g.order() ==> call_requires(l, (u,)),
                forall|u: usize| u < v ==> call_ensures(l, (u,), #[trigger] domains[u as int]),
            decreases n - v,
        {
            domains.push(l(v));
            v = v + 1;
        }
        let r = Instance { domains, g, h };
        proof {
            assert forall|u: usize| u < g.order() implies listed_by(l, u, #[trigger] r.lists()[u as int]) by {
                assert(call_ensures(l, (u,), r.domains[u as int]));
                assert(r.lists()[u as int] == r.domains[u as int]@);
            }
        }
        r
    }

    /// Replaces the lists by the given ones.
    pub fn set_lists(&mut self, lists: Vec<Vec<usize>>)
        requires
            old(self).wf(),
            lists@.len() == old(self).source().order(),
        ensures
            final(self).wf(),
            final(self).source() == old(self).source(),
            final(self).target() == old(self).target(),
            final(self).lists() == Seq::new(lists@.len(), |k: int| lists@[k]@),
    {
        proof {
            use_type_invariant(&*self);
        }
        self.domains = lists;
    }

    /// The list of the vertex `v`.
    pub fn list(&self, v: usize) -> (r: Vec<usize>)
        requires
            self.wf(),
            v < self.source().order(),
        ensures
            r@ == self.lists()[v as int],
    {
        let list = &self.domains[v];
        let mut r: Vec<usize> = Vec::new();
        let mut k: usize = 0;
        while k < list.len()
            invariant
                k <= list.len(),
                r@ == list@.take(k as int),
            decreases list.len() - k,
        {
            r.push(list[k]);
            proof {
                assert(r@ =~= list@.take(k as int + 1));
            }
            k = k + 1;
        }
        proof {
            assert(list@.take(list@.len() as int) =~= list@);
        }
        r
    }

    /// The instance with the given list for each vertex of `g`.
    pub fn from_lists(g: AdjMatrix, h: AdjMatrix, lists: Vec<Vec<usize>>) -> (r: Instance)
        requires
            g.wf(),
            h.wf(),
            lists@.len() == g.order(),
        ensures
            r.wf(),
            r.source() == g,
            r.target() == h,
            r.lists() == Seq::new(lists@.len(), |k: int| lists@[k]@),
    {
        Instance { domains: lists, g, h }
    }
}

impl Constraints for Instance {
    open spec fn spec_arcs(&self) -> Seq<(Variable, Variable)> {
        arcs_of(self.source().arrows())
    }

    open spec fn admits(&self, a: (Variable, Value)) -> bool {
        true
    }

    open spec fn spec_check(&self, ai: (Variable, Value), aj: (Variable, Value)) -> bool {
        if self.source().arrows().contains((ai.0.0, aj.0.0)) {
            self.target().arrows().contains((ai.1.0, aj.1.0))
        } else if self.source().arrows().contains((aj.0.0, ai.0.0)) {
            self.target().arrows().contains((aj.1.0, ai.1.0))
        } else {
            true
        }
    }

    fn arcs(&self) -> (r: Vec<(Variable, Variable)>) {
        proof {
            use_type_invariant(self);
        }
        let edges = self.g.edges();
        let mut r: Vec<(Variable, Variable)> = Vec::new();
        let mut k: usize = 0;
        while k < edges.len()
            invariant
                k <= edges.len(),
                edges@ == self.g.arrows(),
                r.len() == 2 * k,
                forall|j: int| 0 <= j < 2 * k ==> #[trigger] r[j] == arcs_of(edges@)[j],
            decreases edges.len() - k,
        {
            let (u, v) = edges[k];
            r.push((Variable(u), Variable(v)));
            r.push((Variable(v), Variable(u)));
            k = k + 1;
        }
        proof {
            assert(r@ =~= self.spec_arcs());
        }
        r
    }

    fn check(&self, ai: (Variable, Value), aj: (Variable, Value)) -> (r: bool) {
        proof {
            use_type_invariant(self);
        }
        if self.g.has_edge(ai.0.0, aj.0.0) {
            return self.h.has_edge(ai.1.0, aj.1.0);
        }
        if self.g.has_edge(aj.0.0, ai.0.0) {
            return self.h.has_edge(aj.1.0, ai.1.0);
        }
        true
    }
}

impl Domains for Instance {
    open spec fn spec_size(&self) -> nat {
        self.source().order()
    }

    open spec fn spec_domain(&self, x: Variable) -> Seq<Value> {
        as_values(self.lists()[x.0 as int])
    }

    fn size(&self) -> (r: usize) {
        proof {
            use_type_invariant(self);
        }
        self.g.vertex_count()
    }

    fn domain(&self, x: Variable) -> (r: Vec<Value>) {
        proof {
            use_type_invariant(self);
        }
        let list = &self.domains[x.0];
        let mut r: Vec<Value> = Vec::new();
        let mut k: usize = 0;
        while k < list.len()
            invariant
                k <= list.len(),
                r.len() == k,
                forall|j: int| 0 <= j < k ==> #[trigger] r[j] == Value(list[j]),
            decreases list.len() - k,
        {
            r.push(Value(list[k]));
            k = k + 1;
        }
        proof {
            assert(r@ =~= self.spec_domain(x));
        }
        r
    }
}

impl Problem for Instance {

}

} // verus!
