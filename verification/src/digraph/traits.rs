//! What a graph offers: its vertices and its edges. The vertices of the
//! graphs of this library are numbers.

use vstd::prelude::*;

verus! {

/// A graph whose vertices are numbers.
pub trait GraphType {
    /// What the graph needs to hold of itself, as a specification.
    spec fn graph_ok(&self) -> bool;
}

/// The vertices of a graph.
pub trait Vertices: GraphType {
    /// The vertices, in order, as a specification.
    spec fn spec_vertices(&self) -> Seq<usize>;

    /// The vertices, in order.
    fn vertices(&self) -> (r: Vec<usize>)
        requires
            self.graph_ok(),
        ensures
            r@ == self.spec_vertices(),
    ;

    /// The number of vertices.
    fn vertex_count(&self) -> (r: usize)
        requires
            self.graph_ok(),
        ensures
            r == self.spec_vertices().len(),
    ;

    /// Whether `v` is a vertex of the graph.
    fn has_vertex(&self, v: usize) -> (r: bool)
        requires
            self.graph_ok(),
        ensures
            r == self.spec_vertices().contains(v),
    ;
}

/// The edges of a graph.
pub trait Edges: GraphType {
    /// The edges, in order, as a specification.
    spec fn spec_edges(&self) -> Seq<(usize, usize)>;

    /// The edges, in order.
    fn edges(&self) -> (r: Vec<(usize, usize)>)
        requires
            self.graph_ok(),
        ensures
            r@ == self.spec_edges(),
    ;

    /// The number of edges.
    fn edge_count(&self) -> (r: usize)
        requires
            self.graph_ok(),
        ensures
            r == self.spec_edges().len(),
    ;

    /// Whether the graph has an edge from `u` to `v`.
    fn has_edge(&self, u: usize, v: usize) -> (r: bool)
        requires
            self.graph_ok(),
        ensures
            r == self.spec_edges().contains((u, v)),
    ;
}

/// A graph with vertices and edges.
pub trait GraphSize: Vertices + Edges {

}

/// A directed graph: every edge joins two of its vertices.
pub trait Digraph: Vertices + Edges {
    /// Both ends of every edge are vertices.
    proof fn lemma_edges_join_vertices(&self)
        requires
            self.graph_ok(),
        ensures
            forall|k: int|
                0 <= k < self.spec_edges().len() ==> self.spec_vertices().contains(
                    (#[trigger] self.spec_edges()[k]).0,
                ) && self.spec_vertices().contains(self.spec_edges()[k].1),
    ;
}

/// The vertices of `g` are the numbers below their count, in order.
pub open spec fn numbered<G: Vertices>(g: &G) -> bool {
    forall|k: int| 0 <= k < g.spec_vertices().len() ==> #[trigger] g.spec_vertices()[k] == k
}

} // verus!
