//! Named families of graphs: paths, cycles, tournaments, complete graphs.

use vstd::prelude::*;

verus! {

/// A graph that can be built vertex by vertex and edge by edge. Its vertices
/// are numbered in the order in which they are added.
pub trait Buildable: Sized {
    /// Whether a graph of this type can have `n` vertices.
    spec fn holds(n: nat) -> bool;

    /// What the graph needs to hold of itself.
    spec fn built_ok(&self) -> bool;

    /// The number of vertices.
    spec fn built_vertices(&self) -> nat;

    /// The edges, in the order in which they were added.
    spec fn built_edges(&self) -> Seq<(usize, usize)>;

    /// A graph without vertices, with room for the given numbers of vertices
    /// and edges.
    fn with_capacities(nvertices: usize, nedges: usize) -> (r: Self)
        ensures
            r.built_ok(),
            r.built_vertices() == 0,
            r.built_edges().len() == 0,
    ;

    /// Gives back room that is not used.
    fn shrink_to_fit(&mut self)
        requires
            old(self).built_ok(),
        ensures
            final(self).built_ok(),
            final(self).built_vertices() == old(self).built_vertices(),
            final(self).built_edges() == old(self).built_edges(),
    ;

    /// Whether a graph of this type can have any number of vertices up to
    /// `n`.
    fn has_room(n: usize) -> (r: bool)
        ensures
            r == (forall|k: nat| k <= n ==> #[trigger] Self::holds(k)),
    ;

    /// Adds a vertex and returns its number.
    fn add_vertex(&mut self) -> (r: usize)
        requires
            old(self).built_ok(),
            Self::holds(old(self).built_vertices() + 1),
        ensures
            final(self).built_ok(),
            r == old(self).built_vertices(),
            final(self).built_vertices() == old(self).built_vertices() + 1,
            final(self).built_edges() == old(self).built_edges(),
    ;

    /// Adds an edge from `u` to `v`.
    fn add_edge(&mut self, u: usize, v: usize)
        requires
            old(self).built_ok(),
            u < old(self).built_vertices(),
            v < old(self).built_vertices(),
        ensures
            final(self).built_ok(),
            final(self).built_vertices() == old(self).built_vertices(),
            final(self).built_edges() == old(self).built_edges().push((u, v)),
    ;
}

/// A graph of type `G` can have any number of vertices up to `n`.
pub open spec fn roomy<G: Buildable>(n: nat) -> bool {
    forall|k: nat| k <= n ==> #[trigger] G::holds(k)
}

/// Adds `n` vertices to a graph that has none.
fn add_vertices<G: Buildable>(g: &mut G, n: usize)
    requires
        old(g).built_ok(),
        old(g).built_vertices() == 0,
        roomy::<G>(n as nat),
    ensures
        final(g).built_ok(),
        final(g).built_vertices() == n,
        final(g).built_edges() == old(g).built_edges(),
{
    let mut k: usize = 0;
    while k < n
        invariant
            k <= n,
            g.built_ok(),
            g.built_vertices() == k,
            g.built_edges() == old(g).built_edges(),
            roomy::<G>(n as nat),
        decreases n - k,
    {
        assert(G::holds((k + 1) as nat));
        g.add_vertex();
        k = k + 1;
    }
}

/// The edges of the path with `m` edges: from each vertex to the next.
pub open spec fn path_edges(m: nat) -> Seq<(usize, usize)> {
    Seq::new(m, |k: int| (k as usize, (k + 1) as usize))
}

/// The edges of the cycle of length `n`: from each vertex to the next, and
/// from the last to the first.
pub open spec fn cycle_edges(n: nat) -> Seq<(usize, usize)> {
    Seq::new(n, |k: int| (k as usize, if k + 1 == n { 0usize } else { (k + 1) as usize }))
}

/// The edges of the transitive tournament on `n` vertices from vertex `i`
/// on: from each vertex to every later one, by the first and then by the
/// second.
pub open spec fn tournament_edges(n: nat, i: nat) -> Seq<(usize, usize)>
    decreases n - i,
{
    if i >= n {
        Seq::empty()
    } else {
        Seq::new((n - i - 1) as nat, |k: int| (i as usize, (i + 1 + k) as usize)) + tournament_edges(
            n,
            i + 1,
        )
    }
}

/// The edges of the complete graph on `n` vertices from vertex `i` on: for
/// each vertex and every later one the edge there and the edge back.
pub open spec fn complete_edges(n: nat, i: nat) -> Seq<(usize, usize)>
    decreases n - i,
{
    if i >= n {
        Seq::empty()
    } else {
        Seq::new(
            (2 * (n - i - 1)) as nat,
            |k: int|
                if k % 2 == 0 {
                    (i as usize, (i + 1 + k / 2) as usize)
                } else {
                    ((i + 1 + k / 2) as usize, i as usize)
                },
        ) + complete_edges(n, i + 1)
    }
}

/// The directed path with `m` edges, on the vertices 0 to `m`.
pub fn directed_path<G: Buildable>(m: usize) -> (g: G)
    requires
        m < usize::MAX,
        roomy::<G>((m + 1) as nat),
    ensures
        g.built_ok(),
        g.built_vertices() == m + 1,
        g.built_edges() == path_edges(m as nat),
{
    let mut g = G::with_capacities(m + 1, m);
    add_vertices(&mut g, m + 1);
    let mut k: usize = 0;
    while k < m
        invariant
            k <= m < usize::MAX,
            g.built_ok(),
            g.built_vertices() == m + 1,
            g.built_edges() =~= path_edges(k as nat),
        decreases m - k,
    {
        g.add_edge(k, k + 1);
        k = k + 1;
    }
    g
}

/// The directed cycle of length `n`, on the vertices 0 to `n - 1`.
pub fn directed_cycle<G: Buildable>(n: usize) -> (g: G)
    requires
        roomy::<G>(n as nat),
    ensures
        g.built_ok(),
        g.built_vertices() == n,
        g.built_edges() == cycle_edges(n as nat),
{
    let mut g = G::with_capacities(n, n);
    add_vertices(&mut g, n);
    let mut k: usize = 0;
    while k < n
        invariant
            k <= n,
            g.built_ok(),
            g.built_vertices() == n,
            g.built_edges().len() == k,
            forall|j: int| 0 <= j < k ==> #[trigger] g.built_edges()[j] == cycle_edges(n as nat)[j],
        decreases n - k,
    {
        let next = if k + 1 == n { 0 } else { k + 1 };
        g.add_edge(k, next);
        k = k + 1;
    }
    proof {
        assert(g.built_edges() =~= cycle_edges(n as nat));
    }
    g
}

/// Half of `n * (n - 1)`, or the largest `usize` where the product is more
/// than that: the room that the edges of a tournament need.
fn pairs(n: usize) -> (r: usize)
    ensures
        r == if n * (n - 1) <= usize::MAX {
            (n * (n - 1) / 2) as usize
        } else {
            usize::MAX
        },
{
    if n <= 1 {
        proof {
            assert(n * (n - 1) == 0) by (nonlinear_arith)
                requires
                    0 <= n <= 1,
            ;
        }
        0
    } else if n - 1 <= usize::MAX / n {
        proof {
            assert(n * (n - 1) <= usize::MAX) by (nonlinear_arith)
                requires
                    n - 1 <= usize::MAX as int / n as int,
                    n >= 1,
            ;
        }
        n * (n - 1) / 2
    } else {
        proof {
            assert(n * (n - 1) > usize::MAX) by (nonlinear_arith)
                requires
                    n - 1 > usize::MAX as int / n as int,
                    n >= 2,
            ;
        }
        usize::MAX
    }
}

/// The transitive tournament on `n` vertices: an edge from each vertex to
/// every later one.
pub fn transitive_tournament<G: Buildable>(n: usize) -> (g: G)
    requires
        roomy::<G>(n as nat),
    ensures
        g.built_ok(),
        g.built_vertices() == n,
        g.built_edges() == tournament_edges(n as nat, 0),
{
    let mut g = G::with_capacities(n, pairs(n));
    add_vertices(&mut g, n);
    let mut i: usize = n;
    // The edges are specified from the last vertex down; they are added from
    // the first vertex up.
    let mut u: usize = 0;
    let ghost mut done: Seq<(usize, usize)> = Seq::empty();
    while u < n
        invariant
            u <= n,
            g.built_ok(),
            g.built_vertices() == n,
            g.built_edges() == done,
            done + tournament_edges(n as nat, u as nat) == tournament_edges(n as nat, 0),
        decreases n - u,
    {
        let ghost row = Seq::new((n - u - 1) as nat, |k: int| (u as usize, (u + 1 + k) as usize));
        let mut v: usize = u + 1;
        while v < n
            invariant
                u < v <= n,
                g.built_ok(),
                g.built_vertices() == n,
                g.built_edges() == done + row.take(v - u - 1),
                row == Seq::new((n - u - 1) as nat, |k: int| (u as usize, (u + 1 + k) as usize)),
            decreases n - v,
        {
            g.add_edge(u, v);
            proof {
                assert(row.take(v - u) =~= row.take(v - u - 1).push((u, v)));
                assert(done + row.take(v - u) =~= (done + row.take(v - u - 1)).push((u, v)));
            }
            v = v + 1;
        }
        proof {
            assert(row.take(n - u - 1) =~= row);
            assert(tournament_edges(n as nat, u as nat) == row + tournament_edges(n as nat, (u + 1) as nat));
            assert((done + row) + tournament_edges(n as nat, (u + 1) as nat) =~= done + (row
                + tournament_edges(n as nat, (u + 1) as nat)));
            done = done + row;
        }
        u = u + 1;
    }
    proof {
        assert(done + Seq::<(usize, usize)>::empty() =~= done);
    }
    g
}

/// The complete graph on `n` vertices: an edge from each vertex to every
/// other one.
pub fn complete_digraph<G: Buildable>(n: usize) -> (g: G)
    requires
        roomy::<G>(n as nat),
    ensures
        g.built_ok(),
        g.built_vertices() == n,
        g.built_edges() == complete_edges(n as nat, 0),
{
    let mut g = G::with_capacities(n, pairs(n));
    add_vertices(&mut g, n);
    let mut u: usize = 0;
    let ghost mut done: Seq<(usize, usize)> = Seq::empty();
    while u < n
        invariant
            u <= n,
            g.built_ok(),
            g.built_vertices() == n,
            g.built_edges() == done,
            done + complete_edges(n as nat, u as nat) == complete_edges(n as nat, 0),
        decreases n - u,
    {
        let ghost row = Seq::new(
            (2 * (n - u - 1)) as nat,
            |k: int|
                if k % 2 == 0 {
                    (u as usize, (u + 1 + k / 2) as usize)
                } else {
                    ((u + 1 + k / 2) as usize, u as usize)
                },
        );
        let mut v: usize = u + 1;
        while v < n
            invariant
                u < v <= n,
                g.built_ok(),
                g.built_vertices() == n,
                g.built_edges() == done + row.take(2 * (v - u - 1)),
                row == Seq::new(
                    (2 * (n - u - 1)) as nat,
                    |k: int|
                        if k % 2 == 0 {
                            (u as usize, (u + 1 + k / 2) as usize)
                        } else {
                            ((u + 1 + k / 2) as usize, u as usize)
                        },
                ),
            decreases n - v,
        {
            g.add_edge(u, v);
            g.add_edge(v, u);
            proof {
                let a = 2 * (v - u - 1);
                assert(row[a] == (u, v));
                assert(row[a + 1] == (v, u));
                assert(row.take(a + 2) =~= row.take(a).push((u, v)).push((v, u)));
                assert(done + row.take(a + 2) =~= (done + row.take(a)).push((u, v)).push((v, u)));
            }
            v = v + 1;
        }
        proof {
            assert(row.take(2 * (n - u - 1)) =~= row);
            assert(complete_edges(n as nat, u as nat) == row + complete_edges(n as nat, (u + 1) as nat));
            assert((done + row) + complete_edges(n as nat, (u + 1) as nat) =~= done + (row + complete_edges(
                n as nat,
                (u + 1) as nat,
            )));
            done = done + row;
        }
        u = u + 1;
    }
    proof {
        assert(done + Seq::<(usize, usize)>::empty() =~= done);
    }
    g
}

} // verus!
