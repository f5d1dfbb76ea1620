//! A directed graph on the vertices 0 to n - 1, held as a matrix of bits
//! beside the list of its edges.

use vstd::prelude::*;
use vstd::arithmetic::div_mod::lemma_fundamental_div_mod_converse;
use crate::digraph::classes::Buildable;
use crate::digraph::traits::{Digraph, Edges, GraphSize, GraphType, Vertices};

verus! {

/// `bit_vec::BitVec`, a vector of bits. Nothing inside it is seen here: what
/// it holds is spoken of as `bits`.
#[verifier::external_type_specification]
#[verifier::external_body]
#[verifier::reject_recursive_types(B)]
pub struct ExBitVec<B>(bit_vec::BitVec<B>);

/// The bits that a `bit_vec::BitVec` holds, in order.
pub uninterp spec fn bits(b: bit_vec::BitVec<u32>) -> Seq<bool>;

/// A vector of no bits, from `BitVec::default`.
#[verifier::external_body]
fn bits_new() -> (r: bit_vec::BitVec<u32>)
    ensures
        bits(r).len() == 0,
{
    bit_vec::BitVec::default()
}

/// A vector of no bits with room for `n`, from `BitVec::with_capacity`,
/// which sets the capacity and leaves the length at 0.
#[verifier::external_body]
fn bits_with_capacity(n: usize) -> (r: bit_vec::BitVec<u32>)
    ensures
        bits(r).len() == 0,
{
    bit_vec::BitVec::with_capacity(n)
}

/// Appends `items` by `BitVec::extend`, which pushes them one by one. A push
/// panics where the length would pass the largest `usize`.
#[verifier::external_body]
fn bits_extend(b: &mut bit_vec::BitVec<u32>, items: Vec<bool>)
    requires
        bits(*old(b)).len() + items@.len() <= usize::MAX,
    ensures
        bits(*final(b)) == bits(*old(b)) + items@,
{
    b.extend(items)
}

/// Sets bit `i` to `x` by `BitVec::set`, which panics where `i` is not below
/// the length and changes no other bit.
#[verifier::external_body]
fn bits_set(b: &mut bit_vec::BitVec<u32>, i: usize, x: bool)
    requires
        i < bits(*old(b)).len(),
    ensures
        bits(*final(b)) == bits(*old(b)).update(i as int, x),
{
    b.set(i, x)
}

/// Bit `i`, by the index operator of `BitVec`, which panics where `i` is not
/// below the length.
#[verifier::external_body]
fn bits_get(b: &bit_vec::BitVec<u32>, i: usize) -> (r: bool)
    requires
        i < bits(*b).len(),
    ensures
        r == bits(*b)[i as int],
{
    b[i]
}

/// Sets every bit to false by `BitVec::clear`, which keeps the length.
#[verifier::external_body]
fn bits_clear(b: &mut bit_vec::BitVec<u32>)
    ensures
        bits(*final(b)) == Seq::new(bits(*old(b)).len(), |i: int| false),
{
    b.clear()
}

/// Gives back unused room by `BitVec::shrink_to_fit`, which changes no bit.
#[verifier::external_body]
fn bits_shrink(b: &mut bit_vec::BitVec<u32>)
    ensures
        bits(*final(b)) == bits(*old(b)),
{
    b.shrink_to_fit()
}

/// A copy by the `Clone` of `BitVec`, which copies the bits and the length.
#[verifier::external_body]
fn bits_clone(b: &bit_vec::BitVec<u32>) -> (r: bit_vec::BitVec<u32>)
    ensures
        bits(r) == bits(*b),
{
    b.clone()
}

/// The place of the pair `(u, v)` in a matrix of `n` columns is its own, and
/// lies within the matrix.
pub proof fn lemma_cell(n: int, u: int, v: int)
    requires
        0 <= u < n,
        0 <= v < n,
    ensures
        0 <= u * n + v < n * n,
        (u * n + v) / n == u,
        (u * n + v) % n == v,
{
    lemma_fundamental_div_mod_converse(u * n + v, n, u, v);
    assert(u * n + v < n * n) by (nonlinear_arith)
        requires
            0 <= u < n,
            0 <= v < n,
    ;
    assert(0 <= u * n) by (nonlinear_arith)
        requires
            0 <= u,
            0 < n,
    ;
}

/// Every place of a matrix of `n` columns is that of a pair.
pub proof fn lemma_cell_of(n: int, i: int)
    requires
        0 <= n,
        0 <= i < n * n,
    ensures
        0 <= i / n < n,
        0 <= i % n < n,
        (i / n) * n + i % n == i,
{
    assert(n > 0) by (nonlinear_arith)
        requires
            0 <= n,
            0 <= i < n * n,
    ;
    vstd::arithmetic::div_mod::lemma_fundamental_div_mod(i, n);
    vstd::arithmetic::div_mod::lemma_mod_bound(i, n);
    vstd::arithmetic::div_mod::lemma_div_pos_is_pos(i, n);
    let q = i / n;
    let r = i % n;
    assert(n * q == q * n) by (nonlinear_arith);
    assert(q < n) by (nonlinear_arith)
        requires
            q * n + r == i,
            0 <= r,
            i < n * n,
            n > 0,
    ;
}

/// A graph on the vertices 0 to n - 1 that answers in constant time
/// whether it has an edge.
pub struct AdjMatrix {
    num_vertices: usize,
    adj: bit_vec::BitVec<u32>,
    edges: Vec<(usize, usize)>,
}

impl AdjMatrix {
    /// The number of vertices, as a specification.
    pub closed spec fn order(&self) -> nat {
        self.num_vertices as nat
    }

    /// The edges in the order in which they were added, as a specification.
    pub closed spec fn arrows(&self) -> Seq<(usize, usize)> {
        self.edges@
    }

    /// The matrix has a bit for every pair of vertices, which is set exactly
    /// where the pair is an edge, and every edge joins two vertices.
    pub closed spec fn wf(&self) -> bool {
        let n = self.num_vertices as int;
        &&& n * n <= usize::MAX
        &&& bits(self.adj).len() == n * n
        &&& forall|k: int|
            0 <= k < self.edges@.len() ==> (#[trigger] self.edges@[k]).0 < n && self.edges@[k].1 < n
        &&& forall|i: int|
            0 <= i < n * n ==> #[trigger] bits(self.adj)[i] == self.edges@.contains(
                ((i / n) as usize, (i % n) as usize),
            )
    }

    /// Whether a graph of this kind can have `n` vertices: its matrix must
    /// have a place for every pair.
    pub open spec fn can_hold(n: nat) -> bool {
        n * n <= usize::MAX
    }

    /// Every edge joins two vertices.
    pub proof fn lemma_arrows_in_range(&self)
        requires
            self.wf(),
        ensures
            forall|k: int|
                0 <= k < self.arrows().len() ==> (#[trigger] self.arrows()[k]).0 < self.order()
                    && self.arrows()[k].1 < self.order(),
            Self::can_hold(self.order()),
    {
    }

    /// The vertices are the numbers below their count.
    pub proof fn lemma_numbered(&self)
        ensures
            crate::digraph::traits::numbered(self),
            self.spec_vertices().len() == self.order(),
            self.order() <= usize::MAX,
    {
    }

    /// The graph without vertices.
    pub fn new() -> (r: AdjMatrix)
        ensures
            r.wf(),
            r.order() == 0,
            r.arrows().len() == 0,
    {
        AdjMatrix { num_vertices: 0, adj: bits_new(), edges: Vec::new() }
    }

    /// The graph with the vertices and edges of `g`.
    pub fn build_from<G: Digraph>(g: &G) -> (r: AdjMatrix)
        requires
            g.graph_ok(),
            crate::digraph::traits::numbered(g),
            Self::can_hold(g.spec_vertices().len()),
        ensures
            r.wf(),
            r.order() == g.spec_vertices().len(),
            r.arrows() == g.spec_edges(),
    {
        let n = g.vertex_count();
        let list = g.edges();
        let mut m = AdjMatrix::with_capacities(n, g.edge_count());
        let mut k: usize = 0;
        while k < n
            invariant
                k <= n,
                m.wf(),
                m.order() == k,
                m.arrows().len() == 0,
                Self::can_hold(n as nat),
            decreases n - k,
        {
            proof {
                assert((k + 1) * (k + 1) <= n * n) by (nonlinear_arith)
                    requires
                        0 <= k < n,
                ;
            }
            m.add_vertex();
            k = k + 1;
        }
        proof {
            g.lemma_edges_join_vertices();
        }
        let mut e: usize = 0;
        while e < list.len()
            invariant
                e <= list.len(),
                list@ == g.spec_edges(),
                m.wf(),
                m.order() == n,
                n == g.spec_vertices().len(),
                crate::digraph::traits::numbered(g),
                m.arrows() == list@.take(e as int),
                forall|k: int|
                    0 <= k < g.spec_edges().len() ==> g.spec_vertices().contains(
                        (#[trigger] g.spec_edges()[k]).0,
                    ) && g.spec_vertices().contains(g.spec_edges()[k].1),
            decreases list.len() - e,
        {
            let (u, v) = list[e];
            proof {
                assert(g.spec_vertices().contains(g.spec_edges()[e as int].0));
                assert(g.spec_vertices().contains(g.spec_edges()[e as int].1));
                let a = g.spec_vertices().index_of(u);
                let b = g.spec_vertices().index_of(v);
                assert(g.spec_vertices()[a] == a);
                assert(g.spec_vertices()[b] == b);
            }
            m.add_edge(u, v);
            proof {
                assert(list@.take(e as int + 1) =~= list@.take(e as int).push((u, v)));
            }
            e = e + 1;
        }
        proof {
            assert(list@.take(list@.len() as int) =~= list@);
        }
        m
    }

    /// The graph with one vertex more than `edges` has members, and with
    /// those edges. `None` where an edge names a vertex that the graph does
    /// not have, or the matrix would have more places than a `usize` counts.
    pub fn from_iter(edges: Vec<(usize, usize)>) -> (r: Option<AdjMatrix>)
        ensures
            r.is_some() <==> Self::can_hold((edges@.len() + 1) as nat) && forall|k: int|
                0 <= k < edges@.len() ==> (#[trigger] edges@[k]).0 <= edges@.len() && edges@[k].1
                    <= edges@.len(),
            r.is_some() ==> r.unwrap().wf() && r.unwrap().order() == edges@.len() + 1 && r.unwrap().arrows()
                == edges@,
    {
        let count = edges.len();
        if count == usize::MAX {
            proof {
                assert(!Self::can_hold((count + 1) as nat)) by (nonlinear_arith)
                    requires
                        count == usize::MAX,
                        count >= 1,
                ;
            }
            return None;
        }
        let n = count + 1;
        if n > usize::MAX / n {
            proof {
                assert(n * n > usize::MAX) by (nonlinear_arith)
                    requires
                        n > usize::MAX as int / n as int,
                        n >= 1,
                ;
            }
            return None;
        }
        proof {
            assert(n * n <= usize::MAX) by (nonlinear_arith)
                requires
                    n <= usize::MAX as int / n as int,
                    n >= 1,
            ;
        }
        let mut g = AdjMatrix::new();
        let mut k: usize = 0;
        while k < n
            invariant
                k <= n,
                g.wf(),
                g.order() == k,
                g.arrows().len() == 0,
                n * n <= usize::MAX,
            decreases n - k,
        {
            proof {
                assert((k + 1) * (k + 1) <= n * n) by (nonlinear_arith)
                    requires
                        0 <= k < n,
                ;
            }
            g.add_vertex();
            k = k + 1;
        }
        let mut e: usize = 0;
        while e < edges.len()
            invariant
                e <= edges.len(),
                n == edges.len() + 1,
                g.wf(),
                g.order() == n,
                g.arrows() == edges@.take(e as int),
                forall|k: int| 0 <= k < e ==> (#[trigger] edges@[k]).0 < n && edges@[k].1 < n,
            decreases edges.len() - e,
        {
            let (u, v) = edges[e];
            if u >= n || v >= n {
                return None;
            }
            g.add_edge(u, v);
            proof {
                assert(edges@.take(e as int + 1) =~= edges@.take(e as int).push((u, v)));
            }
            e = e + 1;
        }
        proof {
            assert(edges@.take(edges@.len() as int) =~= edges@);
        }
        Some(g)
    }
}

impl Clone for AdjMatrix {
    fn clone(&self) -> (r: AdjMatrix)
        ensures
            r.order() == self.order(),
            r.arrows() == self.arrows(),
            self.wf() ==> r.wf(),
    {
        let mut edges: Vec<(usize, usize)> = Vec::new();
        let mut k: usize = 0;
        while k < self.edges.len()
            invariant
                k <= self.edges.len(),
                edges@ == self.edges@.take(k as int),
            decreases self.edges.len() - k,
        {
            edges.push(self.edges[k]);
            proof {
                assert(edges@ =~= self.edges@.take(k as int + 1));
            }
            k = k + 1;
        }
        proof {
            assert(self.edges@.take(self.edges@.len() as int) =~= self.edges@);
        }
        AdjMatrix { num_vertices: self.num_vertices, adj: bits_clone(&self.adj), edges }
    }
}

impl Buildable for AdjMatrix {
    open spec fn holds(n: nat) -> bool {
        Self::can_hold(n)
    }

    open spec fn built_ok(&self) -> bool {
        self.wf()
    }

    open spec fn built_vertices(&self) -> nat {
        self.order()
    }

    open spec fn built_edges(&self) -> Seq<(usize, usize)> {
        self.arrows()
    }

    fn with_capacities(nvertices: usize, nedges: usize) -> (r: AdjMatrix) {
        let room = if nvertices == 0 || nvertices <= usize::MAX / nvertices {
            proof {
                if nvertices > 0 {
                    assert(nvertices * nvertices <= usize::MAX) by (nonlinear_arith)
                        requires
                            nvertices <= usize::MAX as int / nvertices as int,
                            nvertices >= 1,
                    ;
                }
            }
            nvertices * nvertices
        } else {
            usize::MAX
        };
        AdjMatrix {
            num_vertices: 0,
            adj: bits_with_capacity(room),
            edges: Vec::with_capacity(nedges),
        }
    }

    fn shrink_to_fit(&mut self) {
        bits_shrink(&mut self.adj);
    }

    fn has_room(n: usize) -> (r: bool) {
        let r = n == 0 || n <= usize::MAX / n;
        proof {
            if r {
                assert(n * n <= usize::MAX) by (nonlinear_arith)
                    requires
                        n == 0 || n <= usize::MAX as int / n as int,
                        0 <= n,
                ;
                assert forall|k: nat| k <= n implies #[trigger] Self::holds(k) by {
                    assert(k * k <= n * n) by (nonlinear_arith)
                        requires
                            k <= n,
                    ;
                }
            } else {
                assert(n * n > usize::MAX) by (nonlinear_arith)
                    requires
                        n > usize::MAX as int / n as int,
                        n >= 1,
                ;
                assert(!Self::holds(n as nat));
            }
        }
        r
    }

    fn add_vertex(&mut self) -> (r: usize) {
        let n = self.num_vertices;
        proof {
            assert((n + 1) * (n + 1) == n * n + 2 * n + 1) by (nonlinear_arith);
        }
        let mut zeros: Vec<bool> = Vec::new();
        let mut k: usize = 0;
        while k < 2 * n + 1
            invariant
                k <= 2 * n + 1,
                2 * n + 1 <= usize::MAX,
                zeros.len() == k,
                forall|j: int| 0 <= j < k ==> !#[trigger] zeros[j],
            decreases 2 * n + 1 - k,
        {
            zeros.push(false);
            k = k + 1;
        }
        bits_extend(&mut self.adj, zeros);
        self.num_vertices = n + 1;
        if self.edges.len() > 0 {
            // The places of the pairs have moved: the bits are set anew.
            bits_clear(&mut self.adj);
            let m = n + 1;
            let mut e: usize = 0;
            while e < self.edges.len()
                invariant
                    e <= self.edges.len(),
                    m == n + 1,
                    m * m <= usize::MAX,
                    self.num_vertices == m,
                    self.edges == old(self).edges,
                    bits(self.adj).len() == m * m,
                    forall|k: int|
                        0 <= k < self.edges@.len() ==> (#[trigger] self.edges@[k]).0 < n && self.edges@[k].1 < n,
                    forall|i: int|
                        0 <= i < m * m ==> #[trigger] bits(self.adj)[i] == self.edges@.take(e as int).contains(
                            ((i / (m as int)) as usize, (i % (m as int)) as usize),
                        ),
                decreases self.edges.len() - e,
            {
                let (u, v) = self.edges[e];
                let ghost before = bits(self.adj);
                proof {
                    lemma_cell(m as int, u as int, v as int);
                }
                bits_set(&mut self.adj, u * m + v, true);
                proof {
                    let done = self.edges@.take(e as int);
                    let more = self.edges@.take(e as int + 1);
                    assert(more =~= done.push((u, v)));
                    assert forall|i: int| 0 <= i < m * m implies #[trigger] bits(self.adj)[i] == more.contains(
                        ((i / (m as int)) as usize, (i % (m as int)) as usize),
                    ) by {
                        lemma_cell_of(m as int, i);
                        let pair = ((i / (m as int)) as usize, (i % (m as int)) as usize);
                        if i == u * m + v {
                            assert(more[e as int] == (u, v));
                        } else {
                            assert(pair != (u, v));
                            if done.contains(pair) {
                                let w = done.index_of(pair);
                                assert(more[w] == pair);
                            }
                            if more.contains(pair) {
                                let w = more.index_of(pair);
                                assert(done[w] == pair);
                            }
                        }
                    }
                }
                e = e + 1;
            }
            proof {
                assert(self.edges@.take(self.edges@.len() as int) =~= self.edges@);
            }
        } else {
            proof {
                let m = (n + 1) as int;
                assert forall|i: int| 0 <= i < m * m implies #[trigger] bits(self.adj)[i] == self.edges@.contains(
                    ((i / m) as usize, (i % m) as usize),
                ) by {
                    if i < n * n {
                        assert(bits(self.adj)[i] == bits(old(self).adj)[i]);
                        assert(!old(self).edges@.contains(((i / (n as int)) as usize, (i % (n as int)) as usize)));
                    }
                }
            }
        }
        n
    }

    fn add_edge(&mut self, u: usize, v: usize) {
        let n = self.num_vertices;
        proof {
            lemma_cell(n as int, u as int, v as int);
        }
        bits_set(&mut self.adj, u * n + v, true);
        self.edges.push((u, v));
        proof {
            let before = old(self).edges@;
            let after = self.edges@;
            assert forall|i: int| 0 <= i < n * n implies #[trigger] bits(self.adj)[i] == after.contains(
                ((i / (n as int)) as usize, (i % (n as int)) as usize),
            ) by {
                lemma_cell_of(n as int, i);
                let pair = ((i / (n as int)) as usize, (i % (n as int)) as usize);
                if i == u * n + v {
                    assert(after[before.len() as int] == (u, v));
                } else {
                    assert(pair != (u, v));
                    if before.contains(pair) {
                        let w = before.index_of(pair);
                        assert(after[w] == pair);
                    }
                    if after.contains(pair) {
                        let w = after.index_of(pair);
                        assert(before[w] == pair);
                    }
                }
            }
        }
    }
}

impl GraphType for AdjMatrix {
    open spec fn graph_ok(&self) -> bool {
        self.wf()
    }
}

impl Vertices for AdjMatrix {
    open spec fn spec_vertices(&self) -> Seq<usize> {
        Seq::new(self.order(), |k: int| k as usize)
    }

    fn vertices(&self) -> (r: Vec<usize>) {
        let mut r: Vec<usize> = Vec::new();
        let mut k: usize = 0;
        while k < self.num_vertices
            invariant
                k <= self.num_vertices,
                r.len() == k,
                forall|j: int| 0 <= j < k ==> #[trigger] r[j] == j,
            decreases self.num_vertices - k,
        {
            r.push(k);
            k = k + 1;
        }
        proof {
            assert(r@ =~= self.spec_vertices());
        }
        r
    }

    fn vertex_count(&self) -> (r: usize) {
        self.num_vertices
    }

    fn has_vertex(&self, v: usize) -> (r: bool) {
        proof {
            if v < self.num_vertices {
                assert(self.spec_vertices()[v as int] == v);
            }
        }
        v < self.num_vertices
    }
}

impl Edges for AdjMatrix {
    open spec fn spec_edges(&self) -> Seq<(usize, usize)> {
        self.arrows()
    }

    fn edges(&self) -> (r: Vec<(usize, usize)>) {
        let mut r: Vec<(usize, usize)> = Vec::new();
        let mut k: usize = 0;
        while k < self.edges.len()
            invariant
                k <= self.edges.len(),
                r@ == self.edges@.take(k as int),
            decreases self.edges.len() - k,
        {
            r.push(self.edges[k]);
            proof {
                assert(r@ =~= self.edges@.take(k as int + 1));
            }
            k = k + 1;
        }
        proof {
            assert(self.edges@.take(self.edges@.len() as int) =~= self.edges@);
        }
        r
    }

    fn edge_count(&self) -> (r: usize) {
        self.edges.len()
    }

    fn has_edge(&self, u: usize, v: usize) -> (r: bool) {
        let n = self.num_vertices;
        if u < n && v < n {
            proof {
                lemma_cell(n as int, u as int, v as int);
            }
            bits_get(&self.adj, u * n + v)
        } else {
            proof {
                if self.edges@.contains((u, v)) {
                    let k = self.edges@.index_of((u, v));
                    assert(self.edges@[k].0 < n);
                }
            }
            false
        }
    }
}

impl GraphSize for AdjMatrix {

}

impl Digraph for AdjMatrix {
    proof fn lemma_edges_join_vertices(&self) {
        assert forall|k: int| 0 <= k < self.spec_edges().len() implies self.spec_vertices().contains(
            (#[trigger] self.spec_edges()[k]).0,
        ) && self.spec_vertices().contains(self.spec_edges()[k].1) by {
            let u = self.spec_edges()[k].0;
            let v = self.spec_edges()[k].1;
            assert(self.spec_vertices()[u as int] == u);
            assert(self.spec_vertices()[v as int] == v);
        }
    }
}

} // verus!
