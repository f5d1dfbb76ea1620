//! Maps between graphs that keep edges.

use vstd::prelude::*;
use crate::algebra::indicator::{arrow_tags, power, power_of};
use crate::digraph::traits::Edges;

verus! {

/// A homomorphism from G to H is a map h from the vertices of G to those of
/// H such that (h(u), h(v)) is an edge of H whenever (u, v) is one of G.
pub trait Homomorphism {

}

/// An endomorphism of a graph H is a homomorphism from H to H.
pub trait Endomorphism: Homomorphism {

}

/// A polymorphism of H is a homomorphism from a power of H to H.
pub trait Polymorphism: Homomorphism {

}

/// Some answers of `f` about the two ends of the edge are joined by an edge
/// of `h`.
pub open spec fn kept_by<F: Fn(usize) -> usize>(f: F, e: (usize, usize), h: Seq<(usize, usize)>) -> bool {
    exists|a: usize, b: usize| #[trigger]
        h.contains((a, b)) && call_ensures(f, (e.0,), a) && call_ensures(f, (e.1,), b)
}

/// Some answers of `f` about the two ends of the edge are not joined by an
/// edge of `h`.
pub open spec fn broken_by<F: Fn(usize) -> usize>(f: F, e: (usize, usize), h: Seq<(usize, usize)>) -> bool {
    exists|a: usize, b: usize|
        !h.contains((a, b)) && #[trigger] call_ensures(f, (e.0,), a) && #[trigger] call_ensures(f, (e.1,), b)
}

/// Whether `f` maps every edge of `g` to an edge of `h`. The edges are
/// taken in order, and `f` is asked about the two ends of each.
pub fn is_homomorphism<G: Edges, H: Edges, F: Fn(usize) -> usize>(f: F, g: &G, h: &H) -> (r: bool)
    requires
        g.graph_ok(),
        h.graph_ok(),
        forall|u: usize| call_requires(f, (u,)),
    ensures
        r ==> forall|k: int| 0 <= k < g.spec_edges().len() ==> kept_by(f, #[trigger] g.spec_edges()[k], h.spec_edges()),
        !r ==> exists|k: int| 0 <= k < g.spec_edges().len() && broken_by(f, #[trigger] g.spec_edges()[k], h.spec_edges()),
{
    let edges = g.edges();
    let mut k: usize = 0;
    while k < edges.len()
        invariant
            k <= edges.len(),
            edges@ == g.spec_edges(),
            h.graph_ok(),
            forall|u: usize| call_requires(f, (u,)),
            forall|j: int| 0 <= j < k ==> kept_by(f, #[trigger] g.spec_edges()[j], h.spec_edges()),
        decreases edges.len() - k,
    {
        let (u, v) = edges[k];
        let a = f(u);
        let b = f(v);
        if !h.has_edge(a, b) {
            proof {
                assert(broken_by(f, g.spec_edges()[k as int], h.spec_edges()));
            }
            return false;
        }
        proof {
            assert(kept_by(f, g.spec_edges()[k as int], h.spec_edges()));
        }
        k = k + 1;
    }
    true
}

/// Whether `f` maps every edge of `h` to an edge of `h`.
pub fn is_endomorphism<H: Edges, F: Fn(usize) -> usize>(f: F, h: &H) -> (r: bool)
    requires
        h.graph_ok(),
        forall|u: usize| call_requires(f, (u,)),
    ensures
        r ==> forall|k: int| 0 <= k < h.spec_edges().len() ==> kept_by(f, #[trigger] h.spec_edges()[k], h.spec_edges()),
        !r ==> exists|k: int| 0 <= k < h.spec_edges().len() && broken_by(f, #[trigger] h.spec_edges()[k], h.spec_edges()),
{
    is_homomorphism(f, h, h)
}

/// A cursor over the edges of a power of a graph.
pub struct Power {
    items: Vec<(Vec<usize>, Vec<usize>)>,
    pos: usize,
}

impl Power {
    /// The edges that the cursor has not handed out yet.
    pub closed spec fn remaining(&self) -> Seq<(Seq<usize>, Seq<usize>)> {
        arrow_tags(self.items@).skip(self.pos as int)
    }

    /// The cursor stands within its edges.
    pub closed spec fn wf(&self) -> bool {
        self.pos <= self.items@.len()
    }

    /// The next edge, or `None` behind the last one.
    pub fn next(&mut self) -> (r: Option<(Vec<usize>, Vec<usize>)>)
        requires
            old(self).wf(),
        ensures
            final(self).wf(),
            old(self).remaining().len() > 0 ==> r.is_some() && (r.unwrap().0@, r.unwrap().1@) == old(
                self,
            ).remaining()[0] && final(self).remaining() == old(self).remaining().drop_first(),
            old(self).remaining().len() == 0 ==> r.is_none() && final(self).remaining().len() == 0,
    {
        if self.pos < self.items.len() {
            let u = copy_tuple(&self.items[self.pos].0);
            let v = copy_tuple(&self.items[self.pos].1);
            self.pos = self.pos + 1;
            proof {
                assert(self.remaining() =~= old(self).remaining().drop_first());
            }
            Some((u, v))
        } else {
            None
        }
    }
}

/// A copy of a tuple.
fn copy_tuple(t: &Vec<usize>) -> (r: Vec<usize>)
    ensures
        r@ == t@,
{
    let mut r: Vec<usize> = Vec::new();
    let mut k: usize = 0;
    while k < t.len()
        invariant
            k <= t.len(),
            r@ == t@.take(k as int),
        decreases t.len() - k,
    {
        r.push(t[k]);
        proof {
            assert(r@ =~= t@.take(k as int + 1));
        }
        k = k + 1;
    }
    proof {
        assert(t@.take(t@.len() as int) =~= t@);
    }
    r
}

/// The powers of a list of edges.
pub trait IterAlgebra {
    /// The edges, as a specification.
    spec fn spec_pairs(&self) -> Seq<(usize, usize)>;

    /// A cursor over the edges of the `n`-th power.
    fn power(&self, n: usize) -> (r: Power)
        ensures
            r.wf(),
            r.remaining() == power_of(self.spec_pairs(), n as nat),
    ;
}

impl IterAlgebra for Vec<(usize, usize)> {
    open spec fn spec_pairs(&self) -> Seq<(usize, usize)> {
        self@
    }

    fn power(&self, n: usize) -> (r: Power) {
        let items = power(self, n);
        let r = Power { items, pos: 0 };
        proof {
            assert(r.remaining() =~= arrow_tags(r.items@));
        }
        r
    }
}

} // verus!
