//! What contracting a vertex does to the edges of a graph on terms: every
//! edge is moved along the map that sends the vertex that leaves to the one
//! that stays.

use vstd::prelude::*;
use crate::algebra::adj_map::{added, dropped, lemma_added, lemma_place, lemma_swap_removed, swap_removed, Quiver};
use crate::algebra::classes::Tag;
use crate::algebra::indicator::{merged, quotient};

verus! {

/// The term that stands for `x` once `w` is contracted into `u`.
pub open spec fn merge_of(u: Tag, w: Tag, x: Tag) -> Tag {
    if x == w {
        u
    } else {
        x
    }
}

/// The lists of neighbours of `q` say what its edges say.
pub open spec fn lists_agree(q: Quiver) -> bool {
    &&& forall|i: int, b: Tag| 0 <= i < q.v.len() ==> (#[trigger] q.out[i].contains(b)) == q.e.contains((q.v[i], b))
    &&& forall|i: int, a: Tag| 0 <= i < q.v.len() ==> (#[trigger] q.inn[i].contains(a)) == q.e.contains((a, q.v[i]))
}

/// `q` is well formed, its lists agree with its edges, and every edge joins
/// two vertices.
pub open spec fn tidy(q: Quiver) -> bool {
    &&& q.wf()
    &&& lists_agree(q)
    &&& forall|a: Tag, b: Tag| #[trigger] q.e.contains((a, b)) ==> q.v.contains(a) && q.v.contains(b)
}

/// `q` is as a tidy graph, but that `w` may be an end of an edge without
/// being a vertex.
pub open spec fn tidy_but(q: Quiver, w: Tag) -> bool {
    &&& q.wf()
    &&& lists_agree(q)
    &&& forall|a: Tag, b: Tag| #[trigger]
        q.e.contains((a, b)) ==> (q.v.contains(a) || a == w) && (q.v.contains(b) || b == w)
}

/// What holds a dropped element held, but that element.
pub proof fn lemma_dropped<T>(s: Seq<T>, x: T)
    requires
        s.no_duplicates(),
    ensures
        dropped(s, x).no_duplicates(),
        forall|y: T| dropped(s, x).contains(y) == (s.contains(y) && y != x),
{
    if s.contains(x) {
        let i = s.index_of(x);
        lemma_swap_removed(s, i);
    }
}

/// Adding an edge between two vertices keeps such a graph as it is, with
/// that edge more.
pub proof fn lemma_edge_added(q: Quiver, w: Tag, a: Tag, b: Tag)
    requires
        tidy_but(q, w),
        q.v.contains(a),
        q.v.contains(b),
    ensures
        tidy_but(q.add_edge(a, b), w),
        q.add_edge(a, b).v == q.v,
        forall|x: Tag, y: Tag| #[trigger]
            q.add_edge(a, b).e.contains((x, y)) == (q.e.contains((x, y)) || (x == a && y == b)),
{
    let g = q.add_edge(a, b);
    let ia = q.v.index_of(a);
    let ib = q.v.index_of(b);
    q.lemma_add_edge(a, b);
    if q.has_edge(a, b) {
        assert(q.out[ia].contains(b));
        assert(q.e.contains((q.v[ia], b)));
    } else {
        lemma_added(q.out[ia], b);
        lemma_added(q.inn[ib], a);
        lemma_added(q.e, (a, b));
        assert forall|i: int, y: Tag| 0 <= i < g.v.len() implies (#[trigger] g.out[i].contains(y)) == g.e.contains(
            (g.v[i], y),
        ) by {
            lemma_place(q.v, i);
            assert(q.out[i].contains(y) == q.e.contains((q.v[i], y)));
        }
        assert forall|i: int, x: Tag| 0 <= i < g.v.len() implies (#[trigger] g.inn[i].contains(x)) == g.e.contains(
            (x, g.v[i]),
        ) by {
            lemma_place(q.v, i);
            assert(q.inn[i].contains(x) == q.e.contains((x, q.v[i])));
        }
    }
    assert(g.wf());
    assert(lists_agree(g));
    assert forall|x: Tag, y: Tag| #[trigger] g.e.contains((x, y)) implies (g.v.contains(x) || x == w) && (g.v.contains(
        y,
    ) || y == w) by {
        if !q.e.contains((x, y)) {
            assert(x == a && y == b);
        }
    }
}

/// Taking an edge from `w` to `x` out of the lists and the edges keeps such
/// a graph as it is, with that edge less.
pub proof fn lemma_out_dropped(q: Quiver, w: Tag, x: Tag)
    requires
        tidy_but(q, w),
        !q.v.contains(w),
    ensures
        tidy_but(q.forget_in(x, w).forget_edge(w, x), w),
        q.forget_in(x, w).forget_edge(w, x).v == q.v,
        forall|a: Tag, b: Tag| #[trigger]
            q.forget_in(x, w).forget_edge(w, x).e.contains((a, b)) == (q.e.contains((a, b)) && !(a == w && b == x)),
{
    let g = q.forget_in(x, w).forget_edge(w, x);
    q.lemma_forget(x, w);
    q.forget_in(x, w).lemma_forget(x, w);
    lemma_dropped(q.e, (w, x));
    if q.v.contains(x) {
        lemma_dropped(q.inn[q.v.index_of(x)], w);
    }
    assert forall|i: int, b: Tag| 0 <= i < g.v.len() implies (#[trigger] g.out[i].contains(b)) == g.e.contains(
        (g.v[i], b),
    ) by {
        lemma_place(q.v, i);
        assert(q.out[i].contains(b) == q.e.contains((q.v[i], b)));
    }
    assert forall|i: int, a: Tag| 0 <= i < g.v.len() implies (#[trigger] g.inn[i].contains(a)) == g.e.contains(
        (a, g.v[i]),
    ) by {
        lemma_place(q.v, i);
        assert(q.inn[i].contains(a) == q.e.contains((a, q.v[i])));
    }
    assert(g.wf());
    assert(lists_agree(g));
    assert forall|a: Tag, b: Tag| #[trigger] g.e.contains((a, b)) implies (g.v.contains(a) || a == w) && (g.v.contains(
        b,
    ) || b == w) by {
        assert(q.e.contains((a, b)));
    }
}

/// Taking an edge from `x` to `w` out of the lists and the edges keeps such
/// a graph as it is, with that edge less.
pub proof fn lemma_in_dropped(q: Quiver, w: Tag, x: Tag)
    requires
        tidy_but(q, w),
        !q.v.contains(w),
    ensures
        tidy_but(q.forget_out(x, w).forget_edge(x, w), w),
        q.forget_out(x, w).forget_edge(x, w).v == q.v,
        forall|a: Tag, b: Tag| #[trigger]
            q.forget_out(x, w).forget_edge(x, w).e.contains((a, b)) == (q.e.contains((a, b)) && !(a == x && b == w)),
{
    let g = q.forget_out(x, w).forget_edge(x, w);
    q.lemma_forget(x, w);
    q.forget_out(x, w).lemma_forget(w, x);
    lemma_dropped(q.e, (x, w));
    if q.v.contains(x) {
        lemma_dropped(q.out[q.v.index_of(x)], w);
    }
    assert forall|i: int, b: Tag| 0 <= i < g.v.len() implies (#[trigger] g.out[i].contains(b)) == g.e.contains(
        (g.v[i], b),
    ) by {
        lemma_place(q.v, i);
        assert(q.out[i].contains(b) == q.e.contains((q.v[i], b)));
    }
    assert forall|i: int, a: Tag| 0 <= i < g.v.len() implies (#[trigger] g.inn[i].contains(a)) == g.e.contains(
        (a, g.v[i]),
    ) by {
        lemma_place(q.v, i);
        assert(q.inn[i].contains(a) == q.e.contains((a, q.v[i])));
    }
    assert(g.wf());
    assert(lists_agree(g));
    assert forall|a: Tag, b: Tag| #[trigger] g.e.contains((a, b)) implies (g.v.contains(a) || a == w) && (g.v.contains(
        b,
    ) || b == w) by {
        assert(q.e.contains((a, b)));
    }
}

/// The graph without vertices is tidy.
pub proof fn lemma_tidy_empty()
    ensures
        tidy(Quiver::empty()),
{
}

/// Adding a vertex keeps a graph tidy, with its edges.
pub proof fn lemma_tidy_vertex(q: Quiver, t: Tag)
    requires
        tidy(q),
    ensures
        tidy(q.add_vertex(t)),
        q.add_vertex(t).e == q.e,
        forall|x: Tag| q.add_vertex(t).v.contains(x) == (q.v.contains(x) || x == t),
{
    let g = q.add_vertex(t);
    q.lemma_add_vertex(t);
    lemma_added(q.v, t);
    if !q.v.contains(t) {
        assert(g.v == added(q.v, t));
        assert forall|i: int, b: Tag| 0 <= i < g.v.len() implies (#[trigger] g.out[i].contains(b)) == g.e.contains(
            (g.v[i], b),
        ) by {
            if i < q.v.len() {
                assert(q.out[i].contains(b) == q.e.contains((q.v[i], b)));
            } else {
                if q.e.contains((t, b)) {
                    assert(q.v.contains(t));
                }
            }
        }
        assert forall|i: int, a: Tag| 0 <= i < g.v.len() implies (#[trigger] g.inn[i].contains(a)) == g.e.contains(
            (a, g.v[i]),
        ) by {
            if i < q.v.len() {
                assert(q.inn[i].contains(a) == q.e.contains((a, q.v[i])));
            } else {
                if q.e.contains((a, t)) {
                    assert(q.v.contains(t));
                }
            }
        }
        assert forall|a: Tag, b: Tag| #[trigger] g.e.contains((a, b)) implies g.v.contains(a) && g.v.contains(b) by {
            assert(q.v.contains(a) && q.v.contains(b));
        }
    }
}

/// Adding an edge between two vertices keeps a graph tidy, with that edge
/// more.
pub proof fn lemma_tidy_edge(q: Quiver, a: Tag, b: Tag)
    requires
        tidy(q),
        q.v.contains(a),
        q.v.contains(b),
    ensures
        tidy(q.add_edge(a, b)),
        q.add_edge(a, b).v == q.v,
        forall|x: Tag, y: Tag| #[trigger]
            q.add_edge(a, b).e.contains((x, y)) == (q.e.contains((x, y)) || (x == a && y == b)),
{
    lemma_edge_added(q, a, a, b);
    let g = q.add_edge(a, b);
    assert forall|x: Tag, y: Tag| #[trigger] g.e.contains((x, y)) implies g.v.contains(x) && g.v.contains(y) by {
        if q.e.contains((x, y)) {
            assert(q.v.contains(x) && q.v.contains(y));
        }
    }
}

/// Adding an edge with its two ends keeps a graph tidy, with that edge
/// more and its ends among the vertices.
pub proof fn lemma_tidy_with_edge(q: Quiver, a: Tag, b: Tag)
    requires
        tidy(q),
    ensures
        tidy(q.with_edge(a, b)),
        forall|x: Tag| q.with_edge(a, b).v.contains(x) == (q.v.contains(x) || x == a || x == b),
        forall|x: Tag, y: Tag| #[trigger]
            q.with_edge(a, b).e.contains((x, y)) == (q.e.contains((x, y)) || (x == a && y == b)),
{
    lemma_tidy_vertex(q, a);
    lemma_tidy_vertex(q.add_vertex(a), b);
    lemma_tidy_edge(q.add_vertex(a).add_vertex(b), a, b);
}

/// The graph `q` once the vertex `w` has left its vertices and its lists
/// have left with it, the last vertex taking its place.
pub open spec fn without(q: Quiver, w: Tag) -> Quiver {
    let i = q.v.index_of(w);
    Quiver { v: swap_removed(q.v, i), out: swap_removed(q.out, i), inn: swap_removed(q.inn, i), e: q.e }
}

/// Taking a vertex out of a tidy graph leaves its other vertices, and the
/// lists still agree with the edges.
pub proof fn lemma_without(q: Quiver, w: Tag)
    requires
        tidy(q),
        q.v.contains(w),
    ensures
        tidy_but(without(q, w), w),
        forall|x: Tag| without(q, w).v.contains(x) == (q.v.contains(x) && x != w),
{
    let i = q.v.index_of(w);
    let g = without(q, w);
    let last = q.v.len() - 1;
    lemma_swap_removed(q.v, i);
    assert forall|j: int| 0 <= j < g.v.len() implies g.v[j] == q.v[if j == i { last } else { j }] && g.out[j] == q.out[if j
        == i { last } else { j }] && g.inn[j] == q.inn[if j == i { last } else { j }] by {}
    assert forall|j: int, b: Tag| 0 <= j < g.v.len() implies (#[trigger] g.out[j].contains(b)) == g.e.contains(
        (g.v[j], b),
    ) by {
        let k = if j == i { last } else { j };
        assert(q.out[k].contains(b) == q.e.contains((q.v[k], b)));
    }
    assert forall|j: int, a: Tag| 0 <= j < g.v.len() implies (#[trigger] g.inn[j].contains(a)) == g.e.contains(
        (a, g.v[j]),
    ) by {
        let k = if j == i { last } else { j };
        assert(q.inn[k].contains(a) == q.e.contains((a, q.v[k])));
    }
    assert forall|j: int| 0 <= j < g.out.len() implies (#[trigger] g.out[j]).no_duplicates() by {
        let k = if j == i { last } else { j };
        assert(q.out[k].no_duplicates());
    }
    assert forall|j: int| 0 <= j < g.inn.len() implies (#[trigger] g.inn[j]).no_duplicates() by {
        let k = if j == i { last } else { j };
        assert(q.inn[k].no_duplicates());
    }
    assert(g.wf());
    assert(lists_agree(g));
}

/// Whether one of the first `k` terms of `o` is `x`.
pub open spec fn among(o: Seq<Tag>, k: int, x: Tag) -> bool {
    exists|j: int| 0 <= j < k && j < o.len() && #[trigger] o[j] == x
}

/// After the first `k` edges from `w` have been moved to `u`, the graph has
/// the edges that it had but those, and their images.
pub proof fn lemma_outs_moved(q: Quiver, u: Tag, w: Tag, o: Seq<Tag>, k: int)
    requires
        tidy_but(q, w),
        !q.v.contains(w),
        q.v.contains(u),
        0 <= k <= o.len(),
        forall|j: int| 0 <= j < o.len() ==> q.v.contains(#[trigger] o[j]) || o[j] == w,
    ensures
        tidy_but(q.move_outs(u, w, o, k), w),
        q.move_outs(u, w, o, k).v == q.v,
        forall|a: Tag, b: Tag|
            #![trigger q.move_outs(u, w, o, k).e.contains((a, b))]
            q.move_outs(u, w, o, k).e.contains((a, b)) == ((q.e.contains((a, b)) && !(a == w && among(o, k, b))) || (a
                == u && ((b != w && among(o, k, b)) || (b == u && among(o, k, w))))),
    decreases k,
{
    if k > 0 {
        lemma_outs_moved(q, u, w, o, k - 1);
        let g = q.move_outs(u, w, o, k - 1);
        let x = o[k - 1];
        let y = merge_of(u, w, x);
        lemma_edge_added(g, w, u, y);
        lemma_out_dropped(g.add_edge(u, y), w, x);
        let h = q.move_outs(u, w, o, k);
        assert(h == g.add_edge(u, y).forget_in(x, w).forget_edge(w, x));
        assert forall|b: Tag| among(o, k, b) == (among(o, k - 1, b) || b == x) by {
            if among(o, k, b) {
                let j = choose|j: int| 0 <= j < k && j < o.len() && #[trigger] o[j] == b;
                if j < k - 1 {
                    assert(among(o, k - 1, b));
                }
            }
            if among(o, k - 1, b) {
                let j = choose|j: int| 0 <= j < k - 1 && j < o.len() && #[trigger] o[j] == b;
                assert(o[j] == b);
            }
            if b == x {
                assert(o[k - 1] == b);
            }
        }
        let g1 = g.add_edge(u, y);
        assert forall|a: Tag, b: Tag| #[trigger] h.e.contains((a, b)) == ((q.e.contains((a, b)) && !(a == w && among(
            o,
            k,
            b,
        ))) || (a == u && ((b != w && among(o, k, b)) || (b == u && among(o, k, w))))) by {
            assert(h.e.contains((a, b)) == (g1.e.contains((a, b)) && !(a == w && b == x)));
            assert(g1.e.contains((a, b)) == (g.e.contains((a, b)) || (a == u && b == y)));
            assert(g.e.contains((a, b)) == ((q.e.contains((a, b)) && !(a == w && among(o, k - 1, b))) || (a == u && ((b
                != w && among(o, k - 1, b)) || (b == u && among(o, k - 1, w))))));
            assert(among(o, k, b) == (among(o, k - 1, b) || b == x));
            assert(among(o, k, w) == (among(o, k - 1, w) || w == x));
        }
    } else {
        assert forall|b: Tag| !among(o, 0, b) by {}
    }
}

/// After the first `k` edges to `w` have been moved to `u`, the graph has
/// the edges that it had but those, and their images.
pub proof fn lemma_ins_moved(q: Quiver, u: Tag, w: Tag, i: Seq<Tag>, k: int)
    requires
        tidy_but(q, w),
        !q.v.contains(w),
        q.v.contains(u),
        0 <= k <= i.len(),
        forall|j: int| 0 <= j < i.len() ==> q.v.contains(#[trigger] i[j]) || i[j] == w,
    ensures
        tidy_but(q.move_ins(u, w, i, k), w),
        q.move_ins(u, w, i, k).v == q.v,
        forall|a: Tag, b: Tag|
            #![trigger q.move_ins(u, w, i, k).e.contains((a, b))]
            q.move_ins(u, w, i, k).e.contains((a, b)) == ((q.e.contains((a, b)) && !(b == w && among(i, k, a))) || (b
                == u && ((a != w && among(i, k, a)) || (a == u && among(i, k, w))))),
    decreases k,
{
    if k > 0 {
        lemma_ins_moved(q, u, w, i, k - 1);
        let g = q.move_ins(u, w, i, k - 1);
        let x = i[k - 1];
        let y = merge_of(u, w, x);
        lemma_edge_added(g, w, y, u);
        lemma_in_dropped(g.add_edge(y, u), w, x);
        let h = q.move_ins(u, w, i, k);
        assert(h == g.add_edge(y, u).forget_out(x, w).forget_edge(x, w));
        assert forall|a: Tag| among(i, k, a) == (among(i, k - 1, a) || a == x) by {
            if among(i, k, a) {
                let j = choose|j: int| 0 <= j < k && j < i.len() && #[trigger] i[j] == a;
                if j < k - 1 {
                    assert(among(i, k - 1, a));
                }
            }
            if among(i, k - 1, a) {
                let j = choose|j: int| 0 <= j < k - 1 && j < i.len() && #[trigger] i[j] == a;
                assert(i[j] == a);
            }
            if a == x {
                assert(i[k - 1] == a);
            }
        }
        let g1 = g.add_edge(y, u);
        assert forall|a: Tag, b: Tag| #[trigger] h.e.contains((a, b)) == ((q.e.contains((a, b)) && !(b == w && among(
            i,
            k,
            a,
        ))) || (b == u && ((a != w && among(i, k, a)) || (a == u && among(i, k, w))))) by {
            assert(h.e.contains((a, b)) == (g1.e.contains((a, b)) && !(a == x && b == w)));
            assert(g1.e.contains((a, b)) == (g.e.contains((a, b)) || (a == y && b == u)));
            assert(g.e.contains((a, b)) == ((q.e.contains((a, b)) && !(b == w && among(i, k - 1, a))) || (b == u && ((a
                != w && among(i, k - 1, a)) || (a == u && among(i, k - 1, w))))));
            assert(among(i, k, a) == (among(i, k - 1, a) || a == x));
            assert(among(i, k, w) == (among(i, k - 1, w) || w == x));
        }
    } else {
        assert forall|a: Tag| !among(i, 0, a) by {}
    }
}

/// Contracting the vertex `w` of a tidy graph into another vertex `u`
/// leaves a tidy graph on the other vertices, whose edges are exactly the
/// images of the edges under the map that sends `w` to `u` and leaves every
/// other vertex where it is.
pub proof fn lemma_contract(q: Quiver, u: Tag, w: Tag)
    requires
        tidy(q),
        q.v.contains(u),
        q.v.contains(w),
        u != w,
    ensures
        tidy(q.contract(u, w)),
        forall|x: Tag| q.contract(u, w).v.contains(x) == (q.v.contains(x) && x != w),
        forall|a: Tag, b: Tag| #[trigger]
            q.e.contains((a, b)) ==> q.contract(u, w).e.contains((merge_of(u, w, a), merge_of(u, w, b))),
        forall|a: Tag, b: Tag| #[trigger]
            q.contract(u, w).e.contains((a, b)) ==> exists|c: Tag, d: Tag| #[trigger]
                q.e.contains((c, d)) && merge_of(u, w, c) == a && merge_of(u, w, d) == b,
{
    let i = q.v.index_of(w);
    let o = q.out[i];
    let n = q.inn[i];
    let bare = without(q, w);
    lemma_without(q, w);
    assert forall|b: Tag| among(o, o.len() as int, b) == q.e.contains((w, b)) by {
        assert(o.contains(b) == q.e.contains((q.v[i], b)));
        if among(o, o.len() as int, b) {
            let j = choose|j: int| 0 <= j < o.len() && j < o.len() && #[trigger] o[j] == b;
            assert(o.contains(b));
        }
        if o.contains(b) {
            let j = o.index_of(b);
            assert(o[j] == b);
        }
    }
    assert forall|a: Tag| among(n, n.len() as int, a) == q.e.contains((a, w)) by {
        assert(n.contains(a) == q.e.contains((a, q.v[i])));
        if among(n, n.len() as int, a) {
            let j = choose|j: int| 0 <= j < n.len() && j < n.len() && #[trigger] n[j] == a;
            assert(n.contains(a));
        }
        if n.contains(a) {
            let j = n.index_of(a);
            assert(n[j] == a);
        }
    }
    assert forall|j: int| 0 <= j < o.len() implies bare.v.contains(#[trigger] o[j]) || o[j] == w by {
        assert(o.contains(o[j]));
        assert(q.e.contains((q.v[i], o[j])));
    }
    assert forall|j: int| 0 <= j < n.len() implies bare.v.contains(#[trigger] n[j]) || n[j] == w by {
        assert(n.contains(n[j]));
        assert(q.e.contains((n[j], q.v[i])));
    }
    lemma_outs_moved(bare, u, w, o, o.len() as int);
    let mid = bare.move_outs(u, w, o, o.len() as int);
    lemma_ins_moved(mid, u, w, n, n.len() as int);
    let c = mid.move_ins(u, w, n, n.len() as int);
    assert(c == q.contract(u, w));
    assert forall|a: Tag, b: Tag| #[trigger] q.e.contains((a, b)) implies c.e.contains(
        (merge_of(u, w, a), merge_of(u, w, b)),
    ) by {
        assert(bare.e.contains((a, b)));
        if a == w {
            assert(among(o, o.len() as int, b));
            if b == w {
                assert(mid.e.contains((u, u)));
            } else {
                assert(mid.e.contains((u, b)));
            }
        } else {
            assert(mid.e.contains((a, b)));
            if b == w {
                assert(among(n, n.len() as int, a));
            }
        }
    }
    assert forall|a: Tag, b: Tag| #[trigger] c.e.contains((a, b)) implies exists|x: Tag, y: Tag| #[trigger]
        q.e.contains((x, y)) && merge_of(u, w, x) == a && merge_of(u, w, y) == b by {
        if mid.e.contains((a, b)) && !(b == w && among(n, n.len() as int, a)) {
            if q.e.contains((a, b)) && !(a == w && among(o, o.len() as int, b)) {
                assert(q.e.contains((a, b)) && merge_of(u, w, a) == a && merge_of(u, w, b) == b);
            } else if b != w && among(o, o.len() as int, b) {
                assert(q.e.contains((w, b)) && merge_of(u, w, w) == a && merge_of(u, w, b) == b);
            } else {
                assert(q.e.contains((w, w)) && merge_of(u, w, w) == a && merge_of(u, w, w) == b);
            }
        } else if a != w && among(n, n.len() as int, a) {
            assert(q.e.contains((a, w)) && merge_of(u, w, a) == a && merge_of(u, w, w) == b);
        } else {
            assert(q.e.contains((w, w)) && merge_of(u, w, w) == a && merge_of(u, w, w) == b);
        }
    }
    assert forall|a: Tag, b: Tag| #[trigger] c.e.contains((a, b)) implies c.v.contains(a) && c.v.contains(b) by {
        let (x, y) = choose|x: Tag, y: Tag| #[trigger]
            q.e.contains((x, y)) && merge_of(u, w, x) == a && merge_of(u, w, y) == b;
        assert(q.v.contains(x) && q.v.contains(y));
    }
}

/// `g` is `q` folded along the map `to`: both are tidy; the vertices of `g`
/// are vertices of `q` that the map leaves where they are, and the map
/// sends every vertex of `q` to one of `g`; the edges of `g` are exactly
/// the images of the edges of `q`.
pub open spec fn folded(q: Quiver, g: Quiver, to: spec_fn(Tag) -> Tag) -> bool {
    &&& tidy(q)
    &&& tidy(g)
    &&& forall|x: Tag| #[trigger] g.v.contains(x) ==> q.v.contains(x) && to(x) == x
    &&& forall|x: Tag| #[trigger] q.v.contains(x) ==> g.v.contains(to(x))
    &&& forall|a: Tag, b: Tag| #[trigger] q.e.contains((a, b)) ==> g.e.contains((to(a), to(b)))
    &&& forall|a: Tag, b: Tag| #[trigger]
        g.e.contains((a, b)) ==> exists|c: Tag, d: Tag| #[trigger] q.e.contains((c, d)) && to(c) == a && to(d) == b
}

/// A tidy graph is itself, folded along the map that moves nothing.
pub proof fn lemma_folded_same(q: Quiver, to: spec_fn(Tag) -> Tag)
    requires
        tidy(q),
        forall|x: Tag| #[trigger] to(x) == x,
    ensures
        folded(q, q, to),
{
    assert forall|a: Tag, b: Tag| #[trigger] q.e.contains((a, b)) implies exists|c: Tag, d: Tag| #[trigger]
        q.e.contains((c, d)) && to(c) == a && to(d) == b by {
        assert(q.e.contains((a, b)) && to(a) == a && to(b) == b);
    }
}

/// Folding twice is folding along the one map after the other.
pub proof fn lemma_folded_twice(
    q: Quiver,
    g: Quiver,
    h: Quiver,
    first: spec_fn(Tag) -> Tag,
    then: spec_fn(Tag) -> Tag,
    both: spec_fn(Tag) -> Tag,
)
    requires
        folded(q, g, first),
        folded(g, h, then),
        forall|x: Tag| #[trigger] both(x) == then(first(x)),
    ensures
        folded(q, h, both),
{
    assert forall|x: Tag| #[trigger] h.v.contains(x) implies q.v.contains(x) && both(x) == x by {
        assert(g.v.contains(x));
    }
    assert forall|x: Tag| #[trigger] q.v.contains(x) implies h.v.contains(both(x)) by {
        assert(g.v.contains(first(x)));
    }
    assert forall|a: Tag, b: Tag| #[trigger] q.e.contains((a, b)) implies h.e.contains((both(a), both(b))) by {
        assert(g.e.contains((first(a), first(b))));
    }
    assert forall|a: Tag, b: Tag| #[trigger] h.e.contains((a, b)) implies exists|c: Tag, d: Tag| #[trigger]
        q.e.contains((c, d)) && both(c) == a && both(d) == b by {
        let (x, y) = choose|x: Tag, y: Tag| #[trigger] g.e.contains((x, y)) && then(x) == a && then(y) == b;
        let (c, d) = choose|c: Tag, d: Tag| #[trigger] q.e.contains((c, d)) && first(c) == x && first(d) == y;
        assert(q.e.contains((c, d)) && both(c) == a && both(d) == b);
    }
}

/// Contracting a vertex of a tidy graph into another folds the graph along
/// the map that sends the one to the other. Where one of the two is no
/// vertex, nothing moves.
pub proof fn lemma_contract_folds(q: Quiver, u: Tag, w: Tag, to: spec_fn(Tag) -> Tag)
    requires
        tidy(q),
        forall|x: Tag| #[trigger]
            to(x) == if q.v.contains(u) && q.v.contains(w) {
                merge_of(u, w, x)
            } else {
                x
            },
    ensures
        folded(q, q.contract(u, w), to),
{
    if u != w && q.v.contains(u) && q.v.contains(w) {
        lemma_contract(q, u, w);
        let g = q.contract(u, w);
        assert forall|a: Tag, b: Tag| #[trigger] q.e.contains((a, b)) implies g.e.contains((to(a), to(b))) by {
            assert(g.e.contains((merge_of(u, w, a), merge_of(u, w, b))));
        }
        assert forall|a: Tag, b: Tag| #[trigger] g.e.contains((a, b)) implies exists|c: Tag, d: Tag| #[trigger]
            q.e.contains((c, d)) && to(c) == a && to(d) == b by {
            let (c, d) = choose|c: Tag, d: Tag| #[trigger]
                q.e.contains((c, d)) && merge_of(u, w, c) == a && merge_of(u, w, d) == b;
            assert(q.e.contains((c, d)) && to(c) == a && to(d) == b);
        }
    } else {
        assert(q.contract(u, w) == q);
        lemma_folded_same(q, to);
    }
}

/// Where the term `x` stands once the first `upto` members of the class
/// have been contracted into the first.
pub open spec fn merged_to(q: Quiver, class: Seq<Tag>, upto: int, x: Tag) -> Tag
    decreases upto,
{
    if upto <= 1 {
        x
    } else {
        let y = merged_to(q, class, upto - 1, x);
        let g = merged(q, class, upto - 1);
        if g.v.contains(class[0]) && g.v.contains(class[upto - 1]) {
            merge_of(class[0], class[upto - 1], y)
        } else {
            y
        }
    }
}

/// Contracting a class of a tidy graph folds the graph along `merged_to`.
pub proof fn lemma_merged(q: Quiver, class: Seq<Tag>, upto: int)
    requires
        tidy(q),
    ensures
        folded(q, merged(q, class, upto), |x: Tag| merged_to(q, class, upto, x)),
    decreases upto,
{
    let to = |x: Tag| merged_to(q, class, upto, x);
    if upto <= 1 {
        lemma_folded_same(q, to);
    } else {
        lemma_merged(q, class, upto - 1);
        let first = |x: Tag| merged_to(q, class, upto - 1, x);
        let g = merged(q, class, upto - 1);
        let then = |x: Tag|
            if g.v.contains(class[0]) && g.v.contains(class[upto - 1]) {
                merge_of(class[0], class[upto - 1], x)
            } else {
                x
            };
        lemma_contract_folds(g, class[0], class[upto - 1], then);
        lemma_folded_twice(q, g, g.contract(class[0], class[upto - 1]), first, then, to);
    }
}

/// Where the term `x` stands once the first `upto` classes have been
/// contracted.
pub open spec fn quotient_to(q: Quiver, cs: Seq<Seq<Tag>>, upto: int, x: Tag) -> Tag
    decreases upto,
{
    if upto <= 0 {
        x
    } else {
        merged_to(
            quotient(q, cs, upto - 1),
            cs[upto - 1],
            cs[upto - 1].len() as int,
            quotient_to(q, cs, upto - 1, x),
        )
    }
}

/// Contracting classes of a tidy graph folds the graph along
/// `quotient_to`.
pub proof fn lemma_quotient(q: Quiver, cs: Seq<Seq<Tag>>, upto: int)
    requires
        tidy(q),
    ensures
        folded(q, quotient(q, cs, upto), |x: Tag| quotient_to(q, cs, upto, x)),
    decreases upto,
{
    let to = |x: Tag| quotient_to(q, cs, upto, x);
    if upto <= 0 {
        lemma_folded_same(q, to);
    } else {
        lemma_quotient(q, cs, upto - 1);
        let first = |x: Tag| quotient_to(q, cs, upto - 1, x);
        let g = quotient(q, cs, upto - 1);
        let class = cs[upto - 1];
        let then = |x: Tag| merged_to(g, class, class.len() as int, x);
        lemma_merged(g, class, class.len() as int);
        lemma_folded_twice(q, g, merged(g, class, class.len() as int), first, then, to);
    }
}

/// Whether `x` is one of the members of the class behind the first, among
/// the first `upto`.
pub open spec fn follower(class: Seq<Tag>, upto: int, x: Tag) -> bool {
    exists|j: int| 1 <= j < upto && j < class.len() && #[trigger] class[j] == x
}

/// Contracting a class leaves every term where it is that is no member of
/// the class behind the first, and leaves it among the vertices where it
/// was one.
pub proof fn lemma_merged_leaves(q: Quiver, class: Seq<Tag>, upto: int, x: Tag)
    requires
        tidy(q),
        upto <= class.len(),
        !follower(class, upto, x),
    ensures
        merged_to(q, class, upto, x) == x,
        merged(q, class, upto).v.contains(x) == q.v.contains(x),
    decreases upto,
{
    if upto > 1 {
        assert(!follower(class, upto - 1, x)) by {
            if follower(class, upto - 1, x) {
                let j = choose|j: int| 1 <= j < upto - 1 && j < class.len() && #[trigger] class[j] == x;
                assert(class[j] == x);
            }
        }
        lemma_merged_leaves(q, class, upto - 1, x);
        lemma_merged(q, class, upto - 1);
        let g = merged(q, class, upto - 1);
        let u = class[0];
        let w = class[upto - 1];
        assert(class[upto - 1] != x);
        if u != w && g.v.contains(u) && g.v.contains(w) {
            lemma_contract(g, u, w);
        } else {
            assert(g.contract(u, w) == g);
        }
    }
}

/// Contracting a class whose first member is a vertex sends every member
/// that is a vertex to the first, which stays a vertex.
pub proof fn lemma_merged_class(q: Quiver, class: Seq<Tag>, upto: int)
    requires
        tidy(q),
        0 < class.len(),
        upto <= class.len(),
        q.v.contains(class[0]),
    ensures
        merged(q, class, upto).v.contains(class[0]),
        merged_to(q, class, upto, class[0]) == class[0],
        forall|j: int|
            1 <= j < upto && q.v.contains(#[trigger] class[j]) ==> merged_to(q, class, upto, class[j]) == class[0],
    decreases upto,
{
    if upto > 1 {
        lemma_merged_class(q, class, upto - 1);
        lemma_merged(q, class, upto - 1);
        let g = merged(q, class, upto - 1);
        let u = class[0];
        let w = class[upto - 1];
        if u != w && g.v.contains(u) && g.v.contains(w) {
            lemma_contract(g, u, w);
        } else {
            assert(g.contract(u, w) == g);
        }
        assert forall|j: int| 1 <= j < upto && q.v.contains(#[trigger] class[j]) implies merged_to(
            q,
            class,
            upto,
            class[j],
        ) == class[0] by {
            if follower(class, upto - 1, class[j]) {
                let i = choose|i: int| 1 <= i < upto - 1 && i < class.len() && #[trigger] class[i] == class[j];
                assert(merged_to(q, class, upto - 1, class[i]) == class[0]);
            } else {
                lemma_merged_leaves(q, class, upto - 1, class[j]);
                assert(j == upto - 1) by {
                    if j < upto - 1 {
                        assert(class[j] == class[j]);
                        assert(follower(class, upto - 1, class[j]));
                    }
                }
            }
        }
    }
}

/// No term is a member of two of the classes.
pub open spec fn disjoint(cs: Seq<Seq<Tag>>) -> bool {
    forall|k: int, j: int, l: int, i: int|
        0 <= k < cs.len() && 0 <= l < cs.len() && k != l && 0 <= j < cs[k].len() && 0 <= i < cs[l].len() ==> #[trigger] cs[k][j]
            != #[trigger] cs[l][i]
}

/// Whether `x` is a member of one of the first `upto` classes.
pub open spec fn classed(cs: Seq<Seq<Tag>>, upto: int, x: Tag) -> bool {
    exists|k: int, j: int| 0 <= k < upto && k < cs.len() && 0 <= j < cs[k].len() && #[trigger] cs[k][j] == x
}

/// Contracting classes leaves every term where it is that is a member of
/// none of them, and leaves it among the vertices where it was one.
pub proof fn lemma_quotient_leaves(q: Quiver, cs: Seq<Seq<Tag>>, upto: int, x: Tag)
    requires
        tidy(q),
        upto <= cs.len(),
        !classed(cs, upto, x),
    ensures
        quotient_to(q, cs, upto, x) == x,
        quotient(q, cs, upto).v.contains(x) == q.v.contains(x),
    decreases upto,
{
    if upto > 0 {
        assert(!classed(cs, upto - 1, x)) by {
            if classed(cs, upto - 1, x) {
                let (k, j) = choose|k: int, j: int|
                    0 <= k < upto - 1 && k < cs.len() && 0 <= j < cs[k].len() && #[trigger] cs[k][j] == x;
                assert(cs[k][j] == x);
            }
        }
        lemma_quotient_leaves(q, cs, upto - 1, x);
        lemma_quotient(q, cs, upto - 1);
        let class = cs[upto - 1];
        assert(!follower(class, class.len() as int, x)) by {
            if follower(class, class.len() as int, x) {
                let j = choose|j: int| 1 <= j < class.len() && j < class.len() && #[trigger] class[j] == x;
                assert(cs[upto - 1][j] == x);
            }
        }
        lemma_merged_leaves(quotient(q, cs, upto - 1), class, class.len() as int, x);
    }
}

/// Where no term is in two classes, contracting the classes sends every
/// member of a class that is a vertex to the first member of its class,
/// where that is a vertex too.
pub proof fn lemma_quotient_class(q: Quiver, cs: Seq<Seq<Tag>>, upto: int, k: int, j: int)
    requires
        tidy(q),
        disjoint(cs),
        0 <= k < upto <= cs.len(),
        0 <= j < cs[k].len(),
        q.v.contains(cs[k][j]),
        q.v.contains(cs[k][0]),
    ensures
        quotient_to(q, cs, upto, cs[k][j]) == cs[k][0],
        quotient(q, cs, upto).v.contains(cs[k][0]),
    decreases upto,
{
    let x = cs[k][j];
    let first = cs[k][0];
    let class = cs[upto - 1];
    let g = quotient(q, cs, upto - 1);
    lemma_quotient(q, cs, upto - 1);
    if k == upto - 1 {
        assert forall|y: Tag| 0 <= j < cs[k].len() && (y == x || y == first) implies !classed(cs, k, y) by {
            if classed(cs, k, y) {
                let (l, i) = choose|l: int, i: int|
                    0 <= l < k && l < cs.len() && 0 <= i < cs[l].len() && #[trigger] cs[l][i] == y;
                assert(cs[l][i] != cs[k][j]);
                assert(cs[l][i] != cs[k][0]);
            }
        }
        lemma_quotient_leaves(q, cs, k, x);
        lemma_quotient_leaves(q, cs, k, first);
        lemma_merged_class(g, class, class.len() as int);
        if j >= 1 {
            assert(merged_to(g, class, class.len() as int, class[j]) == class[0]);
        }
    } else {
        lemma_quotient_class(q, cs, upto - 1, k, j);
        assert(!follower(class, class.len() as int, first)) by {
            if follower(class, class.len() as int, first) {
                let i = choose|i: int| 1 <= i < class.len() && i < class.len() && #[trigger] class[i] == first;
                assert(cs[upto - 1][i] != cs[k][0]);
            }
        }
        lemma_merged_leaves(g, class, class.len() as int, first);
    }
}

/// The map along which classes are contracted gives every member of a class
/// that is a vertex the first member of its class, and leaves every other
/// term where it is: so a colouring gives every term the colour of the term
/// that stands for it exactly where it is constant on every class. This
/// holds where no term is in two classes and the first member of a class is
/// a vertex wherever a member is.
pub proof fn lemma_constant_on_classes(q: Quiver, cs: Seq<Seq<Tag>>, f: spec_fn(Tag) -> usize)
    requires
        tidy(q),
        disjoint(cs),
        forall|k: int, j: int|
            0 <= k < cs.len() && 0 <= j < cs[k].len() && q.v.contains(#[trigger] cs[k][j]) ==> q.v.contains(cs[k][0]),
    ensures
        (forall|x: Tag| #[trigger] q.v.contains(x) ==> f(quotient_to(q, cs, cs.len() as int, x)) == f(x)) == (forall|
            k: int,
            j: int,
        |
            0 <= k < cs.len() && 0 <= j < cs[k].len() && q.v.contains(#[trigger] cs[k][j]) ==> f(cs[k][j]) == f(
                cs[k][0],
            )),
{
    let n = cs.len() as int;
    if forall|x: Tag| #[trigger] q.v.contains(x) ==> f(quotient_to(q, cs, n, x)) == f(x) {
        assert forall|k: int, j: int|
            0 <= k < cs.len() && 0 <= j < cs[k].len() && q.v.contains(#[trigger] cs[k][j]) implies f(cs[k][j]) == f(
            cs[k][0],
        ) by {
            lemma_quotient_class(q, cs, n, k, j);
        }
    }
    if forall|k: int, j: int|
        0 <= k < cs.len() && 0 <= j < cs[k].len() && q.v.contains(#[trigger] cs[k][j]) ==> f(cs[k][j]) == f(cs[k][0]) {
        assert forall|x: Tag| #[trigger] q.v.contains(x) implies f(quotient_to(q, cs, n, x)) == f(x) by {
            if classed(cs, n, x) {
                let (k, j) = choose|k: int, j: int|
                    0 <= k < n && k < cs.len() && 0 <= j < cs[k].len() && #[trigger] cs[k][j] == x;
                assert(q.v.contains(cs[k][j]));
                lemma_quotient_class(q, cs, n, k, j);
            } else {
                lemma_quotient_leaves(q, cs, n, x);
            }
        }
    }
}

} // verus!
