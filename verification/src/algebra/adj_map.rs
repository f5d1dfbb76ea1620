//! A directed graph on terms that can be changed: vertices and edges are
//! added, and a vertex is contracted into another. Its vertices and edges
//! are kept in the order in which an `indexmap::IndexSet` keeps them.

use vstd::prelude::*;
use crate::algebra::classes::{tag, tags, Label, Tag};
use crate::algebra::indicator::renumbered;
use crate::digraph::classes::Buildable;
use crate::digraph::AdjMatrix;

verus! {

/// `indexmap::IndexSet`, a set that keeps its elements in a row. Nothing
/// inside it is seen here: what it holds is spoken of as `members` and
/// `pairs`.
#[verifier::external_type_specification]
#[verifier::external_body]
#[verifier::reject_recursive_types(T)]
#[verifier::reject_recursive_types(S)]
pub struct ExIndexSet<T, S>(indexmap::IndexSet<T, S>);

/// The terms that a set of terms holds, in its order.
pub uninterp spec fn members(s: indexmap::IndexSet<Label>) -> Seq<Tag>;

/// The pairs of terms that a set of pairs holds, in its order.
pub uninterp spec fn pairs(s: indexmap::IndexSet<(Label, Label)>) -> Seq<(Tag, Tag)>;

/// `s` without the element at `i`: the last element takes its place.
pub open spec fn swap_removed<T>(s: Seq<T>, i: int) -> Seq<T> {
    if i == s.len() - 1 {
        s.drop_last()
    } else {
        s.update(i, s.last()).drop_last()
    }
}

/// `s` with `x` behind its elements, unless it holds `x`.
pub open spec fn added<T>(s: Seq<T>, x: T) -> Seq<T> {
    if s.contains(x) {
        s
    } else {
        s.push(x)
    }
}

/// `s` without `x`, whose place the last element takes.
pub open spec fn dropped<T>(s: Seq<T>, x: T) -> Seq<T> {
    if s.contains(x) {
        swap_removed(s, s.index_of(x))
    } else {
        s
    }
}

/// An empty set of terms, from `IndexSet::new`.
#[verifier::external_body]
fn terms_new() -> (r: indexmap::IndexSet<Label>)
    ensures
        members(r) == Seq::<Tag>::empty(),
{
    indexmap::IndexSet::new()
}

/// An empty set of terms with room for `n`, from `IndexSet::with_capacity`,
/// which reserves room and holds nothing. The room asked for is small
/// enough to be counted in bytes.
#[verifier::external_body]
fn terms_with_capacity(n: usize) -> (r: indexmap::IndexSet<Label>)
    requires
        n <= 65536,
    ensures
        members(r) == Seq::<Tag>::empty(),
{
    indexmap::IndexSet::with_capacity(n)
}

/// An empty set of pairs with room for `n`, from `IndexSet::with_capacity`,
/// which reserves room and holds nothing. The room asked for is small
/// enough to be counted in bytes.
#[verifier::external_body]
fn pairs_with_capacity(n: usize) -> (r: indexmap::IndexSet<(Label, Label)>)
    requires
        n <= 65536,
    ensures
        pairs(r) == Seq::<(Tag, Tag)>::empty(),
{
    indexmap::IndexSet::with_capacity(n)
}

/// The number of terms, from `IndexSet::len`.
#[verifier::external_body]
fn terms_len(s: &indexmap::IndexSet<Label>) -> (r: usize)
    ensures
        r == members(*s).len(),
{
    s.len()
}

/// Whether the set holds the term, from `IndexSet::contains`.
#[verifier::external_body]
fn terms_contains(s: &indexmap::IndexSet<Label>, t: &Label) -> (r: bool)
    ensures
        r == members(*s).contains(tag(*t)),
{
    s.contains(t)
}

/// The place of the term in the set, from `IndexSet::get_index_of`.
#[verifier::external_body]
fn terms_index_of(s: &indexmap::IndexSet<Label>, t: &Label) -> (r: Option<usize>)
    ensures
        r.is_some() == members(*s).contains(tag(*t)),
        r.is_some() ==> r.unwrap() < members(*s).len() && members(*s)[r.unwrap() as int] == tag(*t),
{
    s.get_index_of(t)
}

/// A copy of the term at place `i`, from `IndexSet::get_index`, which
/// answers `None` where `i` is no place of the set.
#[verifier::external_body]
fn terms_get(s: &indexmap::IndexSet<Label>, i: usize) -> (r: Label)
    requires
        i < members(*s).len(),
    ensures
        tag(r) == members(*s)[i as int],
{
    s.get_index(i).unwrap().clone()
}

/// Puts the term into the set by `IndexSet::insert`, which leaves the set
/// as it is where it holds the term, and else appends the term. Answers
/// whether the term was new.
#[verifier::external_body]
fn terms_insert(s: &mut indexmap::IndexSet<Label>, t: Label) -> (r: bool)
    ensures
        r == !members(*old(s)).contains(tag(t)),
        members(*final(s)) == added(members(*old(s)), tag(t)),
{
    s.insert(t)
}

/// Takes the term out of the set by `IndexSet::swap_remove_full`, which
/// moves the last term to its place. Answers the place that the term had,
/// or `None` where the set did not hold it.
#[verifier::external_body]
fn terms_remove(s: &mut indexmap::IndexSet<Label>, t: &Label) -> (r: Option<usize>)
    ensures
        r.is_some() == members(*old(s)).contains(tag(*t)),
        r.is_some() ==> r.unwrap() < members(*old(s)).len() && members(*old(s))[r.unwrap() as int] == tag(*t)
            && members(*final(s)) == swap_removed(members(*old(s)), r.unwrap() as int),
        r.is_none() ==> members(*final(s)) == members(*old(s)),
{
    s.swap_remove_full(t).map(|found| found.0)
}

/// An empty set of pairs, from `IndexSet::new`.
#[verifier::external_body]
fn pairs_new() -> (r: indexmap::IndexSet<(Label, Label)>)
    ensures
        pairs(r) == Seq::<(Tag, Tag)>::empty(),
{
    indexmap::IndexSet::new()
}

/// The number of pairs, from `IndexSet::len`.
#[verifier::external_body]
fn pairs_len(s: &indexmap::IndexSet<(Label, Label)>) -> (r: usize)
    ensures
        r == pairs(*s).len(),
{
    s.len()
}

/// A copy of the pair at place `i`, from `IndexSet::get_index`, which
/// answers `None` where `i` is no place of the set.
#[verifier::external_body]
fn pairs_get(s: &indexmap::IndexSet<(Label, Label)>, i: usize) -> (r: (Label, Label))
    requires
        i < pairs(*s).len(),
    ensures
        (tag(r.0), tag(r.1)) == pairs(*s)[i as int],
{
    s.get_index(i).unwrap().clone()
}

/// Puts the pair into the set by `IndexSet::insert`, which leaves the set
/// as it is where it holds the pair, and else appends the pair.
#[verifier::external_body]
fn pairs_insert(s: &mut indexmap::IndexSet<(Label, Label)>, a: Label, b: Label) -> (r: bool)
    ensures
        r == !pairs(*old(s)).contains((tag(a), tag(b))),
        pairs(*final(s)) == added(pairs(*old(s)), (tag(a), tag(b))),
{
    s.insert((a, b))
}

/// Takes the pair out of the set by `IndexSet::swap_remove_full`, which
/// moves the last pair to its place. Answers the place that the pair had,
/// or `None` where the set did not hold it.
#[verifier::external_body]
fn pairs_remove(s: &mut indexmap::IndexSet<(Label, Label)>, a: &Label, b: &Label) -> (r: Option<usize>)
    ensures
        r.is_some() == pairs(*old(s)).contains((tag(*a), tag(*b))),
        r.is_some() ==> r.unwrap() < pairs(*old(s)).len() && pairs(*old(s))[r.unwrap() as int] == (
            tag(*a),
            tag(*b),
        ) && pairs(*final(s)) == swap_removed(pairs(*old(s)), r.unwrap() as int),
        r.is_none() ==> pairs(*final(s)) == pairs(*old(s)),
{
    s.swap_remove_full(&(a.clone(), b.clone())).map(|found| found.0)
}

/// Taking an element out of a sequence without repetition leaves one, and
/// it holds what the sequence held but that element.
pub proof fn lemma_swap_removed<T>(s: Seq<T>, i: int)
    requires
        s.no_duplicates(),
        0 <= i < s.len(),
    ensures
        swap_removed(s, i).no_duplicates(),
        swap_removed(s, i).len() == s.len() - 1,
        forall|x: T| swap_removed(s, i).contains(x) <==> (s.contains(x) && x != s[i]),
{
    let r = swap_removed(s, i);
    assert forall|a: int, b: int| 0 <= a < r.len() && 0 <= b < r.len() && a != b implies r[a] != r[b] by {
        let a0 = if a == i { s.len() - 1 } else { a };
        let b0 = if b == i { s.len() - 1 } else { b };
        assert(r[a] == s[a0]);
        assert(r[b] == s[b0]);
    }
    assert forall|x: T| r.contains(x) <==> (s.contains(x) && x != s[i]) by {
        if r.contains(x) {
            let a = r.index_of(x);
            let a0 = if a == i { s.len() - 1 } else { a };
            assert(r[a] == s[a0]);
        }
        if s.contains(x) && x != s[i] {
            let a0 = s.index_of(x);
            let a = if a0 == s.len() - 1 { i } else { a0 };
            assert(r[a] == x);
        }
    }
}

/// Adding an element to a sequence without repetition leaves one.
pub proof fn lemma_added<T>(s: Seq<T>, x: T)
    requires
        s.no_duplicates(),
    ensures
        added(s, x).no_duplicates(),
        added(s, x).contains(x),
        forall|y: T| added(s, x).contains(y) <==> (s.contains(y) || y == x),
{
    let r = added(s, x);
    if !s.contains(x) {
        assert(r[s.len() as int] == x);
        assert forall|y: T| r.contains(y) <==> (s.contains(y) || y == x) by {
            if r.contains(y) {
                let a = r.index_of(y);
                if a < s.len() {
                    assert(s[a] == y);
                }
            }
            if s.contains(y) {
                let a = s.index_of(y);
                assert(r[a] == y);
            }
        }
    }
}

/// The term `u` is an answer of `f` for the term `t`.
pub open spec fn image_of<F: Fn(&Label) -> Label>(f: F, t: Tag, u: Tag) -> bool {
    exists|l: Label, o: Label| tag(l) == t && tag(o) == u && #[trigger] call_ensures(f, (&l,), o)
}

/// The edges `es` are the edges `e`, each with answers of `f` for its two
/// ends in their places.
pub open spec fn mapped<F: Fn(&Label) -> Label>(f: F, e: Seq<(Tag, Tag)>, es: Seq<(Tag, Tag)>) -> bool {
    &&& es.len() == e.len()
    &&& forall|k: int| 0 <= k < e.len() ==> image_of(f, (#[trigger] e[k]).0, es[k].0) && image_of(f, e[k].1, es[k].1)
}

/// `r` is the graph of some edges that are the edges `e` under `f`.
pub open spec fn map_of<F: Fn(&Label) -> Label>(f: F, e: Seq<(Tag, Tag)>, r: Quiver) -> bool {
    exists|es: Seq<(Tag, Tag)>| #[trigger] mapped(f, e, es) && r == Quiver::of_edges(es, es.len() as int)
}

/// Copies of the terms of a set, in its order.
fn terms_of(set: &indexmap::IndexSet<Label>) -> (r: Vec<Label>)
    ensures
        tags(r@) == members(*set),
{
    let n = terms_len(set);
    let mut r: Vec<Label> = Vec::new();
    let mut k: usize = 0;
    while k < n
        invariant
            k <= n,
            n == members(*set).len(),
            r.len() == k,
            tags(r@) == members(*set).take(k as int),
        decreases n - k,
    {
        let ghost before = r@;
        r.push(terms_get(set, k));
        proof {
            assert forall|j: int| 0 <= j < k + 1 implies tags(r@)[j] == members(*set)[j] by {
                if j < k {
                    assert(tags(before)[j] == members(*set).take(k as int)[j]);
                    assert(r@[j] == before[j]);
                }
            }
            assert(tags(r@) =~= members(*set).take(k as int + 1));
        }
        k = k + 1;
    }
    proof {
        assert(members(*set).take(n as int) =~= members(*set));
    }
    r
}

/// A graph on terms as the contracts see it: the vertices in order, for
/// each of them its out-neighbours and its in-neighbours in order, and the
/// edges in order.
#[verifier::ext_equal]
pub struct Quiver {
    pub v: Seq<Tag>,
    pub out: Seq<Seq<Tag>>,
    pub inn: Seq<Seq<Tag>>,
    pub e: Seq<(Tag, Tag)>,
}

impl Quiver {
    /// The graph without vertices.
    pub open spec fn empty() -> Quiver {
        Quiver { v: Seq::empty(), out: Seq::empty(), inn: Seq::empty(), e: Seq::empty() }
    }

    /// Nothing is held twice, and every vertex has its two lists.
    pub open spec fn wf(self) -> bool {
        &&& self.v.no_duplicates()
        &&& self.e.no_duplicates()
        &&& self.out.len() == self.v.len()
        &&& self.inn.len() == self.v.len()
        &&& forall|i: int| 0 <= i < self.out.len() ==> (#[trigger] self.out[i]).no_duplicates()
        &&& forall|i: int| 0 <= i < self.inn.len() ==> (#[trigger] self.inn[i]).no_duplicates()
    }

    /// The graph with the vertex `t`.
    pub open spec fn add_vertex(self, t: Tag) -> Quiver {
        if self.v.contains(t) {
            self
        } else {
            Quiver {
                v: self.v.push(t),
                out: self.out.push(Seq::empty()),
                inn: self.inn.push(Seq::empty()),
                e: self.e,
            }
        }
    }

    /// Whether `b` is an out-neighbour of the vertex `a`.
    pub open spec fn has_edge(self, a: Tag, b: Tag) -> bool {
        self.v.contains(a) && self.out[self.v.index_of(a)].contains(b)
    }

    /// The graph with the edge from `a` to `b`, where both are vertices and
    /// the edge is new; else the graph as it is.
    pub open spec fn add_edge(self, a: Tag, b: Tag) -> Quiver {
        if !self.v.contains(a) || !self.v.contains(b) || self.has_edge(a, b) {
            self
        } else {
            let ia = self.v.index_of(a);
            let out = self.out.update(ia, added(self.out[ia], b));
            let ib = self.v.index_of(b);
            Quiver {
                v: self.v,
                out,
                inn: self.inn.update(ib, added(self.inn[ib], a)),
                e: added(self.e, (a, b)),
            }
        }
    }

    /// The graph without `w` among the in-neighbours of `x`.
    pub open spec fn forget_in(self, x: Tag, w: Tag) -> Quiver {
        if self.v.contains(x) {
            let i = self.v.index_of(x);
            Quiver { v: self.v, out: self.out, inn: self.inn.update(i, dropped(self.inn[i], w)), e: self.e }
        } else {
            self
        }
    }

    /// The graph without `w` among the out-neighbours of `x`.
    pub open spec fn forget_out(self, x: Tag, w: Tag) -> Quiver {
        if self.v.contains(x) {
            let i = self.v.index_of(x);
            Quiver { v: self.v, out: self.out.update(i, dropped(self.out[i], w)), inn: self.inn, e: self.e }
        } else {
            self
        }
    }

    /// The graph without the edge from `a` to `b` in its list of edges.
    pub open spec fn forget_edge(self, a: Tag, b: Tag) -> Quiver {
        Quiver { v: self.v, out: self.out, inn: self.inn, e: dropped(self.e, (a, b)) }
    }

    /// One edge from the contracted vertex `w` to `x` is moved to `u`. An
    /// edge from `w` to itself becomes one from `u` to itself.
    pub open spec fn move_out(self, u: Tag, w: Tag, x: Tag) -> Quiver {
        self.add_edge(u, if x == w { u } else { x }).forget_in(x, w).forget_edge(w, x)
    }

    /// One edge from `x` to the contracted vertex `w` is moved to `u`.
    pub open spec fn move_in(self, u: Tag, w: Tag, x: Tag) -> Quiver {
        self.add_edge(if x == w { u } else { x }, u).forget_out(x, w).forget_edge(x, w)
    }

    /// The edges from `w` to the first `upto` vertices of `o` are moved to
    /// `u`, in order.
    pub open spec fn move_outs(self, u: Tag, w: Tag, o: Seq<Tag>, upto: int) -> Quiver
        decreases upto,
    {
        if upto <= 0 {
            self
        } else {
            self.move_outs(u, w, o, upto - 1).move_out(u, w, o[upto - 1])
        }
    }

    /// The edges from the first `upto` vertices of `i` to `w` are moved to
    /// `u`, in order.
    pub open spec fn move_ins(self, u: Tag, w: Tag, i: Seq<Tag>, upto: int) -> Quiver
        decreases upto,
    {
        if upto <= 0 {
            self
        } else {
            self.move_ins(u, w, i, upto - 1).move_in(u, w, i[upto - 1])
        }
    }

    /// The graph in which `w` is contracted into `u`: `w` leaves the
    /// vertices, the last vertex taking its place, and its edges are moved
    /// to `u`, first those that leave it, then those that enter it. Nothing
    /// changes where `u` is `w` or one of them is no vertex.
    pub open spec fn contract(self, u: Tag, w: Tag) -> Quiver {
        if u == w || !self.v.contains(u) || !self.v.contains(w) {
            self
        } else {
            let i = self.v.index_of(w);
            let bare = Quiver {
                v: swap_removed(self.v, i),
                out: swap_removed(self.out, i),
                inn: swap_removed(self.inn, i),
                e: self.e,
            };
            bare.move_outs(u, w, self.out[i], self.out[i].len() as int).move_ins(
                u,
                w,
                self.inn[i],
                self.inn[i].len() as int,
            )
        }
    }

    /// The graph without the edge from `a` to `b`.
    pub open spec fn remove_edge(self, a: Tag, b: Tag) -> Quiver {
        if self.has_edge(a, b) {
            self.forget_out(a, b).forget_in(b, a).forget_edge(a, b)
        } else {
            self
        }
    }

    /// The graph without the edges from the vertex `w`, which has left, to
    /// the first `upto` vertices of `o`.
    pub open spec fn drop_outs(self, w: Tag, o: Seq<Tag>, upto: int) -> Quiver
        decreases upto,
    {
        if upto <= 0 {
            self
        } else {
            self.drop_outs(w, o, upto - 1).forget_in(o[upto - 1], w).forget_edge(w, o[upto - 1])
        }
    }

    /// The graph without the edges from the first `upto` vertices of `i` to
    /// the vertex `w`, which has left.
    pub open spec fn drop_ins(self, w: Tag, i: Seq<Tag>, upto: int) -> Quiver
        decreases upto,
    {
        if upto <= 0 {
            self
        } else {
            self.drop_ins(w, i, upto - 1).forget_out(i[upto - 1], w).forget_edge(i[upto - 1], w)
        }
    }

    /// The graph without the vertex `w` and its edges: the last vertex takes
    /// the place of `w`, and the edges leave, first those from `w`, then
    /// those to it.
    pub open spec fn remove_vertex(self, w: Tag) -> Quiver {
        if !self.v.contains(w) {
            self
        } else {
            let i = self.v.index_of(w);
            let bare = Quiver {
                v: swap_removed(self.v, i),
                out: swap_removed(self.out, i),
                inn: swap_removed(self.inn, i),
                e: self.e,
            };
            bare.drop_outs(w, self.out[i], self.out[i].len() as int).drop_ins(
                w,
                self.inn[i],
                self.inn[i].len() as int,
            )
        }
    }

    /// The graph with both ends of an edge as vertices, and the edge.
    pub open spec fn with_edge(self, a: Tag, b: Tag) -> Quiver {
        self.add_vertex(a).add_vertex(b).add_edge(a, b)
    }

    /// The graph of the first `upto` of the given edges, added in order,
    /// each with its two ends.
    pub open spec fn of_edges(edges: Seq<(Tag, Tag)>, upto: int) -> Quiver
        decreases upto,
    {
        if upto <= 0 {
            Quiver::empty()
        } else {
            Quiver::of_edges(edges, upto - 1).with_edge(edges[upto - 1].0, edges[upto - 1].1)
        }
    }

    /// The graph with the first `upto` of the given edges more, added in
    /// order, each with its two ends.
    pub open spec fn grown(self, edges: Seq<(Tag, Tag)>, upto: int) -> Quiver
        decreases upto,
    {
        if upto <= 0 {
            self
        } else {
            self.grown(edges, upto - 1).with_edge(edges[upto - 1].0, edges[upto - 1].1)
        }
    }

    /// The graph with the first `upto` of the given vertices, added in
    /// order.
    pub open spec fn with_vertices(self, vs: Seq<Tag>, upto: int) -> Quiver
        decreases upto,
    {
        if upto <= 0 {
            self
        } else {
            self.with_vertices(vs, upto - 1).add_vertex(vs[upto - 1])
        }
    }

    /// The graph with the first `upto` of the given edges, added in order
    /// where both ends are vertices.
    pub open spec fn with_edges(self, es: Seq<(Tag, Tag)>, upto: int) -> Quiver
        decreases upto,
    {
        if upto <= 0 {
            self
        } else {
            self.with_edges(es, upto - 1).add_edge(es[upto - 1].0, es[upto - 1].1)
        }
    }

    /// The graph with the vertices and edges of `self`, then those of
    /// `other`, each added in order.
    pub open spec fn union(self, other: Quiver) -> Quiver {
        Quiver::empty().with_vertices(self.v, self.v.len() as int).with_edges(self.e, self.e.len() as int).with_vertices(
            other.v,
            other.v.len() as int,
        ).with_edges(other.e, other.e.len() as int)
    }

    /// What the operations keep: the graph stays well formed.
    pub proof fn lemma_add_vertex(self, t: Tag)
        requires
            self.wf(),
        ensures
            self.add_vertex(t).wf(),
            self.add_vertex(t).v.contains(t),
    {
        lemma_added(self.v, t);
        if !self.v.contains(t) {
            assert(self.add_vertex(t).v == added(self.v, t));
        }
    }

    /// Adding an edge keeps the graph well formed and its vertices.
    pub proof fn lemma_add_edge(self, a: Tag, b: Tag)
        requires
            self.wf(),
        ensures
            self.add_edge(a, b).wf(),
            self.add_edge(a, b).v == self.v,
    {
        if self.v.contains(a) && self.v.contains(b) && !self.has_edge(a, b) {
            let ia = self.v.index_of(a);
            let ib = self.v.index_of(b);
            lemma_added(self.out[ia], b);
            lemma_added(self.inn[ib], a);
            lemma_added(self.e, (a, b));
        }
    }

    /// Forgetting a neighbour or an edge keeps the graph well formed and its
    /// vertices.
    pub proof fn lemma_forget(self, x: Tag, w: Tag)
        requires
            self.wf(),
        ensures
            self.forget_in(x, w).wf(),
            self.forget_in(x, w).v == self.v,
            self.forget_out(x, w).wf(),
            self.forget_out(x, w).v == self.v,
            self.forget_edge(x, w).wf(),
            self.forget_edge(x, w).v == self.v,
            self.forget_edge(w, x).wf(),
            self.forget_edge(w, x).v == self.v,
    {
        if self.v.contains(x) {
            let i = self.v.index_of(x);
            if self.inn[i].contains(w) {
                lemma_swap_removed(self.inn[i], self.inn[i].index_of(w));
            }
            if self.out[i].contains(w) {
                lemma_swap_removed(self.out[i], self.out[i].index_of(w));
            }
        }
        if self.e.contains((x, w)) {
            lemma_swap_removed(self.e, self.e.index_of((x, w)));
        }
        if self.e.contains((w, x)) {
            lemma_swap_removed(self.e, self.e.index_of((w, x)));
        }
    }
}

/// A copy of a term.
pub fn copy_label(l: &Label) -> (r: Label)
    ensures
        tag(r) == tag(*l),
        r.0 == l.0,
        r.1@ == l.1@,
{
    let mut t: Vec<usize> = Vec::new();
    let mut k: usize = 0;
    while k < l.1.len()
        invariant
            k <= l.1.len(),
            t@ == l.1@.take(k as int),
        decreases l.1.len() - k,
    {
        t.push(l.1[k]);
        proof {
            assert(t@ =~= l.1@.take(k as int + 1));
        }
        k = k + 1;
    }
    proof {
        assert(l.1@.take(l.1@.len() as int) =~= l.1@);
    }
    (l.0, t)
}

/// Whether two terms are the same.
pub fn same_label(a: &Label, b: &Label) -> (r: bool)
    ensures
        r == (tag(*a) == tag(*b)),
{
    if a.0 != b.0 || a.1.len() != b.1.len() {
        return false;
    }
    let mut k: usize = 0;
    while k < a.1.len()
        invariant
            k <= a.1.len(),
            a.1.len() == b.1.len(),
            forall|j: int| 0 <= j < k ==> #[trigger] a.1@[j] == b.1@[j],
        decreases a.1.len() - k,
    {
        if a.1[k] != b.1[k] {
            return false;
        }
        k = k + 1;
    }
    proof {
        assert(a.1@ =~= b.1@);
    }
    true
}

/// In a sequence without repetition an element has one place.
pub proof fn lemma_place<T>(s: Seq<T>, i: int)
    requires
        s.no_duplicates(),
        0 <= i < s.len(),
    ensures
        s.contains(s[i]),
        s.index_of(s[i]) == i,
{
}

/// A directed graph on terms that can be changed.
pub struct AdjMap {
    vertices: indexmap::IndexSet<Label>,
    lists: Vec<(indexmap::IndexSet<Label>, indexmap::IndexSet<Label>)>,
    edges: indexmap::IndexSet<(Label, Label)>,
}

impl View for AdjMap {
    type V = Quiver;

    closed spec fn view(&self) -> Quiver {
        Quiver {
            v: members(self.vertices),
            out: Seq::new(self.lists@.len(), |i: int| members(self.lists@[i].0)),
            inn: Seq::new(self.lists@.len(), |i: int| members(self.lists@[i].1)),
            e: pairs(self.edges),
        }
    }
}

impl AdjMap {
    /// The graph is well formed.
    pub open spec fn wf(&self) -> bool {
        self@.wf()
    }

    /// The graph without vertices.
    pub fn new() -> (r: AdjMap)
        ensures
            r.wf(),
            r@ == Quiver::empty(),
    {
        let r = AdjMap { vertices: terms_new(), lists: Vec::new(), edges: pairs_new() };
        proof {
            assert(r@.v =~= Seq::empty());
            assert(r@.e =~= Seq::empty());
            assert(r@ =~= Quiver::empty());
        }
        r
    }

    /// The graph of the given edges, added in order, each with its two
    /// ends.
    pub fn from_iter(edges: Vec<(Label, Label)>) -> (r: AdjMap)
        ensures
            r.wf(),
            r@ == Quiver::of_edges(Seq::new(edges@.len(), |k: int| (tag(edges@[k].0), tag(edges@[k].1))), edges@.len() as int),
    {
        let mut graph = AdjMap::new();
        let ghost tags = Seq::new(edges@.len(), |k: int| (tag(edges@[k].0), tag(edges@[k].1)));
        let mut k: usize = 0;
        while k < edges.len()
            invariant
                k <= edges.len(),
                graph.wf(),
                tags == Seq::new(edges@.len(), |k: int| (tag(edges@[k].0), tag(edges@[k].1))),
                graph@ == Quiver::of_edges(tags, k as int),
            decreases edges.len() - k,
        {
            let u = &edges[k].0;
            let v = &edges[k].1;
            proof {
                let g = graph@;
                g.lemma_add_vertex(tag(*u));
                g.add_vertex(tag(*u)).lemma_add_vertex(tag(*v));
                assert(g.add_vertex(tag(*u)).add_vertex(tag(*v)).v.contains(tag(*u))) by {
                    let g1 = g.add_vertex(tag(*u));
                    let i = g1.v.index_of(tag(*u));
                    assert(g1.add_vertex(tag(*v)).v[i] == tag(*u));
                }
                assert(tags[k as int] == (tag(*u), tag(*v)));
            }
            graph.add_vertex(copy_label(u));
            graph.add_vertex(copy_label(v));
            graph.add_edge(u, v);
            k = k + 1;
        }
        graph
    }

    /// The graph of the given edges, added in order, each with its two
    /// ends.
    pub fn from_edges(edges: Vec<(Label, Label)>) -> (r: AdjMap)
        ensures
            r.wf(),
            r@ == Quiver::of_edges(Seq::new(edges@.len(), |k: int| (tag(edges@[k].0), tag(edges@[k].1))), edges@.len() as int),
    {
        AdjMap::from_iter(edges)
    }

    /// The graph without vertices, with room for `capacity` vertices and
    /// edges, or for 65536 where that is less.
    pub fn with_capacity(capacity: usize) -> (r: AdjMap)
        ensures
            r.wf(),
            r@ == Quiver::empty(),
    {
        let room = if capacity > 65536 {
            65536
        } else {
            capacity
        };
        let r = AdjMap { vertices: terms_with_capacity(room), lists: Vec::with_capacity(room), edges: pairs_with_capacity(room) };
        proof {
            assert(r@ =~= Quiver::empty());
        }
        r
    }

    /// Adds the given edges in order, each with its two ends.
    pub fn grow(&mut self, edges: Vec<(Label, Label)>)
        requires
            old(self).wf(),
        ensures
            final(self).wf(),
            final(self)@ == old(self)@.grown(
                Seq::new(edges@.len(), |k: int| (tag(edges@[k].0), tag(edges@[k].1))),
                edges@.len() as int,
            ),
    {
        let ghost tags = Seq::new(edges@.len(), |k: int| (tag(edges@[k].0), tag(edges@[k].1)));
        let mut k: usize = 0;
        while k < edges.len()
            invariant
                k <= edges.len(),
                self.wf(),
                tags == Seq::new(edges@.len(), |k: int| (tag(edges@[k].0), tag(edges@[k].1))),
                self@ == old(self)@.grown(tags, k as int),
            decreases edges.len() - k,
        {
            let u = &edges[k].0;
            let v = &edges[k].1;
            proof {
                let g = self@;
                g.lemma_add_vertex(tag(*u));
                g.add_vertex(tag(*u)).lemma_add_vertex(tag(*v));
                assert(g.add_vertex(tag(*u)).add_vertex(tag(*v)).v.contains(tag(*u))) by {
                    let g1 = g.add_vertex(tag(*u));
                    let i = g1.v.index_of(tag(*u));
                    assert(g1.add_vertex(tag(*v)).v[i] == tag(*u));
                }
                assert(tags[k as int] == (tag(*u), tag(*v)));
            }
            self.add_vertex(copy_label(u));
            self.add_vertex(copy_label(v));
            self.add_edge(u, v);
            k = k + 1;
        }
    }

    /// Adds the vertices of `other` from place `0` on and then its edges,
    /// each in order.
    fn absorb(&mut self, other: &AdjMap)
        requires
            old(self).wf(),
            other.wf(),
        ensures
            final(self).wf(),
            final(self)@ == old(self)@.with_vertices(other@.v, other@.v.len() as int).with_edges(
                other@.e,
                other@.e.len() as int,
            ),
    {
        let n = other.vertex_count();
        let mut i: usize = 0;
        while i < n
            invariant
                i <= n,
                n == other@.v.len(),
                self.wf(),
                self@ == old(self)@.with_vertices(other@.v, i as int),
            decreases n - i,
        {
            self.add_vertex(other.vertex(i));
            i = i + 1;
        }
        let ghost mid = self@;
        let m = other.edge_count();
        let mut k: usize = 0;
        while k < m
            invariant
                k <= m,
                m == other@.e.len(),
                self.wf(),
                self@ == mid.with_edges(other@.e, k as int),
            decreases m - k,
        {
            let (a, b) = other.edge(k);
            self.link(&a, &b);
            k = k + 1;
        }
    }

    /// The graph with the vertices and edges of this graph and then those of
    /// `other`.
    pub fn union(&self, other: &AdjMap) -> (r: AdjMap)
        requires
            self.wf(),
            other.wf(),
        ensures
            r.wf(),
            r@ == self@.union(other@),
    {
        let mut r = AdjMap::new();
        r.absorb(self);
        r.absorb(other);
        r
    }

    /// The graph of the edges of this graph with `f` applied to both ends of
    /// each, in order. Vertices without an edge are left behind.
    pub fn map<F: Fn(&Label) -> Label>(&self, f: F) -> (r: AdjMap)
        requires
            self.wf(),
            forall|l: Label| #[trigger] call_requires(f, (&l,)),
        ensures
            r.wf(),
            map_of(f, self@.e, r@),
    {
        let m = self.edge_count();
        let mut out: Vec<(Label, Label)> = Vec::new();
        let ghost mut es: Seq<(Tag, Tag)> = Seq::empty();
        let mut k: usize = 0;
        while k < m
            invariant
                k <= m,
                m == self@.e.len(),
                out.len() == k,
                es.len() == k,
                forall|l: Label| #[trigger] call_requires(f, (&l,)),
                forall|j: int| 0 <= j < k ==> #[trigger] es[j] == (tag(out@[j].0), tag(out@[j].1)),
                forall|j: int|
                    0 <= j < k ==> image_of(f, (#[trigger] self@.e[j]).0, es[j].0) && image_of(f, self@.e[j].1, es[j].1),
            decreases m - k,
        {
            let (a, b) = self.edge(k);
            let fa = f(&a);
            let fb = f(&b);
            proof {
                assert(call_ensures(f, (&a,), fa));
                assert(call_ensures(f, (&b,), fb));
                assert(image_of(f, self@.e[k as int].0, tag(fa)));
                assert(image_of(f, self@.e[k as int].1, tag(fb)));
                es = es.push((tag(fa), tag(fb)));
            }
            out.push((fa, fb));
            k = k + 1;
        }
        let ghost given = Seq::new(out@.len(), |j: int| (tag(out@[j].0), tag(out@[j].1)));
        let r = AdjMap::from_iter(out);
        proof {
            assert(given =~= es);
            assert(mapped(f, self@.e, es));
        }
        r
    }

    /// The graph as a matrix: the vertices are numbered by their places, and
    /// the edges whose ends are vertices keep their order. `None` where a
    /// matrix cannot hold so many vertices.
    pub fn to_matrix(&self) -> (r: Option<AdjMatrix>)
        requires
            self.wf(),
        ensures
            match r {
                Some(m) => m.wf() && m.order() == self@.v.len() && m.arrows() == renumbered(
                    self@,
                    self@.e.len() as int,
                ),
                None => !AdjMatrix::can_hold(self@.v.len()),
            },
    {
        let n = self.vertex_count();
        let room = AdjMatrix::has_room(n);
        proof {
            if room {
                assert forall|k: nat| k <= n implies #[trigger] AdjMatrix::can_hold(k) by {
                    assert(AdjMatrix::holds(k));
                }
            } else if AdjMatrix::can_hold(n as nat) {
                assert forall|k: nat| k <= n implies #[trigger] AdjMatrix::holds(k) by {
                    assert(k * k <= n * n) by (nonlinear_arith)
                        requires
                            k <= n,
                    ;
                }
            }
        }
        if !room {
            return None;
        }
        let ghost q = self@;
        let mut matrix = AdjMatrix::with_capacities(n, self.edge_count());
        let mut i: usize = 0;
        while i < n
            invariant
                i <= n,
                n == q.v.len(),
                forall|k: nat| k <= n ==> #[trigger] AdjMatrix::can_hold(k),
                matrix.wf(),
                matrix.order() == i,
                matrix.arrows().len() == 0,
            decreases n - i,
        {
            proof {
                assert(AdjMatrix::can_hold((i + 1) as nat));
            }
            matrix.add_vertex();
            i = i + 1;
        }
        let m = self.edge_count();
        let mut k: usize = 0;
        assert(matrix.arrows() =~= renumbered(q, 0));
        while k < m
            invariant
                k <= m,
                m == q.e.len(),
                n == q.v.len(),
                q == self@,
                self.wf(),
                matrix.wf(),
                matrix.order() == n,
                matrix.arrows() == renumbered(q, k as int),
            decreases m - k,
        {
            let (a, b) = self.edge(k);
            match self.index_of(&a) {
                Some(ia) => {
                    match self.index_of(&b) {
                        Some(ib) => {
                            matrix.add_edge(ia, ib);
                        },
                        None => {},
                    }
                },
                None => {},
            }
            k = k + 1;
        }
        proof {
            assert(AdjMatrix::can_hold(n as nat));
        }
        Some(matrix)
    }

    /// The out-neighbours of the vertex `v`, in their order.
    pub fn out_neighbors(&self, v: &Label) -> (r: Vec<Label>)
        requires
            self.wf(),
            self@.v.contains(tag(*v)),
        ensures
            tags(r@) == self@.out[self@.v.index_of(tag(*v))],
    {
        let i = self.index_of(v).unwrap();
        terms_of(&self.lists[i].0)
    }

    /// The number of out-neighbours of the vertex `v`.
    pub fn out_neighbors_count(&self, v: &Label) -> (r: usize)
        requires
            self.wf(),
            self@.v.contains(tag(*v)),
        ensures
            r == self@.out[self@.v.index_of(tag(*v))].len(),
    {
        let i = self.index_of(v).unwrap();
        terms_len(&self.lists[i].0)
    }

    /// The in-neighbours of the vertex `v`, in their order.
    pub fn in_neighbors(&self, v: &Label) -> (r: Vec<Label>)
        requires
            self.wf(),
            self@.v.contains(tag(*v)),
        ensures
            tags(r@) == self@.inn[self@.v.index_of(tag(*v))],
    {
        let i = self.index_of(v).unwrap();
        terms_of(&self.lists[i].1)
    }

    /// The number of in-neighbours of the vertex `v`.
    pub fn in_neighbors_count(&self, v: &Label) -> (r: usize)
        requires
            self.wf(),
            self@.v.contains(tag(*v)),
        ensures
            r == self@.inn[self@.v.index_of(tag(*v))].len(),
    {
        let i = self.index_of(v).unwrap();
        terms_len(&self.lists[i].1)
    }

    /// The neighbours of the vertex `v`: its out-neighbours, then its
    /// in-neighbours.
    pub fn neighbors(&self, v: &Label) -> (r: Vec<Label>)
        requires
            self.wf(),
            self@.v.contains(tag(*v)),
        ensures
            tags(r@) == self@.out[self@.v.index_of(tag(*v))] + self@.inn[self@.v.index_of(tag(*v))],
    {
        let mut r = self.out_neighbors(v);
        let ghost first = tags(r@);
        let more = self.in_neighbors(v);
        let mut k: usize = 0;
        assert(tags(r@) =~= first + tags(more@).take(0));
        while k < more.len()
            invariant
                k <= more.len(),
                r.len() == first.len() + k,
                tags(r@) == first + tags(more@).take(k as int),
            decreases more.len() - k,
        {
            let ghost before = r@;
            r.push(copy_label(&more[k]));
            proof {
                let want = first + tags(more@).take(k as int + 1);
                assert(tags(before) == first + tags(more@).take(k as int));
                assert forall|j: int| 0 <= j < want.len() implies tags(r@)[j] == want[j] by {
                    if j < before.len() {
                        assert(r@[j] == before[j]);
                        assert(tags(before)[j] == (first + tags(more@).take(k as int))[j]);
                    }
                }
                assert(tags(r@) =~= want);
            }
            k = k + 1;
        }
        proof {
            assert(tags(more@).take(more@.len() as int) =~= tags(more@));
        }
        r
    }

    /// The number of neighbours of the vertex `v`: of its out-neighbours and
    /// of its in-neighbours together, where that fits a `usize`.
    pub fn neighbors_count(&self, v: &Label) -> (r: usize)
        requires
            self.wf(),
            self@.v.contains(tag(*v)),
            self@.out[self@.v.index_of(tag(*v))].len() + self@.inn[self@.v.index_of(tag(*v))].len() <= usize::MAX,
        ensures
            r == self@.out[self@.v.index_of(tag(*v))].len() + self@.inn[self@.v.index_of(tag(*v))].len(),
    {
        self.out_neighbors_count(v) + self.in_neighbors_count(v)
    }

    /// The number of vertices.
    pub fn vertex_count(&self) -> (r: usize)
        ensures
            r == self@.v.len(),
    {
        terms_len(&self.vertices)
    }

    /// The number of edges.
    pub fn edge_count(&self) -> (r: usize)
        ensures
            r == self@.e.len(),
    {
        pairs_len(&self.edges)
    }

    /// Whether `t` is a vertex.
    pub fn has_vertex(&self, t: &Label) -> (r: bool)
        ensures
            r == self@.v.contains(tag(*t)),
    {
        terms_contains(&self.vertices, t)
    }

    /// The vertex at place `i`.
    pub fn vertex(&self, i: usize) -> (r: Label)
        requires
            i < self@.v.len(),
        ensures
            tag(r) == self@.v[i as int],
    {
        terms_get(&self.vertices, i)
    }

    /// The place of the vertex `t`.
    pub fn index_of(&self, t: &Label) -> (r: Option<usize>)
        requires
            self.wf(),
        ensures
            r.is_some() == self@.v.contains(tag(*t)),
            r.is_some() ==> r.unwrap() == self@.v.index_of(tag(*t)),
    {
        let r = terms_index_of(&self.vertices, t);
        proof {
            if r.is_some() {
                lemma_place(self@.v, r.unwrap() as int);
            }
        }
        r
    }

    /// The edge at place `i`.
    pub fn edge(&self, i: usize) -> (r: (Label, Label))
        requires
            i < self@.e.len(),
        ensures
            (tag(r.0), tag(r.1)) == self@.e[i as int],
    {
        pairs_get(&self.edges, i)
    }

    /// Adds the vertex `t`. Answers whether it was new.
    pub fn add_vertex(&mut self, t: Label) -> (r: bool)
        requires
            old(self).wf(),
        ensures
            final(self).wf(),
            final(self)@ == old(self)@.add_vertex(tag(t)),
            r == !old(self)@.v.contains(tag(t)),
    {
        proof {
            self@.lemma_add_vertex(tag(t));
        }
        if self.has_vertex(&t) {
            false
        } else {
            terms_insert(&mut self.vertices, t);
            self.lists.push((terms_new(), terms_new()));
            proof {
                let m = old(self)@.add_vertex(tag(t));
                assert(self@.out =~= m.out);
                assert(self@.inn =~= m.inn);
                assert(self@ =~= m);
            }
            true
        }
    }

    /// Whether the graph has an edge from `u` to `v`.
    pub fn has_edge(&self, u: &Label, v: &Label) -> (r: bool)
        requires
            self.wf(),
        ensures
            r == self@.has_edge(tag(*u), tag(*v)),
    {
        match self.index_of(u) {
            None => false,
            Some(i) => terms_contains(&self.lists[i].0, v),
        }
    }

    /// Adds an edge from `u` to `v` where both are vertices. Answers whether
    /// the edge was added.
    pub fn link(&mut self, u: &Label, v: &Label) -> (r: bool)
        requires
            old(self).wf(),
        ensures
            final(self).wf(),
            final(self)@ == old(self)@.add_edge(tag(*u), tag(*v)),
            r == (old(self)@.v.contains(tag(*u)) && old(self)@.v.contains(tag(*v)) && !old(self)@.has_edge(
                tag(*u),
                tag(*v),
            )),
    {
        proof {
            self@.lemma_add_edge(tag(*u), tag(*v));
        }
        let iu = match self.index_of(u) {
            None => {
                return false;
            },
            Some(i) => i,
        };
        let iv = match self.index_of(v) {
            None => {
                return false;
            },
            Some(i) => i,
        };
        if terms_contains(&self.lists[iu].0, v) {
            return false;
        }
        terms_insert(&mut self.lists[iu].0, copy_label(v));
        terms_insert(&mut self.lists[iv].1, copy_label(u));
        pairs_insert(&mut self.edges, copy_label(u), copy_label(v));
        proof {
            let m = old(self)@.add_edge(tag(*u), tag(*v));
            assert(self@.out =~= m.out);
            assert(self@.inn =~= m.inn);
            assert(self@ =~= m);
        }
        true
    }

    /// Adds an edge from `u` to `v`. Answers whether the edge was new.
    pub fn add_edge(&mut self, u: &Label, v: &Label) -> (r: bool)
        requires
            old(self).wf(),
            old(self)@.v.contains(tag(*u)),
            old(self)@.v.contains(tag(*v)),
        ensures
            final(self).wf(),
            final(self)@ == old(self)@.add_edge(tag(*u), tag(*v)),
            r == !old(self)@.has_edge(tag(*u), tag(*v)),
    {
        self.link(u, v)
    }

    /// Takes `w` out of the in-neighbours of `x`.
    fn forget_in(&mut self, x: &Label, w: &Label)
        requires
            old(self).wf(),
        ensures
            final(self).wf(),
            final(self)@ == old(self)@.forget_in(tag(*x), tag(*w)),
    {
        proof {
            self@.lemma_forget(tag(*x), tag(*w));
        }
        match self.index_of(x) {
            None => {},
            Some(i) => {
                let ghost before = members(self.lists@[i as int].1);
                let found = terms_remove(&mut self.lists[i].1, w);
                proof {
                    if found.is_some() {
                        lemma_place(before, found.unwrap() as int);
                    }
                    let m = old(self)@.forget_in(tag(*x), tag(*w));
                    assert(self@.out =~= m.out);
                    assert(self@.inn =~= m.inn);
                    assert(self@ =~= m);
                }
            },
        }
    }

    /// Takes `w` out of the out-neighbours of `x`.
    fn forget_out(&mut self, x: &Label, w: &Label)
        requires
            old(self).wf(),
        ensures
            final(self).wf(),
            final(self)@ == old(self)@.forget_out(tag(*x), tag(*w)),
    {
        proof {
            self@.lemma_forget(tag(*x), tag(*w));
        }
        match self.index_of(x) {
            None => {},
            Some(i) => {
                let ghost before = members(self.lists@[i as int].0);
                let found = terms_remove(&mut self.lists[i].0, w);
                proof {
                    if found.is_some() {
                        lemma_place(before, found.unwrap() as int);
                    }
                    let m = old(self)@.forget_out(tag(*x), tag(*w));
                    assert(self@.out =~= m.out);
                    assert(self@.inn =~= m.inn);
                    assert(self@ =~= m);
                }
            },
        }
    }

    /// Takes the edge from `a` to `b` out of the list of edges.
    fn forget_edge(&mut self, a: &Label, b: &Label)
        requires
            old(self).wf(),
        ensures
            final(self).wf(),
            final(self)@ == old(self)@.forget_edge(tag(*a), tag(*b)),
    {
        proof {
            self@.lemma_forget(tag(*a), tag(*b));
        }
        let ghost before = pairs(self.edges);
        let found = pairs_remove(&mut self.edges, a, b);
        proof {
            if found.is_some() {
                lemma_place(before, found.unwrap() as int);
            }
            let m = old(self)@.forget_edge(tag(*a), tag(*b));
            assert(self@.out =~= m.out);
            assert(self@.inn =~= m.inn);
            assert(self@ =~= m);
        }
    }

    /// Takes out the edge from `u` to `v`. Answers whether there was one.
    pub fn remove_edge(&mut self, u: &Label, v: &Label) -> (r: bool)
        requires
            old(self).wf(),
        ensures
            final(self).wf(),
            final(self)@ == old(self)@.remove_edge(tag(*u), tag(*v)),
            r == old(self)@.has_edge(tag(*u), tag(*v)),
    {
        if !self.has_edge(u, v) {
            return false;
        }
        self.forget_out(u, v);
        self.forget_in(v, u);
        self.forget_edge(u, v);
        true
    }

    /// Takes out the vertex `v` and its edges. Nothing changes where `v` is
    /// no vertex.
    pub fn remove_vertex(&mut self, v: &Label)
        requires
            old(self).wf(),
        ensures
            final(self).wf(),
            final(self)@ == old(self)@.remove_vertex(tag(*v)),
    {
        let ghost m0 = self@;
        let ghost tv = tag(*v);
        let i = match terms_remove(&mut self.vertices, v) {
            None => {
                proof {
                    assert(self@ =~= m0);
                }
                return ;
            },
            Some(i) => i,
        };
        proof {
            lemma_place(m0.v, i as int);
            lemma_swap_removed(m0.v, i as int);
        }
        let (o, inn) = self.lists.swap_remove(i);
        let ghost bare = Quiver {
            v: swap_removed(m0.v, i as int),
            out: swap_removed(m0.out, i as int),
            inn: swap_removed(m0.inn, i as int),
            e: m0.e,
        };
        proof {
            assert(self@.out =~= bare.out);
            assert(self@.inn =~= bare.inn);
            assert(self@ =~= bare);
            assert(members(o) == m0.out[i as int]);
            assert(members(inn) == m0.inn[i as int]);
        }
        let no = terms_len(&o);
        let mut k: usize = 0;
        while k < no
            invariant
                k <= no,
                no == members(o).len(),
                self.wf(),
                tv == tag(*v),
                self@ == bare.drop_outs(tv, members(o), k as int),
            decreases no - k,
        {
            let x = terms_get(&o, k);
            self.forget_in(&x, v);
            self.forget_edge(v, &x);
            k = k + 1;
        }
        let ghost mid = self@;
        let ni = terms_len(&inn);
        let mut k: usize = 0;
        while k < ni
            invariant
                k <= ni,
                ni == members(inn).len(),
                self.wf(),
                tv == tag(*v),
                self@ == mid.drop_ins(tv, members(inn), k as int),
            decreases ni - k,
        {
            let x = terms_get(&inn, k);
            self.forget_out(&x, v);
            self.forget_edge(&x, v);
            k = k + 1;
        }
    }

    /// Contracts the vertex `v` into the vertex `u`: `v` leaves the graph,
    /// and its edges become edges of `u`. Answers `false`, with nothing
    /// changed, where one of the two is no vertex.
    pub fn contract_vertices(&mut self, u: &Label, v: &Label) -> (r: bool)
        requires
            old(self).wf(),
        ensures
            final(self).wf(),
            final(self)@ == old(self)@.contract(tag(*u), tag(*v)),
            r == (tag(*u) == tag(*v) || (old(self)@.v.contains(tag(*u)) && old(self)@.v.contains(tag(*v)))),
    {
        if same_label(u, v) {
            return true;
        }
        if !self.has_vertex(u) || !self.has_vertex(v) {
            return false;
        }
        let ghost m0 = self@;
        let ghost tu = tag(*u);
        let ghost tv = tag(*v);
        let i = terms_remove(&mut self.vertices, v).unwrap();
        proof {
            lemma_place(m0.v, i as int);
            lemma_swap_removed(m0.v, i as int);
        }
        let (o, inn) = self.lists.swap_remove(i);
        let ghost bare = Quiver {
            v: swap_removed(m0.v, i as int),
            out: swap_removed(m0.out, i as int),
            inn: swap_removed(m0.inn, i as int),
            e: m0.e,
        };
        proof {
            assert(self@.out =~= bare.out);
            assert(self@.inn =~= bare.inn);
            assert(self@ =~= bare);
            assert(members(o) == m0.out[i as int]);
            assert(members(inn) == m0.inn[i as int]);
        }
        let no = terms_len(&o);
        let mut k: usize = 0;
        while k < no
            invariant
                k <= no,
                no == members(o).len(),
                self.wf(),
                tu == tag(*u),
                tv == tag(*v),
                self@ == bare.move_outs(tu, tv, members(o), k as int),
            decreases no - k,
        {
            let x = terms_get(&o, k);
            let target = if same_label(&x, v) {
                copy_label(u)
            } else {
                copy_label(&x)
            };
            proof {
                let g = self@;
                g.lemma_add_edge(tu, tag(target));
                g.add_edge(tu, tag(target)).lemma_forget(tag(x), tv);
            }
            self.link(u, &target);
            self.forget_in(&x, v);
            self.forget_edge(v, &x);
            k = k + 1;
        }
        let ghost mid = self@;
        let ni = terms_len(&inn);
        let mut k: usize = 0;
        while k < ni
            invariant
                k <= ni,
                ni == members(inn).len(),
                self.wf(),
                tu == tag(*u),
                tv == tag(*v),
                self@ == mid.move_ins(tu, tv, members(inn), k as int),
            decreases ni - k,
        {
            let x = terms_get(&inn, k);
            let source = if same_label(&x, v) {
                copy_label(u)
            } else {
                copy_label(&x)
            };
            self.link(&source, u);
            self.forget_out(&x, v);
            self.forget_edge(&x, v);
            k = k + 1;
        }
        true
    }
}

/// What can be given as a graph on terms.
pub trait ToGraph {
    /// What the value needs to hold of itself.
    spec fn graph_ready(&self) -> bool;

    /// The graph, as the contracts see it.
    spec fn graph(&self) -> Quiver;

    /// The value as a graph on terms.
    fn to_graph(&self) -> (r: AdjMap)
        requires
            self.graph_ready(),
        ensures
            r.wf(),
            r@ == self.graph(),
    ;
}

impl ToGraph for AdjMap {
    open spec fn graph_ready(&self) -> bool {
        self.wf()
    }

    open spec fn graph(&self) -> Quiver {
        Quiver::empty().with_vertices(self@.v, self@.v.len() as int).with_edges(self@.e, self@.e.len() as int)
    }

    fn to_graph(&self) -> (r: AdjMap) {
        let mut r = AdjMap::new();
        r.absorb(self);
        r
    }
}

} // verus!
