//! The H-colouring problem for two graphs on terms: the graphs are turned
//! into matrices, their vertices numbered by their places.

use vstd::prelude::*;
use crate::algebra::adj_map::{same_label, AdjMap};
use crate::algebra::classes::{tag, tags, Label, Tag};
use crate::algebra::indicator::renumbered;
use crate::digraph::AdjMatrix;
use crate::hcoloring::Instance;
use crate::problem::{well_formed, Constraints, Domains, Problem, Value, Variable};

verus! {

/// An instance of the H-colouring problem for two graphs on terms.
pub struct ColouringProblem {
    inst: Instance,
    sources: Vec<Label>,
    targets: Vec<Label>,
}

/// The list that follows from the answer `a` about a vertex with the list
/// `old`: the place of the term that the answer names among `targets`, or
/// `old` where it names none of them.
pub open spec fn fixed_list(a: Option<Label>, targets: Seq<Tag>, old: Seq<usize>) -> Seq<usize> {
    match a {
        Some(w) => if targets.contains(tag(w)) {
            seq![targets.index_of(tag(w)) as usize]
        } else {
            old
        },
        None => old,
    }
}

/// `list` follows from some answer of `c` about the term `t`.
pub open spec fn fixed_by<FN: Fn(&Label) -> Option<Label>>(
    c: FN,
    t: Tag,
    targets: Seq<Tag>,
    old: Seq<usize>,
    list: Seq<usize>,
) -> bool {
    exists|l: Label, a: Option<Label>| tag(l) == t && #[trigger] call_ensures(c, (&l,), a) && list == fixed_list(a, targets, old)
}

/// Copies of the vertices of a graph on terms, in their order.
fn terms_in(g: &AdjMap) -> (r: Vec<Label>)
    requires
        g.wf(),
    ensures
        tags(r@) == g@.v,
{
    let n = g.vertex_count();
    let mut r: Vec<Label> = Vec::new();
    let mut k: usize = 0;
    while k < n
        invariant
            k <= n,
            n == g@.v.len(),
            r.len() == k,
            forall|j: int| 0 <= j < k ==> tag(#[trigger] r@[j]) == g@.v[j],
        decreases n - k,
    {
        r.push(g.vertex(k));
        k = k + 1;
    }
    proof {
        assert(tags(r@) =~= g@.v);
    }
    r
}

/// The first place of the term among the terms.
fn place_of(terms: &Vec<Label>, t: &Label) -> (r: Option<usize>)
    ensures
        r.is_some() == tags(terms@).contains(tag(*t)),
        r.is_some() ==> r.unwrap() < terms@.len() && tags(terms@)[r.unwrap() as int] == tag(*t) && forall|j: int|
            0 <= j < r.unwrap() ==> tags(terms@)[j] != tag(*t),
{
    let mut k: usize = 0;
    while k < terms.len()
        invariant
            k <= terms.len(),
            forall|j: int| 0 <= j < k ==> tags(terms@)[j] != tag(*t),
        decreases terms.len() - k,
    {
        if same_label(&terms[k], t) {
            proof {
                assert(tags(terms@)[k as int] == tag(*t));
            }
            return Some(k);
        }
        k = k + 1;
    }
    proof {
        if tags(terms@).contains(tag(*t)) {
            let j = tags(terms@).index_of(tag(*t));
            assert(tags(terms@)[j] == tag(*t));
        }
    }
    None
}

impl ColouringProblem {
    /// The problem as one on matrices.
    pub closed spec fn instance(&self) -> Instance {
        self.inst
    }

    /// The terms of the vertices of the graph to be coloured, by number.
    pub closed spec fn source_terms(&self) -> Seq<Tag> {
        tags(self.sources@)
    }

    /// The terms of the colours, by number.
    pub closed spec fn target_terms(&self) -> Seq<Tag> {
        tags(self.targets@)
    }

    /// The problem is well formed, and every vertex of either graph has its
    /// term, none twice.
    pub closed spec fn wf(&self) -> bool {
        &&& self.inst.wf()
        &&& self.sources@.len() == self.inst.source().order()
        &&& self.targets@.len() == self.inst.target().order()
        &&& tags(self.targets@).no_duplicates()
    }

    /// The problem fits the solver.
    pub proof fn lemma_well_formed(&self)
        requires
            self.wf(),
        ensures
            well_formed(self),
            self.instance().wf(),
    {
        self.inst.lemma_well_formed();
    }

    /// The problem of colouring `g` by `h`, where every vertex may get any
    /// colour. `None` where a matrix cannot hold one of the graphs.
    pub fn new(g: &AdjMap, h: &AdjMap) -> (r: Option<ColouringProblem>)
        requires
            g.wf(),
            h.wf(),
        ensures
            match r {
                Some(p) => {
                    &&& p.wf()
                    &&& p.source_terms() == g@.v
                    &&& p.target_terms() == h@.v
                    &&& p.instance().source().order() == g@.v.len()
                    &&& p.instance().source().arrows() == renumbered(g@, g@.e.len() as int)
                    &&& p.instance().target().order() == h@.v.len()
                    &&& p.instance().target().arrows() == renumbered(h@, h@.e.len() as int)
                    &&& p.instance().lists() == Seq::new(g@.v.len(), |k: int| Seq::new(h@.v.len(), |j: int| j as usize))
                },
                None => !AdjMatrix::can_hold(g@.v.len()) || !AdjMatrix::can_hold(h@.v.len()),
            },
    {
        let gm = match g.to_matrix() {
            Some(m) => m,
            None => {
                return None;
            },
        };
        let hm = match h.to_matrix() {
            Some(m) => m,
            None => {
                return None;
            },
        };
        let sources = terms_in(g);
        let targets = terms_in(h);
        Some(ColouringProblem { inst: Instance::new(gm, hm), sources, targets })
    }

    /// Fixes the colour of every vertex for which `c` names a colour: its
    /// list becomes that one colour. The list of a vertex for which `c`
    /// names none, or a term that is no colour, stays.
    pub fn precolour<FN: Fn(&Label) -> Option<Label>>(&mut self, c: FN)
        requires
            old(self).wf(),
            forall|l: Label| #[trigger] call_requires(c, (&l,)),
        ensures
            final(self).wf(),
            final(self).source_terms() == old(self).source_terms(),
            final(self).target_terms() == old(self).target_terms(),
            final(self).instance().source() == old(self).instance().source(),
            final(self).instance().target() == old(self).instance().target(),
            final(self).instance().lists().len() == old(self).instance().lists().len(),
            forall|v: int|
                0 <= v < old(self).source_terms().len() ==> fixed_by(
                    c,
                    old(self).source_terms()[v],
                    old(self).target_terms(),
                    old(self).instance().lists()[v],
                    #[trigger] final(self).instance().lists()[v],
                ),
    {
        let n = self.sources.len();
        proof {
            self.inst.lemma_well_formed();
        }
        let mut lists: Vec<Vec<usize>> = Vec::new();
        let mut v: usize = 0;
        while v < n
            invariant
                v <= n,
                n == self.sources@.len(),
                self.wf(),
                *self == *old(self),
                self.inst.lists().len() == n,
                lists.len() == v,
                forall|l: Label| #[trigger] call_requires(c, (&l,)),
                forall|j: int|
                    0 <= j < v ==> fixed_by(
                        c,
                        tags(self.sources@)[j],
                        tags(self.targets@),
                        self.inst.lists()[j],
                        (#[trigger] lists@[j])@,
                    ),
            decreases n - v,
        {
            let answer = c(&self.sources[v]);
            let kept = self.inst.list(v);
            let list = match &answer {
                Some(w) => match place_of(&self.targets, w) {
                    Some(j) => {
                        let mut one: Vec<usize> = Vec::new();
                        one.push(j);
                        proof {
                            assert(tags(self.targets@).index_of(tag(*w)) == j);
                            assert(one@ =~= seq![j]);
                        }
                        one
                    },
                    None => kept,
                },
                None => kept,
            };
            proof {
                assert(call_ensures(c, (&self.sources@[v as int],), answer));
                assert(list@ == fixed_list(answer, tags(self.targets@), self.inst.lists()[v as int]));
            }
            lists.push(list);
            v = v + 1;
        }
        self.inst.set_lists(lists);
    }
}

impl Constraints for ColouringProblem {
    closed spec fn spec_arcs(&self) -> Seq<(Variable, Variable)> {
        self.inst.spec_arcs()
    }

    closed spec fn admits(&self, a: (Variable, Value)) -> bool {
        true
    }

    closed spec fn spec_check(&self, ai: (Variable, Value), aj: (Variable, Value)) -> bool {
        self.inst.spec_check(ai, aj)
    }

    fn arcs(&self) -> (r: Vec<(Variable, Variable)>) {
        self.inst.arcs()
    }

    fn check(&self, ai: (Variable, Value), aj: (Variable, Value)) -> (r: bool) {
        self.inst.check(ai, aj)
    }
}

impl Domains for ColouringProblem {
    closed spec fn spec_size(&self) -> nat {
        self.inst.spec_size()
    }

    closed spec fn spec_domain(&self, x: Variable) -> Seq<Value> {
        self.inst.spec_domain(x)
    }

    fn size(&self) -> (r: usize) {
        self.inst.size()
    }

    fn domain(&self, x: Variable) -> (r: Vec<Value>) {
        self.inst.domain(x)
    }
}

impl Problem for ColouringProblem {

}

} // verus!
