//! The interface through which the solver sees a binary constraint problem.

use vstd::prelude::*;

verus! {

/// A value that a variable can take.
#[derive(Debug, Clone, Copy, Hash, PartialEq, Eq, Structural)]
pub struct Value(pub usize);

/// A variable of a problem, identified by its position.
#[derive(Debug, Clone, Copy, Hash, PartialEq, Eq, Structural)]
pub struct Variable(pub usize);

/// An assignment of one value to each variable, by position.
pub type Solution = Vec<Value>;

impl Value {
    /// The integer behind the value.
    pub fn get(&self) -> (r: usize)
        ensures
            r == self.0,
    {
        self.0
    }
}

impl Variable {
    /// The position behind the variable.
    pub fn get(&self) -> (r: usize)
        ensures
            r == self.0,
    {
        self.0
    }
}

/// The domains of a problem.
pub trait Domains {
    /// The number of variables, as a specification.
    spec fn spec_size(&self) -> nat;

    /// The values that variable `x` can take, in order, as a specification.
    spec fn spec_domain(&self, x: Variable) -> Seq<Value>;

    /// The number of variables. The variables are 0, 1, and so on below it.
    fn size(&self) -> (r: usize)
        ensures
            r == self.spec_size(),
    ;

    /// The values that variable `x` can take, in order.
    fn domain(&self, x: Variable) -> (r: Vec<Value>)
        requires
            x.0 < self.spec_size(),
        ensures
            r@ == self.spec_domain(x),
    ;
}

/// A set of binary constraints.
pub trait Constraints {
    /// The directed arcs along which the constraints are propagated, as a
    /// specification.
    spec fn spec_arcs(&self) -> Seq<(Variable, Variable)>;

    /// The assignments of a value to a variable about which `check` may be
    /// asked.
    spec fn admits(&self, a: (Variable, Value)) -> bool;

    /// Whether two assignments are consistent with each other, as a
    /// specification.
    spec fn spec_check(&self, ai: (Variable, Value), aj: (Variable, Value)) -> bool;

    /// Every directed arc along which the constraints are propagated.
    fn arcs(&self) -> (r: Vec<(Variable, Variable)>)
        ensures
            r@ == self.spec_arcs(),
    ;

    /// Whether the two assignments are consistent with each other.
    fn check(&self, ai: (Variable, Value), aj: (Variable, Value)) -> (r: bool)
        requires
            self.admits(ai),
            self.admits(aj),
        ensures
            r == self.spec_check(ai, aj),
    ;
}

/// A constraint satisfaction problem: domains and binary constraints.
pub trait Problem: Domains + Constraints {

}

/// The arcs of `p` join variables of `p`, and `check` may be asked about
/// every value of every domain.
pub open spec fn well_formed<P: Problem>(p: &P) -> bool {
    &&& forall|k: int|
        0 <= k < p.spec_arcs().len() ==> (#[trigger] p.spec_arcs()[k]).0.0 < p.spec_size()
            && p.spec_arcs()[k].1.0 < p.spec_size()
    &&& forall|x: usize, i: int|
        x < p.spec_size() && 0 <= i < p.spec_domain(Variable(x)).len() ==> p.admits(
            (Variable(x), #[trigger] p.spec_domain(Variable(x))[i]),
        )
}

/// `s` gives every variable of `p` a value of its domain, and every arc of
/// `p` holds between the two values that it joins.
pub open spec fn is_solution<P: Problem>(p: &P, s: Seq<Value>) -> bool {
    &&& s.len() == p.spec_size()
    &&& forall|x: usize| x < p.spec_size() ==> p.spec_domain(Variable(x)).contains(#[trigger] s[x as int])
    &&& forall|k: int|
        0 <= k < p.spec_arcs().len() ==> p.spec_check(
            ((#[trigger] p.spec_arcs()[k]).0, s[p.spec_arcs()[k].0.0 as int]),
            (p.spec_arcs()[k].1, s[p.spec_arcs()[k].1.0 as int]),
        )
}

/// A problem without variables has the solution that assigns nothing.
pub proof fn lemma_no_variables<P: Problem>(p: &P)
    requires
        well_formed(p),
        p.spec_size() == 0,
    ensures
        is_solution(p, Seq::empty()),
{
}

} // verus!
