//! The conditions as types of their own: each says how many arguments its
//! operations take, which terms it identifies, and which values it fixes.

use vstd::prelude::*;
use crate::algebra::classes;
use crate::algebra::classes::{class_tags, eq_classes, length_ok, tag, Label, Tag};
use crate::algebra::metaproblem::{
    arities, arities_of, counted, elem_count, is_term, precolor, precolor_of, ElemCount,
};

verus! {

/// The number of arguments of an operation.
pub type Arity = usize;

/// A list of classes.
pub type Partition<V> = Vec<Vec<V>>;

/// A condition on one operation.
pub trait Operation: Condition {
    /// The number of arguments of the operation.
    fn arity(&self) -> (r: Arity)
        requires
            length_ok(self.kind()),
            arities_of(self.kind()).len() == 1,
        ensures
            r == arities_of(self.kind())[0],
    ;

    /// The classes of tuples that the condition identifies over the
    /// vertices.
    fn tuples(&self, vertices: &Vec<usize>) -> (r: Partition<Vec<usize>>)
        requires
            length_ok(self.kind()),
        ensures
            tuple_rows(r@) == untagged(classes::classes(self.kind(), vertices@)),
    ;
}

/// A condition whose identities have one operation on each side and no
/// variable standing alone.
pub trait H1 {

}

/// The values that a condition fixes.
pub trait Precolor {
    /// Which condition this is.
    spec fn kind(&self) -> classes::Condition;

    /// The value that the condition fixes for a term, where it fixes one.
    fn precolor(&self, term: &Label) -> (r: Option<usize>)
        requires
            length_ok(self.kind()),
            is_term(self.kind(), tag(*term)),
        ensures
            r == precolor_of(self.kind(), tag(*term)),
    ;
}

/// A condition: the arities of its operations and the terms that it
/// identifies.
pub trait Condition: Precolor {
    /// The arity of each operation.
    fn arities(&self) -> (r: Vec<Arity>)
        requires
            length_ok(self.kind()),
        ensures
            r@ == arities_of(self.kind()),
    ;

    /// The classes of terms that the condition identifies over the
    /// vertices.
    fn partition(&self, vertices: &Vec<usize>) -> (r: Partition<Label>)
        requires
            length_ok(self.kind()),
        ensures
            class_tags(r@) == classes::classes(self.kind(), vertices@),
    ;
}

/// An identity where each side has exactly one occurrence of an operation.
pub trait HeightOne {
    /// Whether the identity makes two tuples of arguments equal, as a
    /// specification.
    spec fn spec_eq_under(t1: Seq<usize>, t2: Seq<usize>) -> bool;

    /// The number of arguments of the operation.
    spec fn spec_arity() -> nat;

    /// Whether the identity makes two tuples of arguments equal.
    fn eq_under(t1: &Vec<usize>, t2: &Vec<usize>) -> (r: bool)
        requires
            t1@.len() == Self::spec_arity(),
            t2@.len() == Self::spec_arity(),
        ensures
            r == Self::spec_eq_under(t1@, t2@),
    ;
}

/// The tuples of classes of tuples.
pub open spec fn tuple_rows(p: Seq<Vec<Vec<usize>>>) -> Seq<Seq<Seq<usize>>> {
    Seq::new(p.len(), |i: int| Seq::new(p[i]@.len(), |j: int| p[i]@[j]@))
}

/// The classes without the numbers of the operations.
pub open spec fn untagged(cs: Seq<Seq<Tag>>) -> Seq<Seq<Seq<usize>>> {
    Seq::new(cs.len(), |i: int| Seq::new(cs[i].len(), |j: int| cs[i][j].1))
}

/// The classes without the numbers of the operations.
fn strip(cs: Vec<Vec<Label>>) -> (r: Partition<Vec<usize>>)
    ensures
        tuple_rows(r@) == untagged(class_tags(cs@)),
{
    let mut out: Partition<Vec<usize>> = Vec::new();
    let mut i: usize = 0;
    while i < cs.len()
        invariant
            i <= cs.len(),
            out.len() == i,
            forall|a: int, b: int|
                0 <= a < i && 0 <= b < cs@[a]@.len() ==> out@[a]@.len() == cs@[a]@.len() && (#[trigger] out@[a]@[b])@
                    == cs@[a]@[b].1@,
            forall|a: int| 0 <= a < i ==> (#[trigger] out@[a])@.len() == cs@[a]@.len(),
        decreases cs.len() - i,
    {
        let mut class: Vec<Vec<usize>> = Vec::new();
        let mut j: usize = 0;
        while j < cs[i].len()
            invariant
                i < cs.len(),
                j <= cs@[i as int]@.len(),
                class.len() == j,
                forall|b: int| 0 <= b < j ==> (#[trigger] class@[b])@ == cs@[i as int]@[b].1@,
            decreases cs[i as int].len() - j,
        {
            let copy = crate::algebra::adj_map::copy_label(&cs[i][j]);
            class.push(copy.1);
            j = j + 1;
        }
        out.push(class);
        i = i + 1;
    }
    proof {
        assert(tuple_rows(out@) =~~= untagged(class_tags(cs@)));
    }
    out
}

/// m(x,x,y) = m(x,y,x) = m(y,x,x), and m(x,x,x) = x.
#[derive(Clone, Copy, Debug)]
pub struct Majority {}

/// The majority condition.
pub fn majority() -> (r: Majority)
    ensures
        r.kind() == classes::Condition::Majority,
{
    Majority {  }
}

/// f(x,...,x,y) = f(x,...,y,x) = ... = f(y,x,...,x) = x.
#[derive(Clone, Copy, Debug)]
pub struct Nu {
    arity: usize,
}

/// The near-unanimity condition of the given arity.
pub fn nu(arity: usize) -> (r: Nu)
    ensures
        r.kind() == classes::Condition::Nu(arity),
{
    Nu { arity }
}

/// f(x,...,x,y) = f(x,...,y,x) = ... = f(y,x,...,x).
#[derive(Clone, Copy, Debug)]
pub struct Wnu {
    arity: usize,
}

/// The weak near-unanimity condition of the given arity.
pub fn wnu(arity: usize) -> (r: Wnu)
    ensures
        r.kind() == classes::Condition::Wnu(arity),
{
    Wnu { arity }
}

/// s(a,r,e,a) = s(r,a,r,e).
#[derive(Clone, Copy, Debug)]
pub struct Siggers;

/// p(x,y,y) = q(y,x,x) = q(x,x,y), p(x,y,x) = q(x,y,x).
#[derive(Clone, Copy, Debug)]
pub struct Kmm;

/// A Maltsev operation: m(x,y,y) = m(y,y,x) = x. It has three arguments.
#[derive(Clone, Copy, Debug)]
pub struct Maltsev;

impl Maltsev {
    /// The number of arguments of the operation.
    pub fn arity(&self) -> (r: Arity)
        ensures
            r == 3,
    {
        3
    }
}

/// A Jonsson chain.
#[derive(Clone, Copy, Debug)]
pub struct Jonsson {
    length: usize,
}

impl Jonsson {
    /// The chain of the given length.
    pub fn with_length(n: usize) -> (r: Jonsson)
        ensures
            r.kind() == classes::Condition::Jonsson(n),
    {
        Jonsson { length: n }
    }
}

/// A Kearnes-Kiss chain.
#[derive(Clone, Copy, Debug)]
pub struct KearnesKiss {
    length: usize,
}

/// The Kearnes-Kiss chain of the given length.
pub fn kk(length: usize) -> (r: KearnesKiss)
    ensures
        r.kind() == classes::Condition::KearnesKiss(length),
{
    KearnesKiss { length }
}

/// A Hobby-McKenzie chain.
#[derive(Clone, Copy, Debug)]
pub struct HobbyMcKenzie {
    length: usize,
}

impl HobbyMcKenzie {
    /// The chain of the given length.
    pub fn with_length(n: usize) -> (r: HobbyMcKenzie)
        ensures
            r.kind() == classes::Condition::HobbyMcKenzie(n),
    {
        HobbyMcKenzie { length: n }
    }
}

/// A Hagemann-Mitschke chain of the given length.
#[derive(Clone, Copy, Debug)]
pub struct HagemanMitschke(pub usize);

/// A chain of operations with four arguments.
#[derive(Clone, Copy, Debug)]
pub struct NoName {
    length: usize,
}

impl NoName {
    /// The chain of the given length.
    pub fn with_length(n: usize) -> (r: NoName)
        ensures
            r.kind() == classes::Condition::NoName(n),
    {
        NoName { length: n }
    }
}

impl Precolor for Majority {
    open spec fn kind(&self) -> classes::Condition {
        classes::Condition::Majority
    }

    fn precolor(&self, term: &Label) -> (r: Option<usize>) {
        precolor(classes::Condition::Majority, term)
    }
}

impl Precolor for Nu {
    closed spec fn kind(&self) -> classes::Condition {
        classes::Condition::Nu(self.arity)
    }

    fn precolor(&self, term: &Label) -> (r: Option<usize>) {
        precolor(classes::Condition::Nu(self.arity), term)
    }
}

impl Precolor for Wnu {
    closed spec fn kind(&self) -> classes::Condition {
        classes::Condition::Wnu(self.arity)
    }

    fn precolor(&self, term: &Label) -> (r: Option<usize>) {
        precolor(classes::Condition::Wnu(self.arity), term)
    }
}

impl Precolor for Siggers {
    open spec fn kind(&self) -> classes::Condition {
        classes::Condition::Siggers
    }

    fn precolor(&self, term: &Label) -> (r: Option<usize>) {
        precolor(classes::Condition::Siggers, term)
    }
}

impl Precolor for Kmm {
    open spec fn kind(&self) -> classes::Condition {
        classes::Condition::Kmm
    }

    fn precolor(&self, term: &Label) -> (r: Option<usize>) {
        precolor(classes::Condition::Kmm, term)
    }
}

impl Precolor for Jonsson {
    closed spec fn kind(&self) -> classes::Condition {
        classes::Condition::Jonsson(self.length)
    }

    fn precolor(&self, term: &Label) -> (r: Option<usize>) {
        precolor(classes::Condition::Jonsson(self.length), term)
    }
}

impl Precolor for KearnesKiss {
    closed spec fn kind(&self) -> classes::Condition {
        classes::Condition::KearnesKiss(self.length)
    }

    fn precolor(&self, term: &Label) -> (r: Option<usize>) {
        precolor(classes::Condition::KearnesKiss(self.length), term)
    }
}

impl Precolor for HobbyMcKenzie {
    closed spec fn kind(&self) -> classes::Condition {
        classes::Condition::HobbyMcKenzie(self.length)
    }

    fn precolor(&self, term: &Label) -> (r: Option<usize>) {
        precolor(classes::Condition::HobbyMcKenzie(self.length), term)
    }
}

impl Precolor for HagemanMitschke {
    open spec fn kind(&self) -> classes::Condition {
        classes::Condition::HagemannMitschke(self.0)
    }

    fn precolor(&self, term: &Label) -> (r: Option<usize>) {
        precolor(classes::Condition::HagemannMitschke(self.0), term)
    }
}

impl Precolor for NoName {
    closed spec fn kind(&self) -> classes::Condition {
        classes::Condition::NoName(self.length)
    }

    fn precolor(&self, term: &Label) -> (r: Option<usize>) {
        precolor(classes::Condition::NoName(self.length), term)
    }
}

impl Condition for Majority {
    fn arities(&self) -> (r: Vec<Arity>) {
        arities(classes::Condition::Majority)
    }

    fn partition(&self, vertices: &Vec<usize>) -> (r: Partition<Label>) {
        eq_classes(classes::Condition::Majority, vertices)
    }
}

impl Condition for Nu {
    fn arities(&self) -> (r: Vec<Arity>) {
        arities(classes::Condition::Nu(self.arity))
    }

    fn partition(&self, vertices: &Vec<usize>) -> (r: Partition<Label>) {
        eq_classes(classes::Condition::Nu(self.arity), vertices)
    }
}

impl Condition for Wnu {
    fn arities(&self) -> (r: Vec<Arity>) {
        arities(classes::Condition::Wnu(self.arity))
    }

    fn partition(&self, vertices: &Vec<usize>) -> (r: Partition<Label>) {
        eq_classes(classes::Condition::Wnu(self.arity), vertices)
    }
}

impl Condition for Siggers {
    fn arities(&self) -> (r: Vec<Arity>) {
        arities(classes::Condition::Siggers)
    }

    fn partition(&self, vertices: &Vec<usize>) -> (r: Partition<Label>) {
        eq_classes(classes::Condition::Siggers, vertices)
    }
}

impl Condition for Kmm {
    fn arities(&self) -> (r: Vec<Arity>) {
        arities(classes::Condition::Kmm)
    }

    fn partition(&self, vertices: &Vec<usize>) -> (r: Partition<Label>) {
        eq_classes(classes::Condition::Kmm, vertices)
    }
}

impl Condition for Jonsson {
    fn arities(&self) -> (r: Vec<Arity>) {
        arities(classes::Condition::Jonsson(self.length))
    }

    fn partition(&self, vertices: &Vec<usize>) -> (r: Partition<Label>) {
        eq_classes(classes::Condition::Jonsson(self.length), vertices)
    }
}

impl Condition for KearnesKiss {
    fn arities(&self) -> (r: Vec<Arity>) {
        arities(classes::Condition::KearnesKiss(self.length))
    }

    fn partition(&self, vertices: &Vec<usize>) -> (r: Partition<Label>) {
        eq_classes(classes::Condition::KearnesKiss(self.length), vertices)
    }
}

impl Condition for HobbyMcKenzie {
    fn arities(&self) -> (r: Vec<Arity>) {
        arities(classes::Condition::HobbyMcKenzie(self.length))
    }

    fn partition(&self, vertices: &Vec<usize>) -> (r: Partition<Label>) {
        eq_classes(classes::Condition::HobbyMcKenzie(self.length), vertices)
    }
}

impl Condition for HagemanMitschke {
    fn arities(&self) -> (r: Vec<Arity>) {
        arities(classes::Condition::HagemannMitschke(self.0))
    }

    fn partition(&self, vertices: &Vec<usize>) -> (r: Partition<Label>) {
        eq_classes(classes::Condition::HagemannMitschke(self.0), vertices)
    }
}

impl Condition for NoName {
    fn arities(&self) -> (r: Vec<Arity>) {
        arities(classes::Condition::NoName(self.length))
    }

    fn partition(&self, vertices: &Vec<usize>) -> (r: Partition<Label>) {
        eq_classes(classes::Condition::NoName(self.length), vertices)
    }
}

impl Operation for Majority {
    fn arity(&self) -> (r: Arity) {
        3
    }

    fn tuples(&self, vertices: &Vec<usize>) -> (r: Partition<Vec<usize>>) {
        strip(eq_classes(classes::Condition::Majority, vertices))
    }
}

impl Operation for Nu {
    fn arity(&self) -> (r: Arity) {
        self.arity
    }

    fn tuples(&self, vertices: &Vec<usize>) -> (r: Partition<Vec<usize>>) {
        strip(eq_classes(classes::Condition::Nu(self.arity), vertices))
    }
}

impl Operation for Wnu {
    fn arity(&self) -> (r: Arity) {
        self.arity
    }

    fn tuples(&self, vertices: &Vec<usize>) -> (r: Partition<Vec<usize>>) {
        strip(eq_classes(classes::Condition::Wnu(self.arity), vertices))
    }
}

impl Operation for Siggers {
    fn arity(&self) -> (r: Arity) {
        4
    }

    fn tuples(&self, vertices: &Vec<usize>) -> (r: Partition<Vec<usize>>) {
        strip(eq_classes(classes::Condition::Siggers, vertices))
    }
}

impl H1 for Siggers {

}

impl H1 for Wnu {

}

/// The first way in which the Siggers identity makes `x` and `y` equal: `x`
/// is (a, r, e, a) and `y` is (r, a, r, e).
pub open spec fn siggers_turn(x: Seq<usize>, y: Seq<usize>) -> bool {
    &&& x[0] == y[1] && x[0] == x[3]
    &&& x[1] == y[0] && x[1] == y[2]
    &&& x[2] == y[3]
}

/// The second way: `x` is (a, r, r, a) and `y` is (a, r, a, r).
pub open spec fn siggers_fold(x: Seq<usize>, y: Seq<usize>) -> bool {
    &&& x[0] == x[3] && x[1] == x[2]
    &&& x[0] == y[0] && x[3] == y[2]
    &&& x[1] == y[1]
    &&& x[2] == y[3]
}

fn is_turn(x: &Vec<usize>, y: &Vec<usize>) -> (r: bool)
    requires
        x@.len() == 4,
        y@.len() == 4,
    ensures
        r == siggers_turn(x@, y@),
{
    let a = x[0] == y[1] && x[0] == x[3];
    let r = x[1] == y[0] && x[1] == y[2];
    let e = x[2] == y[3];
    r && a && e
}

fn is_fold(x: &Vec<usize>, y: &Vec<usize>) -> (r: bool)
    requires
        x@.len() == 4,
        y@.len() == 4,
    ensures
        r == siggers_fold(x@, y@),
{
    if x[0] == x[3] && x[1] == x[2] {
        let a = x[0] == y[0] && x[3] == y[2];
        let r = x[1] == y[1];
        let e = x[2] == y[3];
        return r && a && e;
    }
    false
}

impl HeightOne for Siggers {
    open spec fn spec_eq_under(v: Seq<usize>, w: Seq<usize>) -> bool {
        siggers_turn(v, w) || siggers_turn(w, v) || siggers_fold(v, w) || siggers_fold(w, v)
    }

    open spec fn spec_arity() -> nat {
        4
    }

    fn eq_under(v: &Vec<usize>, w: &Vec<usize>) -> (r: bool) {
        is_turn(v, w) || is_turn(w, v) || is_fold(v, w) || is_fold(w, v)
    }
}

/// Whether the quasi-majority identities make two triples equal:
/// f(x,x,y) = f(x,y,x) = f(y,x,x) = f(x,x,x).
pub open spec fn quasi_majority(v: Seq<usize>, w: Seq<usize>) -> bool {
    match (counted(v), counted(w)) {
        (ElemCount::Once(x0, _), ElemCount::Once(x1, _)) => x0 == x1,
        (ElemCount::AllEqual(a), ElemCount::Once(x, _)) => a == x,
        (ElemCount::Once(x, _), ElemCount::AllEqual(a)) => a == x,
        _ => false,
    }
}

/// Whether the quasi-majority identities make two triples equal.
pub fn quasi_majority_p(v: &Vec<usize>, w: &Vec<usize>) -> (r: bool)
    requires
        v@.len() == 3,
        w@.len() == 3,
    ensures
        r == quasi_majority(v@, w@),
{
    match (elem_count(v), elem_count(w)) {
        (ElemCount::Once(x0, _), ElemCount::Once(x1, _)) => x0 == x1,
        (ElemCount::AllEqual(a), ElemCount::Once(x, _)) => a == x,
        (ElemCount::Once(x, _), ElemCount::AllEqual(a)) => a == x,
        _ => false,
    }
}

} // verus!
