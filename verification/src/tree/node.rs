//! A rooted oriented tree as a recursive structure.

use std::sync::Arc;
use vstd::prelude::*;
use crate::algebra::adj_map::{AdjMap, Quiver, ToGraph};
use crate::algebra::classes::{tag, Label, Tag};
use crate::digraph::traits::{Digraph, Edges, GraphSize, GraphType, Vertices};
use crate::text::{chars_of, string_of};

verus! {

/// A shared handle on the same tree, by the `Clone` of `Arc`, which hands
/// out another handle on the value.
#[verifier::external_body]
pub(crate) fn share(t: &Arc<Node>) -> (r: Arc<Node>)
    ensures
        r == *t,
{
    Arc::clone(t)
}

/// The shape of a rooted tree: for each child of the root its shape and the
/// flag of its edge, in order.
pub struct Shape {
    pub kids: Seq<(Shape, bool)>,
}

/// The shape of the tree with one vertex.
pub open spec fn leaf_shape() -> Shape {
    Shape { kids: Seq::empty() }
}

/// The number of vertices.
pub open spec fn size(s: Shape) -> nat
    decreases s,
{
    1 + sizes(s.kids, s.kids.len() as int)
}

/// The number of vertices of the first `upto` children.
pub open spec fn sizes(kids: Seq<(Shape, bool)>, upto: int) -> nat
    decreases kids, upto,
{
    if upto <= 0 || upto > kids.len() {
        0
    } else {
        sizes(kids, upto - 1) + size(kids[upto - 1].0)
    }
}

/// The height: the length of the longest path from the root down.
pub open spec fn height(s: Shape) -> nat
    decreases s,
{
    if s.kids.len() == 0 {
        0
    } else {
        1 + heights(s.kids, s.kids.len() as int)
    }
}

/// The largest height among the first `upto` children.
pub open spec fn heights(kids: Seq<(Shape, bool)>, upto: int) -> nat
    decreases kids, upto,
{
    if upto <= 0 || upto > kids.len() {
        0
    } else {
        let rest = heights(kids, upto - 1);
        let h = height(kids[upto - 1].0);
        if h > rest {
            h
        } else {
            rest
        }
    }
}

/// The largest number of neighbours that a vertex of the first `upto`
/// children has: a child has its own children and the root for neighbours.
pub open spec fn degrees(kids: Seq<(Shape, bool)>, upto: int) -> nat
    decreases kids, upto,
{
    if upto <= 0 || upto > kids.len() {
        0
    } else {
        let rest = degrees(kids, upto - 1);
        let own = kids[upto - 1].0.kids.len() + 1;
        let below = widest(kids[upto - 1].0);
        let d = if own > below {
            own
        } else {
            below
        };
        if d > rest {
            d
        } else {
            rest
        }
    }
}

/// The largest number of neighbours that a vertex of the tree has.
pub open spec fn widest(s: Shape) -> nat
    decreases s,
{
    let d = degrees(s.kids, s.kids.len() as int);
    if d > s.kids.len() {
        d
    } else {
        s.kids.len()
    }
}

/// A rooted tree: a root with its children in order. The flag of a child
/// says which way the edge between the root and the child runs: from the
/// root to the child where it is set.
pub struct Node {
    /// The number of vertices.
    pub num_nodes: usize,
    /// The number of edges on the longest way down from the root.
    pub height: usize,
    /// The largest number of neighbours that a vertex of the tree has.
    pub max_arity: usize,
    /// The children of the root with the flags of their edges, in order.
    pub children: Vec<(Arc<Node>, bool)>,
}

impl Node {
    /// The shape of the tree.
    pub closed spec fn shape(&self) -> Shape
        decreases self,
    {
        Shape { kids: Self::shapes(self.children@, self.children@.len() as int) }
    }

    /// The shapes of the first `upto` children, with their flags.
    pub open spec fn shapes(kids: Seq<(Arc<Node>, bool)>, upto: int) -> Seq<(Shape, bool)>
        decreases kids, upto,
    {
        if upto <= 0 || upto > kids.len() {
            Seq::empty()
        } else {
            Self::shapes(kids, upto - 1).push((kids[upto - 1].0.shape(), kids[upto - 1].1))
        }
    }

    /// The numbers that the tree keeps are those of its shape, and so it is
    /// with every tree below it.
    pub closed spec fn wf(&self) -> bool
        decreases self,
    {
        &&& self.num_nodes == size(self.shape())
        &&& self.height == height(self.shape())
        &&& self.max_arity == widest(self.shape())
        &&& forall|i: int| 0 <= i < self.children@.len() ==> (#[trigger] self.children@[i]).0.wf()
    }

    /// The children of a tree, with their flags: each is well formed where
    /// the tree is, and its shape is that of the same child of the shape.
    pub proof fn lemma_children(&self)
        ensures
            self.shape().kids.len() == self.kids().len(),
            forall|i: int|
                0 <= i < self.kids().len() ==> (#[trigger] self.shape().kids[i]) == (
                    self.kids()[i].0.shape(),
                    self.kids()[i].1,
                ),
            self.wf() ==> forall|i: int| 0 <= i < self.kids().len() ==> (#[trigger] self.kids()[i]).0.wf(),
            self.wf() ==> self.noted() == (size(self.shape()), height(self.shape()), widest(self.shape())),
            self.wf() ==> size(self.shape()) <= usize::MAX,
    {
        Self::lemma_shapes(self.children@, self.children@.len() as int);
    }

    /// The shapes of children are as many as the children, and each the
    /// shape of its child.
    pub proof fn lemma_shapes(kids: Seq<(Arc<Node>, bool)>, upto: int)
        requires
            0 <= upto <= kids.len(),
        ensures
            Self::shapes(kids, upto).len() == upto,
            forall|i: int|
                0 <= i < upto ==> (#[trigger] Self::shapes(kids, upto)[i]) == (kids[i].0.shape(), kids[i].1),
        decreases upto,
    {
        if upto > 0 {
            Self::lemma_shapes(kids, upto - 1);
        }
    }

    /// The numbers that the tree keeps: of its vertices, its height, and
    /// the largest number of neighbours of one of its vertices.
    pub open spec fn noted(&self) -> (nat, nat, nat) {
        (self.num_nodes as nat, self.height as nat, self.max_arity as nat)
    }

    /// The children with their flags, as a specification.
    pub closed spec fn kids(&self) -> Seq<(Arc<Node>, bool)> {
        self.children@
    }

    /// The tree with one vertex.
    pub fn leaf() -> (r: Node)
        ensures
            r.wf(),
            r.shape() == leaf_shape(),
            r.noted() == (1nat, 0nat, 0nat),
    {
        let r = Node { num_nodes: 1, height: 0, max_arity: 0, children: Vec::new() };
        proof {
            assert(r.shape().kids =~= Seq::empty());
        }
        r
    }

    /// The number of children of the root.
    pub fn arity(&self) -> (r: usize)
        ensures
            r == self.shape().kids.len(),
    {
        proof {
            self.lemma_children();
        }
        self.children.len()
    }

    /// The child at place `i`.
    pub fn child(&self, i: usize) -> (r: &Arc<Node>)
        requires
            i < self.shape().kids.len(),
        ensures
            r.shape() == self.shape().kids[i as int].0,
            self.wf() ==> r.wf(),
    {
        proof {
            self.lemma_children();
        }
        &self.children[i].0
    }

    /// The flag of the child at place `i`.
    pub fn flag(&self, i: usize) -> (r: bool)
        requires
            i < self.shape().kids.len(),
        ensures
            r == self.shape().kids[i as int].1,
    {
        proof {
            self.lemma_children();
        }
        self.children[i].1
    }

    /// The children with their flags, in order.
    pub fn iter(&self) -> (r: Vec<(Arc<Node>, bool)>)
        ensures
            r@ == self.kids(),
            r@.len() == self.shape().kids.len(),
            forall|i: int|
                0 <= i < r@.len() ==> (#[trigger] r@[i]).0.shape() == self.shape().kids[i].0 && r@[i].1
                    == self.shape().kids[i].1,
            self.wf() ==> forall|i: int| 0 <= i < r@.len() ==> (#[trigger] r@[i]).0.wf(),
    {
        proof {
            self.lemma_children();
        }
        let mut r: Vec<(Arc<Node>, bool)> = Vec::new();
        let mut i: usize = 0;
        while i < self.children.len()
            invariant
                i <= self.children.len(),
                r.len() == i,
                forall|j: int| 0 <= j < i ==> #[trigger] r@[j] == self.children@[j],
            decreases self.children.len() - i,
        {
            r.push((share(&self.children[i].0), self.children[i].1));
            i = i + 1;
        }
        proof {
            assert(r@ =~= self.children@);
        }
        r
    }

    /// The number of vertices that the tree has noted.
    pub fn count(&self) -> (r: usize)
        ensures
            r == self.noted().0,
            self.wf() ==> r == size(self.shape()),
    {
        proof {
            self.lemma_children();
        }
        self.num_nodes
    }

    /// The height that the tree has noted.
    pub fn tall(&self) -> (r: usize)
        ensures
            r == self.noted().1,
            self.wf() ==> r == height(self.shape()),
    {
        proof {
            self.lemma_children();
        }
        self.height
    }

    /// The largest number of neighbours that a vertex of the tree has.
    pub fn wide(&self) -> (r: usize)
        ensures
            r == self.noted().2,
            self.wf() ==> r == widest(self.shape()),
    {
        proof {
            self.lemma_children();
        }
        self.max_arity
    }

    /// Another tree with shared handles on the same children.
    pub fn duplicate(&self) -> (r: Node)
        ensures
            r.shape() == self.shape(),
            r.kids() == self.kids(),
            r.noted() == self.noted(),
            self.wf() ==> r.wf(),
    {
        let children = self.iter();
        proof {
            self.lemma_children();
        }
        Node { num_nodes: self.num_nodes, height: self.height, max_arity: self.max_arity, children }
    }

    /// Whether at least two children of the root are of the height of the
    /// tree less one: whether the root is the centre of the tree.
    pub fn is_centered(&self) -> (r: bool)
        requires
            self.wf(),
        ensures
            r == centered(self.shape()),
    {
        proof {
            self.lemma_children();
        }
        let mut found: usize = 0;
        let mut i: usize = 0;
        while i < self.children.len()
            invariant
                i <= self.children.len(),
                self.wf(),
                found == tall_kids(self.shape(), i as int),
                found <= 1,
                found <= i,
            decreases self.children.len() - i,
        {
            proof {
                self.lemma_children();
                self.children@[i as int].0.lemma_children();
                lemma_height_bounds(self.shape().kids, self.shape().kids.len() as int, i as int);
            }
            if self.children[i].0.height == self.height - 1 {
                if found == 1 {
                    proof {
                        lemma_tall_kids_grow(self.shape(), i as int + 1, self.shape().kids.len() as int);
                    }
                    return true;
                }
                found = 1;
            }
            i = i + 1;
        }
        false
    }

    /// Whether the tree is a path: no vertex has more than two neighbours.
    pub fn is_path(&self) -> (r: bool)
        requires
            self.wf(),
        ensures
            r == (widest(self.shape()) < 3),
            r == (!crowded(self.shape(), false) && forks(self.shape(), false) == 0),
    {
        proof {
            self.lemma_children();
            lemma_path(self.shape(), false);
        }
        self.max_arity < 3
    }
}

/// The number of children among the first `upto` that are of the height of
/// the tree less one.
pub open spec fn tall_kids(s: Shape, upto: int) -> nat
    decreases upto,
{
    if upto <= 0 || upto > s.kids.len() {
        0
    } else {
        tall_kids(s, upto - 1) + if height(s.kids[upto - 1].0) + 1 == height(s) {
            1nat
        } else {
            0nat
        }
    }
}

/// At least two children of the root are of the height of the tree less
/// one.
pub open spec fn centered(s: Shape) -> bool {
    tall_kids(s, s.kids.len() as int) >= 2
}

/// More children are no fewer tall children.
pub proof fn lemma_tall_kids_grow(s: Shape, a: int, b: int)
    requires
        0 <= a <= b <= s.kids.len(),
    ensures
        tall_kids(s, a) <= tall_kids(s, b),
    decreases b - a,
{
    if a < b {
        lemma_tall_kids_grow(s, a, b - 1);
    }
}

/// No child is higher than the highest.
pub proof fn lemma_height_bounds(kids: Seq<(Shape, bool)>, upto: int, i: int)
    requires
        0 <= i < upto <= kids.len(),
    ensures
        height(kids[i].0) <= heights(kids, upto),
    decreases upto,
{
    if i < upto - 1 {
        lemma_height_bounds(kids, upto - 1, i);
    }
}

/// A tree has more vertices than its root has children, and more than it
/// is high.
pub proof fn lemma_size_bounds(s: Shape)
    ensures
        size(s) >= 1 + s.kids.len(),
        size(s) >= 1 + height(s),
    decreases s,
{
    lemma_sizes_bounds(s.kids, s.kids.len() as int);
}

/// The first children have at least one vertex each, and more vertices
/// than the highest of them is high.
pub proof fn lemma_sizes_bounds(kids: Seq<(Shape, bool)>, upto: int)
    requires
        0 <= upto <= kids.len(),
    ensures
        sizes(kids, upto) >= upto,
        upto > 0 ==> sizes(kids, upto) >= 1 + heights(kids, upto),
    decreases kids, upto,
{
    if upto > 0 {
        lemma_sizes_bounds(kids, upto - 1);
        lemma_size_bounds(kids[upto - 1].0);
        assert(sizes(kids, upto) == sizes(kids, upto - 1) + size(kids[upto - 1].0));
        assert(heights(kids, upto) == if height(kids[upto - 1].0) > heights(kids, upto - 1) {
            height(kids[upto - 1].0)
        } else {
            heights(kids, upto - 1)
        });
        if upto == 1 {
            assert(heights(kids, 0) == 0);
        }
    }
}

/// The vertices of the first children grow with their number.
pub proof fn lemma_sizes_grow(kids: Seq<(Shape, bool)>, a: int, b: int)
    requires
        0 <= a <= b <= kids.len(),
    ensures
        sizes(kids, a) <= sizes(kids, b),
    decreases b - a,
{
    if a < b {
        lemma_sizes_grow(kids, a, b - 1);
    }
}

/// Which of two things comes first.
#[derive(Debug, Clone, Copy, PartialEq, Eq, Structural)]
pub enum Sign {
    Less,
    Equal,
    Greater,
}

/// Which of two numbers comes first.
pub open spec fn sign_of(a: nat, b: nat) -> Sign {
    if a < b {
        Sign::Less
    } else if a == b {
        Sign::Equal
    } else {
        Sign::Greater
    }
}

/// Which of two trees comes first: the one with fewer vertices; of two
/// with as many, the lower one; of two as high, the one whose root and
/// children have the lower largest degree; and of two equal in that, the
/// one whose children come first.
pub open spec fn compare(a: Shape, b: Shape) -> Sign
    decreases a,
{
    if sign_of(size(a), size(b)) != Sign::Equal {
        sign_of(size(a), size(b))
    } else if sign_of(height(a), height(b)) != Sign::Equal {
        sign_of(height(a), height(b))
    } else if sign_of(widest(a), widest(b)) != Sign::Equal {
        sign_of(widest(a), widest(b))
    } else {
        compare_kids(a.kids, b.kids, 0)
    }
}

/// Which of two lists of children comes first, from place `i` on: that
/// with the first child that comes first; a child comes first where its
/// tree does, and of two with the same tree the one whose flag is not set;
/// a list that ends comes before one that goes on.
pub open spec fn compare_kids(a: Seq<(Shape, bool)>, b: Seq<(Shape, bool)>, i: int) -> Sign
    decreases a, a.len() - i,
{
    if i < 0 {
        Sign::Equal
    } else if i >= a.len() && i >= b.len() {
        Sign::Equal
    } else if i >= a.len() {
        Sign::Less
    } else if i >= b.len() {
        Sign::Greater
    } else {
        let c = compare(a[i].0, b[i].0);
        if c != Sign::Equal {
            c
        } else if a[i].1 != b[i].1 {
            if b[i].1 {
                Sign::Less
            } else {
                Sign::Greater
            }
        } else {
            compare_kids(a, b, i + 1)
        }
    }
}

/// Two trees compare as equal exactly where they are the same tree.
pub proof fn lemma_compare_equal(a: Shape, b: Shape)
    ensures
        (compare(a, b) == Sign::Equal) == (a == b),
    decreases a,
{
    lemma_compare_kids_equal(a.kids, b.kids, 0);
    if compare(a, b) == Sign::Equal {
        assert(a.kids =~= b.kids);
    }
}

/// Two rows of children compare as equal from place `i` on exactly where
/// they are equally long and hold the same children from there on.
pub proof fn lemma_compare_kids_equal(a: Seq<(Shape, bool)>, b: Seq<(Shape, bool)>, i: int)
    requires
        0 <= i,
    ensures
        (compare_kids(a, b, i) == Sign::Equal) == ((a.len() == b.len() || (i >= a.len() && i >= b.len()))
            && forall|j: int| i <= j < a.len() && j < b.len() ==> a[j] == b[j]),
    decreases a, a.len() - i,
{
    if i < a.len() && i < b.len() {
        lemma_compare_equal(a[i].0, b[i].0);
        lemma_compare_kids_equal(a, b, i + 1);
        if compare_kids(a, b, i) == Sign::Equal {
            assert(a[i] == b[i]);
            assert forall|j: int| i <= j < a.len() && j < b.len() implies a[j] == b[j] by {
                if j > i {
                }
            }
        }
    }
}

/// Where one tree is less than another, the other is greater than it, and
/// the other way round.
pub proof fn lemma_compare_flip(a: Shape, b: Shape)
    ensures
        (compare(a, b) == Sign::Less) == (compare(b, a) == Sign::Greater),
        (compare(a, b) == Sign::Greater) == (compare(b, a) == Sign::Less),
        (compare(a, b) == Sign::Equal) == (compare(b, a) == Sign::Equal),
    decreases a,
{
    lemma_compare_kids_flip(a.kids, b.kids, 0);
}

/// The same of two rows of children from place `i` on.
pub proof fn lemma_compare_kids_flip(a: Seq<(Shape, bool)>, b: Seq<(Shape, bool)>, i: int)
    requires
        0 <= i,
    ensures
        (compare_kids(a, b, i) == Sign::Less) == (compare_kids(b, a, i) == Sign::Greater),
        (compare_kids(a, b, i) == Sign::Greater) == (compare_kids(b, a, i) == Sign::Less),
        (compare_kids(a, b, i) == Sign::Equal) == (compare_kids(b, a, i) == Sign::Equal),
    decreases a, a.len() - i,
{
    if i < a.len() && i < b.len() {
        lemma_compare_flip(a[i].0, b[i].0);
        lemma_compare_kids_flip(a, b, i + 1);
    }
}

/// A tree that is less than another, which is less than a third, is less
/// than the third.
pub proof fn lemma_compare_chain(a: Shape, b: Shape, c: Shape)
    requires
        compare(a, b) == Sign::Less,
        compare(b, c) == Sign::Less,
    ensures
        compare(a, c) == Sign::Less,
    decreases a,
{
    if size(a) == size(b) && size(b) == size(c) && height(a) == height(b) && height(b) == height(c) && widest(a)
        == widest(b) && widest(b) == widest(c) {
        lemma_compare_kids_chain(a.kids, b.kids, c.kids, 0);
    }
}

/// The same of three rows of children from place `i` on.
pub proof fn lemma_compare_kids_chain(
    a: Seq<(Shape, bool)>,
    b: Seq<(Shape, bool)>,
    c: Seq<(Shape, bool)>,
    i: int,
)
    requires
        0 <= i,
        compare_kids(a, b, i) == Sign::Less,
        compare_kids(b, c, i) == Sign::Less,
    ensures
        compare_kids(a, c, i) == Sign::Less,
    decreases a, a.len() - i,
{
    if i < a.len() && i < b.len() && i < c.len() {
        let ab = compare(a[i].0, b[i].0);
        let bc = compare(b[i].0, c[i].0);
        lemma_compare_equal(a[i].0, b[i].0);
        lemma_compare_equal(b[i].0, c[i].0);
        if ab == Sign::Less && bc == Sign::Less {
            lemma_compare_chain(a[i].0, b[i].0, c[i].0);
        } else if ab == Sign::Equal && bc == Sign::Equal {
            lemma_compare_equal(a[i].0, c[i].0);
            if a[i].1 == b[i].1 && b[i].1 == c[i].1 {
                lemma_compare_kids_chain(a, b, c, i + 1);
            }
        }
    }
}

/// Whether a vertex of the tree has four neighbours or more. The root of a
/// tree that hangs `below` another has that to its neighbour too.
pub open spec fn crowded(s: Shape, below: bool) -> bool
    decreases s,
{
    s.kids.len() + (if below { 1nat } else { 0nat }) >= 4 || crowded_kids(s.kids, s.kids.len() as int)
}

/// Whether a vertex of one of the first `upto` children has four
/// neighbours or more.
pub open spec fn crowded_kids(kids: Seq<(Shape, bool)>, upto: int) -> bool
    decreases kids, upto,
{
    if upto <= 0 || upto > kids.len() {
        false
    } else {
        crowded_kids(kids, upto - 1) || crowded(kids[upto - 1].0, true)
    }
}

/// The number of vertices of the tree with three neighbours.
pub open spec fn forks(s: Shape, below: bool) -> nat
    decreases s,
{
    (if s.kids.len() + (if below { 1nat } else { 0nat }) == 3 { 1nat } else { 0nat }) + forks_kids(
        s.kids,
        s.kids.len() as int,
    )
}

/// The number of vertices of the first `upto` children with three
/// neighbours.
pub open spec fn forks_kids(kids: Seq<(Shape, bool)>, upto: int) -> nat
    decreases kids, upto,
{
    if upto <= 0 || upto > kids.len() {
        0
    } else {
        forks_kids(kids, upto - 1) + forks(kids[upto - 1].0, true)
    }
}

/// No vertex of a tree has more than two neighbours exactly where none has
/// four or more and none has three. The root of a tree that hangs `below`
/// another has that to its neighbour too.
pub proof fn lemma_path(s: Shape, below: bool)
    ensures
        (s.kids.len() + (if below { 1nat } else { 0nat }) < 3 && degrees(s.kids, s.kids.len() as int) < 3) == (!crowded(
            s,
            below,
        ) && forks(s, below) == 0),
        !below ==> (widest(s) < 3) == (!crowded(s, false) && forks(s, false) == 0),
    decreases s,
{
    lemma_path_kids(s.kids, s.kids.len() as int);
}

/// The same of the first `upto` children.
pub proof fn lemma_path_kids(kids: Seq<(Shape, bool)>, upto: int)
    requires
        0 <= upto <= kids.len(),
    ensures
        (degrees(kids, upto) < 3) == (!crowded_kids(kids, upto) && forks_kids(kids, upto) == 0),
    decreases kids, upto,
{
    if upto > 0 {
        lemma_path_kids(kids, upto - 1);
        let k = kids[upto - 1].0;
        lemma_path(k, true);
        let own = k.kids.len() + 1;
        let inner = degrees(k.kids, k.kids.len() as int);
        assert(widest(k) == if inner > k.kids.len() { inner } else { k.kids.len() });
        assert((own < 3 && widest(k) < 3) == (own < 3 && inner < 3));
        assert(crowded_kids(kids, upto) == (crowded_kids(kids, upto - 1) || crowded(k, true)));
        assert(forks_kids(kids, upto) == forks_kids(kids, upto - 1) + forks(k, true));
    }
}

/// One vertex has three neighbours, and every other fewer.
pub open spec fn triad(s: Shape) -> bool {
    !crowded(s, false) && forks(s, false) == 1
}

/// `a`, or 2 where that is less.
pub open spec fn capped2(a: nat) -> nat {
    if a < 2 {
        a
    } else {
        2
    }
}

impl Node {
    /// The tree with the given children, in order.
    pub fn from_iter(children: Vec<(Arc<Node>, bool)>) -> (r: Node)
        requires
            forall|i: int| 0 <= i < children@.len() ==> (#[trigger] children@[i]).0.wf(),
            sizes(Self::shapes(children@, children@.len() as int), children@.len() as int) < usize::MAX,
        ensures
            r.wf(),
            r.shape().kids == Self::shapes(children@, children@.len() as int),
            r.kids() == children@,
    {
        let ghost kids = Self::shapes(children@, children@.len() as int);
        let mut num_nodes: usize = 1;
        let mut tallest: usize = 0;
        let mut max_arity: usize = 0;
        let mut i: usize = 0;
        proof {
            Self::lemma_shapes(children@, children@.len() as int);
        }
        while i < children.len()
            invariant
                i <= children.len(),
                kids == Self::shapes(children@, children@.len() as int),
                kids.len() == children@.len(),
                forall|j: int| 0 <= j < children@.len() ==> (#[trigger] children@[j]).0.wf(),
                forall|j: int|
                    0 <= j < children@.len() ==> (#[trigger] kids[j]) == (children@[j].0.shape(), children@[j].1),
                sizes(kids, kids.len() as int) < usize::MAX,
                num_nodes == 1 + sizes(kids, i as int),
                tallest == heights(kids, i as int),
                max_arity == degrees(kids, i as int),
            decreases children.len() - i,
        {
            let child = &children[i].0;
            proof {
                child.lemma_children();
                lemma_sizes_grow(kids, i as int + 1, kids.len() as int);
                lemma_size_bounds(kids[i as int].0);
                assert(children@[i as int].0.wf());
            }
            num_nodes = num_nodes + child.num_nodes;
            if child.height > tallest {
                tallest = child.height;
            }
            if child.children.len() + 1 > max_arity {
                max_arity = child.children.len() + 1;
            }
            if child.max_arity > max_arity {
                max_arity = child.max_arity;
            }
            i = i + 1;
        }
        proof {
            lemma_sizes_bounds(kids, kids.len() as int);
        }
        let height = if children.len() == 0 {
            0
        } else {
            tallest + 1
        };
        if children.len() > max_arity {
            max_arity = children.len();
        }
        let r = Node { num_nodes, height, max_arity, children };
        proof {
            r.lemma_children();
            assert(r.shape().kids =~= kids);
        }
        r
    }

    /// Which of the two trees comes first.
    pub fn against(&self, other: &Node) -> (r: Sign)
        requires
            self.wf(),
            other.wf(),
        ensures
            r == compare(self.shape(), other.shape()),
        decreases self,
    {
        proof {
            self.lemma_children();
            other.lemma_children();
        }
        if self.num_nodes != other.num_nodes {
            return if self.num_nodes < other.num_nodes {
                Sign::Less
            } else {
                Sign::Greater
            };
        }
        if self.height != other.height {
            return if self.height < other.height {
                Sign::Less
            } else {
                Sign::Greater
            };
        }
        if self.max_arity != other.max_arity {
            return if self.max_arity < other.max_arity {
                Sign::Less
            } else {
                Sign::Greater
            };
        }
        let mut i: usize = 0;
        loop
            invariant
                self.wf(),
                other.wf(),
                i <= self.children.len(),
                i <= other.children.len(),
                compare(self.shape(), other.shape()) == compare_kids(
                    self.shape().kids,
                    other.shape().kids,
                    i as int,
                ),
            decreases self.children.len() - i,
        {
            proof {
                self.lemma_children();
                other.lemma_children();
            }
            if i >= self.children.len() && i >= other.children.len() {
                return Sign::Equal;
            }
            if i >= self.children.len() {
                return Sign::Less;
            }
            if i >= other.children.len() {
                return Sign::Greater;
            }
            let c = self.children[i].0.against(&other.children[i].0);
            match c {
                Sign::Equal => {},
                _ => {
                    return c;
                },
            }
            if self.children[i].1 != other.children[i].1 {
                return if other.children[i].1 {
                    Sign::Less
                } else {
                    Sign::Greater
                };
            }
            i = i + 1;
        }
    }

    /// Whether the tree comes before `other` or is the same.
    pub fn le(&self, other: &Node) -> (r: bool)
        requires
            self.wf(),
            other.wf(),
        ensures
            r == (compare(self.shape(), other.shape()) != Sign::Greater),
    {
        match self.against(other) {
            Sign::Greater => false,
            _ => true,
        }
    }

    /// Whether a vertex has four neighbours or more, and the number of
    /// vertices with three, up to two.
    fn scan(&self, below: bool) -> (r: (bool, usize))
        ensures
            r.0 == crowded(self.shape(), below),
            r.1 == capped2(forks(self.shape(), below)),
        decreases self,
    {
        proof {
            self.lemma_children();
        }
        let n = self.children.len();
        let mut over = if below {
            n >= 3
        } else {
            n >= 4
        };
        let mut count: usize = if (below && n == 2) || (!below && n == 3) {
            1
        } else {
            0
        };
        let ghost own = count as nat;
        let mut i: usize = 0;
        while i < n
            invariant
                i <= n,
                n == self.children@.len(),
                n == self.shape().kids.len(),
                forall|j: int|
                    0 <= j < n ==> (#[trigger] self.shape().kids[j]) == (
                        self.children@[j].0.shape(),
                        self.children@[j].1,
                    ),
                over == (n + (if below { 1nat } else { 0nat }) >= 4 || crowded_kids(self.shape().kids, i as int)),
                own == (if n + (if below { 1nat } else { 0nat }) == 3 { 1nat } else { 0nat }),
                count == capped2(own + forks_kids(self.shape().kids, i as int)),
            decreases n - i,
        {
            let (o, c) = self.children[i].0.scan(true);
            over = over || o;
            count = if count + c >= 2 {
                2
            } else {
                count + c
            };
            i = i + 1;
        }
        (over, count)
    }

    /// Whether one vertex of the tree has three neighbours, and every other
    /// fewer.
    pub fn is_triad(&self) -> (r: bool)
        ensures
            r == triad(self.shape()),
    {
        let (over, count) = self.scan(false);
        !over && count == 1
    }
}

/// The character that stands for the flag of an edge.
pub open spec fn flag_char(flag: bool) -> char {
    if flag {
        '1'
    } else {
        '0'
    }
}

/// The tree as text: nothing for a tree of one vertex; else, between square
/// brackets, for each child the character of its flag and the child as
/// text.
pub open spec fn written(s: Shape) -> Seq<char>
    decreases s,
{
    if s.kids.len() == 0 {
        Seq::empty()
    } else {
        seq!['['] + written_kids(s.kids, s.kids.len() as int) + seq![']']
    }
}

/// The first `upto` children as text.
pub open spec fn written_kids(kids: Seq<(Shape, bool)>, upto: int) -> Seq<char>
    decreases kids, upto,
{
    if upto <= 0 || upto > kids.len() {
        Seq::empty()
    } else {
        written_kids(kids, upto - 1) + seq![flag_char(kids[upto - 1].1)] + written(kids[upto - 1].0)
    }
}

/// The tree whose text begins at `pos` in `s`, with the place behind that
/// text; or the character that stands where it does not belong, which is
/// `a` where the text ends too early. Where no bracket opens at `pos`, the
/// tree has one vertex and its text is empty.
pub open spec fn read_tree(s: Seq<char>, pos: int) -> Result<(Shape, int), char>
    decreases s.len() - pos,
{
    if pos < 0 || pos >= s.len() || s[pos] != '[' {
        Ok((leaf_shape(), pos))
    } else {
        match read_kids(s, pos + 1, Seq::empty()) {
            Err(c) => Err(c),
            Ok((kids, end)) => {
                if end >= s.len() {
                    Err('a')
                } else if kids.len() == 0 || s[end] != ']' {
                    Err(s[end])
                } else {
                    Ok((Shape { kids }, end + 1))
                }
            },
        }
    }
}

/// The children whose texts follow one another from `pos` on, behind the
/// children `acc`, with the place behind the last of them: a child begins
/// with the character of its flag.
pub open spec fn read_kids(s: Seq<char>, pos: int, acc: Seq<(Shape, bool)>) -> Result<(Seq<(Shape, bool)>, int), char>
    decreases s.len() - pos,
{
    if pos < 0 || pos >= s.len() || (s[pos] != '0' && s[pos] != '1') {
        Ok((acc, pos))
    } else {
        match read_tree(s, pos + 1) {
            Err(c) => Err(c),
            Ok((kid, end)) => {
                if end <= pos || end > s.len() {
                    Err('a')
                } else {
                    read_kids(s, end, acc.push((kid, s[pos] == '1')))
                }
            },
        }
    }
}

/// The tree that the whole of `s` writes, or the character that stands where
/// it does not belong. The empty text is no text of a tree: it ends too
/// early.
pub open spec fn reading(s: Seq<char>) -> Result<Shape, char> {
    if s.len() == 0 {
        Err('a')
    } else {
        reading_from(s)
    }
}

/// The same of a text that is not empty.
pub open spec fn reading_from(s: Seq<char>) -> Result<Shape, char> {
    match read_tree(s, 0) {
        Err(c) => Err(c),
        Ok((shape, end)) => {
            if end < s.len() {
                Err(s[end])
            } else {
                Ok(shape)
            }
        },
    }
}

/// Where `s` holds the text of the tree `shape` from `pos` on, and no
/// bracket opens behind it, reading at `pos` gives that tree and the place
/// behind its text.
pub proof fn lemma_read_tree(s: Seq<char>, pos: int, shape: Shape)
    requires
        0 <= pos,
        pos + written(shape).len() <= s.len(),
        s.subrange(pos, pos + written(shape).len()) == written(shape),
        pos + written(shape).len() == s.len() || s[pos + written(shape).len()] != '[',
    ensures
        read_tree(s, pos) == Ok::<(Shape, int), char>((shape, pos + written(shape).len())),
    decreases shape,
{
    let n = shape.kids.len() as int;
    let text = written(shape);
    if n == 0 {
        assert(shape.kids =~= Seq::empty());
    } else {
        let inner = written_kids(shape.kids, n);
        let end = pos + 1 + inner.len();
        assert(text == seq!['['] + inner + seq![']']);
        assert forall|i: int| 0 <= i < text.len() implies s[pos + i] == #[trigger] text[i] by {
            assert(s.subrange(pos, pos + text.len())[i] == s[pos + i]);
        }
        assert(s[pos] == text[0]);
        assert(s[end] == text[1 + inner.len() as int]);
        assert(s.subrange(pos + 1, end) =~= inner) by {
            assert forall|i: int| 0 <= i < inner.len() implies s[pos + 1 + i] == inner[i] by {
                assert(text[1 + i] == inner[i]);
            }
        }
        lemma_read_kids(s, pos + 1, Seq::empty(), shape.kids, n);
        assert(Seq::<(Shape, bool)>::empty() + shape.kids.take(n) =~= shape.kids);
        assert(read_kids(s, end, shape.kids) == Ok::<(Seq<(Shape, bool)>, int), char>((shape.kids, end)));
    }
}

/// Where `s` holds the texts of the first `upto` children of `kids` from
/// `from` on, and no bracket opens behind them, reading children at `from`
/// comes to reading them behind these texts with these children read.
pub proof fn lemma_read_kids(s: Seq<char>, from: int, acc: Seq<(Shape, bool)>, kids: Seq<(Shape, bool)>, upto: int)
    requires
        0 <= from,
        0 <= upto <= kids.len(),
        from + written_kids(kids, upto).len() < s.len(),
        s.subrange(from, from + written_kids(kids, upto).len()) == written_kids(kids, upto),
        s[from + written_kids(kids, upto).len()] != '[',
    ensures
        read_kids(s, from, acc) == read_kids(s, from + written_kids(kids, upto).len(), acc + kids.take(upto)),
    decreases kids, upto,
{
    if upto == 0 {
        assert(acc + kids.take(0) =~= acc);
    } else {
        let text = written_kids(kids, upto);
        let first = written_kids(kids, upto - 1);
        let kid = kids[upto - 1];
        let last = written(kid.0);
        let at = from + first.len();
        assert(text == first + seq![flag_char(kid.1)] + last);
        assert forall|i: int| 0 <= i < text.len() implies s[from + i] == #[trigger] text[i] by {
            assert(s.subrange(from, from + text.len())[i] == s[from + i]);
        }
        assert(s[at] == text[first.len() as int]);
        assert(s.subrange(from, at) =~= first) by {
            assert forall|i: int| 0 <= i < first.len() implies s[from + i] == first[i] by {
                assert(text[i] == first[i]);
            }
        }
        assert(s.subrange(at + 1, at + 1 + last.len()) =~= last) by {
            assert forall|i: int| 0 <= i < last.len() implies s[at + 1 + i] == last[i] by {
                assert(text[first.len() as int + 1 + i] == last[i]);
            }
        }
        lemma_read_kids(s, from, acc, kids, upto - 1);
        lemma_read_tree(s, at + 1, kid.0);
        let sofar = acc + kids.take(upto - 1);
        assert(sofar.push((kid.0, s[at] == '1')) =~= acc + kids.take(upto));
        assert(read_kids(s, at, sofar) == read_kids(s, at + 1 + last.len(), sofar.push((kid.0, s[at] == '1'))));
    }
}

/// A text is read back as the tree that it writes. The tree with one
/// vertex writes the empty text, which is not read.
pub proof fn lemma_reading_written(shape: Shape)
    requires
        shape.kids.len() > 0,
    ensures
        reading(written(shape)) == Ok::<Shape, char>(shape),
{
    let text = written(shape);
    assert(text.subrange(0, text.len() as int) =~= text);
    lemma_read_tree(text, 0, shape);
}

/// The edges of the tree whose root has the number `id`. The vertices are
/// numbered as a walk finds them that goes down into each child in turn: an
/// edge between the root and a child is followed by the edges of the child.
pub open spec fn tree_edges(s: Shape, id: nat) -> Seq<(usize, usize)>
    decreases s,
{
    kid_edges(s.kids, id, s.kids.len() as int)
}

/// The edges of the first `upto` children of the root with the number
/// `root`, and of the edges between them and the root.
pub open spec fn kid_edges(kids: Seq<(Shape, bool)>, root: nat, upto: int) -> Seq<(usize, usize)>
    decreases kids, upto,
{
    if upto <= 0 || upto > kids.len() {
        Seq::empty()
    } else {
        let c = root + 1 + sizes(kids, upto - 1);
        kid_edges(kids, root, upto - 1) + seq![
            if kids[upto - 1].1 {
                (root as usize, c as usize)
            } else {
                (c as usize, root as usize)
            },
        ] + tree_edges(kids[upto - 1].0, c)
    }
}

/// The edges of a tree join vertices of the tree.
pub proof fn lemma_tree_edges(s: Shape, id: nat)
    requires
        id + size(s) <= usize::MAX + 1,
    ensures
        forall|k: int|
            0 <= k < tree_edges(s, id).len() ==> id <= (#[trigger] tree_edges(s, id)[k]).0 < id + size(s) && id
                <= tree_edges(s, id)[k].1 < id + size(s),
    decreases s,
{
    lemma_kid_edges(s.kids, id, s.kids.len() as int);
    assert(tree_edges(s, id) == kid_edges(s.kids, id, s.kids.len() as int));
    assert(size(s) == 1 + sizes(s.kids, s.kids.len() as int));
}

/// The edges of the first children join the root and vertices of these
/// children.
pub proof fn lemma_kid_edges(kids: Seq<(Shape, bool)>, root: nat, upto: int)
    requires
        0 <= upto <= kids.len(),
        root + 1 + sizes(kids, upto) <= usize::MAX + 1,
    ensures
        forall|k: int|
            0 <= k < kid_edges(kids, root, upto).len() ==> root <= (#[trigger] kid_edges(kids, root, upto)[k]).0
                < root + 1 + sizes(kids, upto) && root <= kid_edges(kids, root, upto)[k].1 < root + 1 + sizes(
                kids,
                upto,
            ),
    decreases kids, upto,
{
    if upto > 0 {
        let c = root + 1 + sizes(kids, upto - 1);
        let kid = kids[upto - 1].0;
        lemma_size_bounds(kid);
        assert(sizes(kids, upto) == sizes(kids, upto - 1) + size(kid));
        lemma_kid_edges(kids, root, upto - 1);
        lemma_tree_edges(kid, c);
        let first = kid_edges(kids, root, upto - 1);
        let link = seq![
            if kids[upto - 1].1 {
                (root as usize, c as usize)
            } else {
                (c as usize, root as usize)
            },
        ];
        let rest = tree_edges(kid, c);
        let all = kid_edges(kids, root, upto);
        assert(all == first + link + rest);
        assert forall|k: int| 0 <= k < all.len() implies root <= (#[trigger] all[k]).0 < root + 1 + sizes(
            kids,
            upto,
        ) && root <= all[k].1 < root + 1 + sizes(kids, upto) by {
            if k < first.len() {
                assert(all[k] == first[k]);
            } else if k == first.len() {
                assert(all[k] == link[0]);
            } else {
                assert(all[k] == rest[k - first.len() - 1]);
            }
        }
    }
}

/// Why a text is no tree.
#[derive(Debug, Clone, Copy, PartialEq, Eq, Structural)]
pub enum ParseNodeError {
    /// The character does not belong where it stands. Where the text ends
    /// too early, the character is `a`.
    InvalidCharacter(char),
}

impl ParseNodeError {
    /// What the error says: that it could not parse, and the character.
    pub fn message(&self) -> (r: String)
        ensures
            r@ == "Could not parse: "@ + seq![self->InvalidCharacter_0],
    {
        let mut v = chars_of("Could not parse: ");
        match self {
            ParseNodeError::InvalidCharacter(c) => {
                v.push(*c);
            },
        }
        string_of(&v)
    }
}

impl Node {
    /// Appends the tree as text to `out`.
    pub fn write(&self, out: &mut Vec<char>)
        ensures
            final(out)@ == old(out)@ + written(self.shape()),
        decreases self,
    {
        proof {
            self.lemma_children();
        }
        let n = self.children.len();
        if n == 0 {
            assert(out@ =~= old(out)@ + written(self.shape()));
            return ;
        }
        out.push('[');
        let mut i: usize = 0;
        let ghost start = out@;
        assert(start + written_kids(self.shape().kids, 0) =~= start);
        while i < n
            invariant
                i <= n,
                n == self.children@.len(),
                n == self.shape().kids.len(),
                forall|j: int|
                    0 <= j < n ==> (#[trigger] self.shape().kids[j]) == (
                        self.children@[j].0.shape(),
                        self.children@[j].1,
                    ),
                out@ == start + written_kids(self.shape().kids, i as int),
            decreases n - i,
        {
            let ghost before = out@;
            out.push(if self.children[i].1 { '1' } else { '0' });
            self.children[i].0.write(out);
            proof {
                let kids = self.shape().kids;
                assert(out@ =~= start + (written_kids(kids, i as int) + seq![flag_char(kids[i as int].1)]
                    + written(kids[i as int].0)));
            }
            i = i + 1;
        }
        out.push(']');
        proof {
            assert(out@ =~= old(out)@ + written(self.shape()));
        }
    }

    /// The tree as text.
    pub fn to_string(&self) -> (r: String)
        ensures
            r@ == written(self.shape()),
    {
        let mut out: Vec<char> = Vec::new();
        self.write(&mut out);
        assert(out@ =~= written(self.shape()));
        string_of(&out)
    }

    /// The tree that the characters of `v` from `pos` on write, and the
    /// place behind it.
    fn parse(v: &Vec<char>, pos: usize) -> (r: Result<(Node, usize), ParseNodeError>)
        requires
            pos <= v.len(),
        ensures
            r.is_ok() ==> pos <= r.unwrap().1 <= v.len() && r.unwrap().0.wf() && written(r.unwrap().0.shape())
                == v@.subrange(pos as int, r.unwrap().1 as int) && size(r.unwrap().0.shape()) <= 1 + r.unwrap().1
                - pos,
            match read_tree(v@, pos as int) {
                Ok(found) => r.is_ok() && r.unwrap().0.shape() == found.0 && r.unwrap().1 == found.1,
                Err(c) => r.is_err() && r->Err_0 == ParseNodeError::InvalidCharacter(c),
            },
        decreases v.len() - pos,
    {
        if pos >= v.len() || v[pos] != '[' {
            let t = Node::leaf();
            assert(written(t.shape()) =~= v@.subrange(pos as int, pos as int));
            return Ok((t, pos));
        }
        let mut children: Vec<(Arc<Node>, bool)> = Vec::new();
        let mut p: usize = pos + 1;
        proof {
            assert(v@.subrange(pos as int + 1, p as int) =~= Seq::<char>::empty());
        }
        while p < v.len() && (v[p] == '0' || v[p] == '1')
            invariant
                pos < p <= v.len(),
                forall|i: int| 0 <= i < children@.len() ==> (#[trigger] children@[i]).0.wf(),
                written_kids(Node::shapes(children@, children@.len() as int), children@.len() as int) == v@.subrange(
                    pos as int + 1,
                    p as int,
                ),
                sizes(Node::shapes(children@, children@.len() as int), children@.len() as int) <= p - pos - 1,
                v@[pos as int] == '[',
                read_kids(v@, pos as int + 1, Seq::empty()) == read_kids(
                    v@,
                    p as int,
                    Node::shapes(children@, children@.len() as int),
                ),
            decreases v.len() - p,
        {
            let flag = v[p] == '1';
            let (kid, end) = match Node::parse(v, p + 1) {
                Ok(found) => found,
                Err(e) => {
                    return Err(e);
                },
            };
            let ghost before = children@;
            let ghost kid_shape = kid.shape();
            children.push((Arc::new(kid), flag));
            proof {
                let n = before.len() as int;
                let now = children@;
                Node::lemma_shapes(before, n);
                Node::lemma_shapes(now, n + 1);
                let ks = Node::shapes(now, n + 1);
                let old_ks = Node::shapes(before, n);
                assert forall|i: int| 0 <= i < n implies ks[i] == old_ks[i] by {
                    assert(now[i] == before[i]);
                }
                lemma_kids_prefix(ks, old_ks, n);
                assert(ks[n] == (kid_shape, flag));
                assert(ks =~= old_ks.push((kid_shape, flag)));
                assert(read_kids(v@, p as int, old_ks) == read_kids(v@, end as int, ks));
                assert(written_kids(ks, n + 1) == written_kids(ks, n) + seq![flag_char(flag)] + written(
                    kid_shape,
                ));
                assert(sizes(ks, n + 1) == sizes(ks, n) + size(kid_shape));
                assert(v@.subrange(pos as int + 1, end as int) =~= v@.subrange(pos as int + 1, p as int)
                    + seq![v@[p as int]] + v@.subrange(p as int + 1, end as int));
                assert forall|i: int| 0 <= i < now.len() implies (#[trigger] now[i]).0.wf() by {
                    if i < n {
                        assert(now[i] == before[i]);
                    }
                }
            }
            p = end;
        }
        if children.len() == 0 {
            return Err(ParseNodeError::InvalidCharacter(if p < v.len() { v[p] } else { 'a' }));
        }
        if p >= v.len() {
            return Err(ParseNodeError::InvalidCharacter('a'));
        }
        if v[p] != ']' {
            return Err(ParseNodeError::InvalidCharacter(v[p]));
        }
        let ghost cs = children@;
        let ghost kids = Node::shapes(cs, cs.len() as int);
        proof {
            Node::lemma_shapes(cs, cs.len() as int);
        }
        let t = Node::from_iter(children);
        proof {
            assert(v@.subrange(pos as int, p as int + 1) =~= seq!['['] + v@.subrange(pos as int + 1, p as int)
                + seq![']']);
            assert(t.shape().kids == kids);
            assert(kids.len() > 0);
            assert(written(t.shape()) == seq!['['] + written_kids(kids, kids.len() as int) + seq![']']);
            assert(size(t.shape()) == 1 + sizes(kids, kids.len() as int));
        }
        Ok((t, p + 1))
    }

    /// The tree that `s` writes, where it writes one; else the character
    /// that stands where it does not belong.
    pub fn from_str(s: &str) -> (r: Result<Node, ParseNodeError>)
        ensures
            match reading(s@) {
                Ok(shape) => r.is_ok() && r.unwrap().wf() && r.unwrap().shape() == shape && written(shape) == s@,
                Err(c) => r.is_err() && r->Err_0 == ParseNodeError::InvalidCharacter(c),
            },
    {
        let v = chars_of(s);
        if v.len() == 0 {
            return Err(ParseNodeError::InvalidCharacter('a'));
        }
        match Node::parse(&v, 0) {
            Err(e) => Err(e),
            Ok((t, end)) => {
                if end != v.len() {
                    return Err(ParseNodeError::InvalidCharacter(v[end]));
                }
                proof {
                    assert(v@.subrange(0, end as int) =~= v@);
                }
                Ok(t)
            },
        }
    }

    /// Appends the edges of the tree, whose root has the number `id`.
    fn collect(&self, id: usize, out: &mut Vec<(usize, usize)>)
        requires
            self.wf(),
            id + size(self.shape()) <= usize::MAX + 1,
        ensures
            final(out)@ == old(out)@ + tree_edges(self.shape(), id as nat),
        decreases self,
    {
        proof {
            self.lemma_children();
        }
        let n = self.children.len();
        let mut next: usize = id;
        let mut i: usize = 0;
        assert(out@ =~= old(out)@ + kid_edges(self.shape().kids, id as nat, 0));
        while i < n
            invariant
                i <= n,
                self.wf(),
                n == self.children@.len(),
                n == self.shape().kids.len(),
                id + size(self.shape()) <= usize::MAX + 1,
                forall|j: int|
                    0 <= j < n ==> (#[trigger] self.shape().kids[j]) == (
                        self.children@[j].0.shape(),
                        self.children@[j].1,
                    ),
                next == id + sizes(self.shape().kids, i as int),
                out@ == old(out)@ + kid_edges(self.shape().kids, id as nat, i as int),
            decreases n - i,
        {
            let ghost kids = self.shape().kids;
            proof {
                self.lemma_children();
                self.children@[i as int].0.lemma_children();
                lemma_sizes_grow(kids, i as int + 1, n as int);
            }
            let child = &self.children[i].0;
            let c = next + 1;
            if self.children[i].1 {
                out.push((id, c));
            } else {
                out.push((c, id));
            }
            child.collect(c, out);
            proof {
                assert(out@ =~= old(out)@ + (kid_edges(kids, id as nat, i as int) + seq![
                    if kids[i as int].1 {
                        (id, c)
                    } else {
                        (c, id)
                    },
                ] + tree_edges(kids[i as int].0, c as nat)));
            }
            next = next + child.num_nodes;
            i = i + 1;
        }
    }
}

/// The text of the first children does not depend on what follows them.
pub proof fn lemma_kids_prefix(a: Seq<(Shape, bool)>, b: Seq<(Shape, bool)>, upto: int)
    requires
        0 <= upto <= a.len(),
        upto <= b.len(),
        forall|i: int| 0 <= i < upto ==> a[i] == b[i],
    ensures
        written_kids(a, upto) == written_kids(b, upto),
        sizes(a, upto) == sizes(b, upto),
    decreases upto,
{
    if upto > 0 {
        lemma_kids_prefix(a, b, upto - 1);
    }
}

impl GraphType for Node {
    open spec fn graph_ok(&self) -> bool {
        self.wf()
    }
}

impl Vertices for Node {
    open spec fn spec_vertices(&self) -> Seq<usize> {
        Seq::new(size(self.shape()), |k: int| k as usize)
    }

    fn vertices(&self) -> (r: Vec<usize>) {
        proof {
            self.lemma_children();
        }
        let mut r: Vec<usize> = Vec::new();
        let mut k: usize = 0;
        while k < self.num_nodes
            invariant
                k <= self.num_nodes,
                r.len() == k,
                forall|j: int| 0 <= j < k ==> #[trigger] r[j] == j,
            decreases self.num_nodes - k,
        {
            r.push(k);
            k = k + 1;
        }
        proof {
            assert(r@ =~= self.spec_vertices());
        }
        r
    }

    fn vertex_count(&self) -> (r: usize) {
        proof {
            self.lemma_children();
        }
        self.num_nodes
    }

    fn has_vertex(&self, v: usize) -> (r: bool) {
        proof {
            self.lemma_children();
            if v < self.num_nodes {
                assert(self.spec_vertices()[v as int] == v);
            }
        }
        v < self.num_nodes
    }
}

impl Edges for Node {
    open spec fn spec_edges(&self) -> Seq<(usize, usize)> {
        tree_edges(self.shape(), 0)
    }

    fn edges(&self) -> (r: Vec<(usize, usize)>) {
        proof {
            self.lemma_children();
        }
        let mut r: Vec<(usize, usize)> = Vec::new();
        self.collect(0, &mut r);
        proof {
            assert(r@ =~= self.spec_edges());
        }
        r
    }

    fn edge_count(&self) -> (r: usize) {
        self.edges().len()
    }

    fn has_edge(&self, u: usize, v: usize) -> (r: bool) {
        let list = self.edges();
        let mut k: usize = 0;
        while k < list.len()
            invariant
                k <= list.len(),
                list@ == self.spec_edges(),
                forall|j: int| 0 <= j < k ==> #[trigger] list@[j] != (u, v),
            decreases list.len() - k,
        {
            if list[k].0 == u && list[k].1 == v {
                proof {
                    assert(list@[k as int] == (u, v));
                }
                return true;
            }
            k = k + 1;
        }
        false
    }
}

impl GraphSize for Node {

}

impl Digraph for Node {
    proof fn lemma_edges_join_vertices(&self) {
        self.lemma_children();
        lemma_tree_edges(self.shape(), 0);
        assert forall|k: int| 0 <= k < self.spec_edges().len() implies self.spec_vertices().contains(
            (#[trigger] self.spec_edges()[k]).0,
        ) && self.spec_vertices().contains(self.spec_edges()[k].1) by {
            let u = self.spec_edges()[k].0;
            let v = self.spec_edges()[k].1;
            assert(self.spec_vertices()[u as int] == u);
            assert(self.spec_vertices()[v as int] == v);
        }
    }
}

/// The term that stands for the vertex `v` of a tree.
pub open spec fn vertex_term(v: usize) -> Tag {
    (v, Seq::empty())
}

impl ToGraph for Node {
    open spec fn graph_ready(&self) -> bool {
        self.wf()
    }

    /// The root, and then the edges of the tree in their order, each with
    /// its two ends.
    open spec fn graph(&self) -> Quiver {
        let edges = tree_edges(self.shape(), 0);
        Quiver::empty().add_vertex(vertex_term(0)).grown(
            Seq::new(edges.len(), |k: int| (vertex_term(edges[k].0), vertex_term(edges[k].1))),
            edges.len() as int,
        )
    }

    fn to_graph(&self) -> (r: AdjMap) {
        let edges = self.edges();
        let mut terms: Vec<(Label, Label)> = Vec::new();
        let mut k: usize = 0;
        while k < edges.len()
            invariant
                k <= edges.len(),
                terms.len() == k,
                forall|j: int|
                    0 <= j < k ==> tag((#[trigger] terms@[j]).0) == vertex_term(edges@[j].0) && tag(terms@[j].1)
                        == vertex_term(edges@[j].1),
            decreases edges.len() - k,
        {
            let a: Label = (edges[k].0, Vec::new());
            let b: Label = (edges[k].1, Vec::new());
            terms.push((a, b));
            k = k + 1;
        }
        let mut r = AdjMap::new();
        let root: Label = (0, Vec::new());
        r.add_vertex(root);
        let ghost want = Seq::new(edges@.len(), |k: int| (vertex_term(edges@[k].0), vertex_term(edges@[k].1)));
        let ghost given = Seq::new(terms@.len(), |k: int| (tag(terms@[k].0), tag(terms@[k].1)));
        proof {
            assert(given =~= want);
        }
        r.grow(terms);
        r
    }
}

} // verus!
