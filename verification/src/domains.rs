//! The domains of a problem: for each variable a list of value slots from
//! which a slot can be unlinked and linked again in constant time.

use vstd::prelude::*;
use crate::problem::{Problem, Value, Variable};

verus! {

/// The direction of a link between two slots.
#[derive(Copy, Clone, Debug, PartialEq, Eq, Structural)]
pub enum Direction {
    Prev,
    Next,
}

/// What a slot holds: the head holds nothing, every other slot an item.
#[derive(Debug, Copy, Clone)]
pub enum Store<T> {
    Head,
    Item(T),
}

/// A slot with its links to the previous and the next slot.
#[derive(Debug, Copy, Clone)]
pub struct Node<T> {
    pub prev: usize,
    pub next: usize,
    pub value: Store<T>,
}

impl<T> Node<T> {
    /// A slot that holds `value`, not linked yet.
    pub fn item(value: T) -> (r: Node<T>)
        ensures
            r.value == Store::Item(value),
            r.prev == usize::MAX,
            r.next == usize::MAX,
    {
        Node { value: Store::Item(value), prev: usize::MAX, next: usize::MAX }
    }

    /// The head slot, not linked yet.
    pub fn head() -> (r: Node<T>)
        ensures
            r.value == Store::<T>::Head,
            r.prev == usize::MAX,
            r.next == usize::MAX,
    {
        Node { value: Store::Head, prev: usize::MAX, next: usize::MAX }
    }

    /// The link in direction `dir`, as a specification.
    pub open spec fn link(&self, dir: Direction) -> usize {
        match dir {
            Direction::Prev => self.prev,
            Direction::Next => self.next,
        }
    }

    /// The link in direction `dir`.
    pub fn get(&self, dir: Direction) -> (r: usize)
        ensures
            r == self.link(dir),
    {
        match dir {
            Direction::Prev => self.prev,
            Direction::Next => self.next,
        }
    }

    /// Sets the link in direction `dir` to `index`.
    pub fn set(&mut self, dir: Direction, index: usize)
        ensures
            final(self).link(dir) == index,
            final(self).value == old(self).value,
            dir == Direction::Prev ==> final(self).next == old(self).next,
            dir == Direction::Next ==> final(self).prev == old(self).prev,
    {
        match dir {
            Direction::Prev => {
                self.prev = index;
            },
            Direction::Next => {
                self.next = index;
            },
        }
    }

    /// The link in direction `dir`, to be assigned to.
    pub fn assign(&mut self, dir: Direction) -> (r: &mut usize)
        ensures
            *r == old(self).link(dir),
            final(self).link(dir) == *final(r),
            final(self).value == old(self).value,
            dir == Direction::Prev ==> final(self).next == old(self).next,
            dir == Direction::Next ==> final(self).prev == old(self).prev,
    {
        match dir {
            Direction::Prev => &mut self.prev,
            Direction::Next => &mut self.next,
        }
    }
}

/// What a list is to a contract: its slots with their links, and the linked
/// slots in link order.
pub struct Chain<T> {
    pub nodes: Seq<Node<T>>,
    pub order: Seq<usize>,
}

impl<T> Chain<T> {
    /// The slot at position `k` of the link order; the head before the first
    /// and behind the last.
    pub open spec fn at(self, k: int) -> usize {
        if 0 <= k < self.order.len() {
            self.order[k]
        } else {
            0
        }
    }

    /// The head is slot 0, every other slot holds an item, the linked slots
    /// are distinct, and the links run through the head and the linked slots
    /// in link order, in both directions.
    pub open spec fn wf(self) -> bool {
        &&& 1 <= self.nodes.len() <= usize::MAX
        &&& self.nodes[0].value is Head
        &&& forall|i: int| 1 <= i < self.nodes.len() ==> (#[trigger] self.nodes[i]).value is Item
        &&& self.order.no_duplicates()
        &&& forall|k: int|
            0 <= k < self.order.len() ==> 1 <= #[trigger] self.order[k] < self.nodes.len()
        &&& self.nodes[0].next == self.at(0)
        &&& self.nodes[0].prev == self.at(self.order.len() - 1)
        &&& forall|k: int|
            0 <= k < self.order.len() ==> (#[trigger] self.nodes[self.order[k] as int]).next
                == self.at(k + 1)
        &&& forall|k: int|
            0 <= k < self.order.len() ==> (#[trigger] self.nodes[self.order[k] as int]).prev
                == self.at(k - 1)
    }

    /// The item in slot `i`.
    pub open spec fn item(self, i: int) -> T
        recommends
            1 <= i < self.nodes.len(),
            self.nodes[i].value is Item,
    {
        self.nodes[i].value->Item_0
    }

    /// The items of the linked slots, in link order.
    pub open spec fn items(self) -> Seq<T> {
        Seq::new(self.order.len(), |k: int| self.item(self.order[k] as int))
    }

    /// The slots with the link of `a` in direction next set to `b`.
    pub open spec fn with_next(nodes: Seq<Node<T>>, a: int, b: usize) -> Seq<Node<T>> {
        nodes.update(a, Node { prev: nodes[a].prev, next: b, value: nodes[a].value })
    }

    /// The slots with the link of `a` in direction prev set to `b`.
    pub open spec fn with_prev(nodes: Seq<Node<T>>, a: int, b: usize) -> Seq<Node<T>> {
        nodes.update(a, Node { prev: b, next: nodes[a].next, value: nodes[a].value })
    }

    /// The list without slot `i`: its two neighbours are linked to each
    /// other, and the slot keeps its own links.
    pub open spec fn unlink(self, i: usize) -> Chain<T> {
        let p = self.nodes[i as int].prev;
        let n = self.nodes[i as int].next;
        Chain {
            nodes: Self::with_prev(Self::with_next(self.nodes, p as int, n), n as int, p),
            order: self.order.remove(self.order.index_of(i)),
        }
    }

    /// Slot `i` is unlinked, and the two slots that its own links name are
    /// neighbours in the list.
    pub open spec fn can_relink(self, i: usize) -> bool {
        let p = self.nodes[i as int].prev;
        let n = self.nodes[i as int].next;
        &&& 1 <= i < self.nodes.len()
        &&& !self.order.contains(i)
        &&& (p == 0 || self.order.contains(p))
        &&& p < self.nodes.len()
        &&& self.nodes[p as int].next == n
    }

    /// The list with slot `i` back between the two slots that its own links
    /// name.
    pub open spec fn relink(self, i: usize) -> Chain<T> {
        let p = self.nodes[i as int].prev;
        let n = self.nodes[i as int].next;
        let pos = if p == 0 {
            0
        } else {
            self.order.index_of(p) + 1
        };
        Chain {
            nodes: Self::with_prev(Self::with_next(self.nodes, p as int, i), n as int, i),
            order: self.order.insert(pos, i),
        }
    }

    /// Unlinking a linked slot leaves a well-formed list into which the slot
    /// can be linked again, and linking it again gives the list back, links
    /// and order alike.
    pub proof fn lemma_unlink_relink(self, i: usize)
        requires
            self.wf(),
            self.order.contains(i),
        ensures
            self.unlink(i).wf(),
            self.unlink(i).can_relink(i),
            self.unlink(i).relink(i) == self,
            self.unlink(i).nodes.len() == self.nodes.len(),
            self.unlink(i).order.len() == self.order.len() - 1,
            forall|j: int| 0 <= j < self.nodes.len() ==> (#[trigger] self.unlink(i).nodes[j]).value == self.nodes[j].value,
            forall|j: usize| self.unlink(i).order.contains(j) <==> (self.order.contains(j) && j != i),
    {
        let k = self.order.index_of(i);
        assert(0 <= k < self.order.len() && self.order[k] == i);
        let p = self.nodes[i as int].prev;
        let n = self.nodes[i as int].next;
        assert(p == self.at(k - 1));
        assert(n == self.at(k + 1));
        let u = self.unlink(i);
        let o2 = self.order.remove(k);
        assert(u.order == o2);
        assert forall|a: int| 0 <= a < o2.len() implies #[trigger] o2[a] == (if a < k {
            self.order[a]
        } else {
            self.order[a + 1]
        }) by {}
        assert(o2.no_duplicates());
        assert(forall|a: int| 0 <= a < o2.len() ==> o2[a] != i);
        assert(p != i && n != i) by {
            if k > 0 {
                assert(self.order[k - 1] != self.order[k]);
            }
            if k + 1 < self.order.len() {
                assert(self.order[k + 1] != self.order[k]);
            }
        }
        assert forall|a: int| 0 <= a < o2.len() implies (#[trigger] u.nodes[o2[a] as int]).next
            == u.at(a + 1) by {
            let b = if a < k { a } else { a + 1 };
            assert(o2[a] == self.order[b]);
            assert(self.nodes[self.order[b] as int].next == self.at(b + 1));
        }
        assert forall|a: int| 0 <= a < o2.len() implies (#[trigger] u.nodes[o2[a] as int]).prev
            == u.at(a - 1) by {
            let b = if a < k { a } else { a + 1 };
            assert(o2[a] == self.order[b]);
            assert(self.nodes[self.order[b] as int].prev == self.at(b - 1));
        }
        assert(u.wf());
        assert(!o2.contains(i));
        if p != 0 {
            assert(o2[k - 1] == p);
            assert(o2.contains(p));
            assert(o2.index_of(p) == k - 1);
        }
        assert(u.can_relink(i));
        let r = u.relink(i);
        assert(r.order =~= self.order);
        assert(r.nodes =~= self.nodes);
        assert forall|j: usize| u.order.contains(j) <==> (self.order.contains(j) && j != i) by {
            if self.order.contains(j) && j != i {
                let b = self.order.index_of(j);
                let a = if b < k { b } else { b - 1 };
                assert(o2[a] == j);
            }
        }
    }

    /// The linked slots are fewer than the slots.
    pub proof fn lemma_order_bound(self)
        requires
            self.wf(),
        ensures
            self.order.len() < self.nodes.len(),
    {
        let ints = self.order.map_values(|x: usize| x as int);
        assert(ints.no_duplicates()) by {
            assert forall|a: int, b: int| 0 <= a < ints.len() && 0 <= b < ints.len() && a != b implies ints[a] != ints[b] by {
                assert(self.order[a] != self.order[b]);
            }
        }
        ints.unique_seq_to_set();
        let range = vstd::set_lib::set_int_range(1, self.nodes.len() as int);
        vstd::set_lib::lemma_int_range(1, self.nodes.len() as int);
        assert(ints.to_set().subset_of(range)) by {
            assert forall|v: int| ints.to_set().contains(v) implies range.contains(v) by {
                let k = choose|k: int| 0 <= k < ints.len() && ints[k] == v;
                assert(1 <= self.order[k] < self.nodes.len());
            }
        }
        vstd::set_lib::lemma_len_subset(ints.to_set(), range);
    }

    /// Linking a slot again leaves a well-formed list in which the slot is
    /// linked, and unlinking it gives the list back.
    #[verifier::rlimit(60)]
    #[verifier::spinoff_prover]
    pub proof fn lemma_relink(self, i: usize)
        requires
            self.wf(),
            self.can_relink(i),
        ensures
            self.relink(i).wf(),
            self.relink(i).order.contains(i),
            self.relink(i).unlink(i) == self,
            self.relink(i).nodes.len() == self.nodes.len(),
            self.relink(i).order.len() == self.order.len() + 1,
            forall|j: int| 0 <= j < self.nodes.len() ==> (#[trigger] self.relink(i).nodes[j]).value == self.nodes[j].value,
            forall|j: usize| self.relink(i).order.contains(j) <==> (self.order.contains(j) || j == i),
    {
        let p = self.nodes[i as int].prev;
        let n = self.nodes[i as int].next;
        let pos = if p == 0 { 0 } else { self.order.index_of(p) + 1 };
        assert(0 <= pos <= self.order.len());
        assert(p == self.at(pos - 1));
        assert(n == self.at(pos)) by {
            if p != 0 {
                assert(self.nodes[self.order[pos - 1] as int].next == self.at(pos));
            }
        }
        let r = self.relink(i);
        let o2 = self.order.insert(pos, i);
        assert(r.order == o2);
        assert(o2[pos] == i);
        assert forall|a: int| 0 <= a < o2.len() implies #[trigger] o2[a] == (if a < pos {
            self.order[a]
        } else if a == pos {
            i
        } else {
            self.order[a - 1]
        }) by {}
        assert(o2.no_duplicates());
        assert(p != i && n != i);
        assert forall|a: int| 0 <= a < o2.len() implies (#[trigger] r.nodes[o2[a] as int]).next
            == r.at(a + 1) by {
            if a != pos {
                let b = if a < pos { a } else { a - 1 };
                assert(o2[a] == self.order[b]);
                assert(self.nodes[self.order[b] as int].next == self.at(b + 1));
            }
        }
        assert forall|a: int| 0 <= a < o2.len() implies (#[trigger] r.nodes[o2[a] as int]).prev
            == r.at(a - 1) by {
            if a != pos {
                let b = if a < pos { a } else { a - 1 };
                assert(o2[a] == self.order[b]);
                assert(self.nodes[self.order[b] as int].prev == self.at(b - 1));
            }
        }
        assert(r.wf());
        assert(o2.contains(i));
        assert(o2.index_of(i) == pos);
        let u = r.unlink(i);
        assert(u.order =~= self.order);
        assert(u.nodes =~= self.nodes);
        assert forall|j: usize| r.order.contains(j) <==> (self.order.contains(j) || j == i) by {
            if self.order.contains(j) {
                let b = self.order.index_of(j);
                let a = if b < pos { b } else { b + 1 };
                assert(o2[a] == j);
            }
        }
    }
}

impl<T> Chain<T> {
    /// The list that holds `values` in slots 1 to `values.len()`, all linked,
    /// in that order.
    pub open spec fn fresh(values: Seq<T>) -> Chain<T> {
        let d = values.len();
        Chain {
            nodes: Seq::new(
                d + 1,
                |i: int|
                    if i == 0 {
                        Node {
                            prev: d as usize,
                            next: if d == 0 { 0usize } else { 1usize },
                            value: Store::Head,
                        }
                    } else {
                        Node {
                            prev: (i - 1) as usize,
                            next: if i == d { 0usize } else { (i + 1) as usize },
                            value: Store::Item(values[i - 1]),
                        }
                    },
            ),
            order: Seq::new(d, |k: int| (k + 1) as usize),
        }
    }

    /// A fresh list is well formed and holds its values in order.
    pub proof fn lemma_fresh(values: Seq<T>)
        requires
            values.len() < usize::MAX,
        ensures
            Self::fresh(values).wf(),
            Self::fresh(values).items() == values,
            Self::fresh(values).nodes.len() == values.len() + 1,
            Self::fresh(values).order.len() == values.len(),
    {
        let c = Self::fresh(values);
        assert(c.items() =~= values);
        assert forall|k: int| 0 <= k < c.order.len() implies (#[trigger] c.nodes[c.order[k] as int]).next
            == c.at(k + 1) by {}
        assert forall|k: int| 0 <= k < c.order.len() implies (#[trigger] c.nodes[c.order[k] as int]).prev
            == c.at(k - 1) by {}
    }
}

/// A list of value slots over a fixed index space. Slot 0 is the head; the
/// slots from 1 on hold the values in the order in which they were given.
pub struct List<T> {
    nodes: Vec<Node<T>>,
    size: usize,
    order: Ghost<Seq<usize>>,
}

impl<T> View for List<T> {
    type V = Chain<T>;

    closed spec fn view(&self) -> Chain<T> {
        Chain { nodes: self.nodes@, order: self.order@ }
    }
}

impl<T> List<T> {
    /// The number of linked slots that the list has counted.
    pub closed spec fn count(&self) -> nat {
        self.size as nat
    }

    /// The list's model is well formed, and its count is the number of
    /// linked slots.
    pub open spec fn wf(&self) -> bool {
        &&& self@.wf()
        &&& self.count() == self@.order.len()
    }

    /// The list with no value.
    pub fn new() -> (r: List<T>)
        ensures
            r.wf(),
            r@ == Chain::<T>::fresh(Seq::empty()),
    {
        let mut head = Node::head();
        head.prev = 0;
        head.next = 0;
        let mut nodes = Vec::new();
        nodes.push(head);
        let r = List { nodes, size: 0, order: Ghost(Seq::empty()) };
        proof {
            Chain::<T>::lemma_fresh(Seq::empty());
            assert(r@.nodes =~= Chain::<T>::fresh(Seq::empty()).nodes);
            assert(r@.order =~= Chain::<T>::fresh(Seq::empty()).order);
        }
        r
    }

    /// The list that holds `values`, all linked, in the order given.
    pub fn from_iter(values: Vec<T>) -> (r: List<T>)
        ensures
            r.wf(),
            r@ == Chain::fresh(values@),
    {
        let ghost vals = values@;
        let mut values = values;
        let d = values.len();
        let mut items: Vec<T> = Vec::new();
        // The values leave `values` from its end.
        while values.len() > 0
            invariant
                values.len() + items.len() == d,
                d == vals.len(),
                forall|k: int| 0 <= k < values.len() ==> values[k] == vals[k],
                forall|k: int| 0 <= k < items.len() ==> items[k] == vals[d - 1 - k],
            decreases values.len(),
        {
            let v = values.pop().unwrap();
            items.push(v);
        }
        let mut nodes: Vec<Node<T>> = Vec::new();
        let mut head = Node::head();
        head.next = if d == 0 { 0 } else { 1 };
        head.prev = d;
        nodes.push(head);
        let mut i: usize = 0;
        while i < d
            invariant
                i <= d,
                d == vals.len(),
                items.len() == d - i,
                nodes.len() == i + 1,
                forall|k: int| 0 <= k < items.len() ==> items[k] == vals[d - 1 - k],
                forall|k: int| 0 <= k <= i ==> nodes[k] == Chain::fresh(vals).nodes[k],
            decreases d - i,
        {
            let v = items.pop().unwrap();
            let mut node = Node::item(v);
            node.prev = i;
            node.next = if i + 1 == d { 0 } else { i + 2 };
            nodes.push(node);
            i = i + 1;
        }
        let r = List { nodes, size: d, order: Ghost(Seq::new(d as nat, |k: int| (k + 1) as usize)) };
        proof {
            Chain::lemma_fresh(vals);
            assert(r@.nodes =~= Chain::fresh(vals).nodes);
            assert(r@.order =~= Chain::fresh(vals).order);
        }
        r
    }

    /// The list that holds one value.
    pub fn singleton(value: T) -> (r: List<T>)
        ensures
            r.wf(),
            r@ == Chain::fresh(seq![value]),
    {
        let mut values = Vec::new();
        values.push(value);
        assert(values@ =~= seq![value]);
        List::from_iter(values)
    }

    /// The number of slots, the head included.
    pub fn len(&self) -> (r: usize)
        ensures
            r == self@.nodes.len(),
    {
        self.nodes.len()
    }

    /// The number of linked slots.
    pub fn size(&self) -> (r: usize)
        requires
            self.wf(),
        ensures
            r == self@.order.len(),
    {
        self.size
    }

    /// Whether no slot is linked.
    pub fn is_empty(&self) -> (r: bool)
        requires
            self.wf(),
        ensures
            r == (self@.order.len() == 0),
    {
        self.size() == 0
    }

    /// The slot at `index`.
    pub fn node(&self, index: usize) -> (r: &Node<T>)
        requires
            index < self@.nodes.len(),
        ensures
            *r == self@.nodes[index as int],
    {
        &self.nodes[index]
    }

    /// The head's slot.
    pub fn head(&self) -> (r: usize)
        ensures
            r == 0,
    {
        0
    }

    /// The value in slot `index`.
    pub fn get(&self, index: usize) -> (r: &T)
        requires
            self.wf(),
            1 <= index < self@.nodes.len(),
        ensures
            *r == self@.item(index as int),
    {
        match &self.nodes[index].value {
            Store::Item(x) => x,
            Store::Head => {
                proof {
                    assert(self@.nodes[index as int].value is Item);
                }
                unreached()
            },
        }
    }

    /// Takes slot `index` out of the list. Its two neighbours are linked to
    /// each other; the slot keeps its own links, so that it can be linked
    /// again.
    pub fn unlink(&mut self, index: usize)
        requires
            old(self).wf(),
            old(self)@.order.contains(index),
        ensures
            final(self).wf(),
            final(self)@ == old(self)@.unlink(index),
    {
        proof {
            self@.lemma_unlink_relink(index);
            let k = self@.order.index_of(index);
            assert(self@.order[k] == index);
        }
        let xn = self.nodes[index].next;
        let xp = self.nodes[index].prev;
        proof {
            let k = self@.order.index_of(index);
            assert(xp == self@.at(k - 1));
            assert(xn == self@.at(k + 1));
        }
        self.nodes[xp].next = xn;
        self.nodes[xn].prev = xp;
        self.size = self.size - 1;
        self.order = Ghost(old(self).order@.remove(old(self).order@.index_of(index)));
        proof {
            assert(self@.nodes =~= old(self)@.unlink(index).nodes);
        }
    }

    /// Puts slot `index` back between the two slots that its own links name.
    /// This undoes the last `unlink` that touched those links.
    pub fn relink(&mut self, index: usize)
        requires
            old(self).wf(),
            old(self)@.can_relink(index),
        ensures
            final(self).wf(),
            final(self)@ == old(self)@.relink(index),
    {
        proof {
            self@.lemma_relink(index);
            self@.lemma_order_bound();
            self@.relink(index).lemma_order_bound();
            assert(self.size + 1 < self.nodes.len());
        }
        let xn = self.nodes[index].next;
        let xp = self.nodes[index].prev;
        proof {
            let pos = if xp == 0 { 0 } else { self@.order.index_of(xp) + 1 };
            assert(xp == self@.at(pos - 1));
            if xp != 0 {
                assert(self@.nodes[self@.order[pos - 1] as int].next == self@.at(pos));
            }
            assert(xn == self@.at(pos));
        }
        self.nodes[xp].next = index;
        self.nodes[xn].prev = index;
        assert(self.size == old(self).size);
        self.size = self.size + 1;
        self.order = Ghost(
            old(self).order@.insert(
                if xp == 0 { 0 } else { old(self).order@.index_of(xp) + 1 },
                index,
            ),
        );
        proof {
            assert(self@.nodes =~= old(self)@.relink(index).nodes);
        }
    }

    /// The linked slots, in link order.
    pub fn indices(&self) -> (r: Vec<usize>)
        requires
            self.wf(),
        ensures
            r@ == self@.order,
    {
        let mut r: Vec<usize> = Vec::new();
        let mut cur = self.nodes[0].next;
        while cur != 0
            invariant
                self.wf(),
                r.len() <= self@.order.len(),
                cur == self@.at(r.len() as int),
                r@ == self@.order.take(r.len() as int),
            decreases self@.order.len() - r.len(),
        {
            let ghost k = r.len() as int;
            r.push(cur);
            proof {
                assert(self@.nodes[self@.order[k] as int].next == self@.at(k + 1));
                assert(r@ =~= self@.order.take(k + 1));
            }
            cur = self.nodes[cur].next;
        }
        proof {
            if r.len() < self@.order.len() {
                assert(self@.order[r.len() as int] >= 1);
            }
            assert(r@ =~= self@.order);
        }
        r
    }
}

impl<T: Copy> Clone for List<T> {
    /// A copy of the list, slot by slot.
    fn clone(&self) -> (r: List<T>)
        ensures
            r@ == self@,
            r.count() == self.count(),
    {
        let mut nodes: Vec<Node<T>> = Vec::new();
        let mut i: usize = 0;
        while i < self.nodes.len()
            invariant
                i <= self.nodes.len(),
                nodes.len() == i,
                forall|k: int| 0 <= k < i ==> nodes[k] == self.nodes[k],
            decreases self.nodes.len() - i,
        {
            let n: Node<T> = self.nodes[i];
            nodes.push(n);
            i = i + 1;
        }
        assert(nodes@ =~= self.nodes@);
        List { nodes, size: self.size, order: self.order }
    }
}

impl<T> List<T> {
    /// A cursor over the linked slots, in link order.
    pub fn iter<'a>(&'a self) -> (r: Iter<'a, T>)
        requires
            self.wf(),
        ensures
            r.wf(),
            r.list() == self,
            r.remaining() == self@.order,
    {
        let r = Iter { list: self, index: 0, pos: Ghost(0) };
        assert(r.remaining() =~= self@.order);
        r
    }

    /// A cursor over the linked slots, in link order, that owns the list.
    pub fn into_iter(self) -> (r: IntoIter<T>)
        requires
            self.wf(),
        ensures
            r.wf(),
            r.list() == self,
            r.remaining() == self@.order,
    {
        let r = IntoIter { list: self, index: 0, pos: Ghost(0) };
        assert(r.remaining() =~= r.list()@.order);
        r
    }
}

/// A cursor over the linked slots of a list.
pub struct Iter<'a, T> {
    list: &'a List<T>,
    index: usize,
    pos: Ghost<int>,
}

impl<'a, T> Iter<'a, T> {
    /// The list that the cursor walks.
    pub closed spec fn list(&self) -> &List<T> {
        self.list
    }

    /// The linked slots that the cursor has not handed out yet.
    pub closed spec fn remaining(&self) -> Seq<usize> {
        self.list@.order.skip(self.pos@)
    }

    /// The cursor stands on the head or on a linked slot of a well-formed
    /// list.
    pub closed spec fn wf(&self) -> bool {
        &&& self.list.wf()
        &&& 0 <= self.pos@ <= self.list@.order.len()
        &&& self.index == self.list@.at(self.pos@ - 1)
    }

    /// The next linked slot, or `None` behind the last one; after `None` the
    /// cursor starts again at the first.
    pub fn next(&mut self) -> (r: Option<usize>)
        requires
            old(self).wf(),
        ensures
            final(self).wf(),
            final(self).list() == old(self).list(),
            old(self).remaining().len() > 0 ==> r == Some(old(self).remaining()[0])
                && final(self).remaining() == old(self).remaining().drop_first(),
            old(self).remaining().len() == 0 ==> r.is_none() && final(self).remaining()
                == old(self).list()@.order,
    {
        let ghost k = self.pos@;
        proof {
            if k > 0 {
                assert(self.list@.nodes[self.list@.order[k - 1] as int].next == self.list@.at(k));
            }
            if k < self.list@.order.len() {
                assert(self.list@.order[k] >= 1);
            }
        }
        let right = self.list.node(self.index).next;
        self.index = right;
        if right == 0 {
            self.pos = Ghost(0);
            assert(self.remaining() =~= self.list@.order);
            None
        } else {
            self.pos = Ghost(k + 1);
            assert(self.remaining() =~= old(self).remaining().drop_first());
            Some(right)
        }
    }
}

/// A cursor over the linked slots of a list that it owns.
pub struct IntoIter<T> {
    list: List<T>,
    index: usize,
    pos: Ghost<int>,
}

impl<T> IntoIter<T> {
    /// The list that the cursor walks.
    pub closed spec fn list(&self) -> List<T> {
        self.list
    }

    /// The linked slots that the cursor has not handed out yet.
    pub closed spec fn remaining(&self) -> Seq<usize> {
        self.list@.order.skip(self.pos@)
    }

    /// The cursor stands on the head or on a linked slot of a well-formed
    /// list.
    pub closed spec fn wf(&self) -> bool {
        &&& self.list.wf()
        &&& 0 <= self.pos@ <= self.list@.order.len()
        &&& self.index == self.list@.at(self.pos@ - 1)
    }

    /// The next linked slot, or `None` behind the last one; after `None` the
    /// cursor starts again at the first.
    pub fn next(&mut self) -> (r: Option<usize>)
        requires
            old(self).wf(),
        ensures
            final(self).wf(),
            final(self).list() == old(self).list(),
            old(self).remaining().len() > 0 ==> r == Some(old(self).remaining()[0])
                && final(self).remaining() == old(self).remaining().drop_first(),
            old(self).remaining().len() == 0 ==> r.is_none() && final(self).remaining()
                == old(self).list()@.order,
    {
        let ghost k = self.pos@;
        proof {
            if k > 0 {
                assert(self.list@.nodes[self.list@.order[k - 1] as int].next == self.list@.at(k));
            }
            if k < self.list@.order.len() {
                assert(self.list@.order[k] >= 1);
            }
        }
        let right = self.list.node(self.index).next;
        self.index = right;
        if right == 0 {
            self.pos = Ghost(0);
            assert(self.remaining() =~= self.list@.order);
            None
        } else {
            self.pos = Ghost(k + 1);
            assert(self.remaining() =~= old(self).remaining().drop_first());
            Some(right)
        }
    }
}

/// The domain of one variable.
pub type Dom = List<Value>;

/// The domains of a problem, one list for each variable.
pub struct DomMap {
    map: Vec<Dom>,
}

impl View for DomMap {
    type V = Seq<Chain<Value>>;

    closed spec fn view(&self) -> Seq<Chain<Value>> {
        Seq::new(self.map.len() as nat, |x: int| self.map[x]@)
    }
}

/// A cursor over the variables of a problem.
pub struct Vars {
    next: usize,
    end: usize,
}

impl Vars {
    /// The number of the variable that comes next.
    pub closed spec fn position(&self) -> nat {
        self.next as nat
    }

    /// The number of variables.
    pub closed spec fn bound(&self) -> nat {
        self.end as nat
    }

    /// The next variable, or `None` behind the last one.
    pub fn next(&mut self) -> (r: Option<Variable>)
        ensures
            final(self).bound() == old(self).bound(),
            old(self).position() < old(self).bound() ==> r == Some(
                Variable(old(self).position() as usize),
            ) && final(self).position() == old(self).position() + 1,
            old(self).position() >= old(self).bound() ==> r.is_none() && final(self).position()
                == old(self).position(),
    {
        if self.next < self.end {
            let x = self.next;
            self.next = self.next + 1;
            Some(Variable(x))
        } else {
            None
        }
    }
}

/// A cursor over the slots that were linked in a domain when the cursor was
/// made.
pub struct Indices {
    slots: Vec<usize>,
    pos: usize,
}

impl Indices {
    /// The slots that the cursor has not handed out yet.
    pub closed spec fn remaining(&self) -> Seq<usize> {
        self.slots@.skip(self.pos as int)
    }

    /// The cursor stands within its slots.
    pub closed spec fn wf(&self) -> bool {
        self.pos <= self.slots.len()
    }

    /// The next slot, or `None` behind the last one.
    pub fn next(&mut self) -> (r: Option<usize>)
        requires
            old(self).wf(),
        ensures
            final(self).wf(),
            old(self).remaining().len() > 0 ==> r == Some(old(self).remaining()[0])
                && final(self).remaining() == old(self).remaining().drop_first(),
            old(self).remaining().len() == 0 ==> r.is_none() && final(self).remaining().len() == 0,
    {
        if self.pos < self.slots.len() {
            let i = self.slots[self.pos];
            self.pos = self.pos + 1;
            assert(self.remaining() =~= old(self).remaining().drop_first());
            Some(i)
        } else {
            None
        }
    }
}

impl DomMap {
    /// Every list's count is the number of its linked slots.
    pub closed spec fn counted(&self) -> bool {
        forall|x: int| 0 <= x < self.map.len() ==> (#[trigger] self.map[x]).count() == self.map[x]@.order.len()
    }

    /// Every domain is a well-formed list.
    pub open spec fn wf(&self) -> bool {
        &&& self.counted()
        &&& forall|x: int| 0 <= x < self@.len() ==> (#[trigger] self@[x]).wf()
    }

    /// The domains of `problem`: for each variable the list of its values,
    /// all linked.
    pub fn new<P: Problem>(problem: &P) -> (r: DomMap)
        ensures
            r.wf(),
            r@.len() == problem.spec_size(),
            forall|x: usize|
                x < problem.spec_size() ==> #[trigger] r@[x as int] == Chain::fresh(
                    problem.spec_domain(Variable(x)),
                ),
    {
        let n = problem.size();
        let mut map: Vec<Dom> = Vec::new();
        let mut x: usize = 0;
        while x < n
            invariant
                x <= n,
                n == problem.spec_size(),
                map.len() == x,
                forall|y: int| 0 <= y < x ==> (#[trigger] map[y]).wf(),
                forall|y: usize|
                    y < x ==> (#[trigger] map[y as int])@ == Chain::fresh(
                        problem.spec_domain(Variable(y)),
                    ),
            decreases n - x,
        {
            map.push(List::from_iter(problem.domain(Variable(x))));
            x = x + 1;
        }
        DomMap { map }
    }

    /// The domains that hold the given values, all linked.
    pub fn from_iter(lists: Vec<Vec<usize>>) -> (r: DomMap)
        ensures
            r.wf(),
            r@.len() == lists.len(),
            forall|x: int|
                0 <= x < lists.len() ==> #[trigger] r@[x] == Chain::fresh(
                    lists[x]@.map_values(|v: usize| Value(v)),
                ),
    {
        let mut map: Vec<Dom> = Vec::new();
        let mut x: usize = 0;
        while x < lists.len()
            invariant
                x <= lists.len(),
                map.len() == x,
                forall|y: int| 0 <= y < x ==> (#[trigger] map[y]).wf(),
                forall|y: int|
                    0 <= y < x ==> (#[trigger] map[y])@ == Chain::fresh(
                        lists[y]@.map_values(|v: usize| Value(v)),
                    ),
            decreases lists.len() - x,
        {
            let mut values: Vec<Value> = Vec::new();
            let mut k: usize = 0;
            while k < lists[x].len()
                invariant
                    x < lists.len(),
                    k <= lists[x as int].len(),
                    values.len() == k,
                    forall|j: int| 0 <= j < k ==> values[j] == Value(lists[x as int][j]),
                decreases lists[x as int].len() - k,
            {
                values.push(Value(lists[x][k]));
                k = k + 1;
            }
            assert(values@ =~= lists[x as int]@.map_values(|v: usize| Value(v)));
            map.push(List::from_iter(values));
            x = x + 1;
        }
        DomMap { map }
    }

    /// The domain of variable `x`.
    pub fn get(&self, x: Variable) -> (r: &Dom)
        requires
            x.0 < self@.len(),
        ensures
            r@ == self@[x.0 as int],
            self.wf() ==> r.wf(),
    {
        &self.map[x.0]
    }

    /// The domain of variable `x`, to be changed in place.
    pub fn get_mut(&mut self, x: Variable) -> (r: &mut Dom)
        requires
            x.0 < old(self)@.len(),
        ensures
            r@ == old(self)@[x.0 as int],
            old(self).wf() ==> r.wf(),
            final(self)@ =~= old(self)@.update(x.0 as int, final(r)@),
            old(self).wf() && final(r).wf() ==> final(self).wf(),
    {
        &mut self.map[x.0]
    }

    /// Replaces the domain of variable `x` by `dom` and returns the domain
    /// that was there; `None`, and nothing changed, where there is no such
    /// variable.
    pub fn insert(&mut self, x: Variable, dom: Dom) -> (r: Option<Dom>)
        ensures
            x.0 < old(self)@.len() ==> r.is_some() && r.unwrap()@ == old(self)@[x.0 as int]
                && final(self)@ == old(self)@.update(x.0 as int, dom@),
            x.0 >= old(self)@.len() ==> r.is_none() && final(self)@ == old(self)@,
            old(self).wf() && x.0 < old(self)@.len() ==> r.unwrap().wf(),
            old(self).wf() && dom.wf() ==> final(self).wf(),
    {
        if x.0 < self.map.len() {
            let mut d = dom;
            std::mem::swap(&mut self.map[x.0], &mut d);
            assert(self@ =~= old(self)@.update(x.0 as int, dom@));
            Some(d)
        } else {
            assert(self@ =~= old(self)@);
            None
        }
    }

    /// Replaces the domain of variable `x` by the list that holds only the
    /// value of slot `index`, and returns the domain that was there.
    pub fn set(&mut self, x: Variable, index: usize) -> (r: Option<Dom>)
        requires
            old(self).wf(),
            x.0 < old(self)@.len(),
            1 <= index < old(self)@[x.0 as int].nodes.len(),
        ensures
            final(self).wf(),
            r.is_some(),
            r.unwrap().wf(),
            r.unwrap()@ == old(self)@[x.0 as int],
            final(self)@ == old(self)@.update(
                x.0 as int,
                Chain::fresh(seq![old(self)@[x.0 as int].item(index as int)]),
            ),
    {
        let v = self.value(x, index);
        self.insert(x, Dom::singleton(v))
    }

    /// Takes slot `index` out of the domain of variable `x`.
    pub fn remove(&mut self, x: Variable, index: usize)
        requires
            old(self).wf(),
            x.0 < old(self)@.len(),
            old(self)@[x.0 as int].order.contains(index),
        ensures
            final(self).wf(),
            final(self)@ == old(self)@.update(x.0 as int, old(self)@[x.0 as int].unlink(index)),
    {
        self.map[x.0].unlink(index);
        assert(self@ =~= old(self)@.update(x.0 as int, old(self)@[x.0 as int].unlink(index)));
    }

    /// Puts slot `index` back into the domain of variable `x`.
    pub fn restore(&mut self, x: Variable, index: usize)
        requires
            old(self).wf(),
            x.0 < old(self)@.len(),
            old(self)@[x.0 as int].can_relink(index),
        ensures
            final(self).wf(),
            final(self)@ == old(self)@.update(x.0 as int, old(self)@[x.0 as int].relink(index)),
    {
        self.map[x.0].relink(index);
        assert(self@ =~= old(self)@.update(x.0 as int, old(self)@[x.0 as int].relink(index)));
    }

    /// The value in slot `index` of variable `x`, linked or not.
    pub fn value(&self, x: Variable, index: usize) -> (r: Value)
        requires
            self.wf(),
            x.0 < self@.len(),
            1 <= index < self@[x.0 as int].nodes.len(),
        ensures
            r == self@[x.0 as int].item(index as int),
    {
        assert(self@[x.0 as int].wf());
        *self.map[x.0].get(index)
    }

    /// The number of variables.
    pub fn vars_count(&self) -> (r: usize)
        ensures
            r == self@.len(),
    {
        self.map.len()
    }

    /// A cursor over all variables, in order.
    pub fn vars(&self) -> (r: Vars)
        ensures
            r.position() == 0,
            r.bound() == self@.len(),
    {
        Vars { next: 0, end: self.map.len() }
    }

    /// A cursor over the slots that are linked in the domain of `x` now, in
    /// link order. Later changes of the domain do not reach the cursor.
    pub fn indices(&self, x: Variable) -> (r: Indices)
        requires
            self.wf(),
            x.0 < self@.len(),
        ensures
            r.wf(),
            r.remaining() == self@[x.0 as int].order,
    {
        assert(self@[x.0 as int].wf());
        let slots = self.map[x.0].indices();
        let r = Indices { slots, pos: 0 };
        assert(r.remaining() =~= self@[x.0 as int].order);
        r
    }

    /// The slots that are linked in the domain of `x`, in link order.
    pub fn slots(&self, x: Variable) -> (r: Vec<usize>)
        requires
            self.wf(),
            x.0 < self@.len(),
        ensures
            r@ == self@[x.0 as int].order,
    {
        assert(self@[x.0 as int].wf());
        self.map[x.0].indices()
    }

    /// The number of slots that are linked in the domain of `x`.
    pub fn live(&self, x: Variable) -> (r: usize)
        requires
            self.wf(),
            x.0 < self@.len(),
        ensures
            r == self@[x.0 as int].order.len(),
    {
        assert(self@[x.0 as int].wf());
        self.map[x.0].size()
    }

    /// The first linked slot of the domain of `x`, if there is one.
    pub fn first(&self, x: Variable) -> (r: Option<usize>)
        requires
            self.wf(),
            x.0 < self@.len(),
        ensures
            self@[x.0 as int].order.len() == 0 ==> r.is_none(),
            self@[x.0 as int].order.len() > 0 ==> r == Some(self@[x.0 as int].order[0]),
    {
        assert(self@[x.0 as int].wf());
        let i = self.map[x.0].node(0).next;
        if i == 0 {
            proof {
                if self@[x.0 as int].order.len() > 0 {
                    assert(self@[x.0 as int].order[0] >= 1);
                }
            }
            None
        } else {
            Some(i)
        }
    }

    /// The value of each variable, where every domain has exactly one linked
    /// slot; `None` where some domain has none or several.
    pub fn assignment(&self) -> (r: Option<Vec<Value>>)
        requires
            self.wf(),
        ensures
            r.is_some() <==> (forall|x: int| 0 <= x < self@.len() ==> (#[trigger] self@[x]).order.len() == 1),
            r.is_some() ==> r.unwrap()@.len() == self@.len() && forall|x: int|
                0 <= x < self@.len() ==> #[trigger] r.unwrap()@[x] == self@[x].item(
                    self@[x].order[0] as int,
                ),
    {
        let mut assignment: Vec<Value> = Vec::new();
        let mut x: usize = 0;
        while x < self.map.len()
            invariant
                self.wf(),
                x <= self.map.len(),
                self.map.len() == self@.len(),
                assignment.len() == x,
                forall|y: int| 0 <= y < x ==> (#[trigger] self@[y]).order.len() == 1,
                forall|y: int|
                    0 <= y < x ==> #[trigger] assignment@[y] == self@[y].item(
                        self@[y].order[0] as int,
                    ),
            decreases self.map.len() - x,
        {
            assert(self@[x as int].wf());
            if self.map[x].size() == 1 {
                let i = self.first(Variable(x)).unwrap();
                assert(self@[x as int].order[0] == i);
                assignment.push(self.value(Variable(x), i));
            } else {
                return None;
            }
            x = x + 1;
        }
        Some(assignment)
    }
}

impl Clone for DomMap {
    /// A copy of the domains, list by list.
    fn clone(&self) -> (r: DomMap)
        ensures
            r@ == self@,
            self.wf() ==> r.wf(),
    {
        let mut map: Vec<Dom> = Vec::new();
        let mut x: usize = 0;
        while x < self.map.len()
            invariant
                x <= self.map.len(),
                map.len() == x,
                forall|y: int| 0 <= y < x ==> (#[trigger] map[y])@ == self.map[y]@,
                forall|y: int| 0 <= y < x ==> (#[trigger] map[y]).count() == self.map[y].count(),
            decreases self.map.len() - x,
        {
            map.push(self.map[x].clone());
            x = x + 1;
        }
        let r = DomMap { map };
        assert(r@ =~= self@);
        r
    }
}

} // verus!
