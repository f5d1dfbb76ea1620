//! The trees with a given number of vertices, none of them twice.

use std::sync::Arc;
use itertools::Itertools;
use vstd::prelude::*;
use crate::digraph::traits::{Edges, Vertices};
use crate::digraph::AdjMatrix;
use crate::digraph::traits::{numbered, Digraph, GraphType};
use crate::tree::node::{
    centered, compare, height, leaf_shape, lemma_size_bounds, share, size, sizes, tree_edges, triad, widest,
    Node, Shape, Sign,
};
use crate::tree::Rooted;
use crate::tree::{core_found, is_core_tree, is_rooted_core_tree, rooted_core_found};

verus! {

/// The rows of a list of lists.
pub open spec fn rows<T>(v: Seq<Vec<T>>) -> Seq<Seq<T>> {
    Seq::new(v.len(), |i: int| v[i]@)
}

/// Each tuple of `acc`, lengthened by each element of `last` in turn.
pub open spec fn widened<T>(acc: Seq<Seq<T>>, last: Seq<T>) -> Seq<Seq<T>> {
    Seq::new(
        acc.len() * last.len(),
        |k: int| acc[k / (last.len() as int)].push(last[k % (last.len() as int)]),
    )
}

/// The tuples that take one element from each of the first `upto` lists;
/// the element from the last list changes fastest.
pub open spec fn products<T>(lists: Seq<Seq<T>>, upto: int) -> Seq<Seq<T>>
    decreases upto,
{
    if upto <= 0 {
        seq![Seq::empty()]
    } else {
        widened(products(lists, upto - 1), lists[upto - 1])
    }
}

/// The tuples that take one element from each list, in the order in which
/// the element from the last list changes fastest. No tuple where there is
/// no list.
pub open spec fn product<T>(lists: Seq<Seq<T>>) -> Seq<Seq<T>> {
    if lists.len() == 0 {
        Seq::empty()
    } else {
        products(lists, lists.len() as int)
    }
}

/// Every tuple of a product has one element of each list.
pub proof fn lemma_products<T>(lists: Seq<Seq<T>>, upto: int, i: int)
    requires
        0 <= upto <= lists.len(),
        0 <= i < products(lists, upto).len(),
    ensures
        products(lists, upto)[i].len() == upto,
        forall|j: int| 0 <= j < upto ==> lists[j].contains(#[trigger] products(lists, upto)[i][j]),
    decreases upto,
{
    if upto > 0 {
        let acc = products(lists, upto - 1);
        let last = lists[upto - 1];
        let m = last.len() as int;
        assert(m > 0) by (nonlinear_arith)
            requires
                0 <= i < acc.len() * m,
                m >= 0,
        ;
        let a = i / m;
        let b = i % m;
        vstd::arithmetic::div_mod::lemma_fundamental_div_mod(i, m);
        vstd::arithmetic::div_mod::lemma_mod_bound(i, m);
        vstd::arithmetic::div_mod::lemma_div_pos_is_pos(i, m);
        assert(a < acc.len()) by (nonlinear_arith)
            requires
                i == m * a + b,
                0 <= b,
                i < acc.len() * m,
                m > 0,
        ;
        lemma_products(lists, upto - 1, a);
        let t = products(lists, upto)[i];
        assert(t == acc[a].push(last[b]));
        assert forall|j: int| 0 <= j < upto implies lists[j].contains(#[trigger] t[j]) by {
            if j < upto - 1 {
                assert(t[j] == acc[a][j]);
            } else {
                assert(t[j] == last[b]);
            }
        }
    }
}

/// The tuples of trees that take one tree from each list, by
/// `Itertools::multi_cartesian_product`, which iterates the last list
/// fastest and yields nothing for no lists.
#[verifier::external_body]
fn cartesian_trees(lists: Vec<Vec<Arc<Node>>>) -> (r: Vec<Vec<Arc<Node>>>)
    ensures
        rows(r@) == product(rows(lists@)),
{
    lists.into_iter().map(|list| list.into_iter()).multi_cartesian_product().collect()
}

/// The tuples of flags that take one flag from each list, by
/// `Itertools::multi_cartesian_product`, which iterates the last list
/// fastest and yields nothing for no lists.
#[verifier::external_body]
fn cartesian_flags(lists: Vec<Vec<bool>>) -> (r: Vec<Vec<bool>>)
    ensures
        rows(r@) == product(rows(lists@)),
{
    lists.into_iter().map(|list| list.into_iter()).multi_cartesian_product().collect()
}

/// The sum of the numbers.
pub open spec fn total(v: Seq<usize>) -> nat
    decreases v.len(),
{
    if v.len() == 0 {
        0
    } else {
        total(v.drop_last()) + v.last() as nat
    }
}

/// `a`, or `b` where that is less.
pub open spec fn least(a: nat, b: nat) -> nat {
    if a < b {
        a
    } else {
        b
    }
}

/// The ways to fill the places from `pos` to `k` with numbers that sum up
/// to `left` and are at most `last`, each number at most the one behind
/// it; each way lists the numbers from the last place to the place `pos`.
pub open spec fn fillings(pos: nat, left: nat, k: nat, last: nat) -> Seq<Seq<usize>>
    decreases k - pos, 1nat, 0nat,
{
    if pos >= k {
        if left == 0 {
            seq![Seq::empty()]
        } else {
            Seq::empty()
        }
    } else if left == 0 {
        Seq::empty()
    } else {
        fillings_upto(pos, left, k, least(left, last))
    }
}

/// The fillings whose number at place `pos` is at most `upto`, by that
/// number.
pub open spec fn fillings_upto(pos: nat, left: nat, k: nat, upto: nat) -> Seq<Seq<usize>>
    decreases k - pos, 0nat, upto,
{
    if pos >= k || upto == 0 || upto > left {
        Seq::empty()
    } else {
        fillings_upto(pos, left, k, (upto - 1) as nat) + with_last(
            fillings((pos + 1) as nat, (left - upto) as nat, k, upto),
            upto as usize,
        )
    }
}

/// Each list with `x` behind it.
pub open spec fn with_last(lists: Seq<Seq<usize>>, x: usize) -> Seq<Seq<usize>> {
    Seq::new(lists.len(), |i: int| lists[i].push(x))
}

/// The ways to write `n` as a sum of `k` numbers, none of them 0, each
/// listed from its least number to its greatest.
pub open spec fn addends_of(n: nat, k: nat) -> Seq<Seq<usize>> {
    fillings(0, n, k, n)
}

/// Every filling has a number for each place; the numbers are at least 1
/// and sum up to what was left.
pub proof fn lemma_fillings(pos: nat, left: nat, k: nat, last: nat, i: int)
    requires
        pos <= k,
        0 <= i < fillings(pos, left, k, last).len(),
        left <= usize::MAX,
    ensures
        fillings(pos, left, k, last)[i].len() == k - pos,
        total(fillings(pos, left, k, last)[i]) == left,
        forall|j: int|
            0 <= j < k - pos ==> 1 <= #[trigger] fillings(pos, left, k, last)[i][j] <= left,
    decreases k - pos, 1nat, 0nat,
{
    if pos >= k {
        assert(total(Seq::<usize>::empty()) == 0);
    } else if left > 0 {
        lemma_fillings_upto(pos, left, k, least(left, last), i);
    }
}

/// Every filling has a number for each place; the numbers are at least 1
/// and sum up to what was left.
pub proof fn lemma_fillings_upto(pos: nat, left: nat, k: nat, upto: nat, i: int)
    requires
        pos < k,
        upto <= left,
        0 <= i < fillings_upto(pos, left, k, upto).len(),
        left <= usize::MAX,
    ensures
        fillings_upto(pos, left, k, upto)[i].len() == k - pos,
        total(fillings_upto(pos, left, k, upto)[i]) == left,
        forall|j: int|
            0 <= j < k - pos ==> 1 <= #[trigger] fillings_upto(pos, left, k, upto)[i][j] <= left,
    decreases k - pos, 0nat, upto,
{
    if upto > 0 {
        let first = fillings_upto(pos, left, k, (upto - 1) as nat);
        let inner = fillings((pos + 1) as nat, (left - upto) as nat, k, upto);
        let rest = with_last(inner, upto as usize);
        assert(fillings_upto(pos, left, k, upto) == first + rest);
        if i < first.len() {
            lemma_fillings_upto(pos, left, k, (upto - 1) as nat, i);
        } else {
            let a = i - first.len();
            lemma_fillings((pos + 1) as nat, (left - upto) as nat, k, upto, a);
            let t = rest[a];
            assert(t == inner[a].push(upto as usize));
            assert(t.drop_last() =~= inner[a]);
            assert(total(t) == total(inner[a]) + upto);
            assert forall|j: int| 0 <= j < k - pos implies 1 <= #[trigger] t[j] <= left by {
                if j < k - pos - 1 {
                    assert(t[j] == inner[a][j]);
                }
            }
        }
    }
}

/// The ways to fill the places from `pos` to `k`.
fn fill(pos: usize, left: usize, k: usize, last: usize) -> (r: Vec<Vec<usize>>)
    requires
        pos <= k,
    ensures
        rows(r@) == fillings(pos as nat, left as nat, k as nat, last as nat),
    decreases k - pos,
{
    let mut found: Vec<Vec<usize>> = Vec::new();
    if pos == k {
        if left == 0 {
            found.push(Vec::new());
            assert(rows(found@) =~= seq![Seq::<usize>::empty()]);
        } else {
            assert(rows(found@) =~= Seq::<Seq<usize>>::empty());
        }
        return found;
    }
    if left == 0 {
        assert(rows(found@) =~= Seq::<Seq<usize>>::empty());
        return found;
    }
    let top = if left < last { left } else { last };
    let mut i: usize = 1;
    assert(rows(found@) =~= fillings_upto(pos as nat, left as nat, k as nat, 0));
    while i <= top
        invariant
            1 <= i <= top + 1,
            top <= left,
            top == least(left as nat, last as nat),
            left > 0,
            pos < k,
            rows(found@) == fillings_upto(pos as nat, left as nat, k as nat, (i - 1) as nat),
        decreases top + 1 - i,
    {
        let mut subs = fill(pos + 1, left - i, k, i);
        let ghost inner = rows(subs@);
        let ghost before = rows(found@);
        let mut s: usize = 0;
        let count = subs.len();
        let mut moved: Vec<Vec<usize>> = Vec::new();
        // Each filling of the places behind gets `i` behind it.
        while s < count
            invariant
                s <= count,
                count == subs.len(),
                inner == rows(subs@),
                moved.len() == s,
                forall|j: int| 0 <= j < s ==> (#[trigger] moved@[j])@ == inner[j].push(i),
            decreases count - s,
        {
            let mut sub = copy_numbers(&subs[s]);
            sub.push(i);
            moved.push(sub);
            s = s + 1;
        }
        proof {
            assert(rows(moved@) =~= with_last(inner, i));
        }
        found.append(&mut moved);
        proof {
            assert(rows(found@) =~= before + with_last(inner, i));
            assert(fillings_upto(pos as nat, left as nat, k as nat, i as nat) == fillings_upto(
                pos as nat,
                left as nat,
                k as nat,
                (i - 1) as nat,
            ) + with_last(fillings((pos + 1) as nat, (left - i) as nat, k as nat, i as nat), i));
        }
        if i == top {
            return found;
        }
        i = i + 1;
    }
    found
}

/// A copy of a list of numbers.
fn copy_numbers(v: &Vec<usize>) -> (r: Vec<usize>)
    ensures
        r@ == v@,
{
    let mut r: Vec<usize> = Vec::new();
    let mut k: usize = 0;
    while k < v.len()
        invariant
            k <= v.len(),
            r@ == v@.take(k as int),
        decreases v.len() - k,
    {
        r.push(v[k]);
        proof {
            assert(r@ =~= v@.take(k as int + 1));
        }
        k = k + 1;
    }
    proof {
        assert(v@.take(v@.len() as int) =~= v@);
    }
    r
}

/// The ways to write `n` as a sum of `k` numbers, none of them 0, each
/// listed from its least number to its greatest.
pub fn addends(n: usize, k: usize) -> (r: Vec<Vec<usize>>)
    ensures
        rows(r@) == addends_of(n as nat, k as nat),
{
    fill(0, n, k, n)
}

/// The shapes of a list of trees.
pub open spec fn shapes_of(v: Seq<Arc<Node>>) -> Seq<Shape> {
    Seq::new(v.len(), |i: int| v[i].shape())
}

/// The shapes of lists of trees.
pub open spec fn shape_rows(v: Seq<Seq<Arc<Node>>>) -> Seq<Seq<Shape>> {
    Seq::new(v.len(), |i: int| shapes_of(v[i]))
}

/// The shapes of the tuples of a product are the tuples of the product of
/// the shapes.
pub proof fn lemma_product_shapes(lists: Seq<Seq<Arc<Node>>>, upto: int)
    requires
        0 <= upto <= lists.len(),
    ensures
        shape_rows(products(lists, upto)) == products(shape_rows(lists), upto),
    decreases upto,
{
    if upto <= 0 {
        assert(shapes_of(Seq::<Arc<Node>>::empty()) =~= Seq::<Shape>::empty());
        assert(shape_rows(products(lists, upto)) =~= products(shape_rows(lists), upto));
    } else {
        lemma_product_shapes(lists, upto - 1);
        let acc = products(lists, upto - 1);
        let last = lists[upto - 1];
        let m = last.len() as int;
        let a = shape_rows(products(lists, upto));
        let b = products(shape_rows(lists), upto);
        assert(shape_rows(lists)[upto - 1].len() == m);
        assert(a.len() == b.len());
        assert forall|i: int| 0 <= i < a.len() implies a[i] == b[i] by {
            assert(m > 0) by (nonlinear_arith)
                requires
                    0 <= i < acc.len() * m,
                    m >= 0,
            ;
            let x = i / m;
            let y = i % m;
            vstd::arithmetic::div_mod::lemma_fundamental_div_mod(i, m);
            vstd::arithmetic::div_mod::lemma_mod_bound(i, m);
            vstd::arithmetic::div_mod::lemma_div_pos_is_pos(i, m);
            assert(x < acc.len()) by (nonlinear_arith)
                requires
                    i == m * x + y,
                    0 <= y,
                    i < acc.len() * m,
                    m > 0,
            ;
            assert(shape_rows(acc)[x] == shapes_of(acc[x]));
            assert(shapes_of(acc[x].push(last[y])) =~= shapes_of(acc[x]).push(last[y].shape()));
        }
        assert(a =~= b);
    }
}

/// The tree at place `w` of the tuple does not come behind the next.
pub open spec fn steps_up(c: Seq<Shape>, w: int) -> bool {
    compare(c[w], c[w + 1]) != Sign::Greater
}

/// No tree of the tuple comes before the one before it.
pub open spec fn rising(c: Seq<Shape>) -> bool {
    forall|w: int| 0 <= w < c.len() - 1 ==> #[trigger] steps_up(c, w)
}

/// Those of the first `upto` tuples that rise.
pub open spec fn rising_only(s: Seq<Seq<Shape>>, upto: int) -> Seq<Seq<Shape>>
    decreases upto,
{
    if upto <= 0 || upto > s.len() {
        Seq::empty()
    } else if rising(s[upto - 1]) {
        rising_only(s, upto - 1).push(s[upto - 1])
    } else {
        rising_only(s, upto - 1)
    }
}

/// For each number of the set the rooted trees with that many vertices.
pub open spec fn pool(store: Seq<Seq<Shape>>, set: Seq<usize>) -> Seq<Seq<Shape>> {
    Seq::new(set.len(), |j: int| store[set[j] - 1])
}

/// The rising tuples of rooted trees whose numbers of vertices are those of
/// one of the first `upto` sets.
pub open spec fn gathered(store: Seq<Seq<Shape>>, sets: Seq<Seq<usize>>, upto: int) -> Seq<Seq<Shape>>
    decreases upto,
{
    if upto <= 0 || upto > sets.len() {
        Seq::empty()
    } else {
        let all = product(pool(store, sets[upto - 1]));
        gathered(store, sets, upto - 1) + rising_only(all, all.len() as int)
    }
}

/// The rising tuples of `k` rooted trees with `n` vertices in all.
pub open spec fn rooted(store: Seq<Seq<Shape>>, n: nat, k: nat) -> Seq<Seq<Shape>> {
    gathered(store, addends_of(n, k), addends_of(n, k).len() as int)
}

/// The number of vertices of the trees of a tuple.
pub open spec fn weight(c: Seq<Shape>) -> nat
    decreases c.len(),
{
    if c.len() == 0 {
        0
    } else {
        weight(c.drop_last()) + size(c.last())
    }
}

/// The store holds, at place `m`, trees with `m + 1` vertices.
pub open spec fn sized(store: Seq<Seq<Shape>>) -> bool {
    forall|m: int, i: int|
        0 <= m < store.len() && 0 <= i < store[m].len() ==> size(#[trigger] store[m][i]) == m + 1
}

/// Every tree of the store is well formed.
pub open spec fn sound(store: Seq<Vec<Arc<Node>>>) -> bool {
    forall|m: int, i: int| 0 <= m < store.len() && 0 <= i < store[m]@.len() ==> (#[trigger] store[m]@[i]).wf()
}

/// The shapes of the trees of the store.
pub open spec fn store_shapes(store: Seq<Vec<Arc<Node>>>) -> Seq<Seq<Shape>> {
    Seq::new(store.len(), |m: int| shapes_of(store[m]@))
}

/// A number of a sum of numbers that are at least 1 is at most the sum less
/// the number of the others.
pub proof fn lemma_total_bound(v: Seq<usize>, j: int)
    requires
        0 <= j < v.len(),
        forall|i: int| 0 <= i < v.len() ==> 1 <= #[trigger] v[i],
    ensures
        v[j] + v.len() - 1 <= total(v),
    decreases v.len(),
{
    if j < v.len() - 1 {
        lemma_total_bound(v.drop_last(), j);
    } else {
        lemma_total_least(v.drop_last());
    }
}

/// A sum of numbers that are at least 1 is at least their number.
pub proof fn lemma_total_least(v: Seq<usize>)
    requires
        forall|i: int| 0 <= i < v.len() ==> 1 <= #[trigger] v[i],
    ensures
        v.len() <= total(v),
    decreases v.len(),
{
    if v.len() > 0 {
        lemma_total_least(v.drop_last());
    }
}

/// The tuples of a product of a pool have as many vertices as the numbers
/// of the set sum up to.
pub proof fn lemma_pool_weight(store: Seq<Seq<Shape>>, set: Seq<usize>, upto: int, i: int)
    requires
        sized(store),
        0 <= upto <= set.len(),
        forall|j: int| 0 <= j < set.len() ==> 1 <= #[trigger] set[j] <= store.len(),
        0 <= i < products(pool(store, set), upto).len(),
    ensures
        weight(products(pool(store, set), upto)[i]) == total(set.take(upto)),
        products(pool(store, set), upto)[i].len() == upto,
    decreases upto,
{
    let lists = pool(store, set);
    if upto <= 0 {
        assert(set.take(0) =~= Seq::<usize>::empty());
    } else {
        let acc = products(lists, upto - 1);
        let last = lists[upto - 1];
        let m = last.len() as int;
        assert(m > 0) by (nonlinear_arith)
            requires
                0 <= i < acc.len() * m,
                m >= 0,
        ;
        let x = i / m;
        let y = i % m;
        vstd::arithmetic::div_mod::lemma_fundamental_div_mod(i, m);
        vstd::arithmetic::div_mod::lemma_mod_bound(i, m);
        vstd::arithmetic::div_mod::lemma_div_pos_is_pos(i, m);
        assert(x < acc.len()) by (nonlinear_arith)
            requires
                i == m * x + y,
                0 <= y,
                i < acc.len() * m,
                m > 0,
        ;
        lemma_pool_weight(store, set, upto - 1, x);
        let t = products(lists, upto)[i];
        assert(t == acc[x].push(last[y]));
        assert(t.drop_last() =~= acc[x]);
        assert(last == store[set[upto - 1] - 1]);
        assert(size(store[set[upto - 1] - 1][y]) == set[upto - 1]);
        assert(set.take(upto).drop_last() =~= set.take(upto - 1));
    }
}

/// Whether the trees of the tuple rise.
fn is_rising(c: &Vec<Arc<Node>>) -> (r: bool)
    requires
        forall|i: int| 0 <= i < c@.len() ==> (#[trigger] c@[i]).wf(),
    ensures
        r == rising(shapes_of(c@)),
{
    if c.len() < 2 {
        return true;
    }
    let last = c.len() - 1;
    let mut w: usize = 0;
    while w < last
        invariant
            w <= last,
            last == c.len() - 1,
            forall|i: int| 0 <= i < c@.len() ==> (#[trigger] c@[i]).wf(),
            forall|v: int| 0 <= v < w ==> #[trigger] steps_up(shapes_of(c@), v),
        decreases last - w,
    {
        if !c[w].le(&c[w + 1]) {
            proof {
                assert(!steps_up(shapes_of(c@), w as int));
            }
            return false;
        }
        w = w + 1;
    }
    true
}

/// Shared handles on the trees of a list.
fn share_all(list: &Vec<Arc<Node>>) -> (r: Vec<Arc<Node>>)
    ensures
        r@ == list@,
{
    let mut r: Vec<Arc<Node>> = Vec::new();
    let mut k: usize = 0;
    while k < list.len()
        invariant
            k <= list.len(),
            r@ == list@.take(k as int),
        decreases list.len() - k,
    {
        r.push(share(&list[k]));
        proof {
            assert(r@ =~= list@.take(k as int + 1));
        }
        k = k + 1;
    }
    proof {
        assert(list@.take(list@.len() as int) =~= list@);
    }
    r
}

/// Those of the tuples that rise.
fn keep_rising(tuples: &Vec<Vec<Arc<Node>>>) -> (r: Vec<Vec<Arc<Node>>>)
    requires
        forall|i: int, j: int|
            0 <= i < tuples@.len() && 0 <= j < tuples@[i]@.len() ==> (#[trigger] tuples@[i]@[j]).wf(),
    ensures
        shape_rows(rows(r@)) == rising_only(shape_rows(rows(tuples@)), tuples@.len() as int),
        forall|i: int| 0 <= i < r@.len() ==> exists|t: int| 0 <= t < tuples@.len() && (#[trigger] r@[i])@ == tuples@[t]@,
{
    let ghost all = shape_rows(rows(tuples@));
    let mut found: Vec<Vec<Arc<Node>>> = Vec::new();
    let mut t: usize = 0;
    assert(shape_rows(rows(found@)) =~= rising_only(all, 0));
    while t < tuples.len()
        invariant
            t <= tuples.len(),
            all == shape_rows(rows(tuples@)),
            forall|i: int, j: int|
                0 <= i < tuples@.len() && 0 <= j < tuples@[i]@.len() ==> (#[trigger] tuples@[i]@[j]).wf(),
            shape_rows(rows(found@)) == rising_only(all, t as int),
            forall|i: int|
                0 <= i < found@.len() ==> exists|u: int| 0 <= u < tuples@.len() && (#[trigger] found@[i])@ == tuples@[u]@,
        decreases tuples.len() - t,
    {
        let tuple = &tuples[t];
        proof {
            assert forall|j: int| 0 <= j < tuple@.len() implies (#[trigger] tuple@[j]).wf() by {
                assert(tuples@[t as int]@[j].wf());
            }
            assert(all[t as int] == shapes_of(tuple@));
        }
        if is_rising(tuple) {
            let ghost was = found@;
            found.push(share_all(tuple));
            proof {
                assert(shape_rows(rows(found@)) =~= rising_only(all, t as int).push(all[t as int]));
                assert forall|i: int| 0 <= i < found@.len() implies exists|u: int|
                    0 <= u < tuples@.len() && (#[trigger] found@[i])@ == tuples@[u]@ by {
                    if i < was.len() {
                        assert(found@[i] == was[i]);
                        let u = choose|u: int| 0 <= u < tuples@.len() && was[i]@ == tuples@[u]@;
                        assert(found@[i]@ == tuples@[u]@);
                    } else {
                        assert(found@[i]@ == tuples@[t as int]@);
                    }
                }
            }
        }
        t = t + 1;
    }
    found
}

/// For each number of the set the rooted trees of the store with that many
/// vertices.
fn lists_of(store: &Vec<Vec<Arc<Node>>>, set: &Vec<usize>) -> (r: Vec<Vec<Arc<Node>>>)
    requires
        forall|i: int| 0 <= i < set@.len() ==> 1 <= #[trigger] set@[i] <= store@.len(),
    ensures
        r@.len() == set@.len(),
        forall|i: int| 0 <= i < set@.len() ==> (#[trigger] r@[i])@ == store@[set@[i] - 1]@,
        shape_rows(rows(r@)) == pool(store_shapes(store@), set@),
{
    let mut lists: Vec<Vec<Arc<Node>>> = Vec::new();
    let mut j: usize = 0;
    while j < set.len()
        invariant
            j <= set.len(),
            forall|i: int| 0 <= i < set@.len() ==> 1 <= #[trigger] set@[i] <= store@.len(),
            lists.len() == j,
            forall|i: int| 0 <= i < j ==> (#[trigger] lists@[i])@ == store@[set@[i] - 1]@,
        decreases set.len() - j,
    {
        lists.push(share_all(&store[set[j] - 1]));
        j = j + 1;
    }
    proof {
        let a = shape_rows(rows(lists@));
        let b = pool(store_shapes(store@), set@);
        assert forall|i: int| 0 <= i < set@.len() implies a[i] == b[i] by {
            assert(rows(lists@)[i] == store@[set@[i] - 1]@);
        }
        assert(a =~= b);
    }
    lists
}

/// The rising tuples of rooted trees of the store whose numbers of vertices
/// are those of the set.
fn rooted_of_set(store: &Vec<Vec<Arc<Node>>>, set: &Vec<usize>) -> (r: Vec<Vec<Arc<Node>>>)
    requires
        sound(store@),
        sized(store_shapes(store@)),
        set@.len() >= 1,
        forall|i: int| 0 <= i < set@.len() ==> 1 <= #[trigger] set@[i] <= store@.len(),
    ensures
        shape_rows(rows(r@)) == rising_only(
            product(pool(store_shapes(store@), set@)),
            product(pool(store_shapes(store@), set@)).len() as int,
        ),
        forall|i: int, j: int| 0 <= i < r@.len() && 0 <= j < r@[i]@.len() ==> (#[trigger] r@[i]@[j]).wf(),
        forall|i: int|
            0 <= i < r@.len() ==> (#[trigger] r@[i])@.len() == set@.len() && weight(shapes_of(r@[i]@)) == total(
                set@,
            ),
{
    let ghost st = store_shapes(store@);
    let ghost nums = set@;
    let ghost k = nums.len() as int;
    let lists = lists_of(store, set);
    let ghost node_lists = rows(lists@);
    proof {
        lemma_product_shapes(node_lists, k);
    }
    let tuples = cartesian_trees(lists);
    proof {
        assert(shape_rows(rows(tuples@)) == product(pool(st, nums)));
        assert forall|i: int, j: int| 0 <= i < tuples@.len() && 0 <= j < tuples@[i]@.len() implies (#[trigger] tuples@[i]@[j]).wf() by {
            lemma_products(node_lists, k, i);
            assert(rows(tuples@)[i] == tuples@[i]@);
            assert(node_lists[j].contains(tuples@[i]@[j]));
            let w = node_lists[j].index_of(tuples@[i]@[j]);
            assert(store@[nums[j] - 1]@[w].wf());
        }
    }
    let r = keep_rising(&tuples);
    proof {
        assert forall|i: int| 0 <= i < r@.len() implies (#[trigger] r@[i])@.len() == nums.len() && weight(
            shapes_of(r@[i]@),
        ) == total(nums) && forall|j: int| 0 <= j < r@[i]@.len() ==> (#[trigger] r@[i]@[j]).wf() by {
            let t = choose|t: int| 0 <= t < tuples@.len() && r@[i]@ == tuples@[t]@;
            lemma_products(node_lists, k, t);
            assert(rows(tuples@)[t] == tuples@[t]@);
            lemma_pool_weight(st, nums, k, t);
            assert(nums.take(k) =~= nums);
            assert(shape_rows(rows(tuples@))[t] == shapes_of(tuples@[t]@));
            assert forall|j: int| 0 <= j < r@[i]@.len() implies (#[trigger] r@[i]@[j]).wf() by {
                assert(tuples@[t]@[j].wf());
            }
        }
    }
    r
}

/// The rising tuples of `k` rooted trees of the store with `n` vertices in
/// all.
fn rooted_trees(store: &Vec<Vec<Arc<Node>>>, n: usize, k: usize) -> (r: Vec<Vec<Arc<Node>>>)
    requires
        sound(store@),
        sized(store_shapes(store@)),
        1 <= k,
        n < store@.len() + k,
    ensures
        shape_rows(rows(r@)) == rooted(store_shapes(store@), n as nat, k as nat),
        forall|i: int, j: int| 0 <= i < r@.len() && 0 <= j < r@[i]@.len() ==> (#[trigger] r@[i]@[j]).wf(),
        forall|i: int| 0 <= i < r@.len() ==> (#[trigger] r@[i])@.len() == k && weight(shapes_of(r@[i]@)) == n,
{
    let ghost st = store_shapes(store@);
    let sets = addends(n, k);
    let ghost all_sets = rows(sets@);
    let mut found: Vec<Vec<Arc<Node>>> = Vec::new();
    let mut s: usize = 0;
    assert(shape_rows(rows(found@)) =~= gathered(st, all_sets, 0));
    while s < sets.len()
        invariant
            s <= sets.len(),
            st == store_shapes(store@),
            sound(store@),
            sized(st),
            1 <= k,
            n < store@.len() + k,
            all_sets == rows(sets@),
            all_sets == addends_of(n as nat, k as nat),
            shape_rows(rows(found@)) == gathered(st, all_sets, s as int),
            forall|i: int, j: int|
                0 <= i < found@.len() && 0 <= j < found@[i]@.len() ==> (#[trigger] found@[i]@[j]).wf(),
            forall|i: int|
                0 <= i < found@.len() ==> (#[trigger] found@[i])@.len() == k && weight(shapes_of(found@[i]@))
                    == n,
        decreases sets.len() - s,
    {
        let set = &sets[s];
        proof {
            assert(all_sets[s as int] == set@);
            lemma_fillings(0, n as nat, k as nat, n as nat, s as int);
            assert forall|j: int| 0 <= j < set@.len() implies 1 <= #[trigger] set@[j] <= store@.len() by {
                lemma_total_bound(set@, j);
            }
        }
        let mut more = rooted_of_set(store, set);
        let ghost before = found@;
        let ghost added = more@;
        found.append(&mut more);
        proof {
            let all = product(pool(st, set@));
            assert(shape_rows(rows(found@)) =~= shape_rows(rows(before)) + shape_rows(rows(added)));
            assert(gathered(st, all_sets, s as int + 1) == gathered(st, all_sets, s as int) + rising_only(
                all,
                all.len() as int,
            ));
            assert forall|i: int| 0 <= i < found@.len() implies (#[trigger] found@[i])@.len() == k && weight(
                shapes_of(found@[i]@),
            ) == n && forall|j: int| 0 <= j < found@[i]@.len() ==> (#[trigger] found@[i]@[j]).wf() by {
                if i < before.len() {
                    assert(found@[i] == before[i]);
                    assert forall|j: int| 0 <= j < found@[i]@.len() implies (#[trigger] found@[i]@[j]).wf() by {
                        assert(before[i]@[j].wf());
                    }
                } else {
                    assert(found@[i] == added[i - before.len()]);
                    assert forall|j: int| 0 <= j < found@[i]@.len() implies (#[trigger] found@[i]@[j]).wf() by {
                        assert(added[i - before.len()]@[j].wf());
                    }
                }
            }
        }
        s = s + 1;
    }
    found
}

/// The children with their flags.
pub open spec fn hung(children: Seq<Shape>, flags: Seq<bool>) -> Seq<(Shape, bool)> {
    Seq::new(children.len(), |j: int| (children[j], flags[j]))
}

/// The child at place `w` does not come behind the next: its tree comes
/// first, or the trees are the same and its flag is not set while the other
/// is not.
pub open spec fn pair_step(p: Seq<(Shape, bool)>, w: int) -> bool {
    compare(p[w].0, p[w + 1].0) == Sign::Less || (compare(p[w].0, p[w + 1].0) == Sign::Equal && (!p[w].1
        || p[w + 1].1))
}

/// No child comes behind the next.
pub open spec fn stepped(p: Seq<(Shape, bool)>) -> bool {
    forall|w: int| 0 <= w < p.len() - 1 ==> #[trigger] pair_step(p, w)
}

/// For each of `k` children the two flags, the set one first.
pub open spec fn flag_lists(k: nat) -> Seq<Seq<bool>> {
    Seq::new(k, |j: int| seq![true, false])
}

/// The trees whose root has the given children with the flags of one of
/// the first `upto` tuples of flags, where no child comes behind the next.
pub open spec fn hangings(children: Seq<Shape>, flagsets: Seq<Seq<bool>>, upto: int) -> Seq<Shape>
    decreases upto,
{
    if upto <= 0 || upto > flagsets.len() {
        Seq::empty()
    } else if stepped(hung(children, flagsets[upto - 1])) {
        hangings(children, flagsets, upto - 1).push(Shape { kids: hung(children, flagsets[upto - 1]) })
    } else {
        hangings(children, flagsets, upto - 1)
    }
}

/// The trees whose root has the given children, with every choice of flags
/// for which no child comes behind the next.
pub open spec fn by_vertex(children: Seq<Shape>) -> Seq<Shape> {
    hangings(
        children,
        product(flag_lists(children.len())),
        product(flag_lists(children.len())).len() as int,
    )
}

/// The trees that join two rooted trees by an edge between their roots:
/// the second becomes the last child of the first, with the flag set and
/// with it not set; with it set only where the two trees are the same.
pub open spec fn by_edge(a: Shape, b: Shape) -> Seq<Shape> {
    if compare(a, b) == Sign::Equal {
        seq![Shape { kids: a.kids.push((b, true)) }]
    } else {
        seq![Shape { kids: a.kids.push((b, true)) }, Shape { kids: a.kids.push((b, false)) }]
    }
}

/// The shapes of a list of trees.
pub open spec fn node_shapes(v: Seq<Node>) -> Seq<Shape> {
    Seq::new(v.len(), |i: int| v[i].shape())
}

/// The vertices of children are those of their trees.
pub proof fn lemma_sizes_weight(kids: Seq<(Shape, bool)>, c: Seq<Shape>, upto: int)
    requires
        0 <= upto <= kids.len(),
        kids.len() == c.len(),
        forall|i: int| 0 <= i < kids.len() ==> (#[trigger] kids[i]).0 == c[i],
    ensures
        sizes(kids, upto) == weight(c.take(upto)),
    decreases upto,
{
    if upto > 0 {
        lemma_sizes_weight(kids, c, upto - 1);
        assert(c.take(upto).drop_last() =~= c.take(upto - 1));
    } else {
        assert(c.take(0) =~= Seq::<Shape>::empty());
    }
}

/// Whether no child comes behind the next.
fn is_stepped(pairs: &Vec<(Arc<Node>, bool)>) -> (r: bool)
    requires
        forall|i: int| 0 <= i < pairs@.len() ==> (#[trigger] pairs@[i]).0.wf(),
    ensures
        r == stepped(Node::shapes(pairs@, pairs@.len() as int)),
{
    proof {
        Node::lemma_shapes(pairs@, pairs@.len() as int);
    }
    if pairs.len() < 2 {
        return true;
    }
    let ghost p = Node::shapes(pairs@, pairs@.len() as int);
    let last = pairs.len() - 1;
    let mut w: usize = 0;
    while w < last
        invariant
            w <= last,
            last == pairs.len() - 1,
            p == Node::shapes(pairs@, pairs@.len() as int),
            p.len() == pairs@.len(),
            forall|i: int| 0 <= i < pairs@.len() ==> (#[trigger] pairs@[i]).0.wf(),
            forall|i: int| 0 <= i < pairs@.len() ==> (#[trigger] p[i]) == (pairs@[i].0.shape(), pairs@[i].1),
            forall|v: int| 0 <= v < w ==> #[trigger] pair_step(p, v),
        decreases last - w,
    {
        let c = pairs[w].0.against(&pairs[w + 1].0);
        let ok = match c {
            Sign::Less => true,
            Sign::Equal => !pairs[w].1 || pairs[w + 1].1,
            Sign::Greater => false,
        };
        proof {
            assert(p[w as int] == (pairs@[w as int].0.shape(), pairs@[w as int].1));
            assert(p[w + 1] == (pairs@[w + 1].0.shape(), pairs@[w + 1].1));
        }
        if !ok {
            proof {
                assert(!pair_step(p, w as int));
            }
            return false;
        }
        w = w + 1;
    }
    true
}

/// The trees whose root has the given children, with every choice of flags
/// for which no child comes behind the next.
pub fn connect_by_vertex(children: &Vec<Arc<Node>>) -> (r: Vec<Node>)
    requires
        forall|i: int| 0 <= i < children@.len() ==> (#[trigger] children@[i]).wf(),
        weight(shapes_of(children@)) < usize::MAX,
    ensures
        node_shapes(r@) == by_vertex(shapes_of(children@)),
        forall|i: int| 0 <= i < r@.len() ==> (#[trigger] r@[i]).wf(),
        forall|i: int| 0 <= i < r@.len() ==> size(#[trigger] r@[i].shape()) == 1 + weight(shapes_of(children@)),
{
    let ghost c = shapes_of(children@);
    let n = children.len();
    let mut lists: Vec<Vec<bool>> = Vec::new();
    let mut k: usize = 0;
    while k < n
        invariant
            k <= n,
            lists.len() == k,
            forall|i: int| 0 <= i < k ==> (#[trigger] lists@[i])@ == seq![true, false],
        decreases n - k,
    {
        let mut both: Vec<bool> = Vec::new();
        both.push(true);
        both.push(false);
        assert(both@ =~= seq![true, false]);
        lists.push(both);
        k = k + 1;
    }
    proof {
        assert(rows(lists@) =~= flag_lists(n as nat));
    }
    let flagsets = cartesian_flags(lists);
    let ghost all = product(flag_lists(n as nat));
    let mut found: Vec<Node> = Vec::new();
    let mut t: usize = 0;
    assert(node_shapes(found@) =~= hangings(c, all, 0));
    while t < flagsets.len()
        invariant
            t <= flagsets.len(),
            n == children@.len(),
            c == shapes_of(children@),
            forall|i: int| 0 <= i < children@.len() ==> (#[trigger] children@[i]).wf(),
            weight(c) < usize::MAX,
            rows(flagsets@) == all,
            all == product(flag_lists(n as nat)),
            node_shapes(found@) == hangings(c, all, t as int),
            forall|i: int| 0 <= i < found@.len() ==> (#[trigger] found@[i]).wf(),
            forall|i: int| 0 <= i < found@.len() ==> size(#[trigger] found@[i].shape()) == 1 + weight(c),
        decreases flagsets.len() - t,
    {
        let flags = &flagsets[t];
        proof {
            assert(rows(flagsets@)[t as int] == flags@);
            assert(all.len() > 0);
            assert(n > 0);
            assert(all == products(flag_lists(n as nat), n as int));
            lemma_products(flag_lists(n as nat), n as int, t as int);
            assert(flags@.len() == n);
        }
        let mut pairs: Vec<(Arc<Node>, bool)> = Vec::new();
        let mut j: usize = 0;
        while j < n
            invariant
                j <= n,
                n == children@.len(),
                n == flags@.len(),
                pairs.len() == j,
                forall|i: int| 0 <= i < j ==> (#[trigger] pairs@[i]) == (children@[i], flags@[i]),
            decreases n - j,
        {
            pairs.push((share(&children[j]), flags[j]));
            j = j + 1;
        }
        let ghost kids = Node::shapes(pairs@, n as int);
        proof {
            Node::lemma_shapes(pairs@, n as int);
            assert(kids =~= hung(c, flags@));
            lemma_sizes_weight(kids, c, n as int);
            assert(c.take(n as int) =~= c);
            assert forall|i: int| 0 <= i < pairs@.len() implies (#[trigger] pairs@[i]).0.wf() by {
                assert(pairs@[i] == (children@[i], flags@[i]));
            }
        }
        if is_stepped(&pairs) {
            let node = Node::from_iter(pairs);
            proof {
                assert(node.shape() == Shape { kids });
                assert(size(node.shape()) == 1 + sizes(kids, kids.len() as int));
            }
            let ghost was = found@;
            found.push(node);
            proof {
                assert(node_shapes(found@) =~= hangings(c, all, t as int).push(Shape { kids }));
                assert forall|i: int| 0 <= i < found@.len() implies (#[trigger] found@[i]).wf() && size(
                    found@[i].shape(),
                ) == 1 + weight(c) by {
                    if i < was.len() {
                        assert(found@[i] == was[i]);
                    }
                }
            }
        }
        t = t + 1;
    }
    found
}

/// The trees that join two rooted trees by an edge between their roots.
pub fn connect_by_edge(tree: &Arc<Node>, child: &Arc<Node>) -> (r: Vec<Node>)
    requires
        tree.wf(),
        child.wf(),
        size(tree.shape()) + size(child.shape()) <= usize::MAX,
    ensures
        node_shapes(r@) == by_edge(tree.shape(), child.shape()),
        forall|i: int| 0 <= i < r@.len() ==> (#[trigger] r@[i]).wf(),
        forall|i: int|
            0 <= i < r@.len() ==> size(#[trigger] r@[i].shape()) == size(tree.shape()) + size(child.shape()),
{
    let mut found: Vec<Node> = Vec::new();
    let same = match tree.against(child) {
        Sign::Equal => true,
        _ => false,
    };
    let first = joined(tree, child, true);
    found.push(first);
    if !same {
        let second = joined(tree, child, false);
        found.push(second);
    }
    proof {
        assert(node_shapes(found@) =~= by_edge(tree.shape(), child.shape()));
    }
    found
}

/// The tree with `child` as a further child of the root of `tree`.
fn joined(tree: &Arc<Node>, child: &Arc<Node>, flag: bool) -> (r: Node)
    requires
        tree.wf(),
        child.wf(),
        size(tree.shape()) + size(child.shape()) <= usize::MAX,
    ensures
        r.wf(),
        r.shape() == (Shape { kids: tree.shape().kids.push((child.shape(), flag)) }),
        size(r.shape()) == size(tree.shape()) + size(child.shape()),
{
    let mut pairs = tree.iter();
    let ghost old_pairs = pairs@;
    let ghost n = old_pairs.len() as int;
    pairs.push((share(child), flag));
    let ghost want = tree.shape().kids.push((child.shape(), flag));
    proof {
        tree.lemma_children();
        Node::lemma_shapes(pairs@, n + 1);
        let kids = Node::shapes(pairs@, n + 1);
        assert forall|i: int| 0 <= i < n + 1 implies kids[i] == want[i] by {
            if i < n {
                assert(pairs@[i] == old_pairs[i]);
            }
        }
        assert(kids =~= want);
        crate::tree::node::lemma_kids_prefix(want, tree.shape().kids, n);
        assert(sizes(want, n + 1) == sizes(want, n) + size(child.shape()));
        assert(size(tree.shape()) == 1 + sizes(tree.shape().kids, n));
        assert forall|i: int| 0 <= i < pairs@.len() implies (#[trigger] pairs@[i]).0.wf() by {
            if i < n {
                assert(pairs@[i] == old_pairs[i]);
            }
        }
    }
    let r = Node::from_iter(pairs);
    proof {
        assert(r.shape() == Shape { kids: want });
        assert(size(r.shape()) == 1 + sizes(want, n + 1));
    }
    r
}

/// Whether a rooted tree belongs to the store: always, or where only cores
/// are wanted, where it is found to be a core among rooted trees.
pub open spec fn rooted_fit(core: bool, s: Shape) -> bool {
    !core || rooted_core_found(size(s), tree_edges(s, 0), 0)
}

/// Whether a tree is handed out: always, or where only cores are wanted,
/// where it is found to be a core.
pub open spec fn tree_fit(core: bool, s: Shape) -> bool {
    !core || core_found(size(s), tree_edges(s, 0))
}

/// The trees whose root has the children of one of the first `upto`
/// tuples.
pub open spec fn all_by_vertex(tuples: Seq<Seq<Shape>>, upto: int) -> Seq<Shape>
    decreases upto,
{
    if upto <= 0 || upto > tuples.len() {
        Seq::empty()
    } else {
        all_by_vertex(tuples, upto - 1) + by_vertex(tuples[upto - 1])
    }
}

/// Those of the first `upto` rooted trees that belong to the store.
pub open spec fn rooted_kept(s: Seq<Shape>, core: bool, upto: int) -> Seq<Shape>
    decreases upto,
{
    if upto <= 0 || upto > s.len() {
        Seq::empty()
    } else if rooted_fit(core, s[upto - 1]) {
        rooted_kept(s, core, upto - 1).push(s[upto - 1])
    } else {
        rooted_kept(s, core, upto - 1)
    }
}

/// Those of the first `upto` trees that are handed out.
pub open spec fn trees_kept(s: Seq<Shape>, core: bool, upto: int) -> Seq<Shape>
    decreases upto,
{
    if upto <= 0 || upto > s.len() {
        Seq::empty()
    } else if tree_fit(core, s[upto - 1]) {
        trees_kept(s, core, upto - 1).push(s[upto - 1])
    } else {
        trees_kept(s, core, upto - 1)
    }
}

/// The rooted trees with `step` vertices whose root has fewer than
/// `arities` children and at least one, by the number of these children.
pub open spec fn level_upto(store: Seq<Seq<Shape>>, step: nat, core: bool, arities: int) -> Seq<Shape>
    decreases arities,
{
    if arities <= 1 {
        Seq::empty()
    } else {
        let tuples = rooted(store, (step - 1) as nat, (arities - 1) as nat);
        let made = all_by_vertex(tuples, tuples.len() as int);
        level_upto(store, step, core, arities - 1) + rooted_kept(made, core, made.len() as int)
    }
}

/// The store of rooted trees with up to `m` vertices: at place 0 the tree
/// with one vertex, and at each further place the rooted trees with one
/// vertex more, made of those before.
pub open spec fn store_of(m: nat, max_arity: usize, core: bool) -> Seq<Seq<Shape>>
    decreases m,
{
    if m == 0 {
        Seq::empty()
    } else if m == 1 {
        seq![seq![leaf_shape()]]
    } else {
        let st = store_of((m - 1) as nat, max_arity, core);
        st.push(level_upto(st, m, core, max_arity as int))
    }
}

/// Every tree of the tuple is a path at its root: the root and its children
/// have at most two neighbours each.
pub open spec fn all_paths(c: Seq<Shape>) -> bool {
    forall|j: int| 0 <= j < c.len() ==> widest(#[trigger] c[j]) < 3
}

/// Those of the first `upto` tuples whose trees are all paths at their
/// root.
pub open spec fn paths_kept(tuples: Seq<Seq<Shape>>, upto: int) -> Seq<Seq<Shape>>
    decreases upto,
{
    if upto <= 0 || upto > tuples.len() {
        Seq::empty()
    } else if all_paths(tuples[upto - 1]) {
        paths_kept(tuples, upto - 1).push(tuples[upto - 1])
    } else {
        paths_kept(tuples, upto - 1)
    }
}

/// Those of the first `upto` trees that are triads.
pub open spec fn triads_kept(s: Seq<Shape>, upto: int) -> Seq<Shape>
    decreases upto,
{
    if upto <= 0 || upto > s.len() {
        Seq::empty()
    } else if triad(s[upto - 1]) {
        triads_kept(s, upto - 1).push(s[upto - 1])
    } else {
        triads_kept(s, upto - 1)
    }
}

/// Those of the first `upto` trees whose root is their centre.
pub open spec fn centered_kept(s: Seq<Shape>, upto: int) -> Seq<Shape>
    decreases upto,
{
    if upto <= 0 || upto > s.len() {
        Seq::empty()
    } else if centered(s[upto - 1]) {
        centered_kept(s, upto - 1).push(s[upto - 1])
    } else {
        centered_kept(s, upto - 1)
    }
}

/// The trees that join the two trees of one of the first `upto` pairs by an
/// edge, where the two are of the same height.
pub open spec fn all_by_edge(pairs: Seq<Seq<Shape>>, upto: int) -> Seq<Shape>
    decreases upto,
{
    if upto <= 0 || upto > pairs.len() {
        Seq::empty()
    } else if height(pairs[upto - 1][0]) == height(pairs[upto - 1][1]) {
        all_by_edge(pairs, upto - 1) + by_edge(pairs[upto - 1][0], pairs[upto - 1][1])
    } else {
        all_by_edge(pairs, upto - 1)
    }
}

/// The trees with `n` vertices whose root has at least two and at most
/// `arities` children, by the number of these children.
pub open spec fn wide_upto(store: Seq<Seq<Shape>>, n: nat, arities: int) -> Seq<Shape>
    decreases arities,
{
    if arities < 2 {
        Seq::empty()
    } else {
        let tuples = rooted(store, (n - 1) as nat, arities as nat);
        wide_upto(store, n, arities - 1) + all_by_vertex(tuples, tuples.len() as int)
    }
}

/// The trees with `n` vertices before the cores are chosen among them:
/// the triads; or the trees with a centre, followed by the trees with two
/// centres. The root of a tree with a centre has at most `max_arity`
/// children, and no more than the tree has vertices.
pub open spec fn candidates(store: Seq<Seq<Shape>>, n: nat, max_arity: usize, triads: bool) -> Seq<Shape> {
    if triads {
        let arms = rooted(store, (n - 1) as nat, 3);
        let paths = paths_kept(arms, arms.len() as int);
        let made = all_by_vertex(paths, paths.len() as int);
        triads_kept(made, made.len() as int)
    } else {
        let wide = wide_upto(store, n, least(max_arity as nat, n) as int);
        let pairs = rooted(store, n, 2);
        centered_kept(wide, wide.len() as int) + all_by_edge(pairs, pairs.len() as int)
    }
}

/// The trees with `n` vertices that the generator hands out.
pub open spec fn trees_of(n: nat, max_arity: usize, core: bool, triads: bool) -> Seq<Shape> {
    if n <= 1 {
        seq![leaf_shape()]
    } else {
        let made = candidates(store_of((n - 1) as nat, max_arity, core), n, max_arity, triads);
        trees_kept(made, core, made.len() as int)
    }
}

/// With one vertex there is one tree, whatever else is asked for.
pub proof fn lemma_one_tree(max_arity: usize, core: bool, triads: bool)
    ensures
        trees_of(1, max_arity, core, triads) == seq![leaf_shape()],
        trees_of(1, max_arity, core, triads).len() == 1,
{
}

/// Statistics of the generation.
#[derive(Clone, Copy, Debug, PartialEq, Eq, Structural)]
pub struct TreeGenStats {
    /// Number of rooted trees that were made for the last level.
    pub num_rcc: usize,
    /// Number of trees that were made at the last call.
    pub num_cc: usize,
}

/// What the generator is to make.
#[derive(Clone, Copy, Debug)]
pub struct TreeGenSettings {
    /// Number of vertices to start at.
    pub start: usize,
    /// Number of vertices to end at.
    pub end: usize,
    /// The largest number of neighbours of the root of a tree.
    pub max_arity: usize,
    /// Hand out cores only.
    pub core: bool,
    /// Hand out triads only.
    pub triad: bool,
    /// Statistics, where they are recorded.
    pub stats: Option<TreeGenStats>,
}

/// A generator of trees, by their number of vertices.
pub struct TreeGenerator {
    rooted_trees: Vec<Vec<Arc<Node>>>,
    settings: TreeGenSettings,
    nvertices: usize,
}

/// The trees that join the roots of the trees of each tuple to a new root.
fn join_all(tuples: &Vec<Vec<Arc<Node>>>, w: usize) -> (r: Vec<Node>)
    requires
        w < usize::MAX,
        forall|i: int, j: int|
            0 <= i < tuples@.len() && 0 <= j < tuples@[i]@.len() ==> (#[trigger] tuples@[i]@[j]).wf(),
        forall|i: int| 0 <= i < tuples@.len() ==> weight(shapes_of((#[trigger] tuples@[i])@)) == w,
    ensures
        node_shapes(r@) == all_by_vertex(shape_rows(rows(tuples@)), tuples@.len() as int),
        forall|i: int| 0 <= i < r@.len() ==> (#[trigger] r@[i]).wf() && size(r@[i].shape()) == 1 + w,
{
    let ghost all = shape_rows(rows(tuples@));
    let mut found: Vec<Node> = Vec::new();
    let mut t: usize = 0;
    assert(node_shapes(found@) =~= all_by_vertex(all, 0));
    while t < tuples.len()
        invariant
            t <= tuples.len(),
            w < usize::MAX,
            all == shape_rows(rows(tuples@)),
            forall|i: int, j: int|
                0 <= i < tuples@.len() && 0 <= j < tuples@[i]@.len() ==> (#[trigger] tuples@[i]@[j]).wf(),
            forall|i: int| 0 <= i < tuples@.len() ==> weight(shapes_of((#[trigger] tuples@[i])@)) == w,
            node_shapes(found@) == all_by_vertex(all, t as int),
            forall|i: int| 0 <= i < found@.len() ==> (#[trigger] found@[i]).wf() && size(found@[i].shape()) == 1 + w,
        decreases tuples.len() - t,
    {
        let tuple = &tuples[t];
        proof {
            assert forall|j: int| 0 <= j < tuple@.len() implies (#[trigger] tuple@[j]).wf() by {
                assert(tuples@[t as int]@[j].wf());
            }
            assert(all[t as int] == shapes_of(tuple@));
            assert(weight(shapes_of(tuples@[t as int]@)) == w);
        }
        let mut more = connect_by_vertex(tuple);
        let ghost before = found@;
        let ghost added = more@;
        found.append(&mut more);
        proof {
            assert(node_shapes(found@) =~= node_shapes(before) + node_shapes(added));
            assert forall|i: int| 0 <= i < found@.len() implies (#[trigger] found@[i]).wf() && size(
                found@[i].shape(),
            ) == 1 + w by {
                if i < before.len() {
                    assert(found@[i] == before[i]);
                } else {
                    assert(found@[i] == added[i - before.len()]);
                }
            }
        }
        t = t + 1;
    }
    found
}

/// The vertices of a tree are the numbers below their count.
proof fn lemma_node_numbered(t: &Node)
    requires
        t.wf(),
    ensures
        numbered(t),
        t.spec_vertices().len() == size(t.shape()),
{
    t.lemma_children();
}

/// Those of the rooted trees that belong to the store.
fn keep_rooted(made: &Vec<Node>, core: bool, n: usize) -> (r: Vec<Arc<Node>>)
    requires
        n * n <= usize::MAX,
        forall|i: int| 0 <= i < made@.len() ==> (#[trigger] made@[i]).wf() && size(made@[i].shape()) == n,
    ensures
        shapes_of(r@) == rooted_kept(node_shapes(made@), core, made@.len() as int),
        forall|i: int| 0 <= i < r@.len() ==> (#[trigger] r@[i]).wf() && size(r@[i].shape()) == n,
{
    let ghost all = node_shapes(made@);
    let mut found: Vec<Arc<Node>> = Vec::new();
    let mut t: usize = 0;
    assert(shapes_of(found@) =~= rooted_kept(all, core, 0));
    while t < made.len()
        invariant
            t <= made.len(),
            n * n <= usize::MAX,
            all == node_shapes(made@),
            forall|i: int| 0 <= i < made@.len() ==> (#[trigger] made@[i]).wf() && size(made@[i].shape()) == n,
            shapes_of(found@) == rooted_kept(all, core, t as int),
            forall|i: int| 0 <= i < found@.len() ==> (#[trigger] found@[i]).wf() && size(found@[i].shape()) == n,
        decreases made.len() - t,
    {
        let node = &made[t];
        proof {
            assert(made@[t as int].wf());
            lemma_node_numbered(node);
            assert(all[t as int] == node.shape());
        }
        if !core || is_rooted_core_tree(node) {
            let ghost was = found@;
            found.push(Arc::new(node.duplicate()));
            proof {
                assert(shapes_of(found@) =~= rooted_kept(all, core, t as int).push(all[t as int]));
                assert forall|i: int| 0 <= i < found@.len() implies (#[trigger] found@[i]).wf() && size(
                    found@[i].shape(),
                ) == n by {
                    if i < was.len() {
                        assert(found@[i] == was[i]);
                    }
                }
            }
        }
        t = t + 1;
    }
    found
}

/// Those of the trees that are handed out.
fn keep_trees(made: &Vec<Node>, core: bool, n: usize) -> (r: Vec<Node>)
    requires
        n * n <= usize::MAX,
        forall|i: int| 0 <= i < made@.len() ==> (#[trigger] made@[i]).wf() && size(made@[i].shape()) == n,
    ensures
        node_shapes(r@) == trees_kept(node_shapes(made@), core, made@.len() as int),
        forall|i: int| 0 <= i < r@.len() ==> (#[trigger] r@[i]).wf() && size(r@[i].shape()) == n,
{
    let ghost all = node_shapes(made@);
    let mut found: Vec<Node> = Vec::new();
    let mut t: usize = 0;
    assert(node_shapes(found@) =~= trees_kept(all, core, 0));
    while t < made.len()
        invariant
            t <= made.len(),
            n * n <= usize::MAX,
            all == node_shapes(made@),
            forall|i: int| 0 <= i < made@.len() ==> (#[trigger] made@[i]).wf() && size(made@[i].shape()) == n,
            node_shapes(found@) == trees_kept(all, core, t as int),
            forall|i: int| 0 <= i < found@.len() ==> (#[trigger] found@[i]).wf() && size(found@[i].shape()) == n,
        decreases made.len() - t,
    {
        let node = &made[t];
        proof {
            assert(made@[t as int].wf());
            lemma_node_numbered(node);
            assert(all[t as int] == node.shape());
        }
        if !core || is_core_tree(node) {
            let ghost was = found@;
            found.push(node.duplicate());
            proof {
                assert(node_shapes(found@) =~= trees_kept(all, core, t as int).push(all[t as int]));
                assert forall|i: int| 0 <= i < found@.len() implies (#[trigger] found@[i]).wf() && size(
                    found@[i].shape(),
                ) == n by {
                    if i < was.len() {
                        assert(found@[i] == was[i]);
                    }
                }
            }
        }
        t = t + 1;
    }
    found
}

/// Those of the trees that pass `test`, which is one of the tests of the
/// shape of a tree.
fn keep_shaped(made: &Vec<Node>, triads: bool, n: usize) -> (r: Vec<Node>)
    requires
        forall|i: int| 0 <= i < made@.len() ==> (#[trigger] made@[i]).wf() && size(made@[i].shape()) == n,
    ensures
        triads ==> node_shapes(r@) == triads_kept(node_shapes(made@), made@.len() as int),
        !triads ==> node_shapes(r@) == centered_kept(node_shapes(made@), made@.len() as int),
        forall|i: int| 0 <= i < r@.len() ==> (#[trigger] r@[i]).wf() && size(r@[i].shape()) == n,
{
    let ghost all = node_shapes(made@);
    let mut found: Vec<Node> = Vec::new();
    let mut t: usize = 0;
    assert(node_shapes(found@) =~= triads_kept(all, 0));
    assert(node_shapes(found@) =~= centered_kept(all, 0));
    while t < made.len()
        invariant
            t <= made.len(),
            all == node_shapes(made@),
            forall|i: int| 0 <= i < made@.len() ==> (#[trigger] made@[i]).wf() && size(made@[i].shape()) == n,
            triads ==> node_shapes(found@) == triads_kept(all, t as int),
            !triads ==> node_shapes(found@) == centered_kept(all, t as int),
            forall|i: int| 0 <= i < found@.len() ==> (#[trigger] found@[i]).wf() && size(found@[i].shape()) == n,
        decreases made.len() - t,
    {
        let node = &made[t];
        proof {
            assert(all[t as int] == node.shape());
            assert(made@[t as int].wf());
        }
        let pass = if triads {
            node.is_triad()
        } else {
            node.is_centered()
        };
        if pass {
            let ghost was = found@;
            found.push(node.duplicate());
            proof {
                if triads {
                    assert(node_shapes(found@) =~= triads_kept(all, t as int).push(all[t as int]));
                } else {
                    assert(node_shapes(found@) =~= centered_kept(all, t as int).push(all[t as int]));
                }
                assert forall|i: int| 0 <= i < found@.len() implies (#[trigger] found@[i]).wf() && size(
                    found@[i].shape(),
                ) == n by {
                    if i < was.len() {
                        assert(found@[i] == was[i]);
                    }
                }
            }
        }
        t = t + 1;
    }
    found
}

/// Those of the tuples whose trees are all paths at their root.
fn keep_paths(tuples: &Vec<Vec<Arc<Node>>>) -> (r: Vec<Vec<Arc<Node>>>)
    requires
        forall|i: int, j: int|
            0 <= i < tuples@.len() && 0 <= j < tuples@[i]@.len() ==> (#[trigger] tuples@[i]@[j]).wf(),
    ensures
        shape_rows(rows(r@)) == paths_kept(shape_rows(rows(tuples@)), tuples@.len() as int),
        forall|i: int| 0 <= i < r@.len() ==> exists|t: int| 0 <= t < tuples@.len() && (#[trigger] r@[i])@ == tuples@[t]@,
{
    let ghost all = shape_rows(rows(tuples@));
    let mut found: Vec<Vec<Arc<Node>>> = Vec::new();
    let mut t: usize = 0;
    assert(shape_rows(rows(found@)) =~= paths_kept(all, 0));
    while t < tuples.len()
        invariant
            t <= tuples.len(),
            all == shape_rows(rows(tuples@)),
            forall|i: int, j: int|
                0 <= i < tuples@.len() && 0 <= j < tuples@[i]@.len() ==> (#[trigger] tuples@[i]@[j]).wf(),
            shape_rows(rows(found@)) == paths_kept(all, t as int),
            forall|i: int|
                0 <= i < found@.len() ==> exists|u: int| 0 <= u < tuples@.len() && (#[trigger] found@[i])@ == tuples@[u]@,
        decreases tuples.len() - t,
    {
        let tuple = &tuples[t];
        proof {
            assert(all[t as int] == shapes_of(tuple@));
        }
        let mut paths = true;
        let mut j: usize = 0;
        while j < tuple.len()
            invariant
                j <= tuple.len(),
                tuple@ == tuples@[t as int]@,
                t < tuples@.len(),
                forall|i: int, j: int|
                    0 <= i < tuples@.len() && 0 <= j < tuples@[i]@.len() ==> (#[trigger] tuples@[i]@[j]).wf(),
                paths == forall|i: int| 0 <= i < j ==> widest(#[trigger] shapes_of(tuple@)[i]) < 3,
            decreases tuple.len() - j,
        {
            proof {
                assert(tuples@[t as int]@[j as int].wf());
                assert(shapes_of(tuple@)[j as int] == tuple@[j as int].shape());
            }
            if !tuple[j].is_path() {
                paths = false;
            }
            j = j + 1;
        }
        if paths {
            let ghost was = found@;
            found.push(share_all(tuple));
            proof {
                assert(shape_rows(rows(found@)) =~= paths_kept(all, t as int).push(all[t as int]));
                assert forall|i: int| 0 <= i < found@.len() implies exists|u: int|
                    0 <= u < tuples@.len() && (#[trigger] found@[i])@ == tuples@[u]@ by {
                    if i < was.len() {
                        assert(found@[i] == was[i]);
                        let u = choose|u: int| 0 <= u < tuples@.len() && was[i]@ == tuples@[u]@;
                        assert(found@[i]@ == tuples@[u]@);
                    } else {
                        assert(found@[i]@ == tuples@[t as int]@);
                    }
                }
            }
        }
        t = t + 1;
    }
    found
}

/// The trees that join the two trees of each pair by an edge, where the two
/// are of the same height.
fn join_pairs(pairs: &Vec<Vec<Arc<Node>>>, n: usize) -> (r: Vec<Node>)
    requires
        forall|i: int, j: int| 0 <= i < pairs@.len() && 0 <= j < pairs@[i]@.len() ==> (#[trigger] pairs@[i]@[j]).wf(),
        forall|i: int|
            0 <= i < pairs@.len() ==> (#[trigger] pairs@[i])@.len() == 2 && weight(shapes_of(pairs@[i]@)) == n,
    ensures
        node_shapes(r@) == all_by_edge(shape_rows(rows(pairs@)), pairs@.len() as int),
        forall|i: int| 0 <= i < r@.len() ==> (#[trigger] r@[i]).wf() && size(r@[i].shape()) == n,
{
    let ghost all = shape_rows(rows(pairs@));
    let mut found: Vec<Node> = Vec::new();
    let mut t: usize = 0;
    assert(node_shapes(found@) =~= all_by_edge(all, 0));
    while t < pairs.len()
        invariant
            t <= pairs.len(),
            all == shape_rows(rows(pairs@)),
            forall|i: int, j: int|
                0 <= i < pairs@.len() && 0 <= j < pairs@[i]@.len() ==> (#[trigger] pairs@[i]@[j]).wf(),
            forall|i: int|
                0 <= i < pairs@.len() ==> (#[trigger] pairs@[i])@.len() == 2 && weight(shapes_of(pairs@[i]@))
                    == n,
            node_shapes(found@) == all_by_edge(all, t as int),
            forall|i: int| 0 <= i < found@.len() ==> (#[trigger] found@[i]).wf() && size(found@[i].shape()) == n,
        decreases pairs.len() - t,
    {
        let pair = &pairs[t];
        proof {
            assert(pairs@[t as int]@.len() == 2);
            assert(pairs@[t as int]@[0].wf());
            assert(pairs@[t as int]@[1].wf());
            let c = shapes_of(pair@);
            assert(all[t as int] == c);
            assert(weight(c) == n);
            assert(c.drop_last().drop_last() =~= Seq::<Shape>::empty());
            assert(weight(c.drop_last()) == weight(c.drop_last().drop_last()) + size(c.drop_last().last()));
            assert(weight(c) == size(c[0]) + size(c[1]));
            pair@[0].lemma_children();
            pair@[1].lemma_children();
        }
        if pair[0].tall() == pair[1].tall() {
            let mut more = connect_by_edge(&pair[0], &pair[1]);
            let ghost before = found@;
            let ghost added = more@;
            found.append(&mut more);
            proof {
                assert(node_shapes(found@) =~= node_shapes(before) + node_shapes(added));
                assert forall|i: int| 0 <= i < found@.len() implies (#[trigger] found@[i]).wf() && size(
                    found@[i].shape(),
                ) == n by {
                    if i < before.len() {
                        assert(found@[i] == before[i]);
                    } else {
                        assert(found@[i] == added[i - before.len()]);
                    }
                }
            }
        }
        t = t + 1;
    }
    found
}

impl TreeGenerator {
    /// What the generator is to make.
    pub closed spec fn settings(&self) -> TreeGenSettings {
        self.settings
    }

    /// The number of vertices of the trees that the next call hands out.
    pub closed spec fn next(&self) -> nat {
        self.nvertices as nat
    }

    /// The store holds the rooted trees that it is to hold, and no more of
    /// them than the next call needs.
    pub closed spec fn inv(&self) -> bool {
        &&& sound(self.rooted_trees@)
        &&& 1 <= self.rooted_trees@.len()
        &&& self.rooted_trees@.len() < self.nvertices || self.rooted_trees@.len() == 1
        &&& store_shapes(self.rooted_trees@) == store_of(
            self.rooted_trees@.len() as nat,
            self.settings.max_arity,
            self.settings.core,
        )
        &&& sized(store_shapes(self.rooted_trees@))
        &&& self.nvertices >= 1
    }

    /// A generator that starts at `config.start` vertices.
    pub fn new(config: TreeGenSettings) -> (r: TreeGenerator)
        requires
            !(config.triad && config.start < 4),
            config.start != 0,
        ensures
            r.inv(),
            r.settings() == config,
            r.next() == config.start,
    {
        let mut first: Vec<Arc<Node>> = Vec::new();
        first.push(Arc::new(Node::leaf()));
        let mut store: Vec<Vec<Arc<Node>>> = Vec::new();
        store.push(first);
        let r = TreeGenerator { rooted_trees: store, nvertices: config.start, settings: config };
        proof {
            let st = store_shapes(r.rooted_trees@);
            assert(st[0] =~= seq![leaf_shape()]);
            assert(st =~= store_of(1, config.max_arity, config.core));
            assert(size(leaf_shape()) == 1) by {
                assert(sizes(leaf_shape().kids, 0) == 0);
            }
        }
        r
    }

    /// The rooted trees with `step` vertices, made of those of the store.
    fn level(&self, step: usize) -> (r: Vec<Arc<Node>>)
        requires
            sound(self.rooted_trees@),
            sized(store_shapes(self.rooted_trees@)),
            step == self.rooted_trees@.len() + 1,
            step * step <= usize::MAX,
        ensures
            shapes_of(r@) == level_upto(
                store_shapes(self.rooted_trees@),
                step as nat,
                self.settings.core,
                self.settings.max_arity as int,
            ),
            forall|i: int| 0 <= i < r@.len() ==> (#[trigger] r@[i]).wf() && size(r@[i].shape()) == step,
    {
        let ghost st = store_shapes(self.rooted_trees@);
        let core = self.settings.core;
        let max_arity = self.settings.max_arity;
        let mut level: Vec<Arc<Node>> = Vec::new();
        let mut arity: usize = 1;
        assert(shapes_of(level@) =~= level_upto(st, step as nat, core, 1));
        while arity < max_arity
            invariant
                1 <= arity,
                arity <= max_arity || arity == 1,
                core == self.settings.core,
                max_arity == self.settings.max_arity,
                st == store_shapes(self.rooted_trees@),
                sound(self.rooted_trees@),
                sized(st),
                step == self.rooted_trees@.len() + 1,
                step * step <= usize::MAX,
                shapes_of(level@) == level_upto(st, step as nat, core, arity as int),
                forall|i: int| 0 <= i < level@.len() ==> (#[trigger] level@[i]).wf() && size(level@[i].shape()) == step,
            decreases max_arity - arity,
        {
            let tuples = rooted_trees(&self.rooted_trees, step - 1, arity);
            let made = join_all(&tuples, step - 1);
            let mut kept = keep_rooted(&made, core, step);
            let ghost before = level@;
            let ghost added = kept@;
            level.append(&mut kept);
            proof {
                assert(shapes_of(level@) =~= shapes_of(before) + shapes_of(added));
                assert forall|i: int| 0 <= i < level@.len() implies (#[trigger] level@[i]).wf() && size(
                    level@[i].shape(),
                ) == step by {
                    if i < before.len() {
                        assert(level@[i] == before[i]);
                    } else {
                        assert(level@[i] == added[i - before.len()]);
                    }
                }
            }
            arity = arity + 1;
        }
        proof {
            if max_arity <= 1 {
                assert(arity == 1);
                assert(level_upto(st, step as nat, core, max_arity as int) == Seq::<Shape>::empty());
                assert(level_upto(st, step as nat, core, 1) == Seq::<Shape>::empty());
            } else {
                assert(arity == max_arity);
            }
            assert(shapes_of(level@) == level_upto(st, step as nat, core, max_arity as int));
        }
        level
    }

    /// Fills the store with the rooted trees that the next call needs.
    fn generate_rooted_trees(&mut self)
        requires
            old(self).inv(),
            old(self).nvertices * old(self).nvertices <= usize::MAX,
        ensures
            final(self).inv(),
            final(self).settings == old(self).settings,
            final(self).nvertices == old(self).nvertices,
            final(self).nvertices >= 2 ==> final(self).rooted_trees@.len() == final(self).nvertices - 1,
    {
        while self.rooted_trees.len() + 1 < self.nvertices
            invariant
                self.inv(),
                self.settings == old(self).settings,
                self.nvertices == old(self).nvertices,
                self.nvertices * self.nvertices <= usize::MAX,
            decreases self.nvertices - self.rooted_trees.len(),
        {
            let step = self.rooted_trees.len() + 1;
            proof {
                assert(step * step <= self.nvertices * self.nvertices) by (nonlinear_arith)
                    requires
                        0 <= step < self.nvertices,
                ;
            }
            let level = self.level(step);
            let ghost before = self.rooted_trees@;
            self.rooted_trees.push(level);
            proof {
                let st = store_shapes(before);
                let now = store_shapes(self.rooted_trees@);
                assert(now =~= st.push(shapes_of(level@)));
                assert(now == store_of(step as nat, self.settings.max_arity, self.settings.core));
                assert forall|m: int, i: int| 0 <= m < now.len() && 0 <= i < now[m].len() implies size(
                    #[trigger] now[m][i],
                ) == m + 1 by {
                    if m < st.len() {
                        assert(now[m] == st[m]);
                    } else {
                        assert(now[m][i] == level@[i].shape());
                    }
                }
                assert forall|m: int, i: int|
                    0 <= m < self.rooted_trees@.len() && 0 <= i < self.rooted_trees@[m]@.len() implies (#[trigger] self.rooted_trees@[m]@[i]).wf() by {
                    if m < before.len() {
                        assert(self.rooted_trees@[m] == before[m]);
                        assert(before[m]@[i].wf());
                    } else {
                        assert(self.rooted_trees@[m]@[i] == level@[i]);
                    }
                }
            }
        }
    }

    /// The trees with as many vertices as the next call is to hand out,
    /// before the cores are chosen among them.
    fn generate_trees(&mut self) -> (r: Vec<Node>)
        requires
            old(self).inv(),
            old(self).nvertices >= 2,
            old(self).nvertices * old(self).nvertices <= usize::MAX,
        ensures
            final(self).inv(),
            final(self).settings == old(self).settings,
            final(self).nvertices == old(self).nvertices,
            node_shapes(r@) == candidates(
                store_of((old(self).nvertices - 1) as nat, old(self).settings.max_arity, old(self).settings.core),
                old(self).nvertices as nat,
                old(self).settings.max_arity,
                old(self).settings.triad,
            ),
            forall|i: int| 0 <= i < r@.len() ==> (#[trigger] r@[i]).wf() && size(r@[i].shape()) == old(self).nvertices,
    {
        self.generate_rooted_trees();
        let n = self.nvertices;
        let ghost st = store_shapes(self.rooted_trees@);
        proof {
            assert(n < usize::MAX) by (nonlinear_arith)
                requires
                    n * n <= usize::MAX,
                    n >= 2,
            ;
        }
        if self.settings.triad {
            let arms = rooted_trees(&self.rooted_trees, n - 1, 3);
            let paths = keep_paths(&arms);
            proof {
                assert forall|i: int| 0 <= i < paths@.len() implies weight(shapes_of((#[trigger] paths@[i])@)) == n - 1
                    && forall|j: int| 0 <= j < paths@[i]@.len() ==> (#[trigger] paths@[i]@[j]).wf() by {
                    let t = choose|t: int| 0 <= t < arms@.len() && paths@[i]@ == arms@[t]@;
                    assert(weight(shapes_of(arms@[t]@)) == n - 1);
                    assert forall|j: int| 0 <= j < paths@[i]@.len() implies (#[trigger] paths@[i]@[j]).wf() by {
                        assert(arms@[t]@[j].wf());
                    }
                }
            }
            let made = join_all(&paths, n - 1);
            keep_shaped(&made, true, n)
        } else {
            let max_arity = self.settings.max_arity;
            let top = if max_arity < n {
                max_arity
            } else {
                n
            };
            let mut wide: Vec<Node> = Vec::new();
            let mut arity: usize = 2;
            assert(node_shapes(wide@) =~= wide_upto(st, n as nat, 1));
            while arity <= top
                invariant
                    2 <= arity,
                    arity <= top + 1 || arity == 2,
                    top <= n,
                    top == least(max_arity as nat, n as nat),
                    n < usize::MAX,
                    n >= 2,
                    n == self.nvertices,
                    self.rooted_trees@.len() == n - 1,
                    st == store_shapes(self.rooted_trees@),
                    sound(self.rooted_trees@),
                    sized(st),
                    node_shapes(wide@) == wide_upto(st, n as nat, arity - 1),
                    forall|i: int| 0 <= i < wide@.len() ==> (#[trigger] wide@[i]).wf() && size(wide@[i].shape()) == n,
                decreases top + 1 - arity,
            {
                let tuples = rooted_trees(&self.rooted_trees, n - 1, arity);
                let mut made = join_all(&tuples, n - 1);
                let ghost before = wide@;
                let ghost added = made@;
                wide.append(&mut made);
                proof {
                    assert(node_shapes(wide@) =~= node_shapes(before) + node_shapes(added));
                    assert forall|i: int| 0 <= i < wide@.len() implies (#[trigger] wide@[i]).wf() && size(
                        wide@[i].shape(),
                    ) == n by {
                        if i < before.len() {
                            assert(wide@[i] == before[i]);
                        } else {
                            assert(wide@[i] == added[i - before.len()]);
                        }
                    }
                }
                arity = arity + 1;
            }
            proof {
                if top < 2 {
                    assert(wide_upto(st, n as nat, top as int) == Seq::<Shape>::empty());
                    assert(wide_upto(st, n as nat, 1) == Seq::<Shape>::empty());
                }
                assert(node_shapes(wide@) == wide_upto(st, n as nat, top as int));
            }
            let mut found = keep_shaped(&wide, false, n);
            let pairs = rooted_trees(&self.rooted_trees, n, 2);
            let mut joined = join_pairs(&pairs, n);
            let ghost before = found@;
            let ghost added = joined@;
            found.append(&mut joined);
            proof {
                assert(node_shapes(found@) =~= node_shapes(before) + node_shapes(added));
                assert forall|i: int| 0 <= i < found@.len() implies (#[trigger] found@[i]).wf() && size(
                    found@[i].shape(),
                ) == n by {
                    if i < before.len() {
                        assert(found@[i] == before[i]);
                    } else {
                        assert(found@[i] == added[i - before.len()]);
                    }
                }
            }
            found
        }
    }

    /// The trees with the next number of vertices; the call after this one
    /// hands out those with one vertex more.
    ///
    /// With one vertex there is the one tree. With more, the trees are the
    /// triads, or the trees with a centre followed by the trees with two
    /// centres; where only cores are wanted, those of them that are found to
    /// be cores.
    pub fn generate(&mut self) -> (r: Vec<Node>)
        requires
            old(self).inv(),
            old(self).next() * old(self).next() <= usize::MAX,
            old(self).next() < usize::MAX,
        ensures
            final(self).inv(),
            final(self).next() == old(self).next() + 1,
            final(self).settings().max_arity == old(self).settings().max_arity,
            final(self).settings().core == old(self).settings().core,
            final(self).settings().triad == old(self).settings().triad,
            node_shapes(r@) == trees_of(
                old(self).next(),
                old(self).settings().max_arity,
                old(self).settings().core,
                old(self).settings().triad,
            ),
            forall|i: int| 0 <= i < r@.len() ==> (#[trigger] r@[i]).wf() && size(r@[i].shape()) == old(self).next(),
    {
        let n = self.nvertices;
        if n == 1 {
            let mut one: Vec<Node> = Vec::new();
            one.push(Node::leaf());
            self.nvertices = n + 1;
            proof {
                assert(node_shapes(one@) =~= seq![leaf_shape()]);
                assert(size(leaf_shape()) == 1) by {
                    assert(sizes(leaf_shape().kids, 0) == 0);
                }
            }
            return one;
        }
        let trees = self.generate_trees();
        let count = trees.len();
        let filtered = keep_trees(&trees, self.settings.core, n);
        match &mut self.settings.stats {
            Some(stats) => {
                stats.num_cc = count;
            },
            None => {},
        }
        self.nvertices = n + 1;
        filtered
    }
}

} // verus!
