//! The identities of each condition, as classes of terms that must get the
//! same value. A term is the number of an operation with a tuple of
//! vertices.

use vstd::prelude::*;

verus! {

/// A term: the number of an operation, and the tuple that it is applied to.
pub type Label = (usize, Vec<usize>);

/// A term as the contracts see it.
pub type Tag = (usize, Seq<usize>);

/// A polymorphism condition.
#[derive(Debug, Clone, Copy, PartialEq, Eq, Structural)]
pub enum Condition {
    Kmm,
    Siggers,
    Majority,
    Nu(usize),
    Wnu(usize),
    NoName(usize),
    Jonsson(usize),
    KearnesKiss(usize),
    HobbyMcKenzie(usize),
    HagemannMitschke(usize),
}

/// The term that `l` holds.
pub open spec fn tag(l: Label) -> Tag {
    (l.0, l.1@)
}

/// The terms that a class holds.
pub open spec fn tags(c: Seq<Label>) -> Seq<Tag> {
    Seq::new(c.len(), |k: int| tag(c[k]))
}

/// The classes that a list of classes holds.
pub open spec fn class_tags(p: Seq<Vec<Label>>) -> Seq<Seq<Tag>> {
    Seq::new(p.len(), |k: int| tags(p[k]@))
}

/// The tuple of length `k` that is `v` everywhere but at `j`, where it is
/// `w`.
pub open spec fn spread(k: nat, v: usize, w: usize, j: int) -> Seq<usize> {
    Seq::new(k, |t: int| if t == j { w } else { v })
}

/// The class of one near-unanimity identity: the tuples of length `k` that
/// are `v` everywhere but at one place, where they are `w`.
pub open spec fn spreads(k: nat, v: usize, w: usize) -> Seq<Tag> {
    Seq::new(k, |j: int| (0usize, spread(k, v, w, j)))
}

/// The same tuple under each of the operations 0 to `count - 1`.
pub open spec fn under_all(count: nat, t: Seq<usize>) -> Seq<Tag> {
    Seq::new(count, |i: int| (i as usize, t))
}

/// The class that the near-unanimity identities give `x` with the vertices
/// before place `upto`: all tuples that are `x` but at one place, where
/// they are another vertex.
pub open spec fn nu_class(vs: Seq<usize>, k: nat, x: usize, upto: int) -> Seq<Tag>
    decreases upto,
{
    if upto <= 0 {
        Seq::empty()
    } else {
        nu_class(vs, k, x, upto - 1) + (if vs[upto - 1] == x {
            Seq::empty()
        } else {
            spreads(k, x, vs[upto - 1])
        })
    }
}

/// The terms `j(x, y, x)` of a Jonsson chain for the vertices `y` before
/// place `upto`, under each operation.
pub open spec fn jonsson_id(vs: Seq<usize>, n: usize, x: usize, upto: int) -> Seq<Tag>
    decreases upto,
{
    if upto <= 0 {
        under_all((2 * n + 1) as nat, seq![x, x, x])
    } else {
        jonsson_id(vs, n, x, upto - 1) + (if vs[upto - 1] == x {
            Seq::empty()
        } else {
            under_all((2 * n + 1) as nat, seq![x, vs[upto - 1], x])
        })
    }
}

/// The end terms of a Kearnes-Kiss chain for `x`, `y` and the vertices `z`
/// before place `upto`.
pub open spec fn kk_ends(vs: Seq<usize>, n: usize, x: usize, y: usize, upto: int) -> Seq<Tag>
    decreases upto,
{
    if upto <= 0 {
        Seq::empty()
    } else {
        kk_ends(vs, n, x, y, upto - 1).push((0usize, seq![x, y, vs[upto - 1]])).push(
            (n, seq![y, vs[upto - 1], x]),
        )
    }
}

/// The class of end terms of a Kearnes-Kiss chain for `x` and the vertices
/// `y` before place `upto`.
pub open spec fn kk_id(vs: Seq<usize>, n: usize, x: usize, upto: int) -> Seq<Tag>
    decreases upto,
{
    if upto <= 0 {
        under_all((n + 1) as nat, seq![x, x, x])
    } else {
        kk_id(vs, n, x, upto - 1) + kk_ends(vs, n, x, vs[upto - 1], vs.len() as int)
    }
}

/// The classes that the Siggers identity gives `x`, `y` and one `z`.
pub open spec fn siggers_one(x: usize, y: usize, z: usize) -> Seq<Seq<Tag>> {
    if x != y || y != z {
        if y == z {
            seq![
                seq![(0usize, seq![x, y, z, x]), (0usize, seq![y, x, y, z]), (0usize, seq![x, z, x, y])],
            ]
        } else if x != z {
            seq![seq![(0usize, seq![x, y, z, x]), (0usize, seq![y, x, y, z])]]
        } else {
            Seq::empty()
        }
    } else {
        Seq::empty()
    }
}

/// The classes that the Siggers identity gives `x`, `y` and the vertices `z`
/// before place `upto`.
pub open spec fn siggers_row(vs: Seq<usize>, x: usize, y: usize, upto: int) -> Seq<Seq<Tag>>
    decreases upto,
{
    if upto <= 0 {
        Seq::empty()
    } else {
        siggers_row(vs, x, y, upto - 1) + siggers_one(x, y, vs[upto - 1])
    }
}

/// The chain lengths for which the numbers of the operations fit a `usize`.
pub open spec fn length_ok(c: Condition) -> bool {
    match c {
        Condition::NoName(n) => n < usize::MAX,
        Condition::Jonsson(n) => 2 * n + 2 <= usize::MAX,
        Condition::KearnesKiss(n) => n < usize::MAX,
        Condition::HobbyMcKenzie(n) => 2 * n + 3 <= usize::MAX,
        Condition::HagemannMitschke(n) => n < usize::MAX,
        _ => true,
    }
}

/// The classes that come before those of the pairs of `x`.
pub open spec fn head(c: Condition, vs: Seq<usize>, x: usize) -> Seq<Seq<Tag>> {
    match c {
        Condition::HobbyMcKenzie(n) => seq![under_all((2 * n + 3) as nat, seq![x, x, x])],
        _ => Seq::empty(),
    }
}

/// The classes that come behind those of the pairs of `x`.
pub open spec fn tail(c: Condition, vs: Seq<usize>, x: usize) -> Seq<Seq<Tag>> {
    match c {
        Condition::Nu(k) => seq![nu_class(vs, k as nat, x, vs.len() as int)],
        Condition::Jonsson(n) => seq![jonsson_id(vs, n, x, vs.len() as int)],
        Condition::KearnesKiss(n) => seq![kk_id(vs, n, x, vs.len() as int)],
        _ => Seq::empty(),
    }
}

/// The classes of the pair `x`, `y`.
pub open spec fn body(c: Condition, vs: Seq<usize>, x: usize, y: usize) -> Seq<Seq<Tag>> {
    match c {
        Condition::Kmm => (if x == y {
            seq![seq![(0usize, seq![x, x, x]), (1usize, seq![x, x, x])]]
        } else {
            Seq::empty()
        }) + seq![
            seq![(0usize, seq![x, y, y]), (1usize, seq![y, x, x]), (1usize, seq![x, x, y])],
            seq![(0usize, seq![x, y, x]), (1usize, seq![x, y, x])],
        ],
        Condition::Siggers => siggers_row(vs, x, y, vs.len() as int),
        Condition::Majority => if x == y {
            Seq::empty()
        } else {
            seq![spreads(3, x, y)]
        },
        Condition::Wnu(k) => if x == y {
            Seq::empty()
        } else {
            seq![spreads(k as nat, x, y)]
        },
        Condition::Nu(k) => Seq::empty(),
        Condition::NoName(n) => Seq::new(
            (2 * n) as nat,
            |k: int|
                if k % 2 == 0 {
                    seq![((k / 2) as usize, seq![x, x, y, x]), ((k / 2 + 1) as usize, seq![x, y, y, x])]
                } else {
                    seq![((k / 2) as usize, seq![x, x, y, y]), ((k / 2 + 1) as usize, seq![x, y, y, y])]
                },
        ),
        Condition::Jonsson(n) => if x == y {
            Seq::empty()
        } else {
            Seq::new(
                (2 * n) as nat,
                |k: int|
                    if k % 2 == 0 {
                        seq![((k) as usize, seq![x, y, y]), ((k + 1) as usize, seq![x, y, y])]
                    } else {
                        seq![((k) as usize, seq![x, x, y]), ((k + 1) as usize, seq![x, x, y])]
                    },
            ) + seq![
                seq![(0usize, seq![x, x, x]), (0usize, seq![x, x, y])],
                seq![((2 * n) as usize, seq![y, y, y]), ((2 * n) as usize, seq![x, y, y])],
            ]
        },
        Condition::KearnesKiss(n) => Seq::new(
            (2 * ((n + 1) / 2)) as nat,
            |k: int|
                if k % 2 == 0 {
                    seq![((k) as usize, seq![x, y, y]), ((k + 1) as usize, seq![x, y, y])]
                } else {
                    seq![((k - 1) as usize, seq![x, y, x]), ((k) as usize, seq![x, y, x])]
                },
        ) + Seq::new(
            (n / 2) as nat,
            |t: int| seq![((2 * t + 1) as usize, seq![x, x, y]), ((2 * t + 2) as usize, seq![x, x, y])],
        ),
        Condition::HobbyMcKenzie(n) => if x == y {
            Seq::empty()
        } else {
            seq![
                seq![(n, seq![x, y, y]), ((n + 1) as usize, seq![x, y, y])],
                seq![((n + 1) as usize, seq![x, x, y]), ((n + 2) as usize, seq![x, x, y])],
            ] + Seq::new(
                (3 * ((n + 1) / 2)) as nat,
                |k: int|
                    if k % 3 == 0 {
                        seq![((2 * (k / 3)) as usize, seq![x, y, y]), ((2 * (k / 3) + 1) as usize, seq![x, y, y])]
                    } else if k % 3 == 1 {
                        seq![
                            ((2 * (k / 3) + n + 2) as usize, seq![x, y, y]),
                            ((2 * (k / 3) + n + 3) as usize, seq![x, y, y]),
                        ]
                    } else {
                        seq![
                            ((2 * (k / 3) + n + 2) as usize, seq![x, y, x]),
                            ((2 * (k / 3) + n + 3) as usize, seq![x, y, x]),
                        ]
                    },
            ) + Seq::new(
                (3 * (n / 2)) as nat,
                |k: int|
                    if k % 3 == 0 {
                        seq![
                            ((2 * (k / 3) + 1) as usize, seq![x, x, y]),
                            ((2 * (k / 3) + 2) as usize, seq![x, x, y]),
                        ]
                    } else if k % 3 == 1 {
                        seq![
                            ((2 * (k / 3) + 1) as usize, seq![x, y, x]),
                            ((2 * (k / 3) + 2) as usize, seq![x, y, x]),
                        ]
                    } else {
                        seq![
                            ((2 * (k / 3) + 1 + n + 2) as usize, seq![x, x, y]),
                            ((2 * (k / 3) + 1 + n + 3) as usize, seq![x, x, y]),
                        ]
                    },
            )
        },
        Condition::HagemannMitschke(n) => Seq::new(
            n as nat,
            |i: int| seq![(i as usize, seq![x, x, y]), ((i + 1) as usize, seq![x, y, y])],
        ),
    }
}

/// The classes of `x` with the vertices before place `upto`.
pub open spec fn row(c: Condition, vs: Seq<usize>, x: usize, upto: int) -> Seq<Seq<Tag>>
    decreases upto,
{
    if upto <= 0 {
        Seq::empty()
    } else {
        row(c, vs, x, upto - 1) + body(c, vs, x, vs[upto - 1])
    }
}

/// The classes of the vertices before place `upto`.
pub open spec fn rows(c: Condition, vs: Seq<usize>, upto: int) -> Seq<Seq<Tag>>
    decreases upto,
{
    if upto <= 0 {
        Seq::empty()
    } else {
        rows(c, vs, upto - 1) + head(c, vs, vs[upto - 1]) + row(c, vs, vs[upto - 1], vs.len() as int)
            + tail(c, vs, vs[upto - 1])
    }
}

/// The classes of terms that condition `c` identifies over the vertices
/// `vs`: for each vertex in turn what comes before its pairs, the classes of
/// its pairs with each vertex in turn, and what comes behind them.
pub open spec fn classes(c: Condition, vs: Seq<usize>) -> Seq<Seq<Tag>> {
    rows(c, vs, vs.len() as int)
}

/// The tuple of three vertices.
pub fn t3(a: usize, b: usize, c: usize) -> (r: Vec<usize>)
    ensures
        r@ == seq![a, b, c],
{
    let mut r: Vec<usize> = Vec::new();
    r.push(a);
    r.push(b);
    r.push(c);
    assert(r@ =~= seq![a, b, c]);
    r
}

/// The tuple of four vertices.
pub fn t4(a: usize, b: usize, c: usize, d: usize) -> (r: Vec<usize>)
    ensures
        r@ == seq![a, b, c, d],
{
    let mut r: Vec<usize> = Vec::new();
    r.push(a);
    r.push(b);
    r.push(c);
    r.push(d);
    assert(r@ =~= seq![a, b, c, d]);
    r
}

/// The class of two terms.
pub fn class2(a: Label, b: Label) -> (r: Vec<Label>)
    ensures
        tags(r@) == seq![tag(a), tag(b)],
{
    let mut r: Vec<Label> = Vec::new();
    r.push(a);
    r.push(b);
    assert(tags(r@) =~= seq![tag(a), tag(b)]);
    r
}

/// The class of three terms.
pub fn class3(a: Label, b: Label, c: Label) -> (r: Vec<Label>)
    ensures
        tags(r@) == seq![tag(a), tag(b), tag(c)],
{
    let mut r: Vec<Label> = Vec::new();
    r.push(a);
    r.push(b);
    r.push(c);
    assert(tags(r@) =~= seq![tag(a), tag(b), tag(c)]);
    r
}

/// Appends a class to a list of classes.
pub fn put(p: &mut Vec<Vec<Label>>, c: Vec<Label>)
    ensures
        class_tags(final(p)@) == class_tags(old(p)@).push(tags(c@)),
        final(p)@ == old(p)@.push(c),
{
    p.push(c);
    assert(class_tags(p@) =~= class_tags(old(p)@).push(tags(c@)));
}

/// Appends a term to a class.
pub fn push_term(c: &mut Vec<Label>, l: Label)
    ensures
        tags(final(c)@) == tags(old(c)@).push(tag(l)),
{
    c.push(l);
    assert(tags(c@) =~= tags(old(c)@).push(tag(l)));
}

/// Appends classes to a list of classes.
pub fn put_all(p: &mut Vec<Vec<Label>>, more: Vec<Vec<Label>>)
    ensures
        class_tags(final(p)@) == class_tags(old(p)@) + class_tags(more@),
{
    let ghost given = more@;
    let mut more = more;
    p.append(&mut more);
    assert(class_tags(p@) =~= class_tags(old(p)@) + class_tags(given));
}

/// Appends the terms of `more` to a class.
pub fn add_all(c: &mut Vec<Label>, more: Vec<Label>)
    ensures
        tags(final(c)@) == tags(old(c)@) + tags(more@),
{
    let ghost given = more@;
    let mut more = more;
    c.append(&mut more);
    assert(tags(c@) =~= tags(old(c)@) + tags(given));
}

/// The tuple under each of the operations 0 to `count - 1`.
pub fn under_all_exec(count: usize, a: usize, b: usize, c: usize) -> (r: Vec<Label>)
    ensures
        tags(r@) == under_all(count as nat, seq![a, b, c]),
{
    let mut r: Vec<Label> = Vec::new();
    let mut i: usize = 0;
    while i < count
        invariant
            i <= count,
            tags(r@) == under_all(count as nat, seq![a, b, c]).take(i as int),
        decreases count - i,
    {
        push_term(&mut r, (i, t3(a, b, c)));
        proof {
            let all = under_all(count as nat, seq![a, b, c]);
            assert(all.take(i as int + 1) =~= all.take(i as int).push(all[i as int]));
        }
        i = i + 1;
    }
    proof {
        let all = under_all(count as nat, seq![a, b, c]);
        assert(all.take(count as int) =~= all);
    }
    r
}

/// The class of one near-unanimity identity.
pub fn spreads_exec(k: usize, v: usize, w: usize) -> (r: Vec<Label>)
    ensures
        tags(r@) == spreads(k as nat, v, w),
{
    let mut r: Vec<Label> = Vec::new();
    let mut j: usize = 0;
    while j < k
        invariant
            j <= k,
            tags(r@) == spreads(k as nat, v, w).take(j as int),
        decreases k - j,
    {
        let mut t: Vec<usize> = Vec::new();
        let mut i: usize = 0;
        while i < k
            invariant
                i <= k,
                j < k,
                t.len() == i,
                forall|a: int| 0 <= a < i ==> #[trigger] t[a] == (if a == j { w } else { v }),
            decreases k - i,
        {
            t.push(if i == j { w } else { v });
            i = i + 1;
        }
        proof {
            assert(t@ =~= spread(k as nat, v, w, j as int));
        }
        push_term(&mut r, (0, t));
        proof {
            let all = spreads(k as nat, v, w);
            assert(all.take(j as int + 1) =~= all.take(j as int).push(all[j as int]));
        }
        j = j + 1;
    }
    proof {
        let all = spreads(k as nat, v, w);
        assert(all.take(k as int) =~= all);
    }
    r
}

/// The classes that come before those of the pairs of `x`.
pub fn head_exec(c: Condition, vs: &Vec<usize>, x: usize) -> (r: Vec<Vec<Label>>)
    requires
        length_ok(c),
    ensures
        class_tags(r@) == head(c, vs@, x),
{
    let mut r: Vec<Vec<Label>> = Vec::new();
    match c {
        Condition::HobbyMcKenzie(n) => {
            put(&mut r, under_all_exec(2 * n + 3, x, x, x));
            assert(class_tags(r@) =~= head(c, vs@, x));
        },
        _ => {
            assert(class_tags(r@) =~= head(c, vs@, x));
        },
    }
    r
}

/// The classes that come behind those of the pairs of `x`.
pub fn tail_exec(c: Condition, vs: &Vec<usize>, x: usize) -> (r: Vec<Vec<Label>>)
    requires
        length_ok(c),
    ensures
        class_tags(r@) == tail(c, vs@, x),
{
    let mut r: Vec<Vec<Label>> = Vec::new();
    match c {
        Condition::Nu(k) => {
            let mut class: Vec<Label> = Vec::new();
            let mut j: usize = 0;
            assert(tags(class@) =~= nu_class(vs@, k as nat, x, 0));
            while j < vs.len()
                invariant
                    j <= vs.len(),
                    tags(class@) == nu_class(vs@, k as nat, x, j as int),
                decreases vs.len() - j,
            {
                let w = vs[j];
                if w != x {
                    add_all(&mut class, spreads_exec(k, x, w));
                } else {
                    assert(tags(class@) + Seq::<Tag>::empty() =~= tags(class@));
                }
                j = j + 1;
            }
            put(&mut r, class);
            assert(class_tags(r@) =~= tail(c, vs@, x));
        },
        Condition::Jonsson(n) => {
            let mut class = under_all_exec(2 * n + 1, x, x, x);
            let mut j: usize = 0;
            while j < vs.len()
                invariant
                    j <= vs.len(),
                    2 * n + 2 <= usize::MAX,
                    tags(class@) == jonsson_id(vs@, n, x, j as int),
                decreases vs.len() - j,
            {
                let y = vs[j];
                if y != x {
                    add_all(&mut class, under_all_exec(2 * n + 1, x, y, x));
                } else {
                    assert(tags(class@) + Seq::<Tag>::empty() =~= tags(class@));
                }
                j = j + 1;
            }
            put(&mut r, class);
            assert(class_tags(r@) =~= tail(c, vs@, x));
        },
        Condition::KearnesKiss(n) => {
            let mut class = under_all_exec(n + 1, x, x, x);
            let mut j: usize = 0;
            while j < vs.len()
                invariant
                    j <= vs.len(),
                    tags(class@) == kk_id(vs@, n, x, j as int),
                decreases vs.len() - j,
            {
                let y = vs[j];
                let ghost before = tags(class@);
                let mut k: usize = 0;
                assert(before + kk_ends(vs@, n, x, y, 0) =~= before);
                while k < vs.len()
                    invariant
                        k <= vs.len(),
                        tags(class@) == before + kk_ends(vs@, n, x, y, k as int),
                    decreases vs.len() - k,
                {
                    let z = vs[k];
                    push_term(&mut class, (0, t3(x, y, z)));
                    push_term(&mut class, (n, t3(y, z, x)));
                    proof {
                        assert(before + kk_ends(vs@, n, x, y, k as int + 1) =~= (before + kk_ends(
                            vs@,
                            n,
                            x,
                            y,
                            k as int,
                        )).push((0usize, seq![x, y, z])).push((n, seq![y, z, x])));
                    }
                    k = k + 1;
                }
                j = j + 1;
            }
            put(&mut r, class);
            assert(class_tags(r@) =~= tail(c, vs@, x));
        },
        _ => {
            assert(class_tags(r@) =~= tail(c, vs@, x));
        },
    }
    r
}

/// The class of the same two tuples under two operations.
fn step3(f: usize, g: usize, a: usize, b: usize, c: usize) -> (r: Vec<Label>)
    ensures
        tags(r@) == seq![(f, seq![a, b, c]), (g, seq![a, b, c])],
{
    class2((f, t3(a, b, c)), (g, t3(a, b, c)))
}

fn body_kmm(x: usize, y: usize) -> (r: Vec<Vec<Label>>)
    ensures
        class_tags(r@) == body(Condition::Kmm, Seq::empty(), x, y),
{
    let mut r: Vec<Vec<Label>> = Vec::new();
    if x == y {
        put(&mut r, class2((0, t3(x, x, x)), (1, t3(x, x, x))));
    }
    put(&mut r, class3((0, t3(x, y, y)), (1, t3(y, x, x)), (1, t3(x, x, y))));
    put(&mut r, class2((0, t3(x, y, x)), (1, t3(x, y, x))));
    assert(class_tags(r@) =~= body(Condition::Kmm, Seq::empty(), x, y));
    r
}

fn body_siggers(vs: &Vec<usize>, x: usize, y: usize) -> (r: Vec<Vec<Label>>)
    ensures
        class_tags(r@) == body(Condition::Siggers, vs@, x, y),
{
    let mut r: Vec<Vec<Label>> = Vec::new();
    let mut k: usize = 0;
    assert(class_tags(r@) =~= siggers_row(vs@, x, y, 0));
    while k < vs.len()
        invariant
            k <= vs.len(),
            class_tags(r@) == siggers_row(vs@, x, y, k as int),
        decreases vs.len() - k,
    {
        let z = vs[k];
        let ghost before = class_tags(r@);
        if x != y || y != z {
            if y == z {
                put(
                    &mut r,
                    class3((0, t4(x, y, z, x)), (0, t4(y, x, y, z)), (0, t4(x, z, x, y))),
                );
            } else if x != z {
                put(&mut r, class2((0, t4(x, y, z, x)), (0, t4(y, x, y, z))));
            }
        }
        assert(class_tags(r@) =~= before + siggers_one(x, y, z));
        k = k + 1;
    }
    r
}

fn body_wnu(c: Condition, k: usize, x: usize, y: usize) -> (r: Vec<Vec<Label>>)
    requires
        c == Condition::Wnu(k) || (c == Condition::Majority && k == 3),
    ensures
        class_tags(r@) == body(c, Seq::empty(), x, y),
{
    let mut r: Vec<Vec<Label>> = Vec::new();
    if x != y {
        put(&mut r, spreads_exec(k, x, y));
    }
    assert(class_tags(r@) =~= body(c, Seq::empty(), x, y));
    r
}

fn body_noname(n: usize, x: usize, y: usize) -> (r: Vec<Vec<Label>>)
    requires
        n < usize::MAX,
    ensures
        class_tags(r@) == body(Condition::NoName(n), Seq::empty(), x, y),
{
    let ghost all = body(Condition::NoName(n), Seq::empty(), x, y);
    let mut r: Vec<Vec<Label>> = Vec::new();
    let mut i: usize = 0;
    assert(class_tags(r@) =~= all.take(0));
    while i < n
        invariant
            i <= n < usize::MAX,
            all == body(Condition::NoName(n), Seq::empty(), x, y),
            class_tags(r@) == all.take(2 * i),
        decreases n - i,
    {
        put(&mut r, class2((i, t4(x, x, y, x)), (i + 1, t4(x, y, y, x))));
        put(&mut r, class2((i, t4(x, x, y, y)), (i + 1, t4(x, y, y, y))));
        proof {
            assert(all.take(2 * i + 2) =~= all.take(2 * i).push(all[2 * i]).push(all[2 * i + 1]));
        }
        i = i + 1;
    }
    assert(all.take(2 * n) =~= all);
    r
}

fn body_hm(n: usize, x: usize, y: usize) -> (r: Vec<Vec<Label>>)
    requires
        n < usize::MAX,
    ensures
        class_tags(r@) == body(Condition::HagemannMitschke(n), Seq::empty(), x, y),
{
    let ghost all = body(Condition::HagemannMitschke(n), Seq::empty(), x, y);
    let mut r: Vec<Vec<Label>> = Vec::new();
    let mut i: usize = 0;
    assert(class_tags(r@) =~= all.take(0));
    while i < n
        invariant
            i <= n < usize::MAX,
            all == body(Condition::HagemannMitschke(n), Seq::empty(), x, y),
            class_tags(r@) == all.take(i as int),
        decreases n - i,
    {
        put(&mut r, class2((i, t3(x, x, y)), (i + 1, t3(x, y, y))));
        proof {
            assert(all.take(i + 1) =~= all.take(i as int).push(all[i as int]));
        }
        i = i + 1;
    }
    assert(all.take(n as int) =~= all);
    r
}

fn body_jonsson(n: usize, x: usize, y: usize) -> (r: Vec<Vec<Label>>)
    requires
        2 * n + 2 <= usize::MAX,
    ensures
        class_tags(r@) == body(Condition::Jonsson(n), Seq::empty(), x, y),
{
    let mut r: Vec<Vec<Label>> = Vec::new();
    if x == y {
        assert(class_tags(r@) =~= body(Condition::Jonsson(n), Seq::empty(), x, y));
        return r;
    }
    let ghost chain = Seq::new(
        (2 * n) as nat,
        |k: int|
            if k % 2 == 0 {
                seq![((k) as usize, seq![x, y, y]), ((k + 1) as usize, seq![x, y, y])]
            } else {
                seq![((k) as usize, seq![x, x, y]), ((k + 1) as usize, seq![x, x, y])]
            },
    );
    let mut i: usize = 0;
    assert(class_tags(r@) =~= chain.take(0));
    while i < n
        invariant
            i <= n,
            2 * n + 2 <= usize::MAX,
            chain == Seq::new(
                (2 * n) as nat,
                |k: int|
                    if k % 2 == 0 {
                        seq![((k) as usize, seq![x, y, y]), ((k + 1) as usize, seq![x, y, y])]
                    } else {
                        seq![((k) as usize, seq![x, x, y]), ((k + 1) as usize, seq![x, x, y])]
                    },
            ),
            class_tags(r@) == chain.take(2 * i),
        decreases n - i,
    {
        put(&mut r, step3(2 * i, 2 * i + 1, x, y, y));
        put(&mut r, step3(2 * i + 1, 2 * i + 2, x, x, y));
        proof {
            assert(chain.take(2 * i + 2) =~= chain.take(2 * i).push(chain[2 * i]).push(chain[2 * i + 1]));
        }
        i = i + 1;
    }
    assert(chain.take(2 * n) =~= chain);
    put(&mut r, class2((0, t3(x, x, x)), (0, t3(x, x, y))));
    put(&mut r, class2((2 * n, t3(y, y, y)), (2 * n, t3(x, y, y))));
    assert(class_tags(r@) =~= body(Condition::Jonsson(n), Seq::empty(), x, y));
    r
}

fn body_kk(n: usize, x: usize, y: usize) -> (r: Vec<Vec<Label>>)
    requires
        n < usize::MAX,
    ensures
        class_tags(r@) == body(Condition::KearnesKiss(n), Seq::empty(), x, y),
{
    let ghost evens = Seq::new(
        (2 * ((n + 1) / 2)) as nat,
        |k: int|
            if k % 2 == 0 {
                seq![((k) as usize, seq![x, y, y]), ((k + 1) as usize, seq![x, y, y])]
            } else {
                seq![((k - 1) as usize, seq![x, y, x]), ((k) as usize, seq![x, y, x])]
            },
    );
    let ghost odds = Seq::new(
        (n / 2) as nat,
        |t: int| seq![((2 * t + 1) as usize, seq![x, x, y]), ((2 * t + 2) as usize, seq![x, x, y])],
    );
    let mut r: Vec<Vec<Label>> = Vec::new();
    let mut i: usize = 0;
    let ghost mut t: int = 0;
    assert(class_tags(r@) =~= evens.take(0));
    while i < n
        invariant
            n < usize::MAX,
            i == 2 * t,
            0 <= t <= (n + 1) / 2,
            evens == Seq::new(
                (2 * ((n + 1) / 2)) as nat,
                |k: int|
                    if k % 2 == 0 {
                        seq![((k) as usize, seq![x, y, y]), ((k + 1) as usize, seq![x, y, y])]
                    } else {
                        seq![((k - 1) as usize, seq![x, y, x]), ((k) as usize, seq![x, y, x])]
                    },
            ),
            class_tags(r@) == evens.take(2 * t),
        decreases n + 2 - i,
    {
        put(&mut r, step3(i, i + 1, x, y, y));
        put(&mut r, step3(i, i + 1, x, y, x));
        proof {
            assert(evens.take(2 * t + 2) =~= evens.take(2 * t).push(evens[2 * t]).push(evens[2 * t + 1]));
            t = t + 1;
        }
        i = i + 2;
    }
    proof {
        assert(t == (n + 1) / 2);
        assert(evens.take(2 * t) =~= evens);
    }
    let mut j: usize = 1;
    let ghost mut u: int = 0;
    let ghost done = class_tags(r@);
    assert(done + odds.take(0) =~= done);
    while j < n
        invariant
            n < usize::MAX,
            j == 2 * u + 1,
            0 <= u <= n / 2,
            odds == Seq::new(
                (n / 2) as nat,
                |t: int| seq![((2 * t + 1) as usize, seq![x, x, y]), ((2 * t + 2) as usize, seq![x, x, y])],
            ),
            class_tags(r@) == done + odds.take(u),
        decreases n + 2 - j,
    {
        put(&mut r, step3(j, j + 1, x, x, y));
        proof {
            assert(odds.take(u + 1) =~= odds.take(u).push(odds[u]));
            assert(done + odds.take(u + 1) =~= (done + odds.take(u)).push(odds[u]));
            u = u + 1;
        }
        j = j + 2;
    }
    proof {
        assert(u == n / 2);
        assert(odds.take(u) =~= odds);
        assert(class_tags(r@) =~= body(Condition::KearnesKiss(n), Seq::empty(), x, y));
    }
    r
}

fn body_hmck(n: usize, x: usize, y: usize) -> (r: Vec<Vec<Label>>)
    requires
        2 * n + 3 <= usize::MAX,
    ensures
        class_tags(r@) == body(Condition::HobbyMcKenzie(n), Seq::empty(), x, y),
{
    let mut r: Vec<Vec<Label>> = Vec::new();
    if x == y {
        assert(class_tags(r@) =~= body(Condition::HobbyMcKenzie(n), Seq::empty(), x, y));
        return r;
    }
    let ghost evens = Seq::new(
        (3 * ((n + 1) / 2)) as nat,
        |k: int|
            if k % 3 == 0 {
                seq![((2 * (k / 3)) as usize, seq![x, y, y]), ((2 * (k / 3) + 1) as usize, seq![x, y, y])]
            } else if k % 3 == 1 {
                seq![
                    ((2 * (k / 3) + n + 2) as usize, seq![x, y, y]),
                    ((2 * (k / 3) + n + 3) as usize, seq![x, y, y]),
                ]
            } else {
                seq![
                    ((2 * (k / 3) + n + 2) as usize, seq![x, y, x]),
                    ((2 * (k / 3) + n + 3) as usize, seq![x, y, x]),
                ]
            },
    );
    let ghost odds = Seq::new(
        (3 * (n / 2)) as nat,
        |k: int|
            if k % 3 == 0 {
                seq![((2 * (k / 3) + 1) as usize, seq![x, x, y]), ((2 * (k / 3) + 2) as usize, seq![x, x, y])]
            } else if k % 3 == 1 {
                seq![((2 * (k / 3) + 1) as usize, seq![x, y, x]), ((2 * (k / 3) + 2) as usize, seq![x, y, x])]
            } else {
                seq![
                    ((2 * (k / 3) + 1 + n + 2) as usize, seq![x, x, y]),
                    ((2 * (k / 3) + 1 + n + 3) as usize, seq![x, x, y]),
                ]
            },
    );
    put(&mut r, step3(n, n + 1, x, y, y));
    put(&mut r, step3(n + 1, n + 2, x, x, y));
    let ghost first = class_tags(r@);
    let mut j: usize = 0;
    let ghost mut t: int = 0;
    assert(first + evens.take(0) =~= first);
    while j < n
        invariant
            2 * n + 3 <= usize::MAX,
            j == 2 * t,
            0 <= t <= (n + 1) / 2,
            evens == Seq::new(
                (3 * ((n + 1) / 2)) as nat,
                |k: int|
                    if k % 3 == 0 {
                        seq![
                            ((2 * (k / 3)) as usize, seq![x, y, y]),
                            ((2 * (k / 3) + 1) as usize, seq![x, y, y]),
                        ]
                    } else if k % 3 == 1 {
                        seq![
                            ((2 * (k / 3) + n + 2) as usize, seq![x, y, y]),
                            ((2 * (k / 3) + n + 3) as usize, seq![x, y, y]),
                        ]
                    } else {
                        seq![
                            ((2 * (k / 3) + n + 2) as usize, seq![x, y, x]),
                            ((2 * (k / 3) + n + 3) as usize, seq![x, y, x]),
                        ]
                    },
            ),
            class_tags(r@) == first + evens.take(3 * t),
        decreases n + 2 - j,
    {
        put(&mut r, step3(j, j + 1, x, y, y));
        put(&mut r, step3(j + n + 2, j + n + 3, x, y, y));
        put(&mut r, step3(j + n + 2, j + n + 3, x, y, x));
        proof {
            assert(evens.take(3 * t + 3) =~= evens.take(3 * t).push(evens[3 * t]).push(evens[3 * t + 1]).push(
                evens[3 * t + 2],
            ));
            assert(first + evens.take(3 * t + 3) =~= (first + evens.take(3 * t)).push(evens[3 * t]).push(
                evens[3 * t + 1],
            ).push(evens[3 * t + 2]));
            t = t + 1;
        }
        j = j + 2;
    }
    proof {
        assert(t == (n + 1) / 2);
        assert(evens.take(3 * t) =~= evens);
    }
    let ghost second = class_tags(r@);
    let mut j: usize = 1;
    let ghost mut u: int = 0;
    assert(second + odds.take(0) =~= second);
    while j < n
        invariant
            2 * n + 3 <= usize::MAX,
            j == 2 * u + 1,
            0 <= u <= n / 2,
            odds == Seq::new(
                (3 * (n / 2)) as nat,
                |k: int|
                    if k % 3 == 0 {
                        seq![
                            ((2 * (k / 3) + 1) as usize, seq![x, x, y]),
                            ((2 * (k / 3) + 2) as usize, seq![x, x, y]),
                        ]
                    } else if k % 3 == 1 {
                        seq![
                            ((2 * (k / 3) + 1) as usize, seq![x, y, x]),
                            ((2 * (k / 3) + 2) as usize, seq![x, y, x]),
                        ]
                    } else {
                        seq![
                            ((2 * (k / 3) + 1 + n + 2) as usize, seq![x, x, y]),
                            ((2 * (k / 3) + 1 + n + 3) as usize, seq![x, x, y]),
                        ]
                    },
            ),
            class_tags(r@) == second + odds.take(3 * u),
        decreases n + 2 - j,
    {
        put(&mut r, step3(j, j + 1, x, x, y));
        put(&mut r, step3(j, j + 1, x, y, x));
        put(&mut r, step3(j + n + 2, j + n + 3, x, x, y));
        proof {
            assert(odds.take(3 * u + 3) =~= odds.take(3 * u).push(odds[3 * u]).push(odds[3 * u + 1]).push(
                odds[3 * u + 2],
            ));
            assert(second + odds.take(3 * u + 3) =~= (second + odds.take(3 * u)).push(odds[3 * u]).push(
                odds[3 * u + 1],
            ).push(odds[3 * u + 2]));
            u = u + 1;
        }
        j = j + 2;
    }
    proof {
        assert(u == n / 2);
        assert(odds.take(3 * u) =~= odds);
        assert(class_tags(r@) =~= body(Condition::HobbyMcKenzie(n), Seq::empty(), x, y));
    }
    r
}

/// The body of a pair does not depend on the other vertices, but for the
/// Siggers identity.
pub proof fn lemma_body_local(c: Condition, vs: Seq<usize>, x: usize, y: usize)
    requires
        c != Condition::Siggers,
    ensures
        body(c, vs, x, y) == body(c, Seq::empty(), x, y),
{
}

/// The classes of the pair `x`, `y`.
pub fn body_exec(c: Condition, vs: &Vec<usize>, x: usize, y: usize) -> (r: Vec<Vec<Label>>)
    requires
        length_ok(c),
    ensures
        class_tags(r@) == body(c, vs@, x, y),
{
    proof {
        if c != Condition::Siggers {
            lemma_body_local(c, vs@, x, y);
        }
    }
    match c {
        Condition::Kmm => body_kmm(x, y),
        Condition::Siggers => body_siggers(vs, x, y),
        Condition::Majority => body_wnu(c, 3, x, y),
        Condition::Wnu(k) => body_wnu(c, k, x, y),
        Condition::Nu(_) => {
            let r: Vec<Vec<Label>> = Vec::new();
            assert(class_tags(r@) =~= body(c, vs@, x, y));
            r
        },
        Condition::NoName(n) => body_noname(n, x, y),
        Condition::Jonsson(n) => body_jonsson(n, x, y),
        Condition::KearnesKiss(n) => body_kk(n, x, y),
        Condition::HobbyMcKenzie(n) => body_hmck(n, x, y),
        Condition::HagemannMitschke(n) => body_hm(n, x, y),
    }
}

/// The classes of terms that condition `c` identifies over the vertices
/// `vertices`.
pub fn eq_classes(c: Condition, vertices: &Vec<usize>) -> (r: Vec<Vec<Label>>)
    requires
        length_ok(c),
    ensures
        class_tags(r@) == classes(c, vertices@),
{
    let mut partition: Vec<Vec<Label>> = Vec::new();
    let mut i: usize = 0;
    assert(class_tags(partition@) =~= rows(c, vertices@, 0));
    while i < vertices.len()
        invariant
            i <= vertices.len(),
            length_ok(c),
            class_tags(partition@) == rows(c, vertices@, i as int),
        decreases vertices.len() - i,
    {
        let x = vertices[i];
        let ghost before = class_tags(partition@);
        put_all(&mut partition, head_exec(c, vertices, x));
        let ghost start = class_tags(partition@);
        let mut j: usize = 0;
        assert(start + row(c, vertices@, x, 0) =~= start);
        while j < vertices.len()
            invariant
                j <= vertices.len(),
                length_ok(c),
                class_tags(partition@) == start + row(c, vertices@, x, j as int),
            decreases vertices.len() - j,
        {
            let y = vertices[j];
            put_all(&mut partition, body_exec(c, vertices, x, y));
            proof {
                assert(start + row(c, vertices@, x, j as int + 1) =~= (start + row(c, vertices@, x, j as int))
                    + body(c, vertices@, x, y));
            }
            j = j + 1;
        }
        put_all(&mut partition, tail_exec(c, vertices, x));
        proof {
            assert(class_tags(partition@) =~= before + head(c, vertices@, x) + row(
                c,
                vertices@,
                x,
                vertices@.len() as int,
            ) + tail(c, vertices@, x));
        }
        i = i + 1;
    }
    partition
}

} // verus!
