//! The problem of deciding whether a graph has polymorphisms that satisfy a
//! condition, turned into a colouring problem.

use vstd::prelude::*;
use vstd::string::StringExecFns;
use crate::algebra::classes::{length_ok, Condition, Label, Tag};
use crate::text::{chars_of, is_word, lowered, parse_usize, parsed, to_lower};

verus! {

/// What a name that is no condition is answered with.
pub open spec fn unknown() -> Seq<char> {
    "unknown Condition, cannot convert from str"@
}

/// The place of the first hyphen of `s` from `from` on, or the length of
/// `s` where there is none.
pub open spec fn hyphen(s: Seq<char>, from: int) -> int
    decreases s.len() - from,
{
    if from >= s.len() {
        s.len() as int
    } else if s[from] == '-' {
        from
    } else {
        hyphen(s, from + 1)
    }
}

/// The condition that the number `n` and the suffix `su` name.
pub open spec fn chained(n: usize, su: Seq<char>) -> Option<Condition> {
    if su == "wnu"@ {
        Some(Condition::Wnu(n))
    } else if su == "nu"@ {
        Some(Condition::Nu(n))
    } else if su == "j"@ {
        Some(Condition::Jonsson(n))
    } else if su == "hm"@ {
        Some(Condition::HagemannMitschke(n))
    } else if su == "kk"@ {
        Some(Condition::KearnesKiss(n))
    } else if su == "hmck"@ {
        Some(Condition::HobbyMcKenzie(n))
    } else if su == "nn"@ {
        Some(Condition::NoName(n))
    } else {
        None
    }
}

/// The condition that `s` names: `majority`, `siggers` or `kmm` in any
/// case, or a number, a hyphen and one of `wnu`, `nu`, `j`, `hm`, `kk`,
/// `hmck`, `nn`.
pub open spec fn named(s: Seq<char>) -> Option<Condition> {
    if lowered(s) == "majority"@ {
        Some(Condition::Majority)
    } else if lowered(s) == "siggers"@ {
        Some(Condition::Siggers)
    } else if lowered(s) == "kmm"@ {
        Some(Condition::Kmm)
    } else {
        let h = hyphen(s, 0);
        if h >= s.len() {
            None
        } else {
            match parsed(s.subrange(0, h)) {
                Some(n) => chained(n, s.subrange(h + 1, s.len() as int)),
                None => None,
            }
        }
    }
}

impl Condition {
    /// The condition that `s` names, or the message that it names none.
    pub fn from_str(s: &str) -> (r: Result<Condition, String>)
        ensures
            match r {
                Ok(c) => named(s@) == Some(c),
                Err(e) => named(s@).is_none() && e@ == unknown(),
            },
    {
        let v = chars_of(s);
        let mut low: Vec<char> = Vec::new();
        let mut k: usize = 0;
        while k < v.len()
            invariant
                k <= v.len(),
                low.len() == k,
                forall|j: int| 0 <= j < k ==> #[trigger] low[j] == crate::text::lower(v[j]),
            decreases v.len() - k,
        {
            low.push(to_lower(v[k]));
            k = k + 1;
        }
        proof {
            assert(low@ =~= lowered(v@));
            assert(low@.subrange(0, low@.len() as int) =~= low@);
        }
        if is_word(&low, 0, low.len(), "majority") {
            return Ok(Condition::Majority);
        }
        if is_word(&low, 0, low.len(), "siggers") {
            return Ok(Condition::Siggers);
        }
        if is_word(&low, 0, low.len(), "kmm") {
            return Ok(Condition::Kmm);
        }
        let mut h: usize = 0;
        while h < v.len() && v[h] != '-'
            invariant
                h <= v.len(),
                hyphen(v@, 0) == hyphen(v@, h as int),
            decreases v.len() - h,
        {
            h = h + 1;
        }
        if h >= v.len() {
            return Err(String::from_str("unknown Condition, cannot convert from str"));
        }
        match parse_usize(&v, 0, h) {
            None => Err(String::from_str("unknown Condition, cannot convert from str")),
            Some(n) => {
                let a = h + 1;
                let b = v.len();
                if is_word(&v, a, b, "wnu") {
                    Ok(Condition::Wnu(n))
                } else if is_word(&v, a, b, "nu") {
                    Ok(Condition::Nu(n))
                } else if is_word(&v, a, b, "j") {
                    Ok(Condition::Jonsson(n))
                } else if is_word(&v, a, b, "hm") {
                    Ok(Condition::HagemannMitschke(n))
                } else if is_word(&v, a, b, "kk") {
                    Ok(Condition::KearnesKiss(n))
                } else if is_word(&v, a, b, "hmck") {
                    Ok(Condition::HobbyMcKenzie(n))
                } else if is_word(&v, a, b, "nn") {
                    Ok(Condition::NoName(n))
                } else {
                    Err(String::from_str("unknown Condition, cannot convert from str"))
                }
            },
        }
    }
}

/// The error of a name that is no condition.
#[derive(Debug, Clone, PartialEq, Eq, Structural)]
pub struct ParseConditionError;

impl ParseConditionError {
    /// What the error says.
    pub fn message(&self) -> (r: String)
        ensures
            r@ == "No condition registered with that name"@,
    {
        String::from_str("No condition registered with that name")
    }
}

/// Why no instance could be built.
#[derive(Debug, Clone, PartialEq, Eq, Structural)]
pub enum Error {
    /// The graph has no level function.
    Unbalanced,
    /// The indicator graph has more vertices than a matrix has room for.
    TooLarge,
}

impl Error {
    /// What the error says.
    pub fn message(&self) -> (r: String)
        ensures
            r@ == (match self {
                Error::Unbalanced => "The given graph is not balanced"@,
                Error::TooLarge => "The indicator graph is too large"@,
            }),
    {
        match self {
            Error::Unbalanced => String::from_str("The given graph is not balanced"),
            Error::TooLarge => String::from_str("The indicator graph is too large"),
        }
    }
}

/// The arity of each operation of a condition.
pub open spec fn arities_of(c: Condition) -> Seq<usize> {
    match c {
        Condition::Kmm => seq![3usize, 3usize],
        Condition::Siggers => seq![4usize],
        Condition::Majority => seq![3usize],
        Condition::Nu(k) => seq![k],
        Condition::Wnu(k) => seq![k],
        Condition::NoName(n) => Seq::new((n + 1) as nat, |i: int| 4usize),
        Condition::Jonsson(n) => Seq::new((2 * n + 1) as nat, |i: int| 3usize),
        Condition::KearnesKiss(n) => Seq::new((n + 1) as nat, |i: int| 3usize),
        Condition::HobbyMcKenzie(n) => Seq::new((2 * n + 3) as nat, |i: int| 3usize),
        Condition::HagemannMitschke(n) => Seq::new(n as nat, |i: int| 3usize),
    }
}

/// As many times `a` as `count` says.
fn repeated(a: usize, count: usize) -> (r: Vec<usize>)
    ensures
        r@ == Seq::new(count as nat, |i: int| a),
{
    let mut r: Vec<usize> = Vec::new();
    let mut k: usize = 0;
    while k < count
        invariant
            k <= count,
            r.len() == k,
            forall|j: int| 0 <= j < k ==> #[trigger] r[j] == a,
        decreases count - k,
    {
        r.push(a);
        k = k + 1;
    }
    assert(r@ =~= Seq::new(count as nat, |i: int| a));
    r
}

/// The arity of each operation of a condition.
pub fn arities(condition: Condition) -> (r: Vec<usize>)
    requires
        length_ok(condition),
    ensures
        r@ == arities_of(condition),
{
    match condition {
        Condition::Kmm => {
            let mut r: Vec<usize> = Vec::new();
            r.push(3);
            r.push(3);
            assert(r@ =~= arities_of(condition));
            r
        },
        Condition::Siggers => {
            let r = repeated(4, 1);
            assert(r@ =~= arities_of(condition));
            r
        },
        Condition::Majority => {
            let r = repeated(3, 1);
            assert(r@ =~= arities_of(condition));
            r
        },
        Condition::Nu(k) => {
            let r = repeated(k, 1);
            assert(r@ =~= arities_of(condition));
            r
        },
        Condition::Wnu(k) => {
            let r = repeated(k, 1);
            assert(r@ =~= arities_of(condition));
            r
        },
        Condition::NoName(n) => repeated(4, n + 1),
        Condition::Jonsson(n) => repeated(3, 2 * n + 1),
        Condition::KearnesKiss(n) => repeated(3, n + 1),
        Condition::HobbyMcKenzie(n) => repeated(3, 2 * n + 3),
        Condition::HagemannMitschke(n) => repeated(3, n),
    }
}

/// What the counting of the elements of a tuple finds.
#[derive(Debug, Clone, Copy, PartialEq, Eq, Structural)]
pub enum ElemCount {
    /// Two elements, the second of which occurs once: `(x, x, x, y)` gives
    /// `(x, y)`.
    Once(usize, usize),
    /// One element: `(x, x, x)` gives `x`.
    AllEqual(usize),
    /// Anything else.
    Mixed,
}

/// How often `v` occurs in `x`.
pub open spec fn occurrences(x: Seq<usize>, v: usize) -> nat
    decreases x.len(),
{
    if x.len() == 0 {
        0
    } else {
        occurrences(x.drop_last(), v) + if x.last() == v { 1nat } else { 0nat }
    }
}

/// Every element of `x` is `a`.
pub open spec fn all_equal(x: Seq<usize>) -> bool {
    forall|i: int| 0 <= i < x.len() ==> #[trigger] x[i] == x[0]
}

/// The first place of `x` that does not hold `x[0]`, or the length of `x`.
pub open spec fn first_other(x: Seq<usize>, from: int) -> int
    decreases x.len() - from,
{
    if from >= x.len() {
        x.len() as int
    } else if x[from] != x[0] {
        from
    } else {
        first_other(x, from + 1)
    }
}

/// What the counting of the elements of `x` finds. Of two elements that
/// both occur once, the first is taken for the one that occurs often.
pub open spec fn counted(x: Seq<usize>) -> ElemCount {
    if x.len() == 0 {
        ElemCount::Mixed
    } else if first_other(x, 0) >= x.len() {
        ElemCount::AllEqual(x[0])
    } else {
        let a = x[0];
        let b = x[first_other(x, 0)];
        if occurrences(x, a) + occurrences(x, b) != x.len() {
            ElemCount::Mixed
        } else if occurrences(x, b) == 1 {
            ElemCount::Once(a, b)
        } else if occurrences(x, a) == 1 {
            ElemCount::Once(b, a)
        } else {
            ElemCount::Mixed
        }
    }
}

/// Counts the elements of a tuple.
pub fn elem_count(x: &Vec<usize>) -> (r: ElemCount)
    ensures
        r == counted(x@),
{
    if x.len() == 0 {
        return ElemCount::Mixed;
    }
    let a = x[0];
    let mut j: usize = 0;
    while j < x.len() && x[j] == a
        invariant
            j <= x.len(),
            a == x[0],
            first_other(x@, 0) == first_other(x@, j as int),
        decreases x.len() - j,
    {
        j = j + 1;
    }
    if j >= x.len() {
        return ElemCount::AllEqual(a);
    }
    let b = x[j];
    let mut count_a: usize = 0;
    let mut count_b: usize = 0;
    let mut k: usize = 0;
    proof {
        assert(x@.take(0) =~= Seq::<usize>::empty());
    }
    while k < x.len()
        invariant
            k <= x.len(),
            a != b,
            count_a == occurrences(x@.take(k as int), a),
            count_b == occurrences(x@.take(k as int), b),
            count_a + count_b <= k,
        decreases x.len() - k,
    {
        proof {
            assert(x@.take(k as int + 1).drop_last() =~= x@.take(k as int));
        }
        if x[k] == a {
            count_a = count_a + 1;
        } else if x[k] == b {
            count_b = count_b + 1;
        }
        k = k + 1;
    }
    proof {
        assert(x@.take(x@.len() as int) =~= x@);
    }
    if count_a + count_b != x.len() {
        ElemCount::Mixed
    } else if count_b == 1 {
        ElemCount::Once(a, b)
    } else if count_a == 1 {
        ElemCount::Once(b, a)
    } else {
        ElemCount::Mixed
    }
}

/// The value that a condition fixes for a term, where it fixes one.
pub open spec fn precolor_of(c: Condition, t: Tag) -> Option<usize> {
    let f = t.0;
    let v = t.1;
    match c {
        Condition::Majority => if all_equal(v) {
            Some(v[0])
        } else {
            None
        },
        Condition::Nu(_) => match counted(v) {
            ElemCount::Once(major, _) => Some(major),
            _ => None,
        },
        Condition::NoName(n) => if f == 0 && v[1] == v[2] {
            Some(v[0])
        } else if f == n && v[0] == v[1] {
            Some(v[3])
        } else {
            None
        },
        Condition::HobbyMcKenzie(n) => if f == 0 {
            Some(v[0])
        } else if f == 2 * n + 2 {
            Some(v[2])
        } else {
            None
        },
        Condition::HagemannMitschke(n) => if f == 0 && v[1] == v[2] {
            Some(v[0])
        } else if f == n - 1 && v[0] == v[1] {
            Some(v[2])
        } else {
            None
        },
        _ => None,
    }
}

/// Whether every element of `x` is the first one.
pub fn is_all_equal(x: &Vec<usize>) -> (r: bool)
    ensures
        r == all_equal(x@),
{
    let mut k: usize = 0;
    while k < x.len()
        invariant
            k <= x.len(),
            forall|i: int| 0 <= i < k ==> #[trigger] x[i] == x[0],
        decreases x.len() - k,
    {
        if x[k] != x[0] {
            return false;
        }
        k = k + 1;
    }
    true
}

/// The term is one of the condition: its operation is one of the
/// condition's, and its tuple has that operation's arity.
pub open spec fn is_term(c: Condition, t: Tag) -> bool {
    &&& t.0 < arities_of(c).len()
    &&& t.1.len() == arities_of(c)[t.0 as int]
}

/// The value that a condition fixes for a term, where it fixes one.
pub fn precolor(condition: Condition, term: &Label) -> (r: Option<usize>)
    requires
        length_ok(condition),
        is_term(condition, crate::algebra::classes::tag(*term)),
    ensures
        r == precolor_of(condition, crate::algebra::classes::tag(*term)),
{
    let f = term.0;
    let v = &term.1;
    match condition {
        Condition::Majority => {
            if is_all_equal(v) {
                Some(v[0])
            } else {
                None
            }
        },
        Condition::Nu(_) => {
            match elem_count(v) {
                ElemCount::Once(major, _) => Some(major),
                _ => None,
            }
        },
        Condition::NoName(n) => {
            if f == 0 && v[1] == v[2] {
                return Some(v[0]);
            }
            if f == n && v[0] == v[1] {
                return Some(v[3]);
            }
            None
        },
        Condition::HobbyMcKenzie(n) => {
            if f == 0 {
                return Some(v[0]);
            }
            if f == 2 * n + 2 {
                return Some(v[2]);
            }
            None
        },
        Condition::HagemannMitschke(n) => {
            if f == 0 && v[1] == v[2] {
                return Some(v[0]);
            }
            if f == n - 1 && v[0] == v[1] {
                return Some(v[2]);
            }
            None
        },
        _ => None,
    }
}

/// The problem of deciding whether a graph has polymorphisms that satisfy a
/// condition.
#[derive(Clone, Copy, Debug)]
pub struct MetaProblem {
    pub condition: Condition,
    pub level_wise: bool,
    pub conservative: bool,
    pub idempotent: bool,
}

impl MetaProblem {
    /// The problem for `condition`, level-wise, neither conservative nor
    /// idempotent.
    pub fn new(condition: Condition) -> (r: MetaProblem)
        ensures
            r.condition == condition,
            r.level_wise,
            !r.conservative,
            !r.idempotent,
    {
        MetaProblem { level_wise: true, conservative: false, idempotent: false, condition }
    }

    /// The problem with `level_wise` set to `flag`.
    pub fn level_wise(self, flag: bool) -> (r: MetaProblem)
        ensures
            r == (MetaProblem { level_wise: flag, ..self }),
    {
        let mut r = self;
        r.level_wise = flag;
        r
    }

    /// The problem with `conservative` set to `flag`.
    pub fn conservative(self, flag: bool) -> (r: MetaProblem)
        ensures
            r == (MetaProblem { conservative: flag, ..self }),
    {
        let mut r = self;
        r.conservative = flag;
        r
    }

    /// The problem with `idempotent` set to `flag`.
    pub fn idempotent(self, flag: bool) -> (r: MetaProblem)
        ensures
            r == (MetaProblem { idempotent: flag, ..self }),
    {
        let mut r = self;
        r.idempotent = flag;
        r
    }
}

} // verus!
