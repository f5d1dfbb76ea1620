//! Triads: trees with one vertex of three neighbours, given by their three
//! arms.

use vstd::prelude::*;
use crate::digraph::classes::{roomy, Buildable};
use crate::text::{chars_of, string_of};

verus! {

/// A tree with a single vertex of three neighbours and otherwise only
/// vertices of two neighbours and one. Each of the three texts is an arm
/// that leaves that vertex: `0` stands for an edge that leads away from it,
/// `1` for an edge that leads towards it.
#[derive(Clone, Default, PartialEq, Eq, Hash)]
pub struct Triad(pub String, pub String, pub String);

impl Triad {
    /// The triad with the first three texts as its arms.
    pub fn from_iter(arms: Vec<String>) -> (r: Triad)
        requires
            arms@.len() >= 3,
        ensures
            r.0@ == arms@[0]@,
            r.1@ == arms@[1]@,
            r.2@ == arms@[2]@,
    {
        Triad(arms[0].clone(), arms[1].clone(), arms[2].clone())
    }

    /// A cursor over the three arms.
    pub fn iter(&self) -> (r: Iter<'_>)
        ensures
            r.position() == 0,
            r.triad() == self,
    {
        Iter { triad: self, index: 0 }
    }
}

/// A cursor over the arms of a triad.
pub struct Iter<'a> {
    triad: &'a Triad,
    index: usize,
}

impl<'a> Iter<'a> {
    /// The number of arms handed out.
    pub closed spec fn position(&self) -> nat {
        self.index as nat
    }

    /// The triad whose arms the cursor hands out.
    pub closed spec fn triad(&self) -> &Triad {
        self.triad
    }

    /// The next arm, or `None` after the third.
    pub fn next(&mut self) -> (r: Option<&'a str>)
        ensures
            final(self).triad() == old(self).triad(),
            old(self).position() == 0 ==> r.is_some() && r.unwrap()@ == old(self).triad().0@,
            old(self).position() == 1 ==> r.is_some() && r.unwrap()@ == old(self).triad().1@,
            old(self).position() == 2 ==> r.is_some() && r.unwrap()@ == old(self).triad().2@,
            old(self).position() >= 3 ==> r.is_none() && final(self).position() == old(self).position(),
            old(self).position() < 3 ==> final(self).position() == old(self).position() + 1,
    {
        let result = if self.index == 0 {
            self.triad.0.as_str()
        } else if self.index == 1 {
            self.triad.1.as_str()
        } else if self.index == 2 {
            self.triad.2.as_str()
        } else {
            return None;
        };
        self.index = self.index + 1;
        Some(result)
    }
}

/// Why a text is no triad.
#[derive(Debug, Clone, Copy, PartialEq, Eq, Structural)]
pub enum ParseTriadError {
    /// The text does not have three arms.
    NumArms,
    /// The character is neither `0` nor `1` nor a comma.
    InvalidCharacter(char),
}

impl ParseTriadError {
    /// What the error says.
    pub fn message(&self) -> (r: String)
        ensures
            r@ == (match self {
                ParseTriadError::NumArms => "A triad must have exactly 3 arms!"@,
                ParseTriadError::InvalidCharacter(c) => "Could not parse: "@ + seq![*c],
            }),
    {
        match self {
            ParseTriadError::NumArms => {
                let v = chars_of("A triad must have exactly 3 arms!");
                string_of(&v)
            },
            ParseTriadError::InvalidCharacter(c) => {
                let mut v = chars_of("Could not parse: ");
                v.push(*c);
                string_of(&v)
            },
        }
    }
}

/// The number of commas among the first `upto` characters.
pub open spec fn commas(s: Seq<char>, upto: int) -> nat
    decreases upto,
{
    if upto <= 0 || upto > s.len() {
        0
    } else {
        commas(s, upto - 1) + if s[upto - 1] == ',' { 1nat } else { 0nat }
    }
}

/// The place of the first character from `from` on that is neither `0` nor
/// `1` nor a comma, or the length.
pub open spec fn first_bad(s: Seq<char>, from: int) -> int
    decreases s.len() - from,
{
    if from >= s.len() {
        s.len() as int
    } else if s[from] != '0' && s[from] != '1' && s[from] != ',' {
        from
    } else {
        first_bad(s, from + 1)
    }
}

/// The edge of the character at place `k`, which is `0` or `1`. Its vertex
/// has the number of the place, less the commas before it, and one; the
/// vertex before it is the centre 0 at the start of an arm, and else the
/// vertex of the character before. `0` is an edge to the vertex, `1` one
/// from it.
pub open spec fn arm_edge(s: Seq<char>, k: int) -> (usize, usize) {
    let j = (k - commas(s, k) + 1) as usize;
    let prev = if k == 0 || s[k - 1] == ',' {
        0usize
    } else {
        (j - 1) as usize
    };
    if s[k] == '0' {
        (prev, j)
    } else {
        (j, prev)
    }
}

/// The edges of the first `upto` characters.
pub open spec fn arm_edges(s: Seq<char>, upto: int) -> Seq<(usize, usize)>
    decreases upto,
{
    if upto <= 0 || upto > s.len() {
        Seq::empty()
    } else if s[upto - 1] == ',' {
        arm_edges(s, upto - 1)
    } else {
        arm_edges(s, upto - 1).push(arm_edge(s, upto - 1))
    }
}

/// What reading a triad answers.
pub open spec fn triad_graph<G: Buildable>(s: Seq<char>, r: Result<G, ParseTriadError>) -> bool {
    if commas(s, s.len() as int) != 2 {
        r == Err::<G, ParseTriadError>(ParseTriadError::NumArms)
    } else if first_bad(s, 0) < s.len() {
        r == Err::<G, ParseTriadError>(ParseTriadError::InvalidCharacter(s[first_bad(s, 0)]))
    } else {
        r.is_ok() && r.unwrap().built_ok() && r.unwrap().built_vertices() == s.len() - 1 && r.unwrap().built_edges()
            == arm_edges(s, s.len() as int)
    }
}

/// There are no more commas than characters.
pub proof fn lemma_commas(s: Seq<char>, upto: int)
    requires
        0 <= upto <= s.len(),
    ensures
        commas(s, upto) <= upto,
    decreases upto,
{
    if upto > 0 {
        lemma_commas(s, upto - 1);
    }
}

/// More characters have no fewer commas.
pub proof fn lemma_commas_grow(s: Seq<char>, a: int, b: int)
    requires
        0 <= a <= b <= s.len(),
    ensures
        commas(s, a) <= commas(s, b),
        b - commas(s, b) >= a - commas(s, a),
    decreases b - a,
{
    if a < b {
        lemma_commas_grow(s, a, b - 1);
    }
}

/// The graph of a triad such as `10,0,11`: three arms, separated by
/// commas, that leave the vertex 0. The vertices of the arms are numbered
/// from 1 on along the arms, one arm after the other.
pub fn parse_triad<G: Buildable>(s: &str) -> (r: Result<G, ParseTriadError>)
    requires
        roomy::<G>(s@.len()),
    ensures
        triad_graph(s@, r),
{
    let v = chars_of(s);
    let mut count: usize = 0;
    let mut k: usize = 0;
    while k < v.len()
        invariant
            k <= v.len(),
            count == commas(v@, k as int),
            count <= k,
        decreases v.len() - k,
    {
        if v[k] == ',' {
            count = count + 1;
        }
        k = k + 1;
    }
    if count != 2 {
        return Err(ParseTriadError::NumArms);
    }
    let nvertices = v.len() - 1;
    let mut g = G::with_capacities(nvertices, nvertices - 1);
    let mut i: usize = 0;
    while i < nvertices
        invariant
            i <= nvertices,
            nvertices < v.len(),
            roomy::<G>(v@.len()),
            g.built_ok(),
            g.built_vertices() == i,
            g.built_edges().len() == 0,
        decreases nvertices - i,
    {
        assert(G::holds((i + 1) as nat));
        g.add_vertex();
        i = i + 1;
    }
    let mut j: usize = 1;
    let mut start = true;
    let mut p: usize = 0;
    assert(g.built_edges() =~= arm_edges(v@, 0));
    while p < v.len()
        invariant
            p <= v.len(),
            v@ == s@,
            commas(v@, v@.len() as int) == 2,
            nvertices == v.len() - 1,
            g.built_ok(),
            g.built_vertices() == nvertices,
            g.built_edges() == arm_edges(v@, p as int),
            j == p - commas(v@, p as int) + 1,
            start == (p == 0 || v@[p - 1] == ','),
            first_bad(v@, 0) == first_bad(v@, p as int),
        decreases v.len() - p,
    {
        let c = v[p];
        proof {
            lemma_commas(v@, p as int);
            lemma_commas_grow(v@, p as int + 1, v@.len() as int);
        }
        if c == ',' {
            start = true;
        } else if c == '1' || c == '0' {
            let prev = if start {
                0
            } else {
                j - 1
            };
            proof {
                assert(arm_edge(v@, p as int) == if c == '0' {
                    (prev, j)
                } else {
                    (j, prev)
                });
            }
            if c == '1' {
                g.add_edge(j, prev);
            } else {
                g.add_edge(prev, j);
            }
            j = j + 1;
            start = false;
        } else {
            return Err(ParseTriadError::InvalidCharacter(c));
        }
        p = p + 1;
    }
    Ok(g)
}

} // verus!
