//! Graphs by the name of their family and a number, such as `k3`.

use vstd::prelude::*;
use vstd::string::StringExecFns;
use crate::digraph::classes::{
    complete_digraph, complete_edges, cycle_edges, directed_cycle, directed_path, path_edges, roomy,
    tournament_edges, transitive_tournament, Buildable,
};
use crate::text::{chars_of, parse_usize, parsed};

verus! {

/// The error of a name that names no graph.
#[derive(Debug, Clone, Copy, PartialEq, Eq, Structural)]
pub struct ClassNotFound;

impl ClassNotFound {
    /// What the error says.
    pub fn message(&self) -> (r: String)
        ensures
            r@ == "No graph class registered with that name"@,
    {
        String::from_str("No graph class registered with that name")
    }
}

/// The error of a text that is no graph.
#[derive(Debug, Clone, Copy, PartialEq, Eq, Structural)]
pub struct ParseGraphError;

impl ParseGraphError {
    /// What the error says.
    pub fn message(&self) -> (r: String)
        ensures
            r@ == "Could not parse graph from the given argument"@,
    {
        String::from_str("Could not parse graph from the given argument")
    }
}

/// The number behind the first character of a name, where the name has one
/// of the four letters in front and a number behind it.
pub open spec fn class_number(s: Seq<char>) -> Option<usize> {
    if s.len() == 0 || (s[0] != 'k' && s[0] != 'c' && s[0] != 'p' && s[0] != 't') {
        None
    } else {
        parsed(s.subrange(1, s.len() as int))
    }
}

/// Whether a graph of type `G` has room for the graph with the number `n`
/// in its name: for `n` vertices and one more.
pub open spec fn fits_class<G: Buildable>(n: usize) -> bool {
    n < usize::MAX && roomy::<G>((n + 1) as nat)
}

/// What reading the name of a graph answers: for `k` and a number the
/// complete graph on that many vertices, for `c` the cycle of that length,
/// for `p` the path with that many edges, for `t` the transitive tournament
/// on that many vertices; an error where the text is no such name or the
/// graph has no room for so many vertices.
pub open spec fn class_graph<G: Buildable>(s: Seq<char>, r: Result<G, ClassNotFound>) -> bool {
    match class_number(s) {
        None => r.is_err(),
        Some(n) => if !fits_class::<G>(n) {
            r.is_err()
        } else {
            r.is_ok() && r.unwrap().built_ok() && (if s[0] == 'k' {
            r.unwrap().built_vertices() == n && r.unwrap().built_edges() == complete_edges(n as nat, 0)
        } else if s[0] == 'c' {
            r.unwrap().built_vertices() == n && r.unwrap().built_edges() == cycle_edges(n as nat)
        } else if s[0] == 'p' {
            r.unwrap().built_vertices() == n + 1 && r.unwrap().built_edges() == path_edges(n as nat)
        } else {
            r.unwrap().built_vertices() == n && r.unwrap().built_edges() == tournament_edges(n as nat, 0)
        })
        },
    }
}

/// The graph that the name names.
pub fn parse_class<G: Buildable>(s: &str) -> (r: Result<G, ClassNotFound>)
    ensures
        class_graph(s@, r),
{
    let v = chars_of(s);
    if v.len() == 0 {
        return Err(ClassNotFound);
    }
    let letter = v[0];
    match parse_usize(&v, 1, v.len()) {
        None => Err(ClassNotFound),
        Some(n) => {
            if n == usize::MAX || !G::has_room(n + 1) {
                return Err(ClassNotFound);
            }
            if letter == 'k' {
                Ok(complete_digraph(n))
            } else if letter == 'c' {
                Ok(directed_cycle(n))
            } else if letter == 'p' {
                Ok(directed_path(n))
            } else if letter == 't' {
                Ok(transitive_tournament(n))
            } else {
                Err(ClassNotFound)
            }
        },
    }
}

} // verus!
