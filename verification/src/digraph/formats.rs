//! Graphs as text: the Graphviz format, lists of edges, and tables with one
//! edge in each line.

use vstd::prelude::*;
use crate::digraph::classes::{roomy, Buildable};
use crate::digraph::traits::{Digraph, Edges, Vertices};
use crate::digraph::AdjMatrix;
use crate::text::{chars_of, decimal, parse_usize, parsed, string_of, to_decimal};

verus! {

/// Appends the characters of `word` to `out`.
fn put_word(out: &mut Vec<char>, word: &str)
    ensures
        final(out)@ == old(out)@ + word@,
{
    let mut w = chars_of(word);
    let ghost given = w@;
    out.append(&mut w);
    assert(out@ =~= old(out)@ + given);
}

/// Appends the digits of `n` to `out`.
fn put_number(out: &mut Vec<char>, n: usize)
    ensures
        final(out)@ == old(out)@ + decimal(n as nat),
{
    let mut w = to_decimal(n);
    let ghost given = w@;
    out.append(&mut w);
    assert(out@ =~= old(out)@ + given);
}

/// The lines of the vertices in the Graphviz format: each number between
/// quotes, with a semicolon.
pub open spec fn dot_nodes(vs: Seq<usize>, upto: int) -> Seq<char>
    decreases upto,
{
    if upto <= 0 || upto > vs.len() {
        Seq::empty()
    } else {
        dot_nodes(vs, upto - 1) + "\""@ + decimal(vs[upto - 1] as nat) + "\";\n"@
    }
}

/// The lines of the edges in the Graphviz format: the two numbers between
/// quotes, with an arrow between them and a semicolon.
pub open spec fn dot_edges(es: Seq<(usize, usize)>, upto: int) -> Seq<char>
    decreases upto,
{
    if upto <= 0 || upto > es.len() {
        Seq::empty()
    } else {
        dot_edges(es, upto - 1) + "\""@ + decimal(es[upto - 1].0 as nat) + "\" -> \""@ + decimal(
            es[upto - 1].1 as nat,
        ) + "\";\n"@
    }
}

/// The graph in the Graphviz format.
pub open spec fn dot_text(vs: Seq<usize>, es: Seq<(usize, usize)>) -> Seq<char> {
    "digraph {\n"@ + dot_nodes(vs, vs.len() as int) + dot_edges(es, es.len() as int) + "}"@
}

/// The graph in the Graphviz format: a line for every vertex, then a line
/// for every edge.
pub fn to_dot<G: Digraph>(g: &G) -> (r: String)
    requires
        g.graph_ok(),
    ensures
        r@ == dot_text(g.spec_vertices(), g.spec_edges()),
{
    let vs = g.vertices();
    let es = g.edges();
    let mut out: Vec<char> = Vec::new();
    put_word(&mut out, "digraph {\n");
    let ghost head = out@;
    let mut i: usize = 0;
    assert(out@ =~= head + dot_nodes(vs@, 0));
    while i < vs.len()
        invariant
            i <= vs.len(),
            out@ == head + dot_nodes(vs@, i as int),
        decreases vs.len() - i,
    {
        let ghost before = out@;
        put_word(&mut out, "\"");
        put_number(&mut out, vs[i]);
        put_word(&mut out, "\";\n");
        proof {
            assert(out@ =~= head + (dot_nodes(vs@, i as int) + "\""@ + decimal(vs@[i as int] as nat) + "\";\n"@));
        }
        i = i + 1;
    }
    let ghost mid = out@;
    let mut k: usize = 0;
    assert(out@ =~= mid + dot_edges(es@, 0));
    while k < es.len()
        invariant
            k <= es.len(),
            out@ == mid + dot_edges(es@, k as int),
        decreases es.len() - k,
    {
        put_word(&mut out, "\"");
        put_number(&mut out, es[k].0);
        put_word(&mut out, "\" -> \"");
        put_number(&mut out, es[k].1);
        put_word(&mut out, "\";\n");
        proof {
            assert(out@ =~= mid + (dot_edges(es@, k as int) + "\""@ + decimal(es@[k as int].0 as nat)
                + "\" -> \""@ + decimal(es@[k as int].1 as nat) + "\";\n"@));
        }
        k = k + 1;
    }
    put_word(&mut out, "}");
    proof {
        assert(out@ =~= dot_text(vs@, es@));
    }
    string_of(&out)
}

/// The first `upto` edges as pairs between round brackets, one behind the
/// other.
pub open spec fn joined_edges(es: Seq<(usize, usize)>, upto: int) -> Seq<char>
    decreases upto,
{
    if upto <= 0 || upto > es.len() {
        Seq::empty()
    } else {
        joined_edges(es, upto - 1) + "("@ + decimal(es[upto - 1].0 as nat) + ","@ + decimal(es[upto - 1].1 as nat)
            + ")"@
    }
}

impl AdjMatrix {
    /// The graph as text: its edges as pairs between round brackets, one
    /// behind the other, between square brackets, such as `[(0,1)(1,2)]`.
    pub fn to_string(&self) -> (r: String)
        requires
            self.wf(),
        ensures
            r@ == "["@ + joined_edges(self.arrows(), self.arrows().len() as int) + "]"@,
    {
        let es = self.edges();
        let mut out: Vec<char> = Vec::new();
        put_word(&mut out, "[");
        let ghost head = out@;
        let mut k: usize = 0;
        assert(out@ =~= head + joined_edges(es@, 0));
        while k < es.len()
            invariant
                k <= es.len(),
                out@ == head + joined_edges(es@, k as int),
            decreases es.len() - k,
        {
            put_word(&mut out, "(");
            put_number(&mut out, es[k].0);
            put_word(&mut out, ",");
            put_number(&mut out, es[k].1);
            put_word(&mut out, ")");
            proof {
                assert(out@ =~= head + (joined_edges(es@, k as int) + "("@ + decimal(es@[k as int].0 as nat) + ","@
                    + decimal(es@[k as int].1 as nat) + ")"@));
            }
            k = k + 1;
        }
        put_word(&mut out, "]");
        proof {
            assert(out@ =~= "["@ + joined_edges(es@, es@.len() as int) + "]"@);
        }
        string_of(&out)
    }
}

/// The first `upto` edges as pairs between round brackets, with commas
/// between the pairs.
pub open spec fn listed_edges(es: Seq<(usize, usize)>, upto: int) -> Seq<char>
    decreases upto,
{
    if upto <= 0 || upto > es.len() {
        Seq::empty()
    } else {
        listed_edges(es, upto - 1) + (if upto > 1 {
            ","@
        } else {
            Seq::empty()
        }) + "("@ + decimal(es[upto - 1].0 as nat) + ","@ + decimal(es[upto - 1].1 as nat) + ")"@
    }
}

/// The edges as a list between square brackets.
pub open spec fn edge_list_text(es: Seq<(usize, usize)>) -> Seq<char> {
    "["@ + listed_edges(es, es.len() as int) + "]"@
}

/// The edges of the graph as a list, such as `[(0,1),(1,2),(2,0)]`.
pub fn to_edge_list<G: Edges>(g: &G) -> (r: String)
    requires
        g.graph_ok(),
    ensures
        r@ == edge_list_text(g.spec_edges()),
{
    let es = g.edges();
    let mut out: Vec<char> = Vec::new();
    put_word(&mut out, "[");
    let ghost head = out@;
    let mut k: usize = 0;
    assert(out@ =~= head + listed_edges(es@, 0));
    while k < es.len()
        invariant
            k <= es.len(),
            out@ == head + listed_edges(es@, k as int),
        decreases es.len() - k,
    {
        let ghost sep: Seq<char> = if k > 0 { ","@ } else { Seq::empty() };
        if k != 0 {
            put_word(&mut out, ",");
        }
        assert(out@ =~= head + listed_edges(es@, k as int) + sep);
        put_word(&mut out, "(");
        put_number(&mut out, es[k].0);
        put_word(&mut out, ",");
        put_number(&mut out, es[k].1);
        put_word(&mut out, ")");
        proof {
            assert(out@ =~= head + (listed_edges(es@, k as int) + sep + "("@ + decimal(es@[k as int].0 as nat)
                + ","@ + decimal(es@[k as int].1 as nat) + ")"@));
        }
        k = k + 1;
    }
    put_word(&mut out, "]");
    proof {
        assert(out@ =~= edge_list_text(es@));
    }
    string_of(&out)
}

/// The first `upto` edges as lines of a table: the two numbers with a
/// semicolon between them.
pub open spec fn csv_text(es: Seq<(usize, usize)>, upto: int) -> Seq<char>
    decreases upto,
{
    if upto <= 0 || upto > es.len() {
        Seq::empty()
    } else {
        csv_text(es, upto - 1) + decimal(es[upto - 1].0 as nat) + ";"@ + decimal(es[upto - 1].1 as nat) + "\n"@
    }
}

/// The edges of the graph as a table with one edge in each line.
pub fn to_csv<G: Edges>(g: &G) -> (r: String)
    requires
        g.graph_ok(),
    ensures
        r@ == csv_text(g.spec_edges(), g.spec_edges().len() as int),
{
    let es = g.edges();
    let mut out: Vec<char> = Vec::new();
    let mut k: usize = 0;
    assert(out@ =~= csv_text(es@, 0));
    while k < es.len()
        invariant
            k <= es.len(),
            out@ == csv_text(es@, k as int),
        decreases es.len() - k,
    {
        put_number(&mut out, es[k].0);
        put_word(&mut out, ";");
        put_number(&mut out, es[k].1);
        put_word(&mut out, "\n");
        proof {
            assert(out@ =~= csv_text(es@, k as int) + decimal(es@[k as int].0 as nat) + ";"@ + decimal(
                es@[k as int].1 as nat,
            ) + "\n"@);
        }
        k = k + 1;
    }
    string_of(&out)
}

/// Whether the character stands between the numbers of a list of edges: a
/// bracket, a comma, a quote, or white space.
pub open spec fn is_delimiter(c: char) -> bool {
    c == '[' || c == ']' || c == ',' || c == '(' || c == ')' || c == '"' || c == ' ' || c == '\t' || c == '\n'
        || c == '\r'
}

/// The place of the first character from `from` on that is a delimiter, or
/// the length.
pub open spec fn token_end(s: Seq<char>, from: int) -> int
    decreases s.len() - from,
{
    if from >= s.len() {
        s.len() as int
    } else if is_delimiter(s[from]) {
        from
    } else {
        token_end(s, from + 1)
    }
}

/// The numbers that stand in the text from `from` on, between delimiters;
/// `None` where something that is no number stands there.
pub open spec fn numbers_from(s: Seq<char>, from: int) -> Option<Seq<usize>>
    decreases s.len() - from,
{
    if from >= s.len() || from < 0 {
        Some(Seq::empty())
    } else if is_delimiter(s[from]) {
        numbers_from(s, from + 1)
    } else {
        let end = token_end(s, from);
        if end <= from || end > s.len() {
            None
        } else {
            match (parsed(s.subrange(from, end)), numbers_from(s, end)) {
                (Some(n), Some(rest)) => Some(seq![n] + rest),
                _ => None,
            }
        }
    }
}

/// The numbers by twos, in order; a last number without a partner is left
/// out.
pub open spec fn by_twos(nums: Seq<usize>) -> Seq<(usize, usize)> {
    Seq::new(nums.len() / 2, |k: int| (nums[2 * k], nums[2 * k + 1]))
}

/// The end of a token lies behind its start.
pub proof fn lemma_token_end(s: Seq<char>, from: int)
    requires
        0 <= from <= s.len(),
    ensures
        from <= token_end(s, from) <= s.len(),
        from < s.len() && !is_delimiter(s[from]) ==> from < token_end(s, from),
    decreases s.len() - from,
{
    if from < s.len() && !is_delimiter(s[from]) {
        lemma_token_end(s, from + 1);
    }
}

/// Whether the character is a delimiter.
fn delimits(c: char) -> (r: bool)
    ensures
        r == is_delimiter(c),
{
    c == '[' || c == ']' || c == ',' || c == '(' || c == ')' || c == '"' || c == ' ' || c == '\t' || c == '\n'
        || c == '\r'
}

/// The numbers that stand in the text, between delimiters.
fn read_numbers(v: &Vec<char>) -> (r: Option<Vec<usize>>)
    ensures
        r.is_some() == numbers_from(v@, 0).is_some(),
        r.is_some() ==> r.unwrap()@ == numbers_from(v@, 0).unwrap(),
{
    let mut nums: Vec<usize> = Vec::new();
    let mut pos: usize = 0;
    while pos < v.len()
        invariant
            pos <= v.len(),
            numbers_from(v@, 0).is_some() == numbers_from(v@, pos as int).is_some(),
            numbers_from(v@, 0).is_some() ==> numbers_from(v@, 0).unwrap() == nums@ + numbers_from(
                v@,
                pos as int,
            ).unwrap(),
        decreases v.len() - pos,
    {
        if delimits(v[pos]) {
            pos = pos + 1;
        } else {
            let mut end: usize = pos;
            while end < v.len() && !delimits(v[end])
                invariant
                    pos <= end <= v.len(),
                    token_end(v@, pos as int) == token_end(v@, end as int),
                decreases v.len() - end,
            {
                end = end + 1;
            }
            proof {
                lemma_token_end(v@, pos as int);
            }
            match parse_usize(v, pos, end) {
                None => {
                    return None;
                },
                Some(n) => {
                    proof {
                        if numbers_from(v@, 0).is_some() {
                            let rest = numbers_from(v@, end as int).unwrap();
                            assert(nums@ + (seq![n] + rest) =~= nums@.push(n) + rest);
                        }
                    }
                    nums.push(n);
                    pos = end;
                },
            }
        }
    }
    proof {
        assert(nums@ + Seq::<usize>::empty() =~= nums@);
    }
    Some(nums)
}

/// The graph of a list of edges such as `[(0,1),(1,2),(2,0)]`: the numbers
/// of the text are taken by twos as the edges, and the graph has one vertex
/// more than it has edges. `None` where something in the text is no number,
/// an edge names a vertex that the graph does not have, or the graph would
/// be too large for its matrix.
pub fn from_edge_list(s: &str) -> (r: Option<AdjMatrix>)
    ensures
        r.is_some() ==> numbers_from(s@, 0).is_some() && r.unwrap().wf() && r.unwrap().arrows() == by_twos(
            numbers_from(s@, 0).unwrap(),
        ) && r.unwrap().order() == by_twos(numbers_from(s@, 0).unwrap()).len() + 1,
        r.is_none() <==> numbers_from(s@, 0).is_none() || !AdjMatrix::can_hold(
            (by_twos(numbers_from(s@, 0).unwrap()).len() + 1) as nat,
        ) || exists|k: int|
            0 <= k < by_twos(numbers_from(s@, 0).unwrap()).len() && ((#[trigger] by_twos(
                numbers_from(s@, 0).unwrap(),
            )[k]).0 > by_twos(numbers_from(s@, 0).unwrap()).len() || by_twos(numbers_from(s@, 0).unwrap())[k].1
                > by_twos(numbers_from(s@, 0).unwrap()).len()),
{
    let v = chars_of(s);
    let nums = match read_numbers(&v) {
        None => {
            return None;
        },
        Some(nums) => nums,
    };
    let mut edges: Vec<(usize, usize)> = Vec::new();
    let count = nums.len() / 2;
    let mut k: usize = 0;
    while k < count
        invariant
            k <= count,
            count == nums.len() / 2,
            edges.len() == k,
            forall|j: int| 0 <= j < k ==> #[trigger] edges@[j] == (nums@[2 * j], nums@[2 * j + 1]),
        decreases count - k,
    {
        edges.push((nums[2 * k], nums[2 * k + 1]));
        k = k + 1;
    }
    proof {
        assert(edges@ =~= by_twos(nums@));
    }
    AdjMatrix::from_iter(edges)
}

/// Why a table is no graph.
#[derive(Debug, Clone, Copy, PartialEq, Eq, Structural)]
pub enum CsvError {
    /// The line, counted from 1, has no separator.
    MissingSeparator(usize),
    /// A field of the line, counted from 1, is no number.
    Parse(usize),
    /// The edge of the line, counted from 1, names a vertex that the graph
    /// does not have.
    Vertex(usize),
}

impl CsvError {
    /// What the error says.
    pub fn message(&self) -> (r: String)
        ensures
            r@ == (match self {
                CsvError::MissingSeparator(i) => "Separator missing in line "@ + decimal(*i as nat),
                CsvError::Parse(i) => "invalid digit found in line "@ + decimal(*i as nat),
                CsvError::Vertex(i) => "Unknown vertex in line "@ + decimal(*i as nat),
            }),
    {
        let mut out: Vec<char> = Vec::new();
        match self {
            CsvError::MissingSeparator(i) => {
                put_word(&mut out, "Separator missing in line ");
                put_number(&mut out, *i);
                assert(out@ =~= "Separator missing in line "@ + decimal(*i as nat));
            },
            CsvError::Parse(i) => {
                put_word(&mut out, "invalid digit found in line ");
                put_number(&mut out, *i);
                assert(out@ =~= "invalid digit found in line "@ + decimal(*i as nat));
            },
            CsvError::Vertex(i) => {
                put_word(&mut out, "Unknown vertex in line ");
                put_number(&mut out, *i);
                assert(out@ =~= "Unknown vertex in line "@ + decimal(*i as nat));
            },
        }
        string_of(&out)
    }
}

/// Whether the character separates the fields of a line.
pub open spec fn is_separator(c: char) -> bool {
    c == ',' || c == ';' || c == '|' || c == ' '
}

/// The place of the first character from `from` on, before `to`, that is a
/// separator; `to` where there is none.
pub open spec fn field_end(s: Seq<char>, from: int, to: int) -> int
    decreases to - from,
{
    if from >= to {
        to
    } else if is_separator(s[from]) {
        from
    } else {
        field_end(s, from + 1, to)
    }
}

/// The place of the first line feed from `from` on, or the length.
pub open spec fn line_end(s: Seq<char>, from: int) -> int
    decreases s.len() - from,
{
    if from >= s.len() {
        s.len() as int
    } else if s[from] == '\n' {
        from
    } else {
        line_end(s, from + 1)
    }
}

/// Where the text of the line ends that begins at `from` and is ended at
/// `end`: before a carriage return where the line is ended by one and a
/// line feed.
pub open spec fn text_end(s: Seq<char>, from: int, end: int) -> int {
    if end < s.len() && end > from && s[end - 1] == '\r' {
        end - 1
    } else {
        end
    }
}

/// The edge that the line from `a` up to `b` names: its first two fields as
/// numbers.
pub open spec fn line_edge(s: Seq<char>, a: int, b: int, line: usize) -> Result<(usize, usize), CsvError> {
    let first = field_end(s, a, b);
    if first >= b {
        Err(CsvError::MissingSeparator(line))
    } else {
        let second = field_end(s, first + 1, b);
        match (parsed(s.subrange(a, first)), parsed(s.subrange(first + 1, second))) {
            (Some(u), Some(v)) => Ok((u, v)),
            _ => Err(CsvError::Parse(line)),
        }
    }
}

/// The edges that the lines from `from` on name, the first of which has
/// the number `line`; or the error of the first line that names none.
pub open spec fn table_edges(s: Seq<char>, from: int, line: nat) -> Result<Seq<(usize, usize)>, CsvError>
    decreases s.len() - from,
{
    if from >= s.len() || from < 0 {
        Ok(Seq::empty())
    } else {
        let end = line_end(s, from);
        if end < from || end > s.len() {
            Ok(Seq::empty())
        } else {
            match line_edge(s, from, text_end(s, from, end), line as usize) {
                Err(e) => Err(e),
                Ok(edge) => if end >= s.len() {
                    Ok(seq![edge])
                } else {
                    match table_edges(s, end + 1, line + 1) {
                        Err(e) => Err(e),
                        Ok(rest) => Ok(seq![edge] + rest),
                    }
                },
            }
        }
    }
}

/// The place of the first edge that names a vertex above `top`, or the
/// number of edges.
pub open spec fn first_stray(edges: Seq<(usize, usize)>, top: nat, from: int) -> int
    decreases edges.len() - from,
{
    if from >= edges.len() {
        edges.len() as int
    } else if edges[from].0 > top || edges[from].1 > top {
        from
    } else {
        first_stray(edges, top, from + 1)
    }
}

/// What reading a table answers: the graph with the edges that its lines
/// name and one vertex more than it has edges.
pub open spec fn table_graph<G: Buildable>(s: Seq<char>, r: Result<G, CsvError>) -> bool {
    match table_edges(s, 0, 1) {
        Err(e) => r == Err::<G, CsvError>(e),
        Ok(edges) => {
            let stray = first_stray(edges, edges.len(), 0);
            if stray < edges.len() {
                r == Err::<G, CsvError>(CsvError::Vertex((stray + 1) as usize))
            } else {
                r.is_ok() && r.unwrap().built_ok() && r.unwrap().built_vertices() == edges.len() + 1
                    && r.unwrap().built_edges() == edges
            }
        },
    }
}

/// The end of a line lies at or behind its start.
pub proof fn lemma_line_end(s: Seq<char>, from: int)
    requires
        0 <= from <= s.len(),
    ensures
        from <= line_end(s, from) <= s.len(),
    decreases s.len() - from,
{
    if from < s.len() && s[from] != '\n' {
        lemma_line_end(s, from + 1);
    }
}

/// Whether the character separates the fields of a line.
fn separates(c: char) -> (r: bool)
    ensures
        r == is_separator(c),
{
    c == ',' || c == ';' || c == '|' || c == ' '
}

/// The place of the first separator from `from` on, before `to`.
fn find_field_end(v: &Vec<char>, from: usize, to: usize) -> (r: usize)
    requires
        from <= to <= v.len(),
    ensures
        r == field_end(v@, from as int, to as int),
        from <= r <= to,
{
    let mut k = from;
    while k < to && !separates(v[k])
        invariant
            from <= k <= to <= v.len(),
            field_end(v@, from as int, to as int) == field_end(v@, k as int, to as int),
        decreases to - k,
    {
        k = k + 1;
    }
    k
}

/// The edge that the line from `a` up to `b` names.
fn read_line(v: &Vec<char>, a: usize, b: usize, line: usize) -> (r: Result<(usize, usize), CsvError>)
    requires
        a <= b <= v.len(),
    ensures
        r == line_edge(v@, a as int, b as int, line),
{
    let first = find_field_end(v, a, b);
    if first >= b {
        return Err(CsvError::MissingSeparator(line));
    }
    let second = find_field_end(v, first + 1, b);
    match parse_usize(v, a, first) {
        None => Err(CsvError::Parse(line)),
        Some(u) => match parse_usize(v, first + 1, second) {
            None => Err(CsvError::Parse(line)),
            Some(w) => Ok((u, w)),
        },
    }
}

/// The edges that the lines of the text name.
fn read_table(v: &Vec<char>) -> (r: Result<Vec<(usize, usize)>, CsvError>)
    ensures
        r.is_ok() == table_edges(v@, 0, 1).is_ok(),
        r.is_ok() ==> r.unwrap()@ == table_edges(v@, 0, 1).unwrap(),
        r.is_err() ==> r->Err_0 == table_edges(v@, 0, 1)->Err_0,
{
    let mut edges: Vec<(usize, usize)> = Vec::new();
    let mut from: usize = 0;
    let mut line: usize = 1;
    while from < v.len()
        invariant
            from <= v.len(),
            1 <= line,
            line <= from + 1,
            table_edges(v@, 0, 1).is_ok() == table_edges(v@, from as int, line as nat).is_ok(),
            table_edges(v@, 0, 1).is_ok() ==> table_edges(v@, 0, 1).unwrap() == edges@ + table_edges(
                v@,
                from as int,
                line as nat,
            ).unwrap(),
            table_edges(v@, 0, 1).is_err() ==> table_edges(v@, 0, 1)->Err_0 == table_edges(
                v@,
                from as int,
                line as nat,
            )->Err_0,
        decreases v.len() - from,
    {
        let mut end: usize = from;
        while end < v.len() && v[end] != '\n'
            invariant
                from <= end <= v.len(),
                line_end(v@, from as int) == line_end(v@, end as int),
            decreases v.len() - end,
        {
            end = end + 1;
        }
        let stop = if end < v.len() && end > from && v[end - 1] == '\r' {
            end - 1
        } else {
            end
        };
        match read_line(v, from, stop, line) {
            Err(e) => {
                return Err(e);
            },
            Ok(edge) => {
                proof {
                    lemma_line_end(v@, from as int);
                    if end >= v.len() {
                        assert(table_edges(v@, v@.len() as int, (line + 1) as nat) == Ok::<
                            Seq<(usize, usize)>,
                            CsvError,
                        >(Seq::empty()));
                        assert(edges@ + seq![edge] =~= edges@.push(edge) + Seq::<(usize, usize)>::empty());
                    } else if table_edges(v@, 0, 1).is_ok() {
                        let rest = table_edges(v@, end as int + 1, (line + 1) as nat).unwrap();
                        assert(edges@ + (seq![edge] + rest) =~= edges@.push(edge) + rest);
                    }
                }
                edges.push(edge);
            },
        }
        if end >= v.len() {
            from = v.len();
        } else {
            from = end + 1;
        }
        line = line + 1;
    }
    proof {
        assert(edges@ + Seq::<(usize, usize)>::empty() =~= edges@);
    }
    Ok(edges)
}

/// The graph of a table with one edge in each line: the first two fields
/// of a line, separated by a comma, a semicolon, a bar or a blank, are the
/// two ends of an edge. The graph has one vertex more than the table has
/// lines.
pub fn from_csv<G: Buildable>(text: &str) -> (r: Result<G, CsvError>)
    requires
        roomy::<G>((text@.len() + 1) as nat),
        text@.len() < usize::MAX,
    ensures
        table_graph(text@, r),
{
    let v = chars_of(text);
    let edges = match read_table(&v) {
        Err(e) => {
            return Err(e);
        },
        Ok(edges) => edges,
    };
    let count = edges.len();
    proof {
        lemma_table_short(v@, 0, 1);
    }
    let mut k: usize = 0;
    while k < count
        invariant
            k <= count,
            count == edges.len(),
            table_edges(text@, 0, 1) == Ok::<Seq<(usize, usize)>, CsvError>(edges@),
            first_stray(edges@, count as nat, 0) == first_stray(edges@, count as nat, k as int),
        decreases count - k,
    {
        if edges[k].0 > count || edges[k].1 > count {
            return Err(CsvError::Vertex(k + 1));
        }
        k = k + 1;
    }
    let mut g = G::with_capacities(if count <= usize::MAX / 2 { count * 2 } else { count }, count);
    let mut i: usize = 0;
    while i < count + 1
        invariant
            i <= count + 1,
            count < usize::MAX,
            count <= text@.len(),
            roomy::<G>((text@.len() + 1) as nat),
            g.built_ok(),
            g.built_vertices() == i,
            g.built_edges().len() == 0,
        decreases count + 1 - i,
    {
        assert(G::holds((i + 1) as nat));
        g.add_vertex();
        i = i + 1;
    }
    let mut e: usize = 0;
    while e < count
        invariant
            e <= count,
            count == edges.len(),
            g.built_ok(),
            g.built_vertices() == count + 1,
            g.built_edges() == edges@.take(e as int),
            first_stray(edges@, count as nat, 0) >= count,
        decreases count - e,
    {
        proof {
            lemma_no_stray(edges@, count as nat, 0, e as int);
        }
        g.add_edge(edges[e].0, edges[e].1);
        proof {
            assert(edges@.take(e as int + 1) =~= edges@.take(e as int).push(edges@[e as int]));
        }
        e = e + 1;
    }
    g.shrink_to_fit();
    proof {
        assert(edges@.take(count as int) =~= edges@);
    }
    Ok(g)
}

/// Where no edge from `from` on strays, none at a place behind does.
pub proof fn lemma_no_stray(edges: Seq<(usize, usize)>, top: nat, from: int, k: int)
    requires
        0 <= from <= k < edges.len(),
        first_stray(edges, top, from) >= edges.len(),
    ensures
        edges[k].0 <= top && edges[k].1 <= top,
    decreases k - from,
{
    if from < k {
        lemma_no_stray(edges, top, from + 1, k);
    }
}

/// A table has no more edges than its text has characters from `from` on.
pub proof fn lemma_table_short(s: Seq<char>, from: int, line: nat)
    requires
        0 <= from <= s.len(),
    ensures
        table_edges(s, from, line).is_ok() ==> table_edges(s, from, line).unwrap().len() <= s.len() - from,
    decreases s.len() - from,
{
    if from < s.len() {
        let end = line_end(s, from);
        lemma_line_end(s, from);
        let b = text_end(s, from, end);
        if line_edge(s, from, b, line as usize).is_ok() {
            lemma_field_end(s, from, b);
            if end < s.len() {
                lemma_table_short(s, end + 1, line + 1);
            }
        }
    }
}

/// The end of a field lies within its line.
pub proof fn lemma_field_end(s: Seq<char>, from: int, to: int)
    requires
        from <= to,
    ensures
        from <= field_end(s, from, to) <= to,
    decreases to - from,
{
    if from < to && !is_separator(s[from]) {
        lemma_field_end(s, from + 1, to);
    }
}

} // verus!
