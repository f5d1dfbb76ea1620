//! Lists and precolourings as text.

use vstd::prelude::*;
use crate::digraph::formats::{lemma_line_end, line_end, text_end};
use crate::text::{chars_of, decimal, parse_usize, parsed, string_of};

verus! {

/// Why a text is no precolouring.
#[derive(Debug, Clone, Copy, PartialEq, Eq, Structural)]
pub enum ParsePrecoloringError {
    /// A line has no colon between the vertex and its colour.
    MissingDelimiter,
    /// The vertex or the colour of the line, counted from 1, is no number.
    ParseVertex(usize),
}

impl ParsePrecoloringError {
    /// What the error says.
    pub fn message(&self) -> (r: String)
        ensures
            r@ == (match self {
                ParsePrecoloringError::MissingDelimiter => "Missing delimiter: ':'"@,
                ParsePrecoloringError::ParseVertex(i) => "invalid digit found in line "@ + decimal(*i as nat),
            }),
    {
        match self {
            ParsePrecoloringError::MissingDelimiter => {
                let v = chars_of("Missing delimiter: ':'");
                string_of(&v)
            },
            ParsePrecoloringError::ParseVertex(i) => {
                let mut v = chars_of("invalid digit found in line ");
                let ghost head = v@;
                let mut d = crate::text::to_decimal(*i);
                let ghost digits = d@;
                v.append(&mut d);
                assert(v@ =~= head + digits);
                string_of(&v)
            },
        }
    }
}

/// The error of a list with something that is no number: the line, counted
/// from 1.
#[derive(Debug, Clone, Copy, PartialEq, Eq, Structural)]
pub struct ParseListError(pub usize);

/// The place of the first character `c` from `from` on, before `to`; `to`
/// where there is none.
pub open spec fn find(s: Seq<char>, c: char, from: int, to: int) -> int
    decreases to - from,
{
    if from >= to {
        to
    } else if s[from] == c {
        from
    } else {
        find(s, c, from + 1, to)
    }
}

/// The place of the first character `c` from `from` on, before `to`.
fn find_char(v: &Vec<char>, c: char, from: usize, to: usize) -> (r: usize)
    requires
        from <= to <= v.len(),
    ensures
        r == find(v@, c, from as int, to as int),
        from <= r <= to,
{
    let mut k = from;
    while k < to && v[k] != c
        invariant
            from <= k <= to <= v.len(),
            find(v@, c, from as int, to as int) == find(v@, c, k as int, to as int),
        decreases to - k,
    {
        k = k + 1;
    }
    k
}

/// The numbers of the line from `a` up to `b`, which stand between commas;
/// `None` where something there is no number.
pub open spec fn line_numbers(s: Seq<char>, a: int, b: int) -> Option<Seq<usize>>
    decreases b - a,
{
    let end = find(s, ',', a, b);
    if a > b || end < a || end > b {
        None
    } else {
        match parsed(s.subrange(a, end)) {
            None => None,
            Some(n) => if end >= b {
                Some(seq![n])
            } else {
                match line_numbers(s, end + 1, b) {
                    None => None,
                    Some(rest) => Some(seq![n] + rest),
                }
            },
        }
    }
}

/// The lists of the lines from `from` on, the first of which has the number
/// `line`; or the error of the first line that has something that is no
/// number.
pub open spec fn lists_from(s: Seq<char>, from: int, line: nat) -> Result<Seq<Seq<usize>>, ParseListError>
    decreases s.len() - from,
{
    if from >= s.len() || from < 0 {
        Ok(Seq::empty())
    } else {
        let end = line_end(s, from);
        if end < from || end > s.len() {
            Ok(Seq::empty())
        } else {
            match line_numbers(s, from, text_end(s, from, end)) {
                None => Err(ParseListError(line as usize)),
                Some(list) => if end >= s.len() {
                    Ok(seq![list])
                } else {
                    match lists_from(s, end + 1, line + 1) {
                        Err(e) => Err(e),
                        Ok(rest) => Ok(seq![list] + rest),
                    }
                },
            }
        }
    }
}

/// The lists of a list of lists.
pub open spec fn list_rows(v: Seq<Vec<usize>>) -> Seq<Seq<usize>> {
    Seq::new(v.len(), |i: int| v[i]@)
}

/// Where the text of a line ends, and where the next line begins.
fn line_bounds(v: &Vec<char>, from: usize) -> (r: (usize, usize))
    requires
        from < v.len(),
    ensures
        r.0 == text_end(v@, from as int, line_end(v@, from as int)),
        from <= r.0 <= line_end(v@, from as int) <= v.len(),
        line_end(v@, from as int) >= v.len() ==> r.1 == v.len(),
        line_end(v@, from as int) < v.len() ==> r.1 == line_end(v@, from as int) + 1,
        from < r.1 <= v.len(),
{
    let mut end: usize = from;
    while end < v.len() && v[end] != '\n'
        invariant
            from <= end <= v.len(),
            line_end(v@, from as int) == line_end(v@, end as int),
        decreases v.len() - end,
    {
        end = end + 1;
    }
    let stop = if end < v.len() && end > from && v[end - 1] == '\r' {
        end - 1
    } else {
        end
    };
    let next = if end >= v.len() {
        v.len()
    } else {
        end + 1
    };
    (stop, next)
}

/// The numbers of the line from `a` up to `b`.
fn read_numbers(v: &Vec<char>, a: usize, b: usize) -> (r: Option<Vec<usize>>)
    requires
        a <= b <= v.len(),
    ensures
        r.is_some() == line_numbers(v@, a as int, b as int).is_some(),
        r.is_some() ==> r.unwrap()@ == line_numbers(v@, a as int, b as int).unwrap(),
{
    let mut list: Vec<usize> = Vec::new();
    let mut from = a;
    loop
        invariant
            a <= from <= b <= v.len(),
            line_numbers(v@, a as int, b as int).is_some() == line_numbers(v@, from as int, b as int).is_some(),
            line_numbers(v@, a as int, b as int).is_some() ==> line_numbers(v@, a as int, b as int).unwrap()
                == list@ + line_numbers(v@, from as int, b as int).unwrap(),
        decreases b - from,
    {
        let end = find_char(v, ',', from, b);
        match parse_usize(v, from, end) {
            None => {
                return None;
            },
            Some(n) => {
                if end >= b {
                    proof {
                        assert(list@ + seq![n] =~= list@.push(n));
                    }
                    list.push(n);
                    return Some(list);
                }
                proof {
                    if line_numbers(v@, a as int, b as int).is_some() {
                        let rest = line_numbers(v@, end as int + 1, b as int).unwrap();
                        assert(list@ + (seq![n] + rest) =~= list@.push(n) + rest);
                    }
                }
                list.push(n);
                from = end + 1;
            },
        }
    }
}

/// The lists of a text with one list in each line: the numbers of a line
/// stand between commas.
pub fn parse_lists(s: &str) -> (r: Result<Vec<Vec<usize>>, ParseListError>)
    ensures
        r.is_ok() == lists_from(s@, 0, 1).is_ok(),
        r.is_ok() ==> list_rows(r.unwrap()@) == lists_from(s@, 0, 1).unwrap(),
        r.is_err() ==> r->Err_0 == lists_from(s@, 0, 1)->Err_0,
{
    let v = chars_of(s);
    let mut lists: Vec<Vec<usize>> = Vec::new();
    let mut from: usize = 0;
    let mut done: usize = 0;
    while from < v.len()
        invariant
            from <= v.len(),
            v@ == s@,
            done <= from,
            lists_from(v@, 0, 1).is_ok() == lists_from(v@, from as int, (done + 1) as nat).is_ok(),
            lists_from(v@, 0, 1).is_ok() ==> lists_from(v@, 0, 1).unwrap() == list_rows(lists@) + lists_from(
                v@,
                from as int,
                (done + 1) as nat,
            ).unwrap(),
            lists_from(v@, 0, 1).is_err() ==> lists_from(v@, 0, 1)->Err_0 == lists_from(
                v@,
                from as int,
                (done + 1) as nat,
            )->Err_0,
        decreases v.len() - from,
    {
        let (stop, next) = line_bounds(&v, from);
        match read_numbers(&v, from, stop) {
            None => {
                return Err(ParseListError(done + 1));
            },
            Some(list) => {
                proof {
                    let end = line_end(v@, from as int);
                    let before = list_rows(lists@);
                    if end >= v@.len() {
                        assert(lists_from(v@, v@.len() as int, (done + 2) as nat) == Ok::<
                            Seq<Seq<usize>>,
                            ParseListError,
                        >(Seq::empty()));
                        assert(before + seq![list@] =~= before.push(list@) + Seq::<Seq<usize>>::empty());
                    } else if lists_from(v@, 0, 1).is_ok() {
                        let rest = lists_from(v@, end + 1, (done + 2) as nat).unwrap();
                        assert(before + (seq![list@] + rest) =~= before.push(list@) + rest);
                    }
                    assert(list_rows(lists@.push(list)) =~= before.push(list@));
                }
                lists.push(list);
            },
        }
        from = next;
        done = done + 1;
    }
    proof {
        assert(list_rows(lists@) + Seq::<Seq<usize>>::empty() =~= list_rows(lists@));
    }
    Ok(lists)
}

/// The vertex and its colour that the line from `a` up to `b` names.
pub open spec fn line_pair(s: Seq<char>, a: int, b: int, line: usize) -> Result<(usize, usize), ParsePrecoloringError> {
    let colon = find(s, ':', a, b);
    if colon >= b {
        Err(ParsePrecoloringError::MissingDelimiter)
    } else {
        match (parsed(s.subrange(a, colon)), parsed(s.subrange(colon + 1, b))) {
            (Some(u), Some(w)) => Ok((u, w)),
            _ => Err(ParsePrecoloringError::ParseVertex(line)),
        }
    }
}

/// The vertices with their colours that the lines from `from` on name; or
/// the error of the first line that names none.
pub open spec fn pairs_from(s: Seq<char>, from: int, line: nat) -> Result<
    Seq<(usize, usize)>,
    ParsePrecoloringError,
>
    decreases s.len() - from,
{
    if from >= s.len() || from < 0 {
        Ok(Seq::empty())
    } else {
        let end = line_end(s, from);
        if end < from || end > s.len() {
            Ok(Seq::empty())
        } else {
            match line_pair(s, from, text_end(s, from, end), line as usize) {
                Err(e) => Err(e),
                Ok(pair) => if end >= s.len() {
                    Ok(seq![pair])
                } else {
                    match pairs_from(s, end + 1, line + 1) {
                        Err(e) => Err(e),
                        Ok(rest) => Ok(seq![pair] + rest),
                    }
                },
            }
        }
    }
}

/// The vertices with their colours of a text with a vertex, a colon and its
/// colour in each line.
pub fn parse_precoloring(s: &str) -> (r: Result<Vec<(usize, usize)>, ParsePrecoloringError>)
    ensures
        r.is_ok() == pairs_from(s@, 0, 1).is_ok(),
        r.is_ok() ==> r.unwrap()@ == pairs_from(s@, 0, 1).unwrap(),
        r.is_err() ==> r->Err_0 == pairs_from(s@, 0, 1)->Err_0,
{
    let v = chars_of(s);
    let mut pairs: Vec<(usize, usize)> = Vec::new();
    let mut from: usize = 0;
    let mut done: usize = 0;
    while from < v.len()
        invariant
            from <= v.len(),
            v@ == s@,
            done <= from,
            pairs_from(v@, 0, 1).is_ok() == pairs_from(v@, from as int, (done + 1) as nat).is_ok(),
            pairs_from(v@, 0, 1).is_ok() ==> pairs_from(v@, 0, 1).unwrap() == pairs@ + pairs_from(
                v@,
                from as int,
                (done + 1) as nat,
            ).unwrap(),
            pairs_from(v@, 0, 1).is_err() ==> pairs_from(v@, 0, 1)->Err_0 == pairs_from(
                v@,
                from as int,
                (done + 1) as nat,
            )->Err_0,
        decreases v.len() - from,
    {
        let (stop, next) = line_bounds(&v, from);
        let colon = find_char(&v, ':', from, stop);
        if colon >= stop {
            return Err(ParsePrecoloringError::MissingDelimiter);
        }
        let pair = match parse_usize(&v, from, colon) {
            None => {
                return Err(ParsePrecoloringError::ParseVertex(done + 1));
            },
            Some(u) => match parse_usize(&v, colon + 1, stop) {
                None => {
                    return Err(ParsePrecoloringError::ParseVertex(done + 1));
                },
                Some(w) => (u, w),
            },
        };
        proof {
            let end = line_end(v@, from as int);
            if end >= v@.len() {
                assert(pairs_from(v@, v@.len() as int, (done + 2) as nat) == Ok::<
                    Seq<(usize, usize)>,
                    ParsePrecoloringError,
                >(Seq::empty()));
                assert(pairs@ + seq![pair] =~= pairs@.push(pair) + Seq::<(usize, usize)>::empty());
            } else if pairs_from(v@, 0, 1).is_ok() {
                let rest = pairs_from(v@, end + 1, (done + 2) as nat).unwrap();
                assert(pairs@ + (seq![pair] + rest) =~= pairs@.push(pair) + rest);
            }
        }
        pairs.push(pair);
        from = next;
        done = done + 1;
    }
    proof {
        assert(pairs@ + Seq::<(usize, usize)>::empty() =~= pairs@);
    }
    Ok(pairs)
}

/// The colour that the last of the pairs for `v` gives it.
pub open spec fn colour_of(pairs: Seq<(usize, usize)>, v: usize) -> Option<usize>
    decreases pairs.len(),
{
    if pairs.len() == 0 {
        None
    } else if pairs.last().0 == v {
        Some(pairs.last().1)
    } else {
        colour_of(pairs.drop_last(), v)
    }
}

/// The colour that the precolouring gives the vertex: that of the last line
/// for the vertex.
pub fn lookup(pairs: &Vec<(usize, usize)>, v: usize) -> (r: Option<usize>)
    ensures
        r == colour_of(pairs@, v),
{
    let mut k: usize = pairs.len();
    proof {
        assert(pairs@.take(k as int) =~= pairs@);
    }
    while k > 0
        invariant
            k <= pairs.len(),
            colour_of(pairs@, v) == colour_of(pairs@.take(k as int), v),
        decreases k,
    {
        k = k - 1;
        proof {
            assert(pairs@.take(k as int + 1).drop_last() =~= pairs@.take(k as int));
        }
        if pairs[k].0 == v {
            return Some(pairs[k].1);
        }
    }
    None
}

} // verus!
