use tripolys::algebra::homomorphism::{is_endomorphism, is_homomorphism, IterAlgebra};
use tripolys::digraph::classes::{
    complete_digraph, directed_cycle, directed_path, transitive_tournament, Buildable,
};
use tripolys::digraph::formats::{from_csv, from_edge_list, to_csv, to_dot, to_edge_list, CsvError};
use tripolys::digraph::named::{parse_class, ClassNotFound, ParseGraphError};
use tripolys::digraph::traits::{Edges, Vertices};
use tripolys::digraph::AdjMatrix;
use tripolys::hcoloring::Instance;
use tripolys::precoloring::{lookup, parse_lists, parse_precoloring, ParseListError, ParsePrecoloringError};
use tripolys::problem::{Constraints, Domains, Value, Variable};
use tripolys::text::{chars_of, parse_usize, string_of, to_decimal};
use tripolys::tree::triad::{parse_triad, ParseTriadError, Triad};

#[test]
fn numbers_as_text() {
    assert_eq!(string_of(&to_decimal(0)), "0");
    assert_eq!(string_of(&to_decimal(7)), "7");
    assert_eq!(string_of(&to_decimal(1203)), "1203");
    assert_eq!(string_of(&to_decimal(usize::MAX)), usize::MAX.to_string());
    let text = chars_of("x+42,007");
    assert_eq!(text.len(), 8);
    assert_eq!(parse_usize(&text, 1, 4), Some(42));
    assert_eq!(parse_usize(&text, 2, 4), Some(42));
    assert_eq!(parse_usize(&text, 5, 8), Some(7));
    assert_eq!(parse_usize(&text, 0, 4), None);
    assert_eq!(parse_usize(&text, 1, 2), None);
    assert_eq!(parse_usize(&text, 3, 3), None);
    assert_eq!(parse_usize(&text, 2, 6), None);
    let large = chars_of(&(usize::MAX.to_string() + "0"));
    assert_eq!(parse_usize(&large, 0, large.len() - 1), Some(usize::MAX));
    assert_eq!(parse_usize(&large, 0, large.len()), None);
    assert_eq!(chars_of("aä→"), vec!['a', 'ä', '→']);
}

#[test]
fn families_of_graphs() {
    let path: AdjMatrix = directed_path(3);
    assert_eq!(path.vertex_count(), 4);
    assert_eq!(path.edges(), vec![(0, 1), (1, 2), (2, 3)]);
    let cycle: AdjMatrix = directed_cycle(3);
    assert_eq!(cycle.edges(), vec![(0, 1), (1, 2), (2, 0)]);
    let loop_: AdjMatrix = directed_cycle(1);
    assert_eq!(loop_.edges(), vec![(0, 0)]);
    let none: AdjMatrix = directed_cycle(0);
    assert_eq!(none.vertex_count(), 0);
    let tournament: AdjMatrix = transitive_tournament(4);
    assert_eq!(tournament.edges(), vec![(0, 1), (0, 2), (0, 3), (1, 2), (1, 3), (2, 3)]);
    let complete: AdjMatrix = complete_digraph(3);
    assert_eq!(complete.edges(), vec![(0, 1), (1, 0), (0, 2), (2, 0), (1, 2), (2, 1)]);
    assert_eq!(complete.edge_count(), 6);
    assert!(complete.has_edge(2, 0));
    assert!(!complete.has_edge(1, 1));
    assert!(!complete.has_edge(1, 3));
    assert!(complete.has_vertex(2));
    assert!(!complete.has_vertex(3));
    assert_eq!(complete.vertices(), vec![0, 1, 2]);
}

#[test]
fn names_of_graphs() {
    let k: AdjMatrix = parse_class("k3").unwrap();
    assert_eq!(k.edge_count(), 6);
    let c: AdjMatrix = parse_class("c4").unwrap();
    assert_eq!(c.edges(), vec![(0, 1), (1, 2), (2, 3), (3, 0)]);
    let p: AdjMatrix = parse_class("p2").unwrap();
    assert_eq!(p.edges(), vec![(0, 1), (1, 2)]);
    let t: AdjMatrix = parse_class("t3").unwrap();
    assert_eq!(t.edges(), vec![(0, 1), (0, 2), (1, 2)]);
    assert_eq!(parse_class::<AdjMatrix>("x3").err(), Some(ClassNotFound));
    assert_eq!(parse_class::<AdjMatrix>("k").err(), Some(ClassNotFound));
    assert_eq!(parse_class::<AdjMatrix>("kx").err(), Some(ClassNotFound));
    assert_eq!(parse_class::<AdjMatrix>("").err(), Some(ClassNotFound));
    assert_eq!(ClassNotFound.message(), "No graph class registered with that name");
    assert_eq!(ParseGraphError.message(), "Could not parse graph from the given argument");
}

#[test]
fn matrix_keeps_its_edges_when_a_vertex_is_added() {
    let mut g = AdjMatrix::with_capacities(2, 1);
    assert_eq!(g.add_vertex(), 0);
    assert_eq!(g.add_vertex(), 1);
    g.add_edge(1, 0);
    assert!(g.has_edge(1, 0));
    assert!(!g.has_edge(0, 1));
    assert_eq!(g.add_vertex(), 2);
    g.add_edge(2, 1);
    g.shrink_to_fit();
    for u in 0..3 {
        for v in 0..3 {
            assert_eq!(g.has_edge(u, v), (u, v) == (1, 0) || (u, v) == (2, 1));
        }
    }
    let copy = g.clone();
    assert_eq!(copy.edges(), vec![(1, 0), (2, 1)]);
    assert!(copy.has_edge(2, 1));
    assert!(!copy.has_edge(1, 2));
    let built = AdjMatrix::build_from(&g);
    assert_eq!(built.edges(), g.edges());
    assert_eq!(built.vertex_count(), 3);
}

#[test]
fn graphs_as_text() {
    let path: AdjMatrix = directed_path(2);
    assert_eq!(to_dot(&path), "digraph {\n\"0\";\n\"1\";\n\"2\";\n\"0\" -> \"1\";\n\"1\" -> \"2\";\n}");
    assert_eq!(to_edge_list(&path), "[(0,1),(1,2)]");
    assert_eq!(to_csv(&path), "0;1\n1;2\n");
    let empty = AdjMatrix::new();
    assert_eq!(to_dot(&empty), "digraph {\n}");
    assert_eq!(to_edge_list(&empty), "[]");
    assert_eq!(to_csv(&empty), "");
    let cycle: AdjMatrix = directed_cycle(12);
    assert!(to_edge_list(&cycle).ends_with(",(10,11),(11,0)]"));
}

#[test]
fn lists_of_edges() {
    let g = from_edge_list("[(0,1),(1,2),(2,0)]").unwrap();
    assert_eq!(g.vertex_count(), 4);
    assert_eq!(g.edges(), vec![(0, 1), (1, 2), (2, 0)]);
    let spaced = from_edge_list(" [ (0, 1) ,\t(1,2) ]\n").unwrap();
    assert_eq!(spaced.edges(), vec![(0, 1), (1, 2)]);
    let quoted = from_edge_list("\"[(1,0)]\"").unwrap();
    assert_eq!(quoted.edges(), vec![(1, 0)]);
    assert_eq!(quoted.vertex_count(), 2);
    assert!(from_edge_list("\"[(2,1)]\"").is_none());
    let odd = from_edge_list("[(0,1),(1]").unwrap();
    assert_eq!(odd.edges(), vec![(0, 1)]);
    let back = from_edge_list(&to_edge_list(&g)).unwrap();
    assert_eq!(back.edges(), g.edges());
    assert_eq!(from_edge_list("").unwrap().vertex_count(), 1);
    assert!(from_edge_list("[(0;1)]").is_none());
    assert!(from_edge_list("[(a,1)]").is_none());
    assert!(from_edge_list("[(0,5)]").is_none());
    assert!(from_edge_list("[(0,99999999999999999999999)]").is_none());
}

#[test]
fn tables_of_edges() {
    let g: AdjMatrix = from_csv("0;1\n1,2\n2|0\n0 3 and more\n").unwrap();
    assert_eq!(g.edges(), vec![(0, 1), (1, 2), (2, 0), (0, 3)]);
    assert_eq!(g.vertex_count(), 5);
    let windows: AdjMatrix = from_csv("0;1\r\n1;2").unwrap();
    assert_eq!(windows.edges(), vec![(0, 1), (1, 2)]);
    let empty: AdjMatrix = from_csv("").unwrap();
    assert_eq!(empty.vertex_count(), 1);
    assert_eq!(from_csv::<AdjMatrix>("0;1\n12\n").err(), Some(CsvError::MissingSeparator(2)));
    assert_eq!(from_csv::<AdjMatrix>("0;1\n\n").err(), Some(CsvError::MissingSeparator(2)));
    assert_eq!(from_csv::<AdjMatrix>("0;x\n12\n").err(), Some(CsvError::Parse(1)));
    assert_eq!(from_csv::<AdjMatrix>("0;1\n;2\n").err(), Some(CsvError::Parse(2)));
    assert_eq!(from_csv::<AdjMatrix>("0;1\n1;3\n").err(), Some(CsvError::Vertex(2)));
    assert_eq!(CsvError::MissingSeparator(12).message(), "Separator missing in line 12");
    assert_eq!(CsvError::Parse(3).message(), "invalid digit found in line 3");
    assert_eq!(CsvError::Vertex(1).message(), "Unknown vertex in line 1");
    let path: AdjMatrix = directed_path(2);
    let back: AdjMatrix = from_csv(&to_csv(&path)).unwrap();
    assert_eq!(back.edges(), path.edges());
}

#[test]
fn triads_as_text() {
    let g: AdjMatrix = parse_triad("10,0,11").unwrap();
    assert_eq!(g.vertex_count(), 6);
    assert_eq!(g.edges(), vec![(1, 0), (1, 2), (0, 3), (4, 0), (5, 4)]);
    let bare: AdjMatrix = parse_triad(",,").unwrap();
    assert_eq!(bare.vertex_count(), 1);
    assert_eq!(bare.edge_count(), 0);
    assert_eq!(parse_triad::<AdjMatrix>("10,0").err(), Some(ParseTriadError::NumArms));
    assert_eq!(parse_triad::<AdjMatrix>("1,0,0,1").err(), Some(ParseTriadError::NumArms));
    assert_eq!(parse_triad::<AdjMatrix>("1,2,0").err(), Some(ParseTriadError::InvalidCharacter('2')));
    assert_eq!(ParseTriadError::NumArms.message(), "A triad must have exactly 3 arms!");
    assert_eq!(ParseTriadError::InvalidCharacter('x').message(), "Could not parse: x");
    let triad = Triad::from_iter(vec!["10".to_string(), "0".to_string(), "11".to_string(), "1".to_string()]);
    let mut arms = triad.iter();
    assert_eq!(arms.next(), Some("10"));
    assert_eq!(arms.next(), Some("0"));
    assert_eq!(arms.next(), Some("11"));
    assert_eq!(arms.next(), None);
    assert_eq!(arms.next(), None);
}

#[test]
fn lists_and_precolourings_as_text() {
    assert_eq!(parse_lists("0,1\n2\n\r\n1,1,0"), Err(ParseListError(3)));
    assert_eq!(parse_lists("0,1\n2\r\n1,1,0\n"), Ok(vec![vec![0, 1], vec![2], vec![1, 1, 0]]));
    assert_eq!(parse_lists(""), Ok(vec![]));
    assert_eq!(parse_lists("1,,2"), Err(ParseListError(1)));
    assert_eq!(parse_lists("1\n2,x"), Err(ParseListError(2)));
    assert_eq!(parse_precoloring("0:1\n2:0\n0:2"), Ok(vec![(0, 1), (2, 0), (0, 2)]));
    assert_eq!(parse_precoloring("0:1\n20\n"), Err(ParsePrecoloringError::MissingDelimiter));
    assert_eq!(parse_precoloring("0:1\nx:0\n3"), Err(ParsePrecoloringError::ParseVertex(2)));
    assert_eq!(parse_precoloring("0:1:2"), Err(ParsePrecoloringError::ParseVertex(1)));
    assert_eq!(ParsePrecoloringError::MissingDelimiter.message(), "Missing delimiter: ':'");
    assert_eq!(ParsePrecoloringError::ParseVertex(4).message(), "invalid digit found in line 4");
    let pairs = parse_precoloring("0:1\n2:0\n0:2").unwrap();
    assert_eq!(lookup(&pairs, 0), Some(2));
    assert_eq!(lookup(&pairs, 2), Some(0));
    assert_eq!(lookup(&pairs, 1), None);
}

#[test]
fn instances_with_lists() {
    let g: AdjMatrix = directed_path(2);
    let h: AdjMatrix = directed_cycle(3);
    let pairs = vec![(1usize, 2usize)];
    let fixed = Instance::with_precoloring(g.clone(), h.clone(), |v| lookup(&pairs, v));
    assert_eq!(fixed.size(), 3);
    assert_eq!(fixed.domain(Variable(0)), vec![Value(0), Value(1), Value(2)]);
    assert_eq!(fixed.domain(Variable(1)), vec![Value(2)]);
    let lists = vec![vec![0], vec![1, 2], vec![]];
    let listed = Instance::with_lists(g.clone(), h.clone(), |v| lists[v].clone());
    assert_eq!(listed.domain(Variable(1)), vec![Value(1), Value(2)]);
    assert_eq!(listed.domain(Variable(2)), vec![]);
    let given = Instance::from_lists(g, h, lists);
    assert_eq!(given.domain(Variable(0)), vec![Value(0)]);
    assert_eq!(
        given.arcs(),
        vec![
            (Variable(0), Variable(1)),
            (Variable(1), Variable(0)),
            (Variable(1), Variable(2)),
            (Variable(2), Variable(1)),
        ]
    );
    assert!(given.check((Variable(0), Value(0)), (Variable(1), Value(1))));
    assert!(!given.check((Variable(0), Value(1)), (Variable(1), Value(0))));
    assert!(given.check((Variable(1), Value(1)), (Variable(0), Value(0))));
    assert!(!given.check((Variable(1), Value(0)), (Variable(0), Value(1))));
    assert!(given.check((Variable(0), Value(1)), (Variable(2), Value(0))));
}

#[test]
fn maps_that_keep_edges() {
    let path: AdjMatrix = directed_path(3);
    let cycle: AdjMatrix = directed_cycle(2);
    assert!(is_homomorphism(|v| v % 2, &path, &cycle));
    assert!(!is_homomorphism(|v| v / 2, &path, &cycle));
    assert!(is_endomorphism(|v| (v + 1) % 2, &cycle));
    assert!(!is_endomorphism(|_| 0, &cycle));
    let edges = vec![(0, 1), (1, 2)];
    let mut square = edges.power(2);
    assert_eq!(square.next(), Some((vec![0, 0], vec![1, 1])));
    assert_eq!(square.next(), Some((vec![0, 1], vec![1, 2])));
    assert_eq!(square.next(), Some((vec![1, 0], vec![2, 1])));
    assert_eq!(square.next(), Some((vec![1, 1], vec![2, 2])));
    assert_eq!(square.next(), None);
    let mut unit = edges.power(0);
    assert_eq!(unit.next(), Some((vec![], vec![])));
    assert_eq!(unit.next(), None);
}

#[test]
fn names_with_numbers_too_large() {
    assert_eq!(parse_class::<AdjMatrix>(&format!("k{}", usize::MAX)).err(), Some(ClassNotFound));
    assert_eq!(parse_class::<AdjMatrix>(&format!("p{}", usize::MAX - 1)).err(), Some(ClassNotFound));
    assert_eq!(parse_class::<AdjMatrix>("c99999999999999999999999999").err(), Some(ClassNotFound));
    assert!(AdjMatrix::has_room(1000));
    assert!(!AdjMatrix::has_room(usize::MAX));
    assert!(AdjMatrix::has_room(0));
}

#[test]
fn matrix_as_text() {
    let path: AdjMatrix = directed_path(2);
    assert_eq!(path.to_string(), "[(0,1)(1,2)]");
    assert_eq!(AdjMatrix::new().to_string(), "[]");
}
