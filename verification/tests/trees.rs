use std::sync::Arc;

use tripolys::algebra::adj_map::{AdjMap, ToGraph};
use tripolys::colouring::ColouringProblem;
use tripolys::digraph::classes::Buildable;
use tripolys::digraph::traits::{Edges, Vertices};
use tripolys::digraph::AdjMatrix;
use tripolys::hcoloring::Instance;
use tripolys::problem::Value;
use tripolys::solver::{BTConfig, BTSolver};
use tripolys::tree::generate::{addends, connect_by_edge, connect_by_vertex, TreeGenSettings, TreeGenerator, TreeGenStats};
use tripolys::tree::node::{ParseNodeError, Sign};
use tripolys::tree::{Node, Rooted};

fn tree(text: &str) -> Node {
    if text.is_empty() {
        Node::leaf()
    } else {
        Node::from_str(text).unwrap()
    }
}

fn edgeless(n: usize) -> AdjMatrix {
    let mut g = AdjMatrix::with_capacities(n, 0);
    for _ in 0..n {
        g.add_vertex();
    }
    g
}

#[test]
fn trees_as_text() {
    let leaf = tree("");
    assert_eq!((leaf.num_nodes, leaf.height, leaf.max_arity), (1, 0, 0));
    assert_eq!(leaf.to_string(), "");
    let t = tree("[0[1]0[01[0]]1]");
    assert_eq!(t.to_string(), "[0[1]0[01[0]]1]");
    assert_eq!(t.num_nodes, 8);
    assert_eq!(t.height, 3);
    assert_eq!(t.max_arity, 3);
    assert_eq!(t.arity(), 3);
    assert_eq!(t.count(), 8);
    assert_eq!(t.tall(), 3);
    assert_eq!(t.root(), 0);
    assert_eq!(t.vertices(), vec![0, 1, 2, 3, 4, 5, 6, 7]);
    assert_eq!(t.edges(), vec![(1, 0), (1, 2), (3, 0), (4, 3), (3, 5), (6, 5), (0, 7)]);
    assert!(t.has_edge(3, 5));
    assert!(!t.has_edge(5, 3));
    assert_eq!(t.edge_count(), 7);
    assert!(t.flag(2));
    assert!(!t.flag(0));
    assert_eq!(t.child(1).to_string(), "[01[0]]");
    let kids = t.iter();
    assert_eq!(kids.len(), 3);
    assert_eq!(kids[0].0.to_string(), "[1]");
    assert_eq!(t.duplicate().to_string(), t.to_string());
    assert_eq!(Node::from_str("[0[1]x]").err(), Some(ParseNodeError::InvalidCharacter('x')));
    assert_eq!(Node::from_str("[01").err(), Some(ParseNodeError::InvalidCharacter('a')));
    assert_eq!(Node::from_str("[]").err(), Some(ParseNodeError::InvalidCharacter(']')));
    assert_eq!(Node::from_str("[0]]").err(), Some(ParseNodeError::InvalidCharacter(']')));
    assert_eq!(Node::from_str("0").err(), Some(ParseNodeError::InvalidCharacter('0')));
    assert_eq!(Node::from_str("").err(), Some(ParseNodeError::InvalidCharacter('a')));
    assert_eq!(ParseNodeError::InvalidCharacter('q').message(), "Could not parse: q");
}

#[test]
fn shapes_of_trees() {
    assert!(tree("[00]").is_centered());
    assert!(!tree("[0[0]0]").is_centered());
    assert!(tree("[0[0]1[1]]").is_centered());
    assert!(!tree("").is_centered());
    assert!(tree("[0[0[0]]]").is_path());
    assert!(tree("[00[0]]").is_path());
    assert!(!tree("[000]").is_path());
    assert!(!tree("[0[00]]").is_path());
    // A vertex far from the root with four neighbours.
    assert!(!tree("[0[0[000]]]").is_path());
    assert_eq!(tree("[0[0[000]]]").max_arity, 4);
    assert_eq!(tree("[0[0[00]]]").wide(), 3);
    assert!(tree("[0[0[0[0]]]]").is_path());
    assert!(tree("[000]").is_triad());
    assert!(tree("[0[00]]").is_triad());
    assert!(tree("[0[0[0]1]]").is_triad());
    assert!(!tree("[0000]").is_triad());
    assert!(!tree("[0[000]]").is_triad());
    assert!(!tree("[0[00]1[00]]").is_triad());
    assert!(!tree("[0[0]1]").is_triad());
    assert!(!tree("").is_triad());
}

#[test]
fn order_of_trees() {
    // Trees of one size go by height, then by their children; a child's tree
    // weighs more than the direction of its edge.
    let texts = ["", "[0]", "[1]", "[00]", "[01]", "[0[0]]", "[1[0]]", "[0[1]]", "[000]"];
    for (i, a) in texts.iter().enumerate() {
        for (j, b) in texts.iter().enumerate() {
            let sign = tree(a).against(&tree(b));
            let expected = if i < j {
                Sign::Less
            } else if i == j {
                Sign::Equal
            } else {
                Sign::Greater
            };
            assert_eq!(sign, expected, "{} against {}", a, b);
            assert_eq!(tree(a).le(&tree(b)), i <= j);
        }
    }
}

#[test]
fn sums_of_numbers() {
    assert_eq!(addends(6, 3), vec![vec![2, 2, 2], vec![1, 2, 3], vec![1, 1, 4]]);
    assert_eq!(addends(3, 1), vec![vec![3]]);
    assert_eq!(addends(2, 3), Vec::<Vec<usize>>::new());
    assert_eq!(addends(0, 0), vec![Vec::<usize>::new()]);
    assert_eq!(addends(1, 0), Vec::<Vec<usize>>::new());
    assert_eq!(addends(4, 2), vec![vec![2, 2], vec![1, 3]]);
}

#[test]
fn joining_trees() {
    let leaf = Arc::new(Node::leaf());
    let edge = Arc::new(tree("[0]"));
    let joined: Vec<String> =
        connect_by_vertex(&vec![leaf.clone(), leaf.clone()]).iter().map(|t| t.to_string()).collect();
    assert_eq!(joined, vec!["[11]", "[01]", "[00]"]);
    let mixed: Vec<String> =
        connect_by_vertex(&vec![leaf.clone(), edge.clone()]).iter().map(|t| t.to_string()).collect();
    assert_eq!(mixed, vec!["[11[0]]", "[10[0]]", "[01[0]]", "[00[0]]"]);
    assert!(connect_by_vertex(&vec![]).is_empty());
    let same: Vec<String> = connect_by_edge(&edge, &edge).iter().map(|t| t.to_string()).collect();
    assert_eq!(same, vec!["[01[0]]"]);
    let other = Arc::new(tree("[1]"));
    let two: Vec<String> = connect_by_edge(&edge, &other).iter().map(|t| t.to_string()).collect();
    assert_eq!(two, vec!["[01[1]]", "[00[1]]"]);
}

#[test]
fn numbers_of_trees() {
    let mut generator = TreeGenerator::new(TreeGenSettings {
        start: 1,
        end: 6,
        max_arity: 6,
        core: false,
        triad: false,
        stats: Some(TreeGenStats { num_rcc: 0, num_cc: 0 }),
    });
    let counts: Vec<usize> = (1..=6).map(|_| generator.generate().len()).collect();
    assert_eq!(counts, vec![1, 1, 3, 8, 27, 91]);
    let mut narrow = TreeGenerator::new(TreeGenSettings {
        start: 4,
        end: 4,
        max_arity: 2,
        core: false,
        triad: false,
        stats: None,
    });
    assert_eq!(narrow.generate().len(), 4);
    let mut triads = TreeGenerator::new(TreeGenSettings {
        start: 4,
        end: 5,
        max_arity: 5,
        core: false,
        triad: true,
        stats: None,
    });
    assert_eq!(triads.generate().len(), 4);
    assert_eq!(triads.generate().len(), 12);
}

#[test]
fn graph_on_terms() {
    let a = (0, vec![0, 0]);
    let b = (0, vec![0, 1]);
    let c = (1, vec![1]);
    let d = (1, vec![2]);
    let mut graph = AdjMap::new();
    assert!(graph.add_vertex(a.clone()));
    assert!(graph.add_vertex(b.clone()));
    assert!(!graph.add_vertex(a.clone()));
    assert!(graph.add_vertex(c.clone()));
    assert!(graph.add_vertex(d.clone()));
    assert_eq!(graph.vertex_count(), 4);
    assert!(graph.has_vertex(&c));
    assert!(!graph.has_vertex(&(1, vec![3])));
    assert!(graph.add_edge(&a, &b));
    assert!(!graph.add_edge(&a, &b));
    assert!(graph.add_edge(&b, &c));
    assert!(graph.add_edge(&b, &b));
    assert!(graph.add_edge(&d, &b));
    assert!(!graph.link(&a, &(1, vec![3])));
    assert_eq!(graph.edge_count(), 4);
    assert!(graph.has_edge(&a, &b));
    assert!(!graph.has_edge(&b, &a));
    assert!(!graph.has_edge(&(1, vec![3]), &a));
    assert_eq!(graph.index_of(&c), Some(2));
    assert_eq!(graph.index_of(&(1, vec![3])), None);
    assert_eq!(graph.vertex(1), b);
    assert_eq!(graph.edge(1), (b.clone(), c.clone()));

    assert!(graph.contract_vertices(&a, &a));
    assert!(!graph.contract_vertices(&a, &(1, vec![3])));
    assert_eq!(graph.vertex_count(), 4);
    // The last vertex takes the place of the one that leaves.
    assert!(graph.contract_vertices(&a, &b));
    assert_eq!(graph.vertex_count(), 3);
    assert_eq!(graph.vertex(0), a);
    assert_eq!(graph.vertex(1), d);
    assert_eq!(graph.vertex(2), c);
    assert!(!graph.has_vertex(&b));
    assert!(graph.has_edge(&a, &c));
    assert!(graph.has_edge(&a, &a));
    assert!(graph.has_edge(&d, &a));
    assert!(!graph.has_edge(&d, &c));
    assert_eq!(graph.edge_count(), 3);
    let edges: Vec<_> = (0..3).map(|k| graph.edge(k)).collect();
    assert_eq!(edges, vec![(d.clone(), a.clone()), (a.clone(), c.clone()), (a.clone(), a.clone())]);
}

#[test]
fn frames_without_removals_are_taken_back() {
    // Nothing joins the vertices, so no assignment prunes anything.
    let problem = Instance::new(edgeless(3), edgeless(3));
    let mut solver = BTSolver::new(&problem);
    let all = solver.solve_all();
    assert_eq!(all.len(), 27);
    assert_eq!(all[0], vec![Value(0), Value(0), Value(0)]);
    assert_eq!(all[26], vec![Value(2), Value(2), Value(2)]);
    let stats = solver.stats().unwrap();
    assert_eq!(stats.solutions, 27);
    assert_eq!(stats.ccks, 0);
    assert!(!stats.ac3_time.is_negative());
    assert!(!stats.mac3_time.is_negative());
    assert_eq!(solver.solve_first(), Some(vec![Value(0), Value(0), Value(0)]));
    assert_eq!(solver.stats().unwrap().solutions, 28);
    assert_eq!(solver.solve_all().len(), 27);
}

#[test]
fn search_in_parts() {
    let g = AdjMatrix::from_iter(vec![(0, 1), (1, 2)]).unwrap();
    let h = AdjMatrix::from_iter(vec![(0, 1)]).unwrap();
    let problem = Instance::new(g, h);
    let config = BTConfig { sort_stack: true, stop_at_first: true, record_stats: true };
    let mut solver = BTSolver::with_config(&problem, config);
    // A path with two edges does not map to one edge.
    assert!(!solver.preprocess());
    let longer = AdjMatrix::from_iter(vec![(0, 1), (1, 2)]).unwrap();
    let target = AdjMatrix::from_iter(vec![(0, 1), (1, 2)]).unwrap();
    let second = Instance::new(longer, target);
    let mut solver = BTSolver::with_config(&second, BTConfig::default());
    assert!(solver.preprocess());
    let mut out = Vec::new();
    solver.solve_inner(&mut out);
    assert_eq!(out, vec![vec![Value(0), Value(1), Value(2)]]);
}

#[test]
fn vertices_and_edges_leave_a_graph_on_terms() {
    let a = (0, vec![0]);
    let b = (0, vec![1]);
    let c = (0, vec![2]);
    let mut graph = AdjMap::new();
    graph.add_vertex(a.clone());
    graph.add_vertex(b.clone());
    graph.add_vertex(c.clone());
    graph.add_edge(&a, &b);
    graph.add_edge(&b, &c);
    graph.add_edge(&c, &a);
    graph.add_edge(&b, &b);
    assert!(graph.remove_edge(&a, &b));
    assert!(!graph.remove_edge(&a, &b));
    assert!(!graph.remove_edge(&a, &(0, vec![7])));
    assert!(!graph.has_edge(&a, &b));
    assert_eq!(graph.edge_count(), 3);
    // The last edge takes the place of the one that leaves.
    assert_eq!(graph.edge(0), (b.clone(), b.clone()));
    graph.remove_vertex(&b);
    assert_eq!(graph.vertex_count(), 2);
    assert_eq!(graph.vertex(0), a);
    assert_eq!(graph.vertex(1), c);
    assert_eq!(graph.edge_count(), 1);
    assert_eq!(graph.edge(0), (c.clone(), a.clone()));
    assert!(graph.has_edge(&c, &a));
    assert!(!graph.has_edge(&b, &c));
    graph.remove_vertex(&b);
    assert_eq!(graph.vertex_count(), 2);
    assert_eq!(graph.edge_count(), 1);
    // Edges from and to the vertex that is left can be added again.
    assert!(graph.add_edge(&a, &c));
    assert_eq!(graph.edge_count(), 2);
}

#[test]
fn graph_on_terms_from_its_edges() {
    let a = (0, vec![0]);
    let b = (0, vec![1]);
    let c = (1, vec![0]);
    let graph = AdjMap::from_iter(vec![
        (a.clone(), b.clone()),
        (b.clone(), c.clone()),
        (a.clone(), b.clone()),
        (c.clone(), c.clone()),
    ]);
    assert_eq!(graph.vertex_count(), 3);
    assert_eq!(graph.vertex(0), a);
    assert_eq!(graph.vertex(1), b);
    assert_eq!(graph.vertex(2), c);
    assert_eq!(graph.edge_count(), 3);
    assert_eq!(graph.edge(2), (c.clone(), c.clone()));
    assert!(graph.has_edge(&b, &c));
    assert!(!graph.has_edge(&c, &b));
    assert_eq!(AdjMap::from_iter(vec![]).vertex_count(), 0);
}

#[test]
fn neighbours_and_unions_of_graphs_on_terms() {
    let a = (0, vec![0]);
    let b = (0, vec![1]);
    let c = (0, vec![2]);
    let g = AdjMap::from_edges(vec![(a.clone(), b.clone()), (c.clone(), a.clone()), (a.clone(), c.clone())]);
    assert_eq!(g.out_neighbors(&a), vec![b.clone(), c.clone()]);
    assert_eq!(g.in_neighbors(&a), vec![c.clone()]);
    assert_eq!(g.neighbors(&a), vec![b.clone(), c.clone(), c.clone()]);
    assert_eq!(g.out_neighbors_count(&a), 2);
    assert_eq!(g.in_neighbors_count(&a), 1);
    assert_eq!(g.neighbors_count(&a), 3);
    assert_eq!(g.neighbors_count(&b), 1);
    let mut h = AdjMap::with_capacity(1_000_000);
    assert_eq!(h.vertex_count(), 0);
    let d = (1, vec![0]);
    h.add_vertex(d.clone());
    h.add_vertex(a.clone());
    h.add_edge(&d, &a);
    let u = g.union(&h);
    assert_eq!(u.vertex_count(), 4);
    assert_eq!(u.vertex(0), a);
    assert_eq!(u.vertex(3), d);
    assert_eq!(u.edge_count(), 4);
    assert_eq!(u.edge(3), (d.clone(), a.clone()));
    let m = u.to_matrix().unwrap();
    assert_eq!(m.vertex_count(), 4);
    assert_eq!(m.edges(), vec![(0, 1), (2, 0), (0, 2), (3, 0)]);
    let folded = g.map(|t| (t.0, vec![t.1[0] % 2]));
    assert_eq!(folded.vertex_count(), 2);
    assert_eq!(folded.edge_count(), 2);
    assert_eq!(folded.edge(1), (a.clone(), a.clone()));
    let copy = g.to_graph();
    assert_eq!(copy.vertex_count(), 3);
    assert_eq!(copy.edge(1), (c.clone(), a.clone()));
    let mut grown = AdjMap::new();
    grown.grow(vec![(a.clone(), b.clone()), (a.clone(), b.clone())]);
    assert_eq!(grown.edge_count(), 1);
}

#[test]
fn tree_as_graph_on_terms() {
    let t = tree("[0[1]1]");
    let g = t.to_graph();
    assert_eq!(g.vertex_count(), 4);
    assert_eq!(g.vertex(0), (0, vec![]));
    assert_eq!(g.edge_count(), 3);
    assert_eq!(g.edge(0), ((1, vec![]), (0, vec![])));
    assert_eq!(g.edge(1), ((1, vec![]), (2, vec![])));
    assert_eq!(g.edge(2), ((0, vec![]), (3, vec![])));
    assert_eq!(Node::leaf().to_graph().vertex_count(), 1);
}

#[test]
fn colouring_graphs_on_terms() {
    let a = (0, vec![0]);
    let b = (0, vec![1]);
    let c = (0, vec![2]);
    let path = AdjMap::from_edges(vec![(a.clone(), b.clone()), (b.clone(), c.clone())]);
    let cycle = AdjMap::from_edges(vec![(a.clone(), b.clone()), (b.clone(), c.clone()), (c.clone(), a.clone())]);
    let mut problem = ColouringProblem::new(&path, &cycle).unwrap();
    assert_eq!(BTSolver::new(&problem).solve_all().len(), 3);
    problem.precolour(|t| if t.1[0] == 1 { Some((0, vec![0])) } else if t.1[0] == 2 { Some((7, vec![])) } else { None });
    assert_eq!(BTSolver::new(&problem).solve_all(), vec![vec![Value(2), Value(0), Value(1)]]);
}

#[test]
fn an_assignment_is_taken_back() {
    let problem = Instance::new(edgeless(2), edgeless(3));
    let mut solver = BTSolver::new(&problem);
    solver.assign(tripolys::problem::Variable(0), 2);
    solver.unassign(tripolys::problem::Variable(0));
    // The slot that was tried is unlinked: two values are left for the
    // first vertex.
    let all = solver.solve_all();
    assert_eq!(all.len(), 6);
    assert_eq!(all[0], vec![Value(0), Value(0)]);
    assert_eq!(all[5], vec![Value(2), Value(2)]);
}
