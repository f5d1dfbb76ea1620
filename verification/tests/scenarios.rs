use tripolys::algebra::{Condition, MetaProblem};
use tripolys::algebra::metaproblem::Error;
use tripolys::digraph::classes::{complete_digraph, directed_cycle, directed_path, Buildable};
use tripolys::digraph::levels::levels;
use tripolys::digraph::named::parse_class;
use tripolys::digraph::traits::Edges;
use tripolys::digraph::AdjMatrix;
use tripolys::hcoloring::Instance;
use tripolys::problem::{Domains, Value};
use tripolys::solver::BTSolver;
use tripolys::tree::generate::{TreeGenSettings, TreeGenerator};
use tripolys::tree::triad::parse_triad;
use tripolys::tree::{is_core_tree, is_rooted_core_tree, Node};

fn polymorphism(h: &AdjMatrix, problem: MetaProblem) -> Result<bool, Error> {
    problem.has_polymorphism(h)
}

#[test]
fn decision_agrees_with_building_and_searching() {
    let graphs: Vec<AdjMatrix> = vec![
        directed_path(2),
        directed_cycle(3),
        complete_digraph(2),
        complete_digraph(3),
        parse_triad("1,0,0").unwrap(),
    ];
    let conditions = [
        Condition::Majority,
        Condition::Siggers,
        Condition::Kmm,
        Condition::Wnu(2),
        Condition::Jonsson(1),
        Condition::HagemannMitschke(2),
    ];
    for h in &graphs {
        for condition in conditions {
            for level_wise in [false, true] {
                let problem = MetaProblem::new(condition).level_wise(level_wise);
                let by_hand = match problem.instance(h) {
                    Ok(instance) => Ok(BTSolver::new(&instance).solution_exists()),
                    Err(e) => Err(e),
                };
                assert_eq!(problem.has_polymorphism(h), by_hand);
            }
        }
    }
    let cycle: AdjMatrix = directed_cycle(3);
    assert_eq!(MetaProblem::new(Condition::Majority).has_polymorphism(&cycle), Err(Error::Unbalanced));
}

#[test]
fn cycle_maps_to_itself_by_its_rotations() {
    let g: AdjMatrix = directed_cycle(3);
    let h: AdjMatrix = directed_cycle(3);
    let problem = Instance::new(g, h);
    let mut solver = BTSolver::new(&problem);
    assert!(solver.solution_exists());
    let all = solver.solve_all();
    assert_eq!(
        all,
        vec![
            vec![Value(0), Value(1), Value(2)],
            vec![Value(1), Value(2), Value(0)],
            vec![Value(2), Value(0), Value(1)],
        ]
    );
}

#[test]
fn complete_graph_on_three_does_not_map_to_that_on_two() {
    let g: AdjMatrix = complete_digraph(3);
    let h: AdjMatrix = complete_digraph(2);
    let problem = Instance::new(g, h);
    assert!(!BTSolver::new(&problem).solution_exists());
}

#[test]
fn triad_with_majority() {
    let h: AdjMatrix = parse_triad("10,10,10").unwrap();
    assert_eq!(h.edges(), vec![(1, 0), (1, 2), (3, 0), (3, 4), (5, 0), (5, 6)]);
    let problem = MetaProblem::new(Condition::Majority).level_wise(true);
    assert_eq!(polymorphism(&h, problem), Ok(true));
    assert_eq!(polymorphism(&h, problem.level_wise(false)), Ok(true));
}

/// Whether some operation with three arguments on the vertices 0 and 1 maps
/// edges to edges and satisfies the majority identities, by trying all of
/// them.
fn has_majority(edges: &[(usize, usize)]) -> bool {
    'next: for table in 0..256u32 {
        let m = |x: usize, y: usize, z: usize| ((table >> (4 * x + 2 * y + z)) & 1) as usize;
        for x in 0..2 {
            for y in 0..2 {
                if m(x, x, y) != x || m(x, y, x) != x || m(y, x, x) != x {
                    continue 'next;
                }
            }
        }
        for &(a0, b0) in edges {
            for &(a1, b1) in edges {
                for &(a2, b2) in edges {
                    if !edges.contains(&(m(a0, a1, a2), m(b0, b1, b2))) {
                        continue 'next;
                    }
                }
            }
        }
        return true;
    }
    false
}

#[test]
fn majority_on_two_vertices_agrees_with_trying_all_operations() {
    let pairs = [(0, 0), (0, 1), (1, 0), (1, 1)];
    for choice in 0..16u32 {
        let edges: Vec<(usize, usize)> =
            (0..4).filter(|k| (choice >> k) & 1 == 1).map(|k| pairs[k as usize]).collect();
        let mut h = AdjMatrix::build_from(&AdjMatrix::new());
        h.add_vertex();
        h.add_vertex();
        for &(u, v) in &edges {
            h.add_edge(u, v);
        }
        let problem = MetaProblem::new(Condition::Majority).level_wise(false);
        assert_eq!(polymorphism(&h, problem), Ok(has_majority(&edges)), "edges {:?}", edges);
    }
}

#[test]
fn path_with_near_unanimity() {
    let h: AdjMatrix = parse_class("p3").unwrap();
    assert_eq!(polymorphism(&h, MetaProblem::new(Condition::Nu(3))), Ok(true));
    assert_eq!(polymorphism(&h, MetaProblem::new(Condition::Nu(3)).level_wise(false)), Ok(true));
}

#[test]
fn siggers_on_complete_graphs_and_cycles() {
    let problem = MetaProblem::new(Condition::Siggers).idempotent(true).level_wise(false);
    let k2: AdjMatrix = complete_digraph(2);
    assert_eq!(polymorphism(&k2, problem), Ok(true));
    let c3: AdjMatrix = directed_cycle(3);
    assert_eq!(polymorphism(&c3, problem), Ok(true));
    let k3: AdjMatrix = complete_digraph(3);
    assert_eq!(polymorphism(&k3, problem), Ok(false));
    let k4: AdjMatrix = complete_digraph(4);
    assert_eq!(polymorphism(&k4, problem), Ok(false));
    assert_eq!(polymorphism(&k4, MetaProblem::new(Condition::Kmm).level_wise(false)), Ok(false));
}

#[test]
fn unbalanced_graph_has_no_levels() {
    let h: AdjMatrix = directed_cycle(3);
    assert_eq!(levels(&h), None);
    let problem = MetaProblem::new(Condition::Majority);
    assert!(matches!(problem.instance(&h), Err(Error::Unbalanced)));
    let path: AdjMatrix = directed_path(3);
    assert_eq!(levels(&path), Some(vec![0, 1, 2, 3]));
}

#[test]
fn indicator_graph_without_vertices_solves_trivially() {
    let h = AdjMatrix::build_from(&AdjMatrix::new());
    let instance = MetaProblem::new(Condition::Majority).level_wise(false).instance(&h).unwrap();
    assert_eq!(instance.size(), 0);
    assert_eq!(BTSolver::new(&instance).solve_first(), Some(vec![]));
}

#[test]
fn conservative_and_idempotent_lists() {
    let h: AdjMatrix = directed_path(1);
    let plain = MetaProblem::new(Condition::Wnu(2)).level_wise(false);
    let instance = plain.instance(&h).unwrap();
    // The square of the one edge has one edge, between (0, 0) and (1, 1).
    assert_eq!(instance.size(), 2);
    assert_eq!(instance.domain(tripolys::problem::Variable(0)), vec![Value(0), Value(1)]);
    let idempotent = plain.idempotent(true).instance(&h).unwrap();
    assert_eq!(idempotent.domain(tripolys::problem::Variable(0)), vec![Value(0)]);
    assert_eq!(idempotent.domain(tripolys::problem::Variable(1)), vec![Value(1)]);
    let conservative = plain.conservative(true).instance(&h).unwrap();
    assert_eq!(conservative.domain(tripolys::problem::Variable(1)), vec![Value(1)]);
}

fn settings(start: usize, triad: bool, core: bool) -> TreeGenSettings {
    TreeGenSettings { start, end: 9, max_arity: 9, core, triad, stats: None }
}

/// Whether every map of the vertices of the tree to themselves that maps
/// edges to edges is one to one, by trying all maps.
fn is_core_by_trying(t: &Node) -> bool {
    let n = t.num_nodes;
    let edges = t.edges();
    let mut map = vec![0usize; n];
    loop {
        if edges.iter().all(|&(u, v)| edges.contains(&(map[u], map[v]))) {
            let mut seen = vec![false; n];
            for &image in &map {
                if seen[image] {
                    return false;
                }
                seen[image] = true;
            }
        }
        let mut k = 0;
        while k < n && map[k] == n - 1 {
            map[k] = 0;
            k += 1;
        }
        if k == n {
            return true;
        }
        map[k] += 1;
    }
}

#[test]
fn one_tree_with_one_vertex_and_it_is_a_core() {
    let mut generator = TreeGenerator::new(settings(1, false, false));
    let trees = generator.generate();
    assert_eq!(trees.len(), 1);
    assert_eq!(trees[0].num_nodes, 1);
    assert!(is_core_tree(&trees[0]));
    assert!(is_core_tree(&Node::leaf()));
    assert!(is_rooted_core_tree(&Node::leaf()));
    assert_eq!(generator.generate().len(), 1);
    assert_eq!(generator.generate().len(), 3);
}

#[test]
fn trees_with_four_vertices() {
    let mut generator = TreeGenerator::new(settings(4, false, false));
    let trees = generator.generate();
    assert_eq!(trees.len(), 8);
    let mut texts: Vec<String> = trees.iter().map(|t| t.to_string()).collect();
    for t in &trees {
        assert_eq!(t.num_nodes, 4);
        assert_eq!(t.edges().len(), 3);
    }
    texts.sort();
    texts.dedup();
    assert_eq!(texts.len(), 8);
    assert_eq!(generator.generate().len(), 27);
}

#[test]
fn triads_with_seven_vertices() {
    let mut generator = TreeGenerator::new(settings(7, true, false));
    let triads = generator.generate();
    assert_eq!(triads.len(), 132);
    for t in &triads {
        assert!(t.is_triad());
        assert_eq!(t.num_nodes, 7);
    }
}

#[test]
fn core_check_agrees_with_trying_all_maps() {
    for n in 1..6 {
        let mut generator = TreeGenerator::new(settings(n, false, false));
        let trees = generator.generate();
        let mut cores = 0;
        for t in &trees {
            assert_eq!(is_core_tree(t), is_core_by_trying(t), "tree {}", t.to_string());
            if is_core_tree(t) {
                cores += 1;
            }
        }
        let mut only_cores = TreeGenerator::new(settings(n, false, true));
        let kept = only_cores.generate();
        assert_eq!(kept.len(), cores);
        for t in &kept {
            assert!(is_core_by_trying(t));
        }
    }
}

#[test]
fn triad_that_is_no_core() {
    let triad: AdjMatrix = parse_triad("1,0,0").unwrap();
    assert!(!is_core_tree(&triad));
    let path: AdjMatrix = directed_path(3);
    assert!(is_core_tree(&path));
}
