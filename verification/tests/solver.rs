use tripolys::consistency::sac::ArcConsistency;
use tripolys::consistency::{ac_1, ac_3, revise, sac_1};
use tripolys::domains::DomMap;
use tripolys::digraph::classes::{complete_digraph, directed_cycle, directed_path};
use tripolys::digraph::AdjMatrix;
use tripolys::hcoloring::Instance;
use tripolys::problem::{Value, Variable};
use tripolys::solver::{BTConfig, BTSolver};

/// The problem of colouring a graph so that the two ends of an edge
/// differ: of mapping it to a complete graph.
fn colouring(g: AdjMatrix, colours: usize) -> Instance {
    Instance::new(g, complete_digraph(colours))
}

fn triangle(colours: usize) -> Instance {
    colouring(directed_cycle(3), colours)
}

fn path(vertices: usize, colours: usize) -> Instance {
    colouring(directed_path(vertices - 1), colours)
}

#[test]
fn triangle_has_no_two_colouring() {
    let problem = triangle(2);
    let mut solver = BTSolver::new(&problem);
    assert!(!solver.solution_exists());
    assert!(solver.solve_all().is_empty());
}

#[test]
fn triangle_has_six_three_colourings() {
    let problem = triangle(3);
    let mut solver = BTSolver::new(&problem);
    let all = solver.solve_all();
    assert_eq!(all.len(), 6);
    for s in &all {
        assert!(s[0] != s[1] && s[1] != s[2] && s[2] != s[0]);
    }
    for (i, s) in all.iter().enumerate() {
        for t in &all[i + 1..] {
            assert_ne!(s, t);
        }
    }
    assert_eq!(solver.stats().unwrap().solutions, 6);
    // The domains are back where arc consistency left them: a second run
    // finds the same solutions.
    assert_eq!(solver.solve_all(), all);
}

#[test]
fn first_solution_satisfies_every_arc() {
    let problem = path(5, 2);
    let mut solver = BTSolver::new(&problem);
    let s = solver.solve_first().unwrap();
    assert_eq!(s.len(), 5);
    for v in 1..5 {
        assert_ne!(s[v - 1], s[v]);
    }
    assert_eq!(solver.solve_all().len(), 2);
}

#[test]
fn a_problem_without_variables_has_the_empty_solution() {
    let problem = colouring(AdjMatrix::build_from(&AdjMatrix::new()), 3);
    let mut solver = BTSolver::new(&problem);
    assert_eq!(solver.solve_first(), Some(vec![]));
    assert_eq!(solver.solve_all(), vec![Vec::<Value>::new()]);
}

#[test]
fn unsorted_search_without_statistics() {
    let problem = triangle(3);
    let config = BTConfig { sort_stack: false, stop_at_first: false, record_stats: false };
    let mut solver = BTSolver::with_config(&problem, config);
    assert!(solver.stats().is_none());
    let all = solver.solve_all();
    assert_eq!(all.len(), 6);
    assert_eq!(all[0], vec![Value(0), Value(1), Value(2)]);
}

#[test]
fn revise_prunes_unsupported_values() {
    let problem = path(2, 2);
    let mut domains = DomMap::from_iter(vec![vec![0, 1], vec![0]]);
    assert_eq!(revise(&mut domains, &problem, Variable(0), Variable(1)), Some(true));
    assert_eq!(domains.slots(Variable(0)), vec![2]);
    assert_eq!(revise(&mut domains, &problem, Variable(0), Variable(1)), Some(false));
    let mut wiped = DomMap::from_iter(vec![vec![0], vec![0]]);
    assert_eq!(revise(&mut wiped, &problem, Variable(0), Variable(1)), None);
    assert!(wiped.get(Variable(0)).is_empty());
}

#[test]
fn arc_consistency_algorithms_agree() {
    let problem = path(3, 2);
    let lists = vec![vec![0], vec![0, 1], vec![0, 1]];
    let mut a = DomMap::from_iter(lists.clone());
    let mut b = DomMap::from_iter(lists.clone());
    let mut c = DomMap::from_iter(lists);
    assert!(ac_1(&mut a, &problem));
    assert!(ac_3(&mut b, &problem));
    assert!(sac_1(&mut c, &problem, ArcConsistency::Ac3));
    for x in 0..3 {
        assert_eq!(a.slots(Variable(x)), b.slots(Variable(x)));
        assert_eq!(a.slots(Variable(x)), c.slots(Variable(x)));
    }
    assert_eq!(a.assignment(), Some(vec![Value(0), Value(1), Value(0)]));

    let clash = triangle(2);
    let mut d = DomMap::from_iter(vec![vec![0], vec![0, 1], vec![0, 1]]);
    assert!(!ac_3(&mut d, &clash));
    let mut e = DomMap::from_iter(vec![vec![0, 1], vec![0, 1], vec![0, 1]]);
    assert!(ac_3(&mut e, &clash));
    assert!(!sac_1(&mut e, &clash, ArcConsistency::Ac1));
}
