use tripolys::algebra::classes::{eq_classes, Condition as Kind};
use tripolys::algebra::conditions::{
    kk, majority, nu, quasi_majority_p, wnu, Condition, HagemanMitschke, HeightOne, HobbyMcKenzie, Jonsson,
    NoName, Operation, Precolor, Siggers,
};
use tripolys::algebra::metaproblem::{arities, elem_count, precolor, ElemCount};

#[test]
fn test_height1() {
    fn test<C: Condition + HeightOne>(_condition: C) {}

    test(Siggers);
}

#[test]
fn test_siggers() {
    assert!(Siggers::eq_under(&vec![0, 1, 2, 0], &vec![1, 0, 1, 2]));
    assert!(Siggers::eq_under(&vec![1, 0, 1, 2], &vec![0, 1, 2, 0]));
}

#[test]
fn siggers_refuses_unrelated_tuples() {
    assert!(!Siggers::eq_under(&vec![0, 1, 2, 0], &vec![0, 1, 2, 0]));
    assert!(Siggers::eq_under(&vec![0, 1, 1, 0], &vec![0, 1, 0, 1]));
}

#[test]
fn names_of_conditions() {
    assert_eq!(Kind::from_str("majority"), Ok(Kind::Majority));
    assert_eq!(Kind::from_str("Siggers"), Ok(Kind::Siggers));
    assert_eq!(Kind::from_str("KMM"), Ok(Kind::Kmm));
    assert_eq!(Kind::from_str("3-nu"), Ok(Kind::Nu(3)));
    assert_eq!(Kind::from_str("4-wnu"), Ok(Kind::Wnu(4)));
    assert_eq!(Kind::from_str("2-j"), Ok(Kind::Jonsson(2)));
    assert_eq!(Kind::from_str("2-hm"), Ok(Kind::HagemannMitschke(2)));
    assert_eq!(Kind::from_str("5-kk"), Ok(Kind::KearnesKiss(5)));
    assert_eq!(Kind::from_str("1-hmck"), Ok(Kind::HobbyMcKenzie(1)));
    assert_eq!(Kind::from_str("3-nn"), Ok(Kind::NoName(3)));
    let unknown = Err("unknown Condition, cannot convert from str".to_string());
    assert_eq!(Kind::from_str("3-NU"), unknown);
    assert_eq!(Kind::from_str("x-nu"), unknown);
    assert_eq!(Kind::from_str("maltsev"), unknown);
    assert_eq!(Kind::from_str("3-"), unknown);
    assert_eq!(Kind::from_str(""), unknown);
}

#[test]
fn arities_of_the_catalogue() {
    assert_eq!(arities(Kind::Kmm), vec![3, 3]);
    assert_eq!(arities(Kind::Siggers), vec![4]);
    assert_eq!(arities(Kind::Majority), vec![3]);
    assert_eq!(arities(Kind::Nu(5)), vec![5]);
    assert_eq!(arities(Kind::Wnu(2)), vec![2]);
    assert_eq!(arities(Kind::NoName(2)), vec![4, 4, 4]);
    assert_eq!(arities(Kind::Jonsson(2)), vec![3; 5]);
    assert_eq!(arities(Kind::KearnesKiss(2)), vec![3; 3]);
    assert_eq!(arities(Kind::HobbyMcKenzie(1)), vec![3; 5]);
    assert_eq!(arities(Kind::HagemannMitschke(2)), vec![3; 2]);
    assert_eq!(majority().arities(), vec![3]);
    assert_eq!(nu(4).arity(), 4);
    assert_eq!(wnu(3).arity(), 3);
    assert_eq!(kk(1).arities(), vec![3, 3]);
    assert_eq!(Jonsson::with_length(1).arities(), vec![3, 3, 3]);
    assert_eq!(HobbyMcKenzie::with_length(0).arities(), vec![3, 3, 3]);
    assert_eq!(NoName::with_length(1).arities(), vec![4, 4]);
    assert_eq!(HagemanMitschke(3).arities(), vec![3, 3, 3]);
}

#[test]
fn counting_elements() {
    assert_eq!(elem_count(&vec![1, 1, 1, 2]), ElemCount::Once(1, 2));
    assert_eq!(elem_count(&vec![2, 1, 1]), ElemCount::Once(1, 2));
    assert_eq!(elem_count(&vec![4, 4, 4]), ElemCount::AllEqual(4));
    assert_eq!(elem_count(&vec![1, 2, 3]), ElemCount::Mixed);
    assert_eq!(elem_count(&vec![1, 1, 2, 2]), ElemCount::Mixed);
    assert_eq!(elem_count(&vec![1, 2]), ElemCount::Once(1, 2));
    assert_eq!(elem_count(&vec![]), ElemCount::Mixed);
}

#[test]
fn fixed_values() {
    assert_eq!(precolor(Kind::Majority, &(0, vec![2, 2, 2])), Some(2));
    assert_eq!(precolor(Kind::Majority, &(0, vec![2, 2, 1])), None);
    assert_eq!(precolor(Kind::Nu(4), &(0, vec![3, 3, 1, 3])), Some(3));
    assert_eq!(precolor(Kind::Nu(4), &(0, vec![3, 3, 3, 3])), None);
    assert_eq!(precolor(Kind::Wnu(3), &(0, vec![3, 3, 1])), None);
    assert_eq!(precolor(Kind::NoName(2), &(0, vec![5, 1, 1, 7])), Some(5));
    assert_eq!(precolor(Kind::NoName(2), &(2, vec![4, 4, 1, 7])), Some(7));
    assert_eq!(precolor(Kind::NoName(2), &(1, vec![4, 4, 4, 7])), None);
    assert_eq!(precolor(Kind::HobbyMcKenzie(1), &(0, vec![5, 1, 2])), Some(5));
    assert_eq!(precolor(Kind::HobbyMcKenzie(1), &(4, vec![5, 1, 2])), Some(2));
    assert_eq!(precolor(Kind::HobbyMcKenzie(1), &(2, vec![5, 1, 2])), None);
    assert_eq!(precolor(Kind::HagemannMitschke(2), &(0, vec![5, 1, 1])), Some(5));
    assert_eq!(precolor(Kind::HagemannMitschke(2), &(1, vec![5, 5, 1])), Some(1));
    assert_eq!(precolor(Kind::Siggers, &(0, vec![1, 1, 1, 1])), None);
    assert_eq!(majority().precolor(&(0, vec![1, 1, 1])), Some(1));
}

#[test]
fn classes_of_majority_and_near_unanimity() {
    let weak = eq_classes(Kind::Majority, &vec![0, 1]);
    assert_eq!(
        weak,
        vec![
            vec![(0, vec![1, 0, 0]), (0, vec![0, 1, 0]), (0, vec![0, 0, 1])],
            vec![(0, vec![0, 1, 1]), (0, vec![1, 0, 1]), (0, vec![1, 1, 0])],
        ]
    );
    assert_eq!(eq_classes(Kind::Wnu(3), &vec![0, 1]), weak);
    let strong = eq_classes(Kind::Nu(3), &vec![0, 1, 2]);
    assert_eq!(strong.len(), 3);
    assert_eq!(
        strong[0],
        vec![
            (0, vec![1, 0, 0]),
            (0, vec![0, 1, 0]),
            (0, vec![0, 0, 1]),
            (0, vec![2, 0, 0]),
            (0, vec![0, 2, 0]),
            (0, vec![0, 0, 2]),
        ]
    );
    assert_eq!(majority().tuples(&vec![0, 1])[0], vec![vec![1, 0, 0], vec![0, 1, 0], vec![0, 0, 1]]);
}

#[test]
fn classes_of_the_chains() {
    assert_eq!(
        eq_classes(Kind::Kmm, &vec![7]),
        vec![
            vec![(0, vec![7, 7, 7]), (1, vec![7, 7, 7])],
            vec![(0, vec![7, 7, 7]), (1, vec![7, 7, 7]), (1, vec![7, 7, 7])],
            vec![(0, vec![7, 7, 7]), (1, vec![7, 7, 7])],
        ]
    );
    assert_eq!(
        eq_classes(Kind::HagemannMitschke(2), &vec![3]),
        vec![
            vec![(0, vec![3, 3, 3]), (1, vec![3, 3, 3])],
            vec![(1, vec![3, 3, 3]), (2, vec![3, 3, 3])],
        ]
    );
    assert_eq!(
        eq_classes(Kind::NoName(1), &vec![0, 1])[2..4],
        [
            vec![(0, vec![0, 0, 1, 0]), (1, vec![0, 1, 1, 0])],
            vec![(0, vec![0, 0, 1, 1]), (1, vec![0, 1, 1, 1])],
        ]
    );
    let j = eq_classes(Kind::Jonsson(1), &vec![0, 1]);
    assert_eq!(
        j[..5],
        [
            vec![(0, vec![0, 1, 1]), (1, vec![0, 1, 1])],
            vec![(1, vec![0, 0, 1]), (2, vec![0, 0, 1])],
            vec![(0, vec![0, 0, 0]), (0, vec![0, 0, 1])],
            vec![(2, vec![1, 1, 1]), (2, vec![0, 1, 1])],
            vec![
                (0, vec![0, 0, 0]),
                (1, vec![0, 0, 0]),
                (2, vec![0, 0, 0]),
                (0, vec![0, 1, 0]),
                (1, vec![0, 1, 0]),
                (2, vec![0, 1, 0]),
            ],
        ]
    );
    assert_eq!(j.len(), 10);
    let k = eq_classes(Kind::KearnesKiss(2), &vec![5]);
    assert_eq!(
        k,
        vec![
            vec![(0, vec![5, 5, 5]), (1, vec![5, 5, 5])],
            vec![(0, vec![5, 5, 5]), (1, vec![5, 5, 5])],
            vec![(1, vec![5, 5, 5]), (2, vec![5, 5, 5])],
            vec![
                (0, vec![5, 5, 5]),
                (1, vec![5, 5, 5]),
                (2, vec![5, 5, 5]),
                (0, vec![5, 5, 5]),
                (2, vec![5, 5, 5]),
            ],
        ]
    );
    let h = eq_classes(Kind::HobbyMcKenzie(2), &vec![0, 1]);
    assert_eq!(h[0], (0..7).map(|i| (i, vec![0, 0, 0])).collect::<Vec<_>>());
    assert_eq!(
        h[1..9],
        [
            vec![(2, vec![0, 1, 1]), (3, vec![0, 1, 1])],
            vec![(3, vec![0, 0, 1]), (4, vec![0, 0, 1])],
            vec![(0, vec![0, 1, 1]), (1, vec![0, 1, 1])],
            vec![(4, vec![0, 1, 1]), (5, vec![0, 1, 1])],
            vec![(4, vec![0, 1, 0]), (5, vec![0, 1, 0])],
            vec![(1, vec![0, 0, 1]), (2, vec![0, 0, 1])],
            vec![(1, vec![0, 1, 0]), (2, vec![0, 1, 0])],
            vec![(5, vec![0, 0, 1]), (6, vec![0, 0, 1])],
        ]
    );
    assert_eq!(h.len(), 18);
    let s = eq_classes(Kind::Siggers, &vec![0, 1]);
    assert_eq!(
        s,
        vec![
            vec![(0, vec![0, 0, 1, 0]), (0, vec![0, 0, 0, 1])],
            vec![(0, vec![0, 1, 1, 0]), (0, vec![1, 0, 1, 1]), (0, vec![0, 1, 0, 1])],
            vec![(0, vec![1, 0, 0, 1]), (0, vec![0, 1, 0, 0]), (0, vec![1, 0, 1, 0])],
            vec![(0, vec![1, 1, 0, 1]), (0, vec![1, 1, 1, 0])],
        ]
    );
}

#[test]
fn quasi_majority_of_triples() {
    assert!(quasi_majority_p(&vec![0, 0, 1], &vec![0, 2, 0]));
    assert!(quasi_majority_p(&vec![0, 0, 0], &vec![3, 0, 0]));
    assert!(!quasi_majority_p(&vec![0, 0, 1], &vec![1, 1, 0]));
    assert!(!quasi_majority_p(&vec![0, 1, 2], &vec![0, 0, 1]));
}

/// Whether some term is a member of two of the classes.
fn overlap(classes: &[Vec<(usize, Vec<usize>)>]) -> bool {
    let mut seen = std::collections::HashMap::new();
    for (k, class) in classes.iter().enumerate() {
        for term in class {
            if *seen.entry(term.clone()).or_insert(k) != k {
                return true;
            }
        }
    }
    false
}

#[test]
fn classes_that_share_no_term() {
    let vertices = vec![0, 1, 2];
    for condition in [Kind::Majority, Kind::Siggers, Kind::Nu(3), Kind::Nu(4), Kind::Wnu(3), Kind::HagemannMitschke(1)] {
        assert!(!overlap(&eq_classes(condition, &vertices)), "{:?}", condition);
    }
    for condition in [Kind::Kmm, Kind::Wnu(2), Kind::Jonsson(1), Kind::KearnesKiss(1), Kind::NoName(1)] {
        assert!(overlap(&eq_classes(condition, &vertices)), "{:?}", condition);
    }
}
