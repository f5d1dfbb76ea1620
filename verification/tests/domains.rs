use tripolys::domains::{DomMap, List};
use tripolys::problem::{Value, Variable};

#[test]
fn from_iter() {
    let list = List::from_iter(vec![3, 5, 6]);
    let mut iter = list.iter();

    assert_eq!(iter.next(), Some(1));
    assert_eq!(iter.next(), Some(2));
    assert_eq!(iter.next(), Some(3));
    assert_eq!(iter.next(), None);
}

#[test]
fn index() {
    let list = List::from_iter(vec![3, 5, 6]);

    assert_eq!(*list.get(1), 3);
    assert_eq!(*list.get(3), 6);
}

#[test]
fn link() {
    let mut list = List::from_iter(vec![3, 5, 6]);

    list.unlink(2);
    let mut iter = list.iter();

    assert_eq!(iter.next(), Some(1));
    assert_eq!(iter.next(), Some(3));
    assert_eq!(iter.next(), None);

    list.relink(2);
    let mut iter = list.iter();

    assert_eq!(iter.next(), Some(1));
    assert_eq!(iter.next(), Some(2));
    assert_eq!(iter.next(), Some(3));
    assert_eq!(iter.next(), None);
}

#[test]
fn unlink_then_relink_restores_indices_and_values() {
    let mut domains = DomMap::from_iter(vec![vec![7, 8, 9], vec![4]]);
    let before = domains.slots(Variable(0));
    domains.remove(Variable(0), 1);
    domains.remove(Variable(0), 3);
    assert_eq!(domains.slots(Variable(0)), vec![2]);
    assert_eq!(domains.value(Variable(0), 1), Value(7));
    domains.restore(Variable(0), 3);
    domains.restore(Variable(0), 1);
    assert_eq!(domains.slots(Variable(0)), before);
    assert_eq!(domains.value(Variable(0), 1), Value(7));
    assert_eq!(domains.value(Variable(0), 2), Value(8));
    assert_eq!(domains.value(Variable(0), 3), Value(9));
}

#[test]
fn removing_the_last_slot_empties_the_domain() {
    let mut domains = DomMap::from_iter(vec![vec![5]]);
    assert!(!domains.get(Variable(0)).is_empty());
    domains.remove(Variable(0), 1);
    assert!(domains.get(Variable(0)).is_empty());
    assert_eq!(domains.assignment(), None);
    domains.restore(Variable(0), 1);
    assert_eq!(domains.assignment(), Some(vec![Value(5)]));
}

#[test]
fn set_replaces_the_domain_by_a_singleton() {
    let mut domains = DomMap::from_iter(vec![vec![7, 8, 9]]);
    let old = domains.set(Variable(0), 2).unwrap();
    assert_eq!(old.size(), 3);
    assert_eq!(domains.slots(Variable(0)), vec![1]);
    assert_eq!(domains.value(Variable(0), 1), Value(8));
    let single = domains.insert(Variable(0), old).unwrap();
    assert_eq!(single.size(), 1);
    assert_eq!(domains.slots(Variable(0)), vec![1, 2, 3]);
    assert!(domains.insert(Variable(5), single).is_none());
}

#[test]
fn cursors_walk_variables_and_slots() {
    let domains = DomMap::from_iter(vec![vec![1, 2], vec![3]]);
    assert_eq!(domains.vars_count(), 2);
    let mut vars = domains.vars();
    assert_eq!(vars.next(), Some(Variable(0)));
    assert_eq!(vars.next(), Some(Variable(1)));
    assert_eq!(vars.next(), None);
    let mut slots = domains.indices(Variable(0));
    assert_eq!(slots.next(), Some(1));
    assert_eq!(slots.next(), Some(2));
    assert_eq!(slots.next(), None);
}
