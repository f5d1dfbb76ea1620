//! Homomorphisms and polymorphisms of finite directed graphs.
//!
//! The crate holds a binary constraint solver that maintains arc consistency
//! while it backtracks, the construction that turns the search for a
//! polymorphism into a list-colouring instance, and a generator of oriented
//! trees.

pub mod problem;
pub mod domains;
pub mod consistency;
pub mod solver;
pub mod digraph;
pub mod hcoloring;
pub mod colouring;
pub mod algebra;
pub mod text;
pub mod tree;
pub mod precoloring;
