//! Polymorphisms of graphs and the identities that they satisfy.

pub mod adj_map;
pub mod classes;
pub mod colourings;
pub mod conditions;
pub mod custom;
pub mod homomorphism;
pub mod indicator;
pub mod majority;
pub mod merging;
pub mod metaproblem;

pub use classes::Condition;
pub use homomorphism::{is_endomorphism, is_homomorphism};
pub use metaproblem::MetaProblem;
