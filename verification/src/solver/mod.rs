//! A backtracking search that keeps the domains arc consistent.

pub mod measure;
pub mod model;
pub mod order;
pub mod search;

pub use search::{BTConfig, BTSolver, BTStats, Trail};
