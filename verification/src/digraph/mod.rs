//! A set of vertices connected by directed edges.

pub mod adj_matrix;
pub mod classes;
pub mod formats;
pub mod levels;
pub mod named;
pub mod traits;

pub use adj_matrix::AdjMatrix;
pub use levels::levels;
