//! Arc consistency: pruning from the domains the values that no value at
//! the other end of an arc supports.

pub mod model;
pub mod revise;
pub mod ac;
pub mod sac;
pub mod solutions;

pub use ac::{ac_1, ac_3};
pub use revise::revise;
pub use sac::sac_1;
