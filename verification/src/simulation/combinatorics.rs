//! The subset generator, as the simulation engine sees it.

pub use crate::combinatorics::combinations;
