//! The simulation engine: the full match loop from dealer selection to
//! the crib count, driven one transition per call.

pub mod combinatorics;
pub mod deck;
pub mod player;
pub mod rules;
pub mod runner;
pub mod scoring;
