//! A rules engine for two-player cribbage: the card model, the subset
//! generator, the scoring engine for pegging and hand counting, and the
//! game state machine that sequences a match from dealer selection to a
//! win at 121 points.

pub mod combinatorics;
pub mod deck;
pub mod game;
pub mod player;
pub mod scoring;
pub mod simulation;
