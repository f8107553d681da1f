//! The player capability, as the simulation engine sees it.

pub use crate::player::{KnowsCribbage, PerPlayer, PlayerPosition, SimplePlayer};
