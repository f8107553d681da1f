//! The card model, as the simulation engine sees it.

pub use crate::deck::{Card, Dealable, Deck, Rank, StackedDeck, Suit};
