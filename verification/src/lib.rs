//! A Texas Hold'em hand evaluator: a standard 52-card deck, a five-card
//! classifier that assigns each hand its poker category and tie-break key,
//! and a best-hand search over all five-card choices from five to seven
//! cards.

pub mod card;
pub mod deck;
pub mod eval;
pub mod hand;

pub use card::{Card, Rank, Suit};
pub use deck::Deck;
pub use hand::Hand;
pub use hand::{EvaluatedHand, HandCategory};
