//! Poker hand evaluation: the category of a five-card hand, the best five-card
//! hand out of seven cards, and the deck and tally that a simulation runs on.
pub mod card;
pub mod category;
pub mod classify;
pub mod select;
pub mod deck;
pub mod tally;
