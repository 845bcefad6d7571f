//! A standard 52-card deck and a five-card poker hand evaluator.
//!
//! The card model is a `Rank` (thirteen values, totally ordered Two through
//! Ace) paired with a `Suit` (four values, unordered). A `Hand` holds five
//! cards, kept sorted by rank, and `Hand::get_combo` classifies the hand
//! into one of nine standard poker combination categories.

pub mod deck;
mod order;
pub mod poker;
