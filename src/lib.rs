//! A word-elimination and recommendation engine for a word-guessing game.
//!
//! Given the guesses made so far with the feedback each received, the library compiles each into
//! a [`Rule`], keeps the dictionary words that every rule admits, and gives for every dictionary
//! word the distribution of feedback patterns that it would receive over those candidates.
pub mod counting;
pub mod dictionary;
pub mod entropy;
pub mod feedback;
pub mod filter;
pub mod rule;
pub mod solver;

pub use feedback::{get_pattern, parse_feedback, Pattern};
pub use rule::Rule;
pub use solver::{retrieve_recommended_words, RequestError, WordleEntity, WordleStartEntity};
