//! Picks the opening guess of a five-letter word game that leaves the fewest
//! ambiguous (answer, second guess) pairs after one round of feedback.
pub mod word;
pub mod hint;
pub mod score;
pub mod text;
pub mod corpus;
