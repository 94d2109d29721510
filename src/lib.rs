//! A Wordle-style puzzle solver: bit-packed words, a constraint mask that
//! accumulates feedback, and an evaluator that picks the most informative guess.

pub mod word;
pub mod mask;
pub mod evaluator;
pub mod solver;
