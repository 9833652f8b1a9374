//! Solutions to a season of daily programming puzzles.
//!
//! Every day is an independent, stateless solver: it reads the puzzle text and
//! computes one answer per part. The answers are stated as mathematical
//! functions of the input text, and each solver is proved to compute exactly
//! that function.

pub mod counting;
pub mod days;
mod parallel;
pub mod solution;
pub mod text;
pub mod utils;
