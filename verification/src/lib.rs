//! Latin Sudoku on an `n`-by-`n` board: digits `1..=n` appear at most once in each
//! row and each column (no boxes). The board, its text, CSV and JSON forms, a
//! backtracking solver and solution counter, and a puzzle generator.

pub mod board;
pub mod generate;
pub mod json;
pub mod laws;
pub mod model;
pub mod parse;
pub mod solve;
pub mod text;

pub use board::{Board, CoreError, Digit};
pub use generate::{arrange_latin, gen_solved, make_puzzle_clues, strip_clues};
pub use model::{Model, NoopModel};
pub use solve::{count_solutions, solve};
