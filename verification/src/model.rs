//! The interface of a model that predicts the digits of a puzzle.

use vstd::prelude::*;

use crate::board::Board;

verus! {

/// A model that predicts digits for the cells of a board.
pub trait Model {
    /// Given a puzzle board, returns one predicted digit per cell, row by row
    /// (`0` where undecided).
    fn predict(&self, board: &Board) -> Vec<u8>;
}

/// The model that predicts what the board already holds.
pub struct NoopModel;

impl Model for NoopModel {
    /// Returns the cells of the board as they are, each narrowed to a byte.
    fn predict(&self, board: &Board) -> (p: Vec<u8>)
        ensures
            p@.len() == board.cells@.len(),
            forall|i: int| 0 <= i < p@.len() ==> #[trigger] p@[i] == board.cells@[i] as u8,
    {
        let mut p: Vec<u8> = Vec::new();
        let mut i: usize = 0;
        while i < board.cells.len()
            invariant
                i <= board.cells@.len(),
                p@.len() == i,
                forall|j: int| 0 <= j < i ==> #[trigger] p@[j] == board.cells@[j] as u8,
            decreases board.cells@.len() - i,
        {
            p.push(board.cells[i] as u8);
            i += 1;
        }
        p
    }
}

} // verus!
