//! A solver for 9 x 9 Sudoku puzzles that works by deduction alone. Every cell holds the set of
//! values that are still possible for it; clues and deductions shrink these sets until each
//! cell is fixed or no technique finds anything more.
//!
//! `cell` holds the cell and its candidate set, `bits` the algebra of candidate masks, `puzzle`
//! the grid, the views of its units and the deduction passes, and `soundness` what is proved
//! of them: no pass loses a solution, a round that changes no mask leaves the grid at rest,
//! and what the single techniques achieve.

pub mod bits;
pub mod cell;
pub mod puzzle;
pub mod soundness;

pub use cell::Cell;
pub use puzzle::{Puzzle, PuzzleIndex};
