//! The grid, the coordinates and units on it, and the deduction passes.

pub mod board;
pub mod hash;
pub mod passes;
pub mod puzzle;
pub mod puzzle_index;
pub mod puzzle_slice;
pub mod slice_type;
pub mod validity;

pub use puzzle::Puzzle;
pub use puzzle_index::PuzzleIndex;
pub use slice_type::SliceType;
pub use puzzle_slice::{PuzzleIter, PuzzleSlice, PuzzleSliceMut};
