//! The cell of a grid and its state.

pub mod _cell;
pub mod cell;

pub use _cell::_Cell;
pub use cell::Cell;
