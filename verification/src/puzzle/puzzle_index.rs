//! Coordinates of a cell on the 9 x 9 grid.

use vstd::prelude::*;

verus! {

/// A column and a row, each below nine.
#[derive(Debug, Clone, Copy, PartialEq, Eq, Hash, Structural)]
pub struct PuzzleIndex {
    pub col: usize,
    pub row: usize,
}

impl PuzzleIndex {
    /// Both coordinates lie on the grid.
    pub open spec fn wf(&self) -> bool {
        self.col < 9 && self.row < 9
    }

    /// The block that holds this coordinate: `(col / 3) * 3 + row / 3`.
    pub open spec fn block(&self) -> int {
        (self.col as int / 3) * 3 + self.row as int / 3
    }

    /// The place of this coordinate in the sequence of the 81 cells, column by column.
    pub open spec fn flat(&self) -> int {
        self.col as int * 9 + self.row as int
    }

    /// The two coordinates differ and share a row, a column or a block.
    pub open spec fn sees(&self, other: PuzzleIndex) -> bool {
        *self != other && (self.col == other.col || self.row == other.row || self.block()
            == other.block())
    }

    /// The coordinates of the cell in column `col` and row `row`.
    pub fn new(col: usize, row: usize) -> (r: Self)
        requires
            col < 9,
            row < 9,
        ensures
            r.col == col,
            r.row == row,
            r.wf(),
    {
        Self { col, row }
    }

    /// The row.
    pub fn row(&self) -> (r: usize)
        ensures
            r == self.row,
    {
        self.row
    }

    /// The column.
    pub fn col(&self) -> (r: usize)
        ensures
            r == self.col,
    {
        self.col
    }

    /// The block: `(col / 3) * 3 + row / 3`.
    pub fn block_idx(&self) -> (r: usize)
        requires
            self.wf(),
        ensures
            r == self.block(),
            r < 9,
    {
        self.col / 3 * 3 + self.row / 3
    }
}

} // verus!
