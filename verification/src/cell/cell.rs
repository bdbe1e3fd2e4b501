//! A cell of the grid: its state and the coordinates it was made for.

use super::_cell::_Cell;
use crate::bits::{FULL_MASK, is_mask};
use crate::puzzle::PuzzleIndex;
use vstd::prelude::*;

verus! {

/// One cell of the grid.
#[derive(Debug, Clone, Copy)]
pub struct Cell {
    pub cell: _Cell,
    pub pos: PuzzleIndex,
}

impl Cell {
    /// The state is valid and the coordinates lie on the grid.
    pub open spec fn wf(&self) -> bool {
        self.cell.wf() && self.pos.wf()
    }

    /// A cell that is fixed to `value`.
    pub fn filled(value: u8, pos: PuzzleIndex) -> (r: Self)
        requires
            1 <= value <= 9,
        ensures
            r.cell == _Cell::Filled(value),
            r.pos == pos,
    {
        Self { cell: _Cell::Filled(value), pos }
    }

    /// The coordinates that the cell was made for.
    pub fn pos(&self) -> (r: PuzzleIndex)
        ensures
            r == self.pos,
    {
        self.pos
    }

    /// An open cell with all nine candidates.
    pub fn unfilled(pos: PuzzleIndex) -> (r: Self)
        ensures
            r.cell == _Cell::Unfilled(FULL_MASK),
            r.pos == pos,
    {
        Self { cell: _Cell::Unfilled(FULL_MASK), pos }
    }

    /// Whether the cell holds a fixed value.
    pub fn is_filled(&self) -> (r: bool)
        ensures
            r == self.cell.filled(),
    {
        self.cell.is_filled()
    }

    /// The candidate mask: for a fixed value `v` the mask with bit `v - 1` alone.
    pub fn bit(&self) -> (r: u16)
        requires
            self.cell.wf(),
        ensures
            r == self.cell.bits(),
            is_mask(r),
    {
        self.cell.bit()
    }

    /// The row of the cell.
    pub fn row(&self) -> (r: usize)
        ensures
            r == self.pos.row,
    {
        self.pos.row()
    }

    /// The column of the cell.
    pub fn col(&self) -> (r: usize)
        ensures
            r == self.pos.col,
    {
        self.pos.col()
    }

    /// The block of the cell: `(col / 3) * 3 + row / 3`.
    pub fn block_idx(&self) -> (r: usize)
        requires
            self.pos.wf(),
        ensures
            r == self.pos.block(),
            r < 9,
    {
        self.pos.block_idx()
    }

    /// Fixes the cell if it is open with exactly one candidate, and says whether it did.
    pub fn determine(&mut self) -> (r: bool)
        requires
            old(self).cell.wf(),
        ensures
            final(self).cell == old(self).cell.determined(),
            final(self).pos == old(self).pos,
            r == (!old(self).cell.filled() && final(self).cell.filled()),
            final(self).cell.wf(),
    {
        self.cell.determine()
    }

    /// Fixes the cell to `value` if it is open, and says whether it did.
    pub fn insert(&mut self, value: u8) -> (r: bool)
        requires
            old(self).cell.wf(),
            1 <= value <= 9,
        ensures
            final(self).cell == old(self).cell.inserted(value),
            final(self).pos == old(self).pos,
            r == !old(self).cell.filled(),
            final(self).cell.wf(),
    {
        self.cell.insert(value)
    }

    /// Takes the digits of `mask` out of the candidates; a fixed cell stays as it is.
    pub fn eliminate(&mut self, mask: u16)
        requires
            old(self).cell.wf(),
        ensures
            final(self).cell == old(self).cell.eliminated(mask),
            final(self).pos == old(self).pos,
            final(self).cell.wf(),
    {
        self.cell.eliminate(mask)
    }

    /// Keeps of the candidates only the digits of `mask`; a fixed cell stays as it is.
    pub fn restrict(&mut self, mask: u16)
        requires
            old(self).cell.wf(),
        ensures
            final(self).cell == old(self).cell.restricted(mask),
            final(self).pos == old(self).pos,
            final(self).cell.wf(),
    {
        self.cell.restrict(mask)
    }

    /// Whether the two cells lie in one row.
    pub fn is_same_row(&self, other: &Self) -> (r: bool)
        ensures
            r == (self.pos.row == other.pos.row),
    {
        self.pos.row() == other.pos.row()
    }

    /// Whether the two cells lie in one column.
    pub fn is_same_col(&self, other: &Self) -> (r: bool)
        ensures
            r == (self.pos.col == other.pos.col),
    {
        self.pos.col() == other.pos.col()
    }

    /// Whether the two cells lie in one block.
    pub fn is_same_block(&self, other: &Self) -> (r: bool)
        requires
            self.pos.wf(),
            other.pos.wf(),
        ensures
            r == (self.pos.block() == other.pos.block()),
    {
        self.pos.block_idx() == other.pos.block_idx()
    }
}

/// Two cells are equal when they were made for the same coordinates, whatever their state.
impl PartialEq for Cell {
    fn eq(&self, other: &Self) -> (r: bool) {
        self.pos.col == other.pos.col && self.pos.row == other.pos.row
    }
}

impl Eq for Cell {

}

impl vstd::std_specs::cmp::PartialEqSpecImpl for Cell {
    /// `==` on cells is what `eq_spec` says.
    open spec fn obeys_eq_spec() -> bool {
        true
    }

    /// The two cells have the same coordinates.
    open spec fn eq_spec(&self, other: &Self) -> bool {
        self.pos.col == other.pos.col && self.pos.row == other.pos.row
    }
}

} // verus!
