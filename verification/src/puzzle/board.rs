//! The grid as a value: the states of the 81 cells, column by column, and the cascade that
//! follows when a cell becomes fixed.

use super::puzzle_index::PuzzleIndex;
use super::slice_type::{lemma_slot, SliceType};
use crate::cell::_Cell;
use vstd::prelude::*;

verus! {

/// The states of the 81 cells; the cell at `(col, row)` stands at `col * 9 + row`.
pub type Board = Seq<_Cell>;

/// 81 valid cell states.
pub open spec fn board_wf(b: Board) -> bool {
    b.len() == 81 && forall|k: int| 0 <= k < 81 ==> (#[trigger] b[k]).wf()
}

/// The coordinates of the cell that stands at `k`.
pub open spec fn pos_of(k: int) -> PuzzleIndex {
    PuzzleIndex { col: (k / 9) as usize, row: (k % 9) as usize }
}

/// The grid on which nothing is known yet.
pub open spec fn blank() -> Board {
    Seq::new(81, |k: int| _Cell::Unfilled(crate::bits::FULL_MASK))
}

/// How many of the first `n` cells are open.
pub open spec fn open_below(b: Board, n: int) -> nat
    decreases n,
{
    if n <= 0 {
        0
    } else {
        open_below(b, n - 1) + if b[n - 1].filled() {
            0nat
        } else {
            1nat
        }
    }
}

/// How many cells are open.
pub open spec fn open_cells(b: Board) -> nat {
    open_below(b, 81)
}

/// What a sweep does to one cell: the digit leaves its candidates, and if one candidate is
/// left the cell becomes fixed to it.
pub open spec fn swept(c: _Cell, bit: u16) -> _Cell {
    c.eliminated(bit).determined()
}

/// Sweeps the slots `i..9` of a unit, and adds to `found` the cells that became fixed.
pub open spec fn sweep_unit(
    b: Board,
    unit: SliceType,
    bit: u16,
    i: usize,
    found: Seq<PuzzleIndex>,
) -> (Board, Seq<PuzzleIndex>)
    decreases 9 - i,
{
    if i >= 9 {
        (b, found)
    } else {
        let p = unit.at(i);
        let c = swept(b[p.flat()], bit);
        let f = if !b[p.flat()].filled() && c.filled() {
            found.push(p)
        } else {
            found
        };
        sweep_unit(b.update(p.flat(), c), unit, bit, (i + 1) as usize, f)
    }
}

/// Takes the value of the cell at `pos` out of its column, its row and its block, in that
/// order, and lists the cells that became fixed, in the order in which they did.
pub open spec fn sweep(b: Board, pos: PuzzleIndex) -> (Board, Seq<PuzzleIndex>) {
    let bit = b[pos.flat()].bits();
    let (b1, f1) = sweep_unit(b, SliceType::Col(pos.col), bit, 0, Seq::empty());
    let (b2, f2) = sweep_unit(b1, SliceType::Row(pos.row), bit, 0, f1);
    sweep_unit(b2, SliceType::Block(pos.block() as usize), bit, 0, f2)
}

/// Puts the first `j` entries of `found` on the stack, the last of them first.
pub open spec fn stacked(stack: Seq<PuzzleIndex>, found: Seq<PuzzleIndex>, j: int) -> Seq<
    PuzzleIndex,
>
    decreases j,
{
    if j <= 0 {
        stack
    } else {
        stacked(stack.push(found[j - 1]), found, j - 1)
    }
}

/// Every coordinate of the sequence lies on the grid.
pub open spec fn all_on_grid(s: Seq<PuzzleIndex>) -> bool {
    forall|i: int| 0 <= i < s.len() ==> (#[trigger] s[i]).wf()
}

/// Works the stack off: the cell on top is swept, the cells that became fixed by it go on
/// top, the one that became fixed first uppermost; so on until the stack is empty.
pub open spec fn drain(b: Board, stack: Seq<PuzzleIndex>) -> Board
    decreases open_cells(b) + stack.len(),
    via drain_decreases
{
    if stack.len() == 0 || !board_wf(b) || !all_on_grid(stack) {
        b
    } else {
        let (b1, found) = sweep(b, stack.last());
        drain(b1, stacked(stack.drop_last(), found, found.len() as int))
    }
}

/// Each step of the working off takes one cell from the stack, and puts on it only cells that
/// it has fixed.
#[via_fn]
proof fn drain_decreases(b: Board, stack: Seq<PuzzleIndex>) {
    if !(stack.len() == 0 || !board_wf(b) || !all_on_grid(stack)) {
        let (b1, found) = sweep(b, stack.last());
        lemma_sweep(b, stack.last());
        lemma_stacked(stack.drop_last(), found, found.len() as int);
    }
}

/// The cascade from the cell at `pos`: nothing where that cell is open.
pub open spec fn propagated_from(b: Board, pos: PuzzleIndex) -> Board {
    if b[pos.flat()].filled() {
        drain(b, seq![pos])
    } else {
        b
    }
}

/// The grid after the cell at `pos` was asked to settle: an open cell with one candidate
/// becomes fixed, and the cascade follows.
pub open spec fn determined_at(b: Board, pos: PuzzleIndex) -> Board {
    let c = b[pos.flat()];
    if !c.filled() && c.determined().filled() {
        propagated_from(b.update(pos.flat(), c.determined()), pos)
    } else {
        b
    }
}

/// The grid after `v` was written to the cell at `pos`: an open cell becomes fixed to it and
/// the cascade follows; a fixed cell keeps its value and nothing happens.
pub open spec fn filled_at(b: Board, pos: PuzzleIndex, v: u8) -> Board {
    let c = b[pos.flat()];
    if c.filled() {
        b
    } else {
        propagated_from(b.update(pos.flat(), _Cell::Filled(v)), pos)
    }
}

/// Writing one cell changes the number of open cells by that cell alone.
pub proof fn lemma_open_update(b: Board, k: int, c: _Cell, n: int)
    requires
        0 <= k < b.len(),
        0 <= n <= b.len(),
    ensures
        open_below(b.update(k, c), n) + (if k < n && !b[k].filled() {
            1nat
        } else {
            0nat
        }) == open_below(b, n) + (if k < n && !c.filled() {
            1nat
        } else {
            0nat
        }),
    decreases n,
{
    if n > 0 {
        lemma_open_update(b, k, c, n - 1);
    }
}

/// `stacked` adds `j` entries, all taken from `found`.
pub proof fn lemma_stacked(stack: Seq<PuzzleIndex>, found: Seq<PuzzleIndex>, j: int)
    requires
        0 <= j <= found.len(),
    ensures
        stacked(stack, found, j).len() == stack.len() + j,
        all_on_grid(stack) && all_on_grid(found) ==> all_on_grid(stacked(stack, found, j)),
    decreases j,
{
    if j > 0 {
        lemma_stacked(stack.push(found[j - 1]), found, j - 1);
    }
}

/// A sweep of part of a unit keeps the grid valid, and each cell that it lists was open and
/// is now fixed.
pub proof fn lemma_sweep_unit(
    b: Board,
    unit: SliceType,
    bit: u16,
    i: usize,
    found: Seq<PuzzleIndex>,
)
    requires
        board_wf(b),
        unit.wf(),
        i <= 9,
        all_on_grid(found),
    ensures
        board_wf(sweep_unit(b, unit, bit, i, found).0),
        all_on_grid(sweep_unit(b, unit, bit, i, found).1),
        open_cells(sweep_unit(b, unit, bit, i, found).0) + sweep_unit(b, unit, bit, i, found).1.len()
            == open_cells(b) + found.len(),
    decreases 9 - i,
{
    if i < 9 {
        let p = unit.at(i);
        lemma_slot(unit, i);
        let c = swept(b[p.flat()], bit);
        lemma_swept(b[p.flat()], bit);
        let f = if !b[p.flat()].filled() && c.filled() {
            found.push(p)
        } else {
            found
        };
        let b1 = b.update(p.flat(), c);
        lemma_open_update(b, p.flat(), c, 81);
        lemma_sweep_unit(b1, unit, bit, (i + 1) as usize, f);
    }
}

/// A swept cell is valid; a fixed cell is left alone, an open one keeps a part of its
/// candidates.
pub proof fn lemma_swept(c: _Cell, bit: u16)
    requires
        c.wf(),
    ensures
        swept(c, bit).wf(),
        c.filled() ==> swept(c, bit) == c,
        crate::bits::subset(swept(c, bit).bits(), c.bits()),
        swept(c, bit).bits() == c.eliminated(bit).bits(),
{
    crate::bits::lemma_holds_ops();
    if let _Cell::Unfilled(m) = c {
        crate::cell::_cell::lemma_and_keeps_mask(m, !bit);
        let e = m & !bit;
        if crate::bits::count(e) == 1 {
            crate::bits::lemma_count_one(e);
        }
        crate::bits::lemma_subset(e, m);
    } else {
        crate::bits::lemma_subset(c.bits(), c.bits());
    }
}

/// A sweep keeps the grid valid; each cell that it lists was open and is now fixed.
pub proof fn lemma_sweep(b: Board, pos: PuzzleIndex)
    requires
        board_wf(b),
        pos.wf(),
    ensures
        board_wf(sweep(b, pos).0),
        all_on_grid(sweep(b, pos).1),
        open_cells(sweep(b, pos).0) + sweep(b, pos).1.len() == open_cells(b),
{
    let bit = b[pos.flat()].bits();
    let (b1, f1) = sweep_unit(b, SliceType::Col(pos.col), bit, 0, Seq::empty());
    lemma_sweep_unit(b, SliceType::Col(pos.col), bit, 0, Seq::empty());
    let (b2, f2) = sweep_unit(b1, SliceType::Row(pos.row), bit, 0, f1);
    lemma_sweep_unit(b1, SliceType::Row(pos.row), bit, 0, f1);
    lemma_sweep_unit(b2, SliceType::Block(pos.block() as usize), bit, 0, f2);
}

} // verus!
