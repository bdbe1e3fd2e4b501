//! The grid and the operations on it.

use super::board::{
    all_on_grid, blank, Board, board_wf, determined_at, drain, filled_at, lemma_stacked,
    lemma_sweep_unit, lemma_swept, open_cells, pos_of, propagated_from, stacked, sweep, sweep_unit,
    swept,
};
use super::hash::{append_decimal, append_stroke, hash_from, hash_of};
use super::passes;
use super::passes::{repeat, UnitPass};
use super::puzzle_index::PuzzleIndex;
use super::puzzle_slice::{PuzzleSlice, PuzzleSliceMut};
use super::slice_type::SliceType;
use super::validity::{round_valid, unit_valid, valid};
use crate::bits::{count_ones, digit_bit, test_digit};
use crate::cell::{Cell, _Cell};
use crate::soundness::effects::{
    hidden_singles_fixed, lemma_hidden_single_pass, lemma_x_wing_scope, narrowed_on_diagonal,
};
use crate::soundness::lines::{lemma_keeps_box_line_reduction, lemma_keeps_x_wing};
use crate::soundness::model::{
    advances, compatible, is_solution, keeps, lemma_blank, lemma_keeps_refl, settled, solvable,
    value_at,
};
use crate::soundness::pairs::{lemma_naked_pair_pass, naked_pairs_cleared};
use crate::soundness::solving::{
    lemma_fill_clears, lemma_filled_at, lemma_keeps_solved_once, lemma_valid,
};
use crate::soundness::steps::{lemma_edit, lemma_keeps_determine, lemma_keeps_propagate};
use crate::soundness::techniques::{lemma_keeps_each_unit, lemma_keeps_naked_single};
use crate::soundness::wings::lemma_keeps_xy_wing;
use vstd::prelude::*;

verus! {

/// The 81 cells of one puzzle.
pub struct Puzzle {
    inner: Vec<Cell>,
}

impl Puzzle {
    /// The states of the 81 cells, column by column.
    pub closed spec fn view(&self) -> Board {
        Seq::new(81, |k: int| self.inner[k].cell)
    }

    /// There are 81 valid cells, and each carries the coordinates of its place.
    pub closed spec fn wf(&self) -> bool {
        &&& self.inner.len() == 81
        &&& forall|k: int| 0 <= k < 81 ==> (#[trigger] self.inner[k]).cell.wf()
        &&& forall|k: int| 0 <= k < 81 ==> (#[trigger] self.inner[k]).pos == pos_of(k)
    }

    /// A valid grid has a valid view.
    pub proof fn lemma_wf(&self)
        requires
            self.wf(),
        ensures
            board_wf(self@),
    {
    }

    /// A grid on which every value is possible everywhere. It is settled and admits every
    /// solved grid.
    pub fn new() -> (r: Self)
        ensures
            r.wf(),
            r@ == blank(),
            settled(r@),
            forall|s: Seq<u8>| is_solution(s) ==> compatible(r@, s),
    {
        proof {
            lemma_blank();
        }
        let mut inner: Vec<Cell> = Vec::new();
        let mut i: usize = 0;
        while i < 9
            invariant
                i <= 9,
                inner.len() == i * 9,
                forall|k: int| 0 <= k < inner.len() ==> (#[trigger] inner[k]) == (Cell {
                    cell: _Cell::Unfilled(crate::bits::FULL_MASK),
                    pos: pos_of(k),
                }),
            decreases 9 - i,
        {
            let mut j: usize = 0;
            while j < 9
                invariant
                    i < 9,
                    j <= 9,
                    inner.len() == i * 9 + j,
                    forall|k: int| 0 <= k < inner.len() ==> (#[trigger] inner[k]) == (Cell {
                        cell: _Cell::Unfilled(crate::bits::FULL_MASK),
                        pos: pos_of(k),
                    }),
                decreases 9 - j,
            {
                inner.push(Cell::unfilled(PuzzleIndex::new(i, j)));
                j += 1;
            }
            i += 1;
        }
        let r = Puzzle { inner };
        assert(r@ =~= blank());
        r
    }

    /// The cell at `pos`.
    pub fn cell(&self, pos: PuzzleIndex) -> (r: &Cell)
        requires
            self.wf(),
            pos.wf(),
        ensures
            r.cell == self@[pos.flat()],
            r.pos == pos,
            r.cell.wf(),
    {
        &self.inner[pos.col() * 9 + pos.row()]
    }

    /// Takes the digits of `mask` out of the candidates of the cell at `pos`, if it is open.
    pub fn eliminate(&mut self, pos: PuzzleIndex, mask: u16)
        requires
            old(self).wf(),
            pos.wf(),
        ensures
            final(self).wf(),
            final(self)@ == old(self)@.update(pos.flat(), old(self)@[pos.flat()].eliminated(mask)),
            advances(old(self)@, final(self)@),
            settled(old(self)@) ==> settled(final(self)@),
    {
        proof {
            lemma_edit(self@, pos, mask);
        }
        let k = pos.col() * 9 + pos.row();
        self.inner[k].eliminate(mask);
        assert(self@ =~= old(self)@.update(pos.flat(), old(self)@[pos.flat()].eliminated(mask)));
    }

    /// Keeps of the candidates of the cell at `pos` only the digits of `mask`, if it is open.
    pub fn restrict(&mut self, pos: PuzzleIndex, mask: u16)
        requires
            old(self).wf(),
            pos.wf(),
        ensures
            final(self).wf(),
            final(self)@ == old(self)@.update(pos.flat(), old(self)@[pos.flat()].restricted(mask)),
            advances(old(self)@, final(self)@),
            settled(old(self)@) ==> settled(final(self)@),
    {
        proof {
            lemma_edit(self@, pos, mask);
        }
        let k = pos.col() * 9 + pos.row();
        self.inner[k].restrict(mask);
        assert(self@ =~= old(self)@.update(pos.flat(), old(self)@[pos.flat()].restricted(mask)));
    }

    /// Sweeps one unit, and adds to `found` the cells that became fixed.
    #[verifier::rlimit(40)]
    fn sweep_unit(&mut self, unit: SliceType, bit: u16, found: &mut Vec<PuzzleIndex>)
        requires
            old(self).wf(),
            unit.wf(),
            all_on_grid(old(found)@),
        ensures
            final(self).wf(),
            (final(self)@, final(found)@) == sweep_unit(old(self)@, unit, bit, 0, old(found)@),
            all_on_grid(final(found)@),
            open_cells(final(self)@) + final(found)@.len() == open_cells(old(self)@) + old(
                found,
            )@.len(),
    {
        proof {
            lemma_sweep_unit(self@, unit, bit, 0, found@);
        }
        let mut i: usize = 0;
        while i < 9
            invariant
                i <= 9,
                self.wf(),
                unit.wf(),
                all_on_grid(found@),
                sweep_unit(self@, unit, bit, i, found@) == sweep_unit(
                    old(self)@,
                    unit,
                    bit,
                    0,
                    old(found)@,
                ),
            decreases 9 - i,
        {
            let p = unit.index_of(i);
            let k = p.col() * 9 + p.row();
            let ghost before = self@;
            proof {
                lemma_swept(before[p.flat()], bit);
            }
            self.inner[k].eliminate(bit);
            let newly = self.inner[k].determine();
            if newly {
                found.push(p);
            }
            assert(self@ =~= before.update(p.flat(), swept(before[p.flat()], bit)));
            i += 1;
        }
    }

    /// Takes the value of the cell at `pos` out of its column, row and block.
    fn sweep(&mut self, pos: PuzzleIndex) -> (found: Vec<PuzzleIndex>)
        requires
            old(self).wf(),
            pos.wf(),
        ensures
            final(self).wf(),
            (final(self)@, found@) == sweep(old(self)@, pos),
            all_on_grid(found@),
            open_cells(final(self)@) + found@.len() == open_cells(old(self)@),
    {
        let bit = self.cell(pos).bit();
        let mut found: Vec<PuzzleIndex> = Vec::new();
        assert(found@ =~= Seq::empty());
        self.sweep_unit(SliceType::Col(pos.col()), bit, &mut found);
        self.sweep_unit(SliceType::Row(pos.row()), bit, &mut found);
        self.sweep_unit(SliceType::Block(pos.block_idx()), bit, &mut found);
        found
    }

    /// Takes the value of the cell at `pos` out of its row, column and block, and goes on
    /// from every cell that becomes fixed by it. Returns whether the cell at `pos` is fixed;
    /// nothing happens where it is not.
    #[verifier::rlimit(40)]
    pub fn propagate(&mut self, pos: PuzzleIndex) -> (r: bool)
        requires
            old(self).wf(),
            pos.wf(),
        ensures
            final(self).wf(),
            r == old(self)@[pos.flat()].filled(),
            final(self)@ == propagated_from(old(self)@, pos),
            keeps(old(self)@, final(self)@),
    {
        proof {
            lemma_keeps_refl(self@);
            lemma_keeps_propagate(self@, self@, pos);
        }
        if !self.cell(pos).is_filled() {
            return false;
        }
        let mut stack: Vec<PuzzleIndex> = Vec::new();
        stack.push(pos);
        assert(stack@ =~= seq![pos]);
        while stack.len() > 0
            invariant
                self.wf(),
                all_on_grid(stack@),
                drain(self@, stack@) == drain(old(self)@, seq![pos]),
            decreases open_cells(self@) + stack.len(),
        {
            let ghost top = stack@;
            let p = stack.pop().unwrap();
            assert(stack@ =~= top.drop_last());
            let found = self.sweep(p);
            let mut j: usize = found.len();
            proof {
                lemma_stacked(stack@, found@, j as int);
            }
            while j > 0
                invariant
                    j <= found.len(),
                    top.len() > 0,
                    all_on_grid(found@),
                    all_on_grid(stack@),
                    stacked(stack@, found@, j as int) == stacked(
                        top.drop_last(),
                        found@,
                        found@.len() as int,
                    ),
                    stack.len() + j == top.len() - 1 + found.len(),
                decreases j,
            {
                stack.push(found[j - 1]);
                j -= 1;
            }
        }
        true
    }

    /// Writes `v` to the cell at `pos` if that cell is open, and lets the cascade follow. A
    /// cell that is fixed keeps its value, whatever `v` is, and nothing happens. After a value
    /// was written, no cell that the cell at `pos` sees has it among its candidates, but one that
    /// was fixed before, which is as it was.
    #[verifier::rlimit(40)]
    pub fn fill(&mut self, pos: PuzzleIndex, v: u8)
        requires
            old(self).wf(),
            pos.wf(),
            1 <= v <= 9,
        ensures
            final(self).wf(),
            final(self)@ == filled_at(old(self)@, pos, v),
            old(self)@[pos.flat()].filled() ==> final(self)@ == old(self)@,
            !old(self)@[pos.flat()].filled() ==> final(self)@[pos.flat()] == _Cell::Filled(v),
            forall|q: PuzzleIndex|
                q.wf() && #[trigger] pos.sees(q) && !old(self)@[pos.flat()].filled() ==> (old(
                    self,
                )@[q.flat()].filled() && final(self)@[q.flat()] == old(self)@[q.flat()])
                    || !final(self)@[q.flat()].allows(v as int),
            settled(old(self)@) ==> settled(final(self)@),
            forall|s: Seq<u8>|
                #[trigger] is_solution(s) && compatible(old(self)@, s) && value_at(s, pos) == v
                    ==> compatible(final(self)@, s),
    {
        proof {
            let before = self@;
            assert forall|q: PuzzleIndex|
                q.wf() && #[trigger] pos.sees(q) && !before[pos.flat()].filled() implies (
            before[q.flat()].filled() && filled_at(before, pos, v)[q.flat()] == before[q.flat()])
                || !filled_at(before, pos, v)[q.flat()].allows(v as int) by {
                lemma_fill_clears(before, pos, v, q);
            }
            lemma_filled_at(before, pos, v);
        }
        let k = pos.col() * 9 + pos.row();
        if !self.inner[k].insert(v) {
            return ;
        }
        assert(self@ =~= old(self)@.update(pos.flat(), _Cell::Filled(v)));
        self.propagate(pos);
    }

    /// Fixes the cell at `pos` if it is open with one candidate left, and lets the cascade
    /// follow.
    pub fn determine(&mut self, pos: PuzzleIndex)
        requires
            old(self).wf(),
            pos.wf(),
        ensures
            final(self).wf(),
            final(self)@ == determined_at(old(self)@, pos),
            keeps(old(self)@, final(self)@),
    {
        proof {
            lemma_keeps_refl(self@);
            lemma_keeps_determine(self@, self@, pos);
        }
        let k = pos.col() * 9 + pos.row();
        if self.inner[k].determine() {
            assert(self@ =~= old(self)@.update(pos.flat(), old(self)@[pos.flat()].determined()));
            self.propagate(pos);
        } else {
            assert(self@ =~= old(self)@);
        }
    }

    /// Asks every cell to settle, column by column.
    pub fn naked_single(&mut self)
        requires
            old(self).wf(),
        ensures
            final(self).wf(),
            final(self)@ == passes::naked_single(old(self)@),
            keeps(old(self)@, final(self)@),
    {
        proof {
            lemma_keeps_naked_single(self@);
        }
        let mut k: usize = 0;
        while k < 81
            invariant
                k <= 81,
                self.wf(),
                repeat(self@, passes::naked_single_step(), k, 81) == passes::naked_single(
                    old(self)@,
                ),
            decreases 81 - k,
        {
            self.determine(PuzzleIndex::new(k / 9, k % 9));
            k += 1;
        }
    }

    /// A read-only view of column `idx`.
    pub fn col(&self, idx: usize) -> (s: PuzzleSlice<'_>)
        ensures
            *s.puzzle == *self,
            s.type_ == SliceType::Col(idx),
    {
        PuzzleSlice::new(self, SliceType::Col(idx))
    }

    /// A read-only view of row `idx`.
    pub fn row(&self, idx: usize) -> (s: PuzzleSlice<'_>)
        ensures
            *s.puzzle == *self,
            s.type_ == SliceType::Row(idx),
    {
        PuzzleSlice::new(self, SliceType::Row(idx))
    }

    /// A read-only view of block `idx`.
    pub fn block(&self, idx: usize) -> (s: PuzzleSlice<'_>)
        ensures
            *s.puzzle == *self,
            s.type_ == SliceType::Block(idx),
    {
        PuzzleSlice::new(self, SliceType::Block(idx))
    }

    /// A view of column `idx` through which the grid can be changed.
    pub fn col_mut(&mut self, idx: usize) -> (s: PuzzleSliceMut<'_>)
        ensures
            *s.puzzle == *old(self),
            *final(s.puzzle) == *final(self),
            s.type_ == SliceType::Col(idx),
    {
        PuzzleSliceMut::new(self, SliceType::Col(idx))
    }

    /// A view of row `idx` through which the grid can be changed.
    pub fn row_mut(&mut self, idx: usize) -> (s: PuzzleSliceMut<'_>)
        ensures
            *s.puzzle == *old(self),
            *final(s.puzzle) == *final(self),
            s.type_ == SliceType::Row(idx),
    {
        PuzzleSliceMut::new(self, SliceType::Row(idx))
    }

    /// A view of block `idx` through which the grid can be changed.
    pub fn block_mut(&mut self, idx: usize) -> (s: PuzzleSliceMut<'_>)
        ensures
            *s.puzzle == *old(self),
            *final(s.puzzle) == *final(self),
            s.type_ == SliceType::Block(idx),
    {
        PuzzleSliceMut::new(self, SliceType::Block(idx))
    }

    /// The hidden-single pass: block, column and row 0, then block, column and row 1, and
    /// so on.
    pub fn hidden_single(&mut self)
        requires
            old(self).wf(),
        ensures
            final(self).wf(),
            final(self)@ == passes::each_unit(old(self)@, UnitPass::HiddenSingle),
            keeps(old(self)@, final(self)@),
            solvable(old(self)@) ==> forall|unit: SliceType|
                unit.wf() ==> #[trigger] hidden_singles_fixed(old(self)@, final(self)@, unit),
    {
        proof {
            lemma_keeps_each_unit(self@, UnitPass::HiddenSingle);
            if solvable(self@) {
                lemma_hidden_single_pass(self@);
            }
        }
        let mut i: usize = 0;
        while i < 9
            invariant
                i <= 9,
                self.wf(),
                repeat(self@, passes::each_unit_step(UnitPass::HiddenSingle), i, 9)
                    == passes::each_unit(old(self)@, UnitPass::HiddenSingle),
            decreases 9 - i,
        {
            self.block_mut(i).hidden_single();
            self.col_mut(i).hidden_single();
            self.row_mut(i).hidden_single();
            i += 1;
        }
    }

    /// The naked-pair pass over the 27 units.
    pub fn naked_pair(&mut self)
        requires
            old(self).wf(),
        ensures
            final(self).wf(),
            final(self)@ == passes::each_unit(old(self)@, UnitPass::NakedPair),
            keeps(old(self)@, final(self)@),
            solvable(old(self)@) ==> forall|unit: SliceType|
                unit.wf() ==> #[trigger] naked_pairs_cleared(old(self)@, final(self)@, unit),
    {
        proof {
            lemma_keeps_each_unit(self@, UnitPass::NakedPair);
            if solvable(self@) {
                lemma_naked_pair_pass(self@);
            }
        }
        let mut i: usize = 0;
        while i < 9
            invariant
                i <= 9,
                self.wf(),
                repeat(self@, passes::each_unit_step(UnitPass::NakedPair), i, 9)
                    == passes::each_unit(old(self)@, UnitPass::NakedPair),
            decreases 9 - i,
        {
            self.block_mut(i).naked_pair();
            self.col_mut(i).naked_pair();
            self.row_mut(i).naked_pair();
            i += 1;
        }
    }

    /// The naked-triple pass over the 27 units.
    pub fn naked_triple(&mut self)
        requires
            old(self).wf(),
        ensures
            final(self).wf(),
            final(self)@ == passes::each_unit(old(self)@, UnitPass::NakedTriple),
            keeps(old(self)@, final(self)@),
    {
        proof {
            lemma_keeps_each_unit(self@, UnitPass::NakedTriple);
        }
        let mut i: usize = 0;
        while i < 9
            invariant
                i <= 9,
                self.wf(),
                repeat(self@, passes::each_unit_step(UnitPass::NakedTriple), i, 9)
                    == passes::each_unit(old(self)@, UnitPass::NakedTriple),
            decreases 9 - i,
        {
            self.block_mut(i).naked_triple();
            self.col_mut(i).naked_triple();
            self.row_mut(i).naked_triple();
            i += 1;
        }
    }

    /// The hidden-pair pass over the 27 units.
    pub fn hidden_pair(&mut self)
        requires
            old(self).wf(),
        ensures
            final(self).wf(),
            final(self)@ == passes::each_unit(old(self)@, UnitPass::HiddenPair),
            keeps(old(self)@, final(self)@),
    {
        proof {
            lemma_keeps_each_unit(self@, UnitPass::HiddenPair);
        }
        let mut i: usize = 0;
        while i < 9
            invariant
                i <= 9,
                self.wf(),
                repeat(self@, passes::each_unit_step(UnitPass::HiddenPair), i, 9)
                    == passes::each_unit(old(self)@, UnitPass::HiddenPair),
            decreases 9 - i,
        {
            self.block_mut(i).hidden_pair();
            self.col_mut(i).hidden_pair();
            self.row_mut(i).hidden_pair();
            i += 1;
        }
    }

    /// The hidden-triple pass over the 27 units.
    pub fn hidden_triple(&mut self)
        requires
            old(self).wf(),
        ensures
            final(self).wf(),
            final(self)@ == passes::each_unit(old(self)@, UnitPass::HiddenTriple),
            keeps(old(self)@, final(self)@),
    {
        proof {
            lemma_keeps_each_unit(self@, UnitPass::HiddenTriple);
        }
        let mut i: usize = 0;
        while i < 9
            invariant
                i <= 9,
                self.wf(),
                repeat(self@, passes::each_unit_step(UnitPass::HiddenTriple), i, 9)
                    == passes::each_unit(old(self)@, UnitPass::HiddenTriple),
            decreases 9 - i,
        {
            self.block_mut(i).hidden_triple();
            self.col_mut(i).hidden_triple();
            self.row_mut(i).hidden_triple();
            i += 1;
        }
    }

    /// Takes the digits of `mask` from every cell of `line` that does not lie in `apart`, and
    /// asks each of them to settle.
    fn strike_line(&mut self, line: SliceType, apart: SliceType, mask: u16)
        requires
            old(self).wf(),
            line.wf(),
        ensures
            final(self).wf(),
            final(self)@ == passes::strike_line(old(self)@, line, apart, mask),
    {
        let mut j: usize = 0;
        while j < 9
            invariant
                j <= 9,
                self.wf(),
                line.wf(),
                repeat(self@, passes::strike_line_step(line, apart, mask), j, 9)
                    == passes::strike_line(old(self)@, line, apart, mask),
            decreases 9 - j,
        {
            let pos = line.index_of(j);
            if !apart.contains(pos) {
                self.eliminate(pos, mask);
                self.determine(pos);
            }
            j += 1;
        }
    }

    /// Box-line reduction from a row or a column.
    #[verifier::rlimit(40)]
    fn box_line_line(&mut self, line: SliceType)
        requires
            old(self).wf(),
            line.wf(),
            !(line is Block),
        ensures
            final(self).wf(),
            final(self)@ == passes::box_line_line(old(self)@, line),
    {
        let view = PuzzleSliceMut::new(self, line);
        let b0_idx = view.get(0).block_idx();
        let b1_idx = view.get(3).block_idx();
        let b2_idx = view.get(6).block_idx();
        let b0 = view.chunk_bit_sum(0);
        let b1 = view.chunk_bit_sum(1);
        let b2 = view.chunk_bit_sum(2);
        let only_b0 = b0 & (b0 ^ b1) & (b0 ^ b2);
        let only_b1 = b1 & (b1 ^ b0) & (b1 ^ b2);
        let only_b2 = b2 & (b2 ^ b0) & (b2 ^ b1);
        self.strike_line(SliceType::Block(b0_idx), line, only_b0);
        self.strike_line(SliceType::Block(b1_idx), line, only_b1);
        self.strike_line(SliceType::Block(b2_idx), line, only_b2);
    }

    /// Box-line reduction from block `i`.
    #[verifier::rlimit(40)]
    fn box_line_block(&mut self, i: usize)
        requires
            old(self).wf(),
            i < 9,
        ensures
            final(self).wf(),
            final(self)@ == passes::box_line_block(old(self)@, i),
    {
        let block = self.block_mut(i);
        let c0_idx = block.get(0).col();
        let c1_idx = block.get(3).col();
        let c2_idx = block.get(6).col();
        let r0_idx = block.get(0).row();
        let r1_idx = block.get(1).row();
        let r2_idx = block.get(2).row();
        let c0 = block.chunk_bit_sum(0);
        let c1 = block.chunk_bit_sum(1);
        let c2 = block.chunk_bit_sum(2);
        let r0 = block.stride_bit_sum(0);
        let r1 = block.stride_bit_sum(1);
        let r2 = block.stride_bit_sum(2);
        let only_c0 = c0 & (c0 ^ c1) & (c0 ^ c2);
        let only_c1 = c1 & (c1 ^ c0) & (c1 ^ c2);
        let only_c2 = c2 & (c2 ^ c0) & (c2 ^ c1);
        let only_r0 = r0 & (r0 ^ r1) & (r0 ^ r2);
        let only_r1 = r1 & (r1 ^ r0) & (r1 ^ r2);
        let only_r2 = r2 & (r2 ^ r0) & (r2 ^ r1);
        let here = SliceType::Block(i);
        self.strike_line(SliceType::Col(c0_idx), here, only_c0);
        self.strike_line(SliceType::Col(c1_idx), here, only_c1);
        self.strike_line(SliceType::Col(c2_idx), here, only_c2);
        self.strike_line(SliceType::Row(r0_idx), here, only_r0);
        self.strike_line(SliceType::Row(r1_idx), here, only_r1);
        self.strike_line(SliceType::Row(r2_idx), here, only_r2);
    }

    /// The box-line reduction pass. For each number `i`: a digit that block `i` holds in one of
    /// its columns or rows only leaves that line outside the block; then a digit that row `i`,
    /// and then column `i`, holds in one block only leaves the rest of that block. Every
    /// cell that loses a digit is asked to settle.
    pub fn box_line_reduction(&mut self)
        requires
            old(self).wf(),
        ensures
            final(self).wf(),
            final(self)@ == passes::box_line_reduction(old(self)@),
            keeps(old(self)@, final(self)@),
    {
        proof {
            lemma_keeps_box_line_reduction(self@);
        }
        let mut i: usize = 0;
        while i < 9
            invariant
                i <= 9,
                self.wf(),
                repeat(self@, passes::box_line_step(), i, 9) == passes::box_line_reduction(
                    old(self)@,
                ),
            decreases 9 - i,
        {
            self.box_line_block(i);
            self.box_line_line(SliceType::Row(i));
            self.box_line_line(SliceType::Col(i));
            i += 1;
        }
    }

    /// The x-wing elimination for the lines `i` and `j` and the digit `d`, which occurs in
    /// both at the slots of `slots`.
    fn x_wing_slots(&mut self, slots: u16, i: usize, j: usize, d: usize)
        requires
            old(self).wf(),
            d < 9,
        ensures
            final(self).wf(),
            final(self)@ == repeat(old(self)@, passes::x_wing_slot_step(slots, i, j, d), 0, 9),
    {
        let mut t: usize = 0;
        while t < 9
            invariant
                t <= 9,
                d < 9,
                self.wf(),
                repeat(self@, passes::x_wing_slot_step(slots, i, j, d), t, 9) == repeat(
                    old(self)@,
                    passes::x_wing_slot_step(slots, i, j, d),
                    0,
                    9,
                ),
            decreases 9 - t,
        {
            if test_digit(slots, t) && t != i && t != j {
                self.eliminate(PuzzleIndex::new(t, t), digit_bit(d));
            }
            t += 1;
        }
    }

    /// The x-wing pass on two lines whose occurrences are `first` and `second`.
    fn x_wing_lines(&mut self, first: &[u16; 9], second: &[u16; 9], i: usize, j: usize)
        requires
            old(self).wf(),
        ensures
            final(self).wf(),
            final(self)@ == repeat(
                old(self)@,
                passes::x_wing_digit_step(first@, second@, i, j),
                0,
                9,
            ),
    {
        let mut k: usize = 0;
        while k < 9
            invariant
                k <= 9,
                self.wf(),
                repeat(self@, passes::x_wing_digit_step(first@, second@, i, j), k, 9) == repeat(
                    old(self)@,
                    passes::x_wing_digit_step(first@, second@, i, j),
                    0,
                    9,
                ),
            decreases 9 - k,
        {
            if !(count_ones(first[k]) != 2 || second[k] != first[k]) {
                self.x_wing_slots(first[k], i, j, k);
            }
            k += 1;
        }
    }

    /// The x-wing pass. For every two columns, and then the two rows of the same numbers: a
    /// digit that occurs in both lines at the same two slots, and at no other, leaves the cell on
    /// the diagonal at each of the two slots, unless that cell lies in one of the two lines.
    #[verifier::rlimit(40)]
    pub fn x_wing(&mut self)
        requires
            old(self).wf(),
        ensures
            final(self).wf(),
            final(self)@ == passes::x_wing(old(self)@),
            keeps(old(self)@, final(self)@),
            narrowed_on_diagonal(old(self)@, final(self)@),
    {
        proof {
            lemma_keeps_x_wing(self@);
            lemma_x_wing_scope(self@);
        }
        let mut i: usize = 0;
        while i < 9
            invariant
                i <= 9,
                self.wf(),
                repeat(self@, passes::x_wing_outer(), i, 9) == passes::x_wing(old(self)@),
            decreases 9 - i,
        {
            let ghost start = self@;
            let mut j: usize = i + 1;
            while j < 9
                invariant
                    i < j <= 9,
                    self.wf(),
                    repeat(self@, passes::x_wing_inner(i), j, 9) == repeat(
                        start,
                        passes::x_wing_inner(i),
                        (i + 1) as usize,
                        9,
                    ),
                decreases 9 - j,
            {
                let tar = self.col(i).to_number_appearance();
                let tar2 = self.col(j).to_number_appearance();
                self.x_wing_lines(&tar, &tar2, i, j);
                let tar = self.row(i).to_number_appearance();
                let tar2 = self.row(j).to_number_appearance();
                self.x_wing_lines(&tar, &tar2, i, j);
                j += 1;
            }
            i += 1;
        }
    }

    /// Adds to `found` the pincers of the pivot among the cells of a unit.
    #[verifier::rlimit(40)]
    fn pincers_in(&self, pivot: PuzzleIndex, unit: SliceType, found: &mut Vec<PuzzleIndex>)
        requires
            self.wf(),
            pivot.wf(),
            unit.wf(),
            all_on_grid(old(found)@),
        ensures
            final(found)@ == passes::pincers_in(self@, pivot, unit, 0, old(found)@),
            all_on_grid(final(found)@),
    {
        let tar = PuzzleSlice::new(self, unit);
        let mut i: usize = 0;
        while i < 9
            invariant
                i <= 9,
                self.wf(),
                pivot.wf(),
                unit.wf(),
                tar.puzzle == self,
                tar.type_ == unit,
                all_on_grid(found@),
                passes::pincers_in(self@, pivot, unit, i, found@) == passes::pincers_in(
                    self@,
                    pivot,
                    unit,
                    0,
                    old(found)@,
                ),
            decreases 9 - i,
        {
            let c = tar.get(i);
            if !(c.is_filled() || count_ones(c.bit()) != 2 || count_ones(
                c.bit() & self.cell(pivot).bit(),
            ) != 1) {
                let p = c.pos();
                if !holds_pos(found, p) {
                    found.push(p);
                }
            }
            i += 1;
        }
    }

    /// The xy-wing elimination in one block.
    fn wing_block(
        &mut self,
        blk: SliceType,
        i: PuzzleIndex,
        j: PuzzleIndex,
        other: PuzzleIndex,
        common: u16,
    )
        requires
            old(self).wf(),
            blk.wf(),
        ensures
            final(self).wf(),
            final(self)@ == repeat(
                old(self)@,
                passes::wing_block_step(blk, i, j, other, common),
                0,
                9,
            ),
    {
        let mut k: usize = 0;
        while k < 9
            invariant
                k <= 9,
                self.wf(),
                blk.wf(),
                repeat(self@, passes::wing_block_step(blk, i, j, other, common), k, 9) == repeat(
                    old(self)@,
                    passes::wing_block_step(blk, i, j, other, common),
                    0,
                    9,
                ),
            decreases 9 - k,
        {
            let p = blk.index_of(k);
            if !(p == i || p == j) && (p.col() == other.col() || p.row() == other.row()) {
                self.eliminate(p, common);
            }
            k += 1;
        }
    }

    /// The xy-wing pass for a pivot and two of its pincers.
    #[verifier::rlimit(40)]
    fn xy_wing_at(&mut self, pivot: PuzzleIndex, i: PuzzleIndex, j: PuzzleIndex)
        requires
            old(self).wf(),
            pivot.wf(),
            i.wf(),
            j.wf(),
        ensures
            final(self).wf(),
            final(self)@ == passes::xy_wing_at(old(self)@, pivot, i, j),
    {
        let bp = self.cell(pivot).bit();
        let bi = self.cell(i).bit();
        let bj = self.cell(j).bit();
        if !is_same_group(self.cell(pivot), self.cell(i), self.cell(j)) && count_ones(
            bi | bj | bp,
        ) == 3 && (bi & bp) != (bj & bp) {
            let common = bi & bj;
            self.eliminate(PuzzleIndex::new(i.col(), j.row()), common);
            self.eliminate(PuzzleIndex::new(j.col(), i.row()), common);
            self.wing_block(SliceType::Block(i.block_idx()), i, j, j, common);
            self.wing_block(SliceType::Block(j.block_idx()), i, j, i, common);
        }
    }

    /// The xy-wing pass. Every cell with two candidates is taken as pivot, column by column.
    /// Its pincers are the open cells of its row, column and block that have two candidates
    /// and share exactly one with it. For every two pincers that do not lie in one unit with
    /// the pivot, that have three candidates together with it and share different ones with
    /// it, the candidate that the two have in common leaves the two cells where the row of
    /// one crosses the column of the other, and the cells of the block of each that lie in
    /// the row or column of the other.
    #[verifier::rlimit(40)]
    pub fn xy_wing(&mut self)
        requires
            old(self).wf(),
        ensures
            final(self).wf(),
            final(self)@ == passes::xy_wing(old(self)@),
            keeps(old(self)@, final(self)@),
    {
        proof {
            lemma_keeps_xy_wing(self@);
        }
        let mut k: usize = 0;
        while k < 81
            invariant
                k <= 81,
                self.wf(),
                repeat(self@, passes::xy_wing_step(), k, 81) == passes::xy_wing(old(self)@),
            decreases 81 - k,
        {
            let idx = PuzzleIndex::new(k / 9, k % 9);
            if count_ones(self[idx].bit()) == 2 {
                let ghost start = self@;
                let mut candidates: Vec<PuzzleIndex> = Vec::new();
                assert(candidates@ =~= Seq::empty());
                self.pincers_in(idx, SliceType::Row(idx.row()), &mut candidates);
                self.pincers_in(idx, SliceType::Col(idx.col()), &mut candidates);
                self.pincers_in(idx, SliceType::Block(idx.block_idx()), &mut candidates);
                let n = candidates.len();
                let mut a: usize = 0;
                while a < n
                    invariant
                        a <= n,
                        n == candidates.len(),
                        self.wf(),
                        idx.wf(),
                        all_on_grid(candidates@),
                        repeat(self@, passes::xy_wing_outer(idx, candidates@), a, n) == repeat(
                            start,
                            passes::xy_wing_outer(idx, candidates@),
                            0,
                            n,
                        ),
                    decreases n - a,
                {
                    let ghost mid = self@;
                    let mut c: usize = a + 1;
                    while c < n
                        invariant
                            a < c <= n,
                            n == candidates.len(),
                            self.wf(),
                            idx.wf(),
                            all_on_grid(candidates@),
                            repeat(self@, passes::xy_wing_inner(idx, candidates@, a), c, n)
                                == repeat(
                                mid,
                                passes::xy_wing_inner(idx, candidates@, a),
                                (a + 1) as usize,
                                n,
                            ),
                        decreases n - c,
                    {
                        self.xy_wing_at(idx, candidates[a], candidates[c]);
                        c += 1;
                    }
                    a += 1;
                }
            }
            k += 1;
        }
    }

    /// Whether every block, column and row meets the three rules: no two fixed cells of the
    /// unit hold the same value; every value is a candidate of some cell of the unit; and
    /// no value of a fixed cell is a candidate of an open cell of the unit. The grid is not
    /// changed. A settled grid that admits a solution meets the rules.
    #[verifier::rlimit(40)]
    pub fn validate(&self) -> (r: bool)
        requires
            self.wf(),
        ensures
            r == valid(self@),
            settled(self@) && solvable(self@) ==> r,
    {
        proof {
            if settled(self@) && solvable(self@) {
                let s = choose|s: Seq<u8>| #[trigger] is_solution(s) && compatible(self@, s);
                lemma_valid(self@, s);
            }
        }
        let mut i: usize = 0;
        while i < 9
            invariant
                i <= 9,
                self.wf(),
                forall|n: usize| n < i ==> #[trigger] round_valid(self@, n),
                settled(self@) && solvable(self@) ==> valid(self@),
            decreases 9 - i,
        {
            if !self.block(i).check() || !self.col(i).check() || !self.row(i).check() {
                assert(SliceType::Block(i).wf() && SliceType::Col(i).wf() && SliceType::Row(i).wf());
                return false;
            }
            i += 1;
        }
        assert forall|unit: SliceType| unit.wf() implies #[trigger] unit_valid(self@, unit) by {
            assert(round_valid(self@, unit.n()));
        }
        true
    }

    /// The candidate masks of the 81 cells as decimal numbers, column by column, with a
    /// stroke between them. Two grids give the same text exactly when every cell has the same
    /// mask in both.
    #[verifier::rlimit(40)]
    pub fn hash(&self) -> (ans: String)
        requires
            self.wf(),
        ensures
            ans@ == hash_of(self@),
    {
        let mut ans = String::new();
        let mut k: usize = 0;
        while k < 81
            invariant
                k <= 81,
                self.wf(),
                ans@ + hash_from(self@, k as int) == hash_of(self@),
            decreases 81 - k,
        {
            let ghost before = ans@;
            let bit = self.inner[k].bit();
            append_decimal(&mut ans, bit);
            if k < 80 {
                append_stroke(&mut ans);
            }
            proof {
                let d = super::hash::decimal(bit);
                let rest = hash_from(self@, k + 1);
                if k < 80 {
                    assert(before + (d + seq!['/'] + rest) =~= before + d + seq!['/'] + rest);
                } else {
                    assert(rest =~= Seq::empty());
                    assert(before + d =~= before + d + rest);
                }
            }
            k += 1;
        }
        assert(ans@ + Seq::<char>::empty() =~= ans@);
        ans
    }

    /// One round of deduction: the naked-single pass, the hidden-single pass, box-line
    /// reduction, the naked-pair, naked-triple, hidden-pair and hidden-triple passes, the
    /// x-wing pass and the xy-wing pass, each once and in this order. No fixed cell changes,
    /// no cell gains a candidate, and no solution that the grid admits is lost.
    pub fn solve(&mut self)
        requires
            old(self).wf(),
        ensures
            final(self).wf(),
            final(self)@ == passes::solved_once(old(self)@),
            keeps(old(self)@, final(self)@),
    {
        proof {
            lemma_keeps_solved_once(self@);
        }
        self.naked_single();
        self.hidden_single();
        self.box_line_reduction();
        self.naked_pair();
        self.naked_triple();
        self.hidden_pair();
        self.hidden_triple();
        self.x_wing();
        self.xy_wing();
    }
}

impl Clone for Puzzle {
    /// A second grid with the same cells.
    fn clone(&self) -> (r: Self)
        ensures
            r@ == self@,
            r.wf() == self.wf(),
    {
        let mut inner: Vec<Cell> = Vec::new();
        let mut k: usize = 0;
        while k < self.inner.len()
            invariant
                k <= self.inner.len(),
                inner@ == self.inner@.take(k as int),
            decreases self.inner.len() - k,
        {
            inner.push(self.inner[k]);
            assert(inner@ =~= self.inner@.take(k + 1));
            k += 1;
        }
        assert(inner@ =~= self.inner@);
        let r = Puzzle { inner };
        assert(r@ =~= self@);
        r
    }
}

impl core::ops::Index<PuzzleIndex> for Puzzle {
    type Output = Cell;

    /// The cell at `index`.
    fn index(&self, index: PuzzleIndex) -> (r: &Cell)
        ensures
            r.cell == self@[index.flat()],
            r.pos == index,
            r.cell.wf(),
    {
        self.cell(index)
    }
}

impl vstd::std_specs::core::IndexSpecImpl<PuzzleIndex> for Puzzle {
    /// The grid is valid and the coordinates lie on it.
    open spec fn index_req(&self, index: &PuzzleIndex) -> bool {
        self.wf() && index.wf()
    }
}

/// Whether the three cells lie in one row, in one column or in one block.
fn is_same_group(i: &Cell, j: &Cell, k: &Cell) -> (r: bool)
    requires
        i.pos.wf(),
        j.pos.wf(),
        k.pos.wf(),
    ensures
        r == passes::same_group(i.pos, j.pos, k.pos),
{
    (i.row() == j.row() && i.row() == k.row()) || (i.col() == j.col() && i.col() == k.col()) || (
    i.block_idx() == j.block_idx() && i.block_idx() == k.block_idx())
}

/// Whether the list holds the coordinates `p`.
fn holds_pos(list: &Vec<PuzzleIndex>, p: PuzzleIndex) -> (r: bool)
    ensures
        r == list@.contains(p),
{
    let mut i: usize = 0;
    while i < list.len()
        invariant
            i <= list.len(),
            forall|k: int| 0 <= k < i ==> list@[k] != p,
        decreases list.len() - i,
    {
        if list[i] == p {
            return true;
        }
        i += 1;
    }
    false
}

} // verus!
