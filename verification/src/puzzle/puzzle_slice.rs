//! Views of one unit of the grid: nine cells of a row, a column or a block.

use super::board::{Board, determined_at};
use super::passes;
use super::passes::{
    chunk_sum, eliminated_at, occurrences, occurs_below, repeat, restricted_at, slot_bits,
    stride_sum, struck,
};
use super::puzzle::Puzzle;
use super::slice_type::SliceType;
use crate::bits::{count, count_ones, digit_bit, test_digit, trailing_zeros};
use crate::cell::Cell;
use crate::soundness::effects::{hidden_singles_fixed, lemma_hidden_single_unit};
use crate::soundness::model::solvable;
use crate::soundness::pairs::{lemma_naked_pair_unit, naked_pairs_cleared};
use crate::soundness::triples::{first_triple_cleared, lemma_naked_triple_unit};
use vstd::prelude::*;

verus! {

/// A read-only view of one unit.
pub struct PuzzleSlice<'a> {
    pub puzzle: &'a Puzzle,
    pub type_: SliceType,
}

/// A view of one unit through which the grid can be changed.
pub struct PuzzleSliceMut<'a> {
    pub puzzle: &'a mut Puzzle,
    pub type_: SliceType,
}

/// Walks the nine cells of a unit, slot by slot.
pub struct PuzzleIter<'a> {
    pub puzzle: &'a Puzzle,
    pub type_: SliceType,
    pub idx: usize,
}

/// For each digit the slots of the unit whose cells carry it.
#[verifier::rlimit(40)]
fn number_appearance(puzzle: &Puzzle, type_: SliceType) -> (ret: [u16; 9])
    requires
        puzzle.wf(),
        type_.wf(),
    ensures
        ret@ == occurrences(puzzle@, type_),
{
    let mut ret: [u16; 9] = [0;9];
    let mut i: usize = 0;
    while i < 9
        invariant
            i <= 9,
            puzzle.wf(),
            type_.wf(),
            forall|d: int| 0 <= d < 9 ==> ret@[d] == occurs_below(puzzle@, type_, d as u16, i),
        decreases 9 - i,
    {
        let bit = puzzle.cell(type_.index_of(i)).bit();
        let mut j: usize = 0;
        while j < 9
            invariant
                i < 9,
                j <= 9,
                bit == slot_bits(puzzle@, type_, i),
                forall|d: int|
                    0 <= d < j ==> ret@[d] == occurs_below(puzzle@, type_, d as u16, (i + 1) as usize),
                forall|d: int| j <= d < 9 ==> ret@[d] == occurs_below(puzzle@, type_, d as u16, i),
            decreases 9 - j,
        {
            if test_digit(bit, j) {
                let m: u16 = ret[j] | digit_bit(i);
                ret[j] = m;
            }
            j += 1;
        }
        i += 1;
    }
    assert(ret@ =~= occurrences(puzzle@, type_));
    ret
}

impl<'a> PuzzleSlice<'a> {
    /// The grid is valid and the unit's number is below nine.
    pub open spec fn wf(&self) -> bool {
        self.puzzle.wf() && self.type_.wf()
    }

    /// The view of the unit `type_` of the grid.
    pub fn new(puzzle: &'a Puzzle, type_: SliceType) -> (r: Self)
        ensures
            r.puzzle == puzzle,
            r.type_ == type_,
    {
        Self { puzzle, type_ }
    }

    /// Walks the nine cells of the unit from its first slot.
    pub fn iter(&self) -> (r: PuzzleIter<'_>)
        ensures
            r.puzzle == self.puzzle,
            r.type_ == self.type_,
            r.idx == 0,
    {
        PuzzleIter { puzzle: self.puzzle, type_: self.type_, idx: 0 }
    }

    /// The cell at slot `index` of the unit.
    pub fn get(&self, index: usize) -> (r: &Cell)
        requires
            self.wf(),
            index < 9,
        ensures
            r.cell == self.puzzle@[self.type_.at(index).flat()],
            r.pos == self.type_.at(index),
            r.cell.wf(),
            r.pos.wf(),
    {
        self.puzzle.cell(self.type_.index_of(index))
    }

    /// For each digit, the mask of the slots whose cells carry it: bit `i` of entry `d` is set
    /// where the cell at slot `i` has the value `d + 1` among its candidates.
    pub fn to_number_appearance(&self) -> (ret: [u16; 9])
        requires
            self.wf(),
        ensures
            ret@ == occurrences(self.puzzle@, self.type_),
    {
        number_appearance(self.puzzle, self.type_)
    }
}

impl<'a> PuzzleIter<'a> {
    /// The next cell of the unit, or `None` after the ninth.
    pub fn next(&mut self) -> (r: Option<&'a Cell>)
        requires
            old(self).puzzle.wf(),
            old(self).type_.wf(),
        ensures
            final(self).puzzle == old(self).puzzle,
            final(self).type_ == old(self).type_,
            old(self).idx >= 9 ==> r is None && final(self).idx == old(self).idx,
            old(self).idx < 9 ==> final(self).idx == old(self).idx + 1 && r == Some(
                &Cell {
                    cell: old(self).puzzle@[old(self).type_.at(old(self).idx).flat()],
                    pos: old(self).type_.at(old(self).idx),
                },
            ),
    {
        if self.idx >= 9 {
            None
        } else {
            let ret = Some(self.puzzle.cell(self.type_.index_of(self.idx)));
            self.idx += 1;
            ret
        }
    }
}

impl<'a> PuzzleSliceMut<'a> {
    /// The grid is valid and the unit's number is below nine.
    pub open spec fn wf(&self) -> bool {
        self.puzzle.wf() && self.type_.wf()
    }

    /// The grid as the view holds it now.
    pub open spec fn grid(&self) -> Puzzle {
        *self.puzzle
    }

    /// The grid's value as the view holds it now.
    pub open spec fn board(&self) -> Board {
        self.puzzle@
    }

    /// The view of the unit `type_` of the grid.
    pub fn new(puzzle: &'a mut Puzzle, type_: SliceType) -> (r: Self)
        ensures
            *r.puzzle == *old(puzzle),
            *final(r.puzzle) == *final(puzzle),
            r.type_ == type_,
    {
        Self { puzzle, type_ }
    }

    /// Walks the nine cells of the unit from its first slot.
    pub fn iter(&self) -> (r: PuzzleIter<'_>)
        ensures
            *r.puzzle == self.grid(),
            r.type_ == self.type_,
            r.idx == 0,
    {
        PuzzleIter { puzzle: &*self.puzzle, type_: self.type_, idx: 0 }
    }

    /// The cell at slot `index` of the unit.
    pub fn get(&self, index: usize) -> (r: &Cell)
        requires
            self.wf(),
            index < 9,
        ensures
            r.cell == self.board()[self.type_.at(index).flat()],
            r.pos == self.type_.at(index),
            r.cell.wf(),
            r.pos.wf(),
    {
        self.puzzle.cell(self.type_.index_of(index))
    }

    /// Takes the digits of `mask` out of the candidates of the cell at slot `index`.
    pub fn eliminate(&mut self, index: usize, mask: u16)
        requires
            old(self).wf(),
            index < 9,
        ensures
            final(self).wf(),
            final(self).type_ == old(self).type_,
            *final(final(self).puzzle) == *final(old(self).puzzle),
            final(self).board() == eliminated_at(old(self).board(), old(self).type_.at(index), mask),
    {
        let pos = self.type_.index_of(index);
        self.puzzle.eliminate(pos, mask);
    }

    /// Keeps of the candidates of the cell at slot `index` only the digits of `mask`.
    pub fn restrict(&mut self, index: usize, mask: u16)
        requires
            old(self).wf(),
            index < 9,
        ensures
            final(self).wf(),
            final(self).type_ == old(self).type_,
            *final(final(self).puzzle) == *final(old(self).puzzle),
            final(self).board() == restricted_at(old(self).board(), old(self).type_.at(index), mask),
    {
        let pos = self.type_.index_of(index);
        self.puzzle.restrict(pos, mask);
    }

    /// Asks the cell at slot `index` to settle.
    pub fn determine(&mut self, index: usize)
        requires
            old(self).wf(),
            index < 9,
        ensures
            final(self).wf(),
            final(self).type_ == old(self).type_,
            *final(final(self).puzzle) == *final(old(self).puzzle),
            final(self).board() == determined_at(old(self).board(), old(self).type_.at(index)),
    {
        let pos = self.get(index).pos();
        self.puzzle.determine(pos);
    }

    /// For each digit, the mask of the slots whose cells carry it: bit `i` of entry `d` is set
    /// where the cell at slot `i` has the value `d + 1` among its candidates.
    pub fn to_number_appearance(&self) -> (ret: [u16; 9])
        requires
            self.wf(),
        ensures
            ret@ == occurrences(self.board(), self.type_),
    {
        number_appearance(&*self.puzzle, self.type_)
    }

    /// The candidates of the cells at the slots `3 * chunk ..= 3 * chunk + 2`, together.
    pub fn chunk_bit_sum(&self, chunk: usize) -> (r: u16)
        requires
            self.wf(),
            chunk < 3,
        ensures
            r == chunk_sum(self.board(), self.type_, chunk),
    {
        self.get(chunk * 3).bit() | self.get(chunk * 3 + 1).bit() | self.get(chunk * 3 + 2).bit()
    }

    /// The candidates of the cells at the slots `stride`, `stride + 3`, `stride + 6`, together.
    pub fn stride_bit_sum(&self, stride: usize) -> (r: u16)
        requires
            self.wf(),
            stride < 3,
        ensures
            r == stride_sum(self.board(), self.type_, stride),
    {
        self.get(stride).bit() | self.get(stride + 3).bit() | self.get(stride + 6).bit()
    }

    /// The candidates that the cells at the slots `chunk ..= chunk + 2` have in common.
    pub fn chunk_bit_product(&self, chunk: usize) -> (r: u16)
        requires
            self.wf(),
            chunk < 7,
        ensures
            r == slot_bits(self.board(), self.type_, chunk) & slot_bits(
                self.board(),
                self.type_,
                (chunk + 1) as usize,
            ) & slot_bits(self.board(), self.type_, (chunk + 2) as usize),
    {
        self.get(chunk).bit() & self.get(chunk + 1).bit() & self.get(chunk + 2).bit()
    }

    /// The candidates that the cells at the slots `stride`, `stride + 3`, `stride + 6` have in
    /// common.
    pub fn stride_bit_product(&self, stride: usize) -> (r: u16)
        requires
            self.wf(),
            stride < 3,
        ensures
            r == slot_bits(self.board(), self.type_, stride) & slot_bits(
                self.board(),
                self.type_,
                (stride + 3) as usize,
            ) & slot_bits(self.board(), self.type_, (stride + 6) as usize),
    {
        self.get(stride).bit() & self.get(stride + 3).bit() & self.get(stride + 6).bit()
    }

    /// Takes the digits of `mask` from the cell at slot `index` and asks it to settle.
    pub fn strike(&mut self, index: usize, mask: u16)
        requires
            old(self).wf(),
            index < 9,
        ensures
            final(self).wf(),
            final(self).type_ == old(self).type_,
            *final(final(self).puzzle) == *final(old(self).puzzle),
            final(self).board() == struck(old(self).board(), old(self).type_.at(index), mask),
    {
        self.eliminate(index, mask);
        self.determine(index);
    }

    /// Takes the digits of `mask` from every cell but those at the slots `i`, `j`, `k`, and asks
    /// each to settle.
    fn strike_others(&mut self, i: usize, j: usize, k: usize, mask: u16)
        requires
            old(self).wf(),
        ensures
            final(self).wf(),
            final(self).type_ == old(self).type_,
            *final(final(self).puzzle) == *final(old(self).puzzle),
            final(self).board() == passes::strike_others(
                old(self).board(),
                old(self).type_,
                i,
                j,
                k,
                mask,
            ),
    {
        let mut l: usize = 0;
        while l < 9
            invariant
                l <= 9,
                self.wf(),
                self.type_ == old(self).type_,
                *final(self.puzzle) == *final(old(self).puzzle),
                repeat(
                    self.board(),
                    passes::strike_others_step(self.type_, i, j, k, mask),
                    l,
                    9,
                ) == passes::strike_others(old(self).board(), old(self).type_, i, j, k, mask),
            decreases 9 - l,
        {
            if !(i == l || j == l || k == l) {
                self.strike(l, mask);
            }
            l += 1;
        }
    }

    /// Cuts the candidates of every cell whose slot is in `slots` down to `keep`.
    fn restrict_slots(&mut self, slots: u16, keep: u16)
        requires
            old(self).wf(),
        ensures
            final(self).wf(),
            final(self).type_ == old(self).type_,
            *final(final(self).puzzle) == *final(old(self).puzzle),
            final(self).board() == passes::restrict_slots(
                old(self).board(),
                old(self).type_,
                slots,
                keep,
            ),
    {
        let mut l: usize = 0;
        while l < 9
            invariant
                l <= 9,
                self.wf(),
                self.type_ == old(self).type_,
                *final(self.puzzle) == *final(old(self).puzzle),
                repeat(self.board(), passes::restrict_slots_step(self.type_, slots, keep), l, 9)
                    == passes::restrict_slots(old(self).board(), old(self).type_, slots, keep),
            decreases 9 - l,
        {
            if test_digit(slots, l) {
                self.restrict(l, keep);
            }
            l += 1;
        }
    }

    /// For each digit that occurs at one slot of the unit only, writes its value to the cell
    /// at that slot. The occurrences are counted once, before the first value is written. On
    /// a grid that admits a solution, each of those cells is fixed to its digit afterwards.
    #[verifier::rlimit(40)]
    pub fn hidden_single(&mut self)
        requires
            old(self).wf(),
        ensures
            final(self).wf(),
            final(self).type_ == old(self).type_,
            *final(final(self).puzzle) == *final(old(self).puzzle),
            final(self).board() == passes::hidden_single_unit(old(self).board(), old(self).type_),
            solvable(old(self).board()) ==> hidden_singles_fixed(
                old(self).board(),
                final(self).board(),
                old(self).type_,
            ),
    {
        proof {
            if solvable(self.board()) {
                self.puzzle.lemma_wf();
                lemma_hidden_single_unit(self.board(), self.type_);
            }
        }
        let appearance = self.to_number_appearance();
        let mut i: usize = 0;
        while i < 9
            invariant
                i <= 9,
                self.wf(),
                self.type_ == old(self).type_,
                *final(self.puzzle) == *final(old(self).puzzle),
                appearance@ == occurrences(old(self).board(), old(self).type_),
                repeat(self.board(), passes::hidden_single_step(self.type_, appearance@), i, 9)
                    == passes::hidden_single_unit(old(self).board(), old(self).type_),
            decreases 9 - i,
        {
            if count_ones(appearance[i]) == 1 {
                proof {
                    crate::bits::lemma_count_one_low(appearance@[i as int]);
                }
                let pos = self.get(trailing_zeros(appearance[i])).pos();
                self.puzzle.fill(pos, i as u8 + 1);
            }
            i += 1;
        }
    }

    /// For every two open cells of the unit that have two candidates between them, takes
    /// both from the other cells of the unit and asks each of those to settle. On a grid that
    /// admits a solution, no other cell of the unit has a candidate of such a pair afterwards.
    #[verifier::rlimit(40)]
    pub fn naked_pair(&mut self)
        requires
            old(self).wf(),
        ensures
            final(self).wf(),
            final(self).type_ == old(self).type_,
            *final(final(self).puzzle) == *final(old(self).puzzle),
            final(self).board() == passes::naked_pair_unit(old(self).board(), old(self).type_),
            solvable(old(self).board()) ==> naked_pairs_cleared(
                old(self).board(),
                final(self).board(),
                old(self).type_,
            ),
    {
        proof {
            if solvable(self.board()) {
                self.puzzle.lemma_wf();
                lemma_naked_pair_unit(self.board(), self.type_);
            }
        }
        let mut i: usize = 0;
        while i < 9
            invariant
                i <= 9,
                self.wf(),
                self.type_ == old(self).type_,
                *final(self.puzzle) == *final(old(self).puzzle),
                repeat(self.board(), passes::naked_pair_outer(self.type_), i, 9)
                    == passes::naked_pair_unit(old(self).board(), old(self).type_),
            decreases 9 - i,
        {
            if !self.get(i).is_filled() {
                let ghost start = self.board();
                let mut j: usize = i + 1;
                while j < 9
                    invariant
                        i < j <= 9,
                        self.wf(),
                        self.type_ == old(self).type_,
                        *final(self.puzzle) == *final(old(self).puzzle),
                        repeat(self.board(), passes::naked_pair_inner(self.type_, i), j, 9)
                            == passes::naked_pair_from(start, self.type_, i),
                    decreases 9 - j,
                {
                    if !self.get(j).is_filled() {
                        let bit = self.get(i).bit() | self.get(j).bit();
                        if count_ones(bit) == 2 {
                            self.strike_others(i, j, j, bit);
                        }
                    }
                    j += 1;
                }
            }
            i += 1;
        }
    }

    /// For every three open cells of the unit that have three candidates between them, takes
    /// the three from the other cells of the unit and asks each of those to settle. On a grid
    /// that admits a solution, no other cell of the unit has a candidate of the first such
    /// three afterwards; a later three may be broken up before its turn comes.
    #[verifier::rlimit(40)]
    pub fn naked_triple(&mut self)
        requires
            old(self).wf(),
        ensures
            final(self).wf(),
            final(self).type_ == old(self).type_,
            *final(final(self).puzzle) == *final(old(self).puzzle),
            final(self).board() == passes::naked_triple_unit(old(self).board(), old(self).type_),
            solvable(old(self).board()) ==> first_triple_cleared(
                old(self).board(),
                final(self).board(),
                old(self).type_,
            ),
    {
        proof {
            if solvable(self.board()) {
                self.puzzle.lemma_wf();
                lemma_naked_triple_unit(self.board(), self.type_);
            }
        }
        let mut i: usize = 0;
        while i < 9
            invariant
                i <= 9,
                self.wf(),
                self.type_ == old(self).type_,
                *final(self.puzzle) == *final(old(self).puzzle),
                repeat(self.board(), passes::naked_triple_outer(self.type_), i, 9)
                    == passes::naked_triple_unit(old(self).board(), old(self).type_),
            decreases 9 - i,
        {
            if !self.get(i).is_filled() {
                let ghost start = self.board();
                let mut j: usize = i + 1;
                while j < 9
                    invariant
                        i < j <= 9,
                        self.wf(),
                        self.type_ == old(self).type_,
                        *final(self.puzzle) == *final(old(self).puzzle),
                        repeat(self.board(), passes::naked_triple_middle(self.type_, i), j, 9)
                            == passes::naked_triple_from(start, self.type_, i),
                    decreases 9 - j,
                {
                    if !self.get(j).is_filled() {
                        let ghost mid = self.board();
                        let mut k: usize = j + 1;
                        while k < 9
                            invariant
                                i < j < k <= 9,
                                self.wf(),
                                self.type_ == old(self).type_,
                                *final(self.puzzle) == *final(old(self).puzzle),
                                repeat(
                                    self.board(),
                                    passes::naked_triple_inner(self.type_, i, j),
                                    k,
                                    9,
                                ) == passes::naked_triple_mid(mid, self.type_, i, j),
                            decreases 9 - k,
                        {
                            if !self.get(k).is_filled() {
                                let bit = self.get(i).bit() | self.get(j).bit() | self.get(
                                    k,
                                ).bit();
                                if count_ones(bit) == 3 {
                                    self.strike_others(i, j, k, bit);
                                }
                            }
                            k += 1;
                        }
                    }
                    j += 1;
                }
            }
            i += 1;
        }
    }

    /// For every two digits that occur at the same two slots of the unit and nowhere else in
    /// it, cuts the cells at those slots down to the two digits. The occurrences are counted
    /// once, at the start.
    #[verifier::rlimit(40)]
    pub fn hidden_pair(&mut self)
        requires
            old(self).wf(),
        ensures
            final(self).wf(),
            final(self).type_ == old(self).type_,
            *final(final(self).puzzle) == *final(old(self).puzzle),
            final(self).board() == passes::hidden_pair_unit(old(self).board(), old(self).type_),
    {
        let appearance = self.to_number_appearance();
        let mut i: usize = 0;
        while i < 9
            invariant
                i <= 9,
                self.wf(),
                self.type_ == old(self).type_,
                *final(self.puzzle) == *final(old(self).puzzle),
                repeat(self.board(), passes::hidden_pair_outer(self.type_, appearance@), i, 9)
                    == passes::hidden_pair_unit(old(self).board(), old(self).type_),
            decreases 9 - i,
        {
            let ghost start = self.board();
            let mut j: usize = i + 1;
            while j < 9
                invariant
                    i < j <= 9,
                    self.wf(),
                    self.type_ == old(self).type_,
                    *final(self.puzzle) == *final(old(self).puzzle),
                    repeat(
                        self.board(),
                        passes::hidden_pair_inner(self.type_, appearance@, i),
                        j,
                        9,
                    ) == repeat(
                        start,
                        passes::hidden_pair_inner(self.type_, appearance@, i),
                        (i + 1) as usize,
                        9,
                    ),
                decreases 9 - j,
            {
                if !(appearance[i] != appearance[j] || count_ones(appearance[i]) != 2) {
                    let keep: u16 = digit_bit(i) | digit_bit(j);
                    self.restrict_slots(appearance[i], keep);
                }
                j += 1;
            }
            i += 1;
        }
    }

    /// For every three digits that occur at the same three slots of the unit and nowhere else
    /// in it, cuts the cells at those slots down to the three digits. The occurrences are
    /// counted once, at the start.
    #[verifier::rlimit(40)]
    pub fn hidden_triple(&mut self)
        requires
            old(self).wf(),
        ensures
            final(self).wf(),
            final(self).type_ == old(self).type_,
            *final(final(self).puzzle) == *final(old(self).puzzle),
            final(self).board() == passes::hidden_triple_unit(old(self).board(), old(self).type_),
    {
        let appearance = self.to_number_appearance();
        let mut i: usize = 0;
        while i < 9
            invariant
                i <= 9,
                self.wf(),
                self.type_ == old(self).type_,
                *final(self.puzzle) == *final(old(self).puzzle),
                repeat(self.board(), passes::hidden_triple_outer(self.type_, appearance@), i, 9)
                    == passes::hidden_triple_unit(old(self).board(), old(self).type_),
            decreases 9 - i,
        {
            if count_ones(appearance[i]) == 3 {
                let ghost start = self.board();
                let mut j: usize = i + 1;
                while j < 9
                    invariant
                        i < j <= 9,
                        self.wf(),
                        self.type_ == old(self).type_,
                        *final(self.puzzle) == *final(old(self).puzzle),
                        count(appearance@[i as int]) == 3,
                        repeat(
                            self.board(),
                            passes::hidden_triple_middle(self.type_, appearance@, i),
                            j,
                            9,
                        ) == passes::hidden_triple_from(start, self.type_, appearance@, i),
                    decreases 9 - j,
                {
                    if appearance[i] == appearance[j] {
                        let ghost mid = self.board();
                        let mut k: usize = j + 1;
                        while k < 9
                            invariant
                                i < j < k <= 9,
                                self.wf(),
                                self.type_ == old(self).type_,
                                *final(self.puzzle) == *final(old(self).puzzle),
                                appearance@[i as int] == appearance@[j as int],
                                repeat(
                                    self.board(),
                                    passes::hidden_triple_inner(self.type_, appearance@, i, j),
                                    k,
                                    9,
                                ) == passes::hidden_triple_mid(
                                    mid,
                                    self.type_,
                                    appearance@,
                                    i,
                                    j,
                                ),
                            decreases 9 - k,
                        {
                            if appearance[i] == appearance[k] {
                                let keep: u16 = digit_bit(i) | digit_bit(j) | digit_bit(k);
                                self.restrict_slots(appearance[i], keep);
                            }
                            k += 1;
                        }
                    }
                    j += 1;
                }
            }
            i += 1;
        }
    }
}

impl<'a> core::ops::Index<usize> for PuzzleSlice<'a> {
    type Output = Cell;

    /// The cell at slot `index` of the unit.
    fn index(&self, index: usize) -> (r: &Cell)
        ensures
            r.cell == self.puzzle@[self.type_.at(index).flat()],
            r.pos == self.type_.at(index),
            r.cell.wf(),
            r.pos.wf(),
    {
        self.get(index)
    }
}

impl<'a> vstd::std_specs::core::IndexSpecImpl<usize> for PuzzleSlice<'a> {
    /// The view is valid and the slot is below nine.
    open spec fn index_req(&self, index: &usize) -> bool {
        self.wf() && *index < 9
    }
}

impl<'a> core::ops::Index<usize> for PuzzleSliceMut<'a> {
    type Output = Cell;

    /// The cell at slot `index` of the unit.
    fn index(&self, index: usize) -> (r: &Cell)
        ensures
            r.cell == self.board()[self.type_.at(index).flat()],
            r.pos == self.type_.at(index),
            r.cell.wf(),
            r.pos.wf(),
    {
        self.get(index)
    }
}

impl<'a> vstd::std_specs::core::IndexSpecImpl<usize> for PuzzleSliceMut<'a> {
    /// The view is valid and the slot is below nine.
    open spec fn index_req(&self, index: &usize) -> bool {
        self.wf() && *index < 9
    }
}

} // verus!
