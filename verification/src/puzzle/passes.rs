//! What each deduction pass makes of a grid, as functions on the grid's value.

use super::board::{Board, determined_at, filled_at, pos_of};
use super::puzzle_index::PuzzleIndex;
use super::slice_type::SliceType;
use crate::bits::{count, holds, lowest, single};
use vstd::prelude::*;

verus! {

/// Applies `step` for each number from `from` up to `to`, in turn.
pub open spec fn repeat(
    b: Board,
    step: spec_fn(Board, usize) -> Board,
    from: usize,
    to: usize,
) -> Board
    decreases to - from,
{
    if from >= to {
        b
    } else {
        repeat(step(b, from), step, (from + 1) as usize, to)
    }
}

/// The cell at `pos` loses the digits of `mask`; nothing else happens.
pub open spec fn eliminated_at(b: Board, pos: PuzzleIndex, mask: u16) -> Board {
    b.update(pos.flat(), b[pos.flat()].eliminated(mask))
}

/// The cell at `pos` keeps only the digits of `mask`; nothing else happens.
pub open spec fn restricted_at(b: Board, pos: PuzzleIndex, mask: u16) -> Board {
    b.update(pos.flat(), b[pos.flat()].restricted(mask))
}

/// The cell at `pos` loses the digits of `mask` and is then asked to settle.
pub open spec fn struck(b: Board, pos: PuzzleIndex, mask: u16) -> Board {
    determined_at(eliminated_at(b, pos, mask), pos)
}

/// One step of the naked-single pass: the cell that stands at `k` is asked to settle.
pub open spec fn naked_single_step() -> spec_fn(Board, usize) -> Board {
    |b: Board, k: usize| determined_at(b, pos_of(k as int))
}

/// The naked-single pass: every cell is asked to settle, column by column.
pub open spec fn naked_single(b: Board) -> Board {
    repeat(b, naked_single_step(), 0, 81)
}

/// The candidate mask of the cell at slot `i` of a unit.
pub open spec fn slot_bits(b: Board, unit: SliceType, i: usize) -> u16 {
    b[unit.at(i).flat()].bits()
}

/// The slots below `n` of a unit whose cells carry the digit `d`, as a mask of slots.
pub open spec fn occurs_below(b: Board, unit: SliceType, d: u16, n: usize) -> u16
    decreases n,
{
    if n == 0 {
        0
    } else {
        let rest = occurs_below(b, unit, d, (n - 1) as usize);
        if holds(slot_bits(b, unit, (n - 1) as usize), d) {
            rest | single((n - 1) as u16)
        } else {
            rest
        }
    }
}

/// For each digit, the mask of the slots of the unit whose cells carry it.
pub open spec fn occurrences(b: Board, unit: SliceType) -> Seq<u16> {
    Seq::new(9, |d: int| occurs_below(b, unit, d as u16, 9))
}

/// Bit `i` of the occurrence mask of `d` says that slot `i` carries `d`.
pub proof fn lemma_occurs_below(b: Board, unit: SliceType, d: u16, n: usize)
    requires
        n <= 9,
    ensures
        crate::bits::is_mask(occurs_below(b, unit, d, n)),
        forall|i: u16|
            holds(occurs_below(b, unit, d, n), i) <==> i < n && holds(
                slot_bits(b, unit, i as usize),
                d,
            ),
    decreases n,
{
    crate::bits::lemma_holds_ops();
    crate::bits::lemma_holds_single();
    if n > 0 {
        lemma_occurs_below(b, unit, d, (n - 1) as usize);
        let rest = occurs_below(b, unit, d, (n - 1) as usize);
        let now = occurs_below(b, unit, d, n);
        crate::bits::lemma_is_mask(rest);
        crate::bits::lemma_is_mask(now);
        assert forall|i: u16|
            holds(now, i) <==> i < n && holds(slot_bits(b, unit, i as usize), d) by {
            if holds(slot_bits(b, unit, (n - 1) as usize), d) {
                assert(holds(rest | single((n - 1) as u16), i) == (holds(rest, i) || holds(
                    single((n - 1) as u16),
                    i,
                )));
            }
        }
    } else {
        crate::bits::lemma_is_mask(0);
    }
}

/// Whether the cell at slot `i` of a unit is fixed.
pub open spec fn slot_filled(b: Board, unit: SliceType, i: usize) -> bool {
    b[unit.at(i).flat()].filled()
}

/// One step of `strike_others`: slot `l` loses `mask` and is asked to settle, unless it is
/// one of the slots `i`, `j`, `k`.
pub open spec fn strike_others_step(unit: SliceType, i: usize, j: usize, k: usize, mask: u16)
    -> spec_fn(Board, usize) -> Board {
    |b: Board, l: usize|
        if l == i || l == j || l == k {
            b
        } else {
            struck(b, unit.at(l), mask)
        }
}

/// Every cell of the unit but those at the slots `i`, `j`, `k` loses `mask` and is asked to
/// settle, slot by slot.
pub open spec fn strike_others(b: Board, unit: SliceType, i: usize, j: usize, k: usize, mask: u16)
    -> Board {
    repeat(b, strike_others_step(unit, i, j, k, mask), 0, 9)
}

/// One step of `restrict_slots`.
pub open spec fn restrict_slots_step(unit: SliceType, slots: u16, keep: u16) -> spec_fn(
    Board,
    usize,
) -> Board {
    |b: Board, l: usize|
        if holds(slots, l as u16) {
            restricted_at(b, unit.at(l), keep)
        } else {
            b
        }
}

/// Every cell of the unit whose slot is in `slots` keeps only the digits of `keep`.
pub open spec fn restrict_slots(b: Board, unit: SliceType, slots: u16, keep: u16) -> Board {
    repeat(b, restrict_slots_step(unit, slots, keep), 0, 9)
}

/// One step of the hidden-single pass on a unit: where the digit `d` occurred at one slot
/// only, its value is written to the cell at that slot.
pub open spec fn hidden_single_step(unit: SliceType, occ: Seq<u16>) -> spec_fn(
    Board,
    usize,
) -> Board {
    |b: Board, d: usize|
        if count(occ[d as int]) == 1 {
            filled_at(b, unit.at(lowest(occ[d as int]) as usize), (d + 1) as u8)
        } else {
            b
        }
}

/// The hidden-single pass on one unit. The occurrences are counted once, before the first
/// value is written.
pub open spec fn hidden_single_unit(b: Board, unit: SliceType) -> Board {
    repeat(b, hidden_single_step(unit, occurrences(b, unit)), 0, 9)
}

/// The naked-pair pass for the slots `i < j`, the cell at `i` being open: if the cell at `j` is
/// open too and the two have two candidates between them, the other cells lose both.
pub open spec fn naked_pair_at(b: Board, unit: SliceType, i: usize, j: usize) -> Board {
    let bit = slot_bits(b, unit, i) | slot_bits(b, unit, j);
    if slot_filled(b, unit, j) || count(bit) != 2 {
        b
    } else {
        strike_others(b, unit, i, j, j, bit)
    }
}

/// The steps of the naked-pair pass for the slot `i` with a later slot.
pub open spec fn naked_pair_inner(unit: SliceType, i: usize) -> spec_fn(Board, usize) -> Board {
    |b: Board, j: usize| naked_pair_at(b, unit, i, j)
}

/// The naked-pair pass for slot `i` with every later slot; nothing where the cell at `i` is
/// fixed when its turn comes.
pub open spec fn naked_pair_from(b: Board, unit: SliceType, i: usize) -> Board {
    if slot_filled(b, unit, i) {
        b
    } else {
        repeat(b, naked_pair_inner(unit, i), (i + 1) as usize, 9)
    }
}

/// The steps of the naked-pair pass on a unit, one for each slot.
pub open spec fn naked_pair_outer(unit: SliceType) -> spec_fn(Board, usize) -> Board {
    |b: Board, i: usize| naked_pair_from(b, unit, i)
}

/// The naked-pair pass on one unit.
pub open spec fn naked_pair_unit(b: Board, unit: SliceType) -> Board {
    repeat(b, naked_pair_outer(unit), 0, 9)
}

/// The naked-triple pass for the slots `i < j < k`, the cells at `i` and `j` being open.
pub open spec fn naked_triple_at(b: Board, unit: SliceType, i: usize, j: usize, k: usize) -> Board {
    let bit = slot_bits(b, unit, i) | slot_bits(b, unit, j) | slot_bits(b, unit, k);
    if slot_filled(b, unit, k) || count(bit) != 3 {
        b
    } else {
        strike_others(b, unit, i, j, k, bit)
    }
}

/// The steps of the naked-triple pass for the slots `i < j` with a later slot.
pub open spec fn naked_triple_inner(unit: SliceType, i: usize, j: usize) -> spec_fn(
    Board,
    usize,
) -> Board {
    |b: Board, k: usize| naked_triple_at(b, unit, i, j, k)
}

/// The naked-triple pass for the slots `i < j` with every later slot; nothing where the cell at
/// `j` is fixed when its turn comes.
pub open spec fn naked_triple_mid(b: Board, unit: SliceType, i: usize, j: usize) -> Board {
    if slot_filled(b, unit, j) {
        b
    } else {
        repeat(b, naked_triple_inner(unit, i, j), (j + 1) as usize, 9)
    }
}

/// The steps of the naked-triple pass for the slot `i` with a later slot.
pub open spec fn naked_triple_middle(unit: SliceType, i: usize) -> spec_fn(Board, usize) -> Board {
    |b: Board, j: usize| naked_triple_mid(b, unit, i, j)
}

/// The naked-triple pass for the slot `i` with every two later slots; nothing where the cell at
/// `i` is fixed when its turn comes.
pub open spec fn naked_triple_from(b: Board, unit: SliceType, i: usize) -> Board {
    if slot_filled(b, unit, i) {
        b
    } else {
        repeat(b, naked_triple_middle(unit, i), (i + 1) as usize, 9)
    }
}

/// The steps of the naked-triple pass on a unit, one for each slot.
pub open spec fn naked_triple_outer(unit: SliceType) -> spec_fn(Board, usize) -> Board {
    |b: Board, i: usize| naked_triple_from(b, unit, i)
}

/// The naked-triple pass on one unit.
pub open spec fn naked_triple_unit(b: Board, unit: SliceType) -> Board {
    repeat(b, naked_triple_outer(unit), 0, 9)
}

/// The hidden-pair pass for the digits `i < j`: where both occurred at the same two slots, the
/// cells at those slots keep only the two.
pub open spec fn hidden_pair_at(b: Board, unit: SliceType, occ: Seq<u16>, i: usize, j: usize)
    -> Board {
    if occ[i as int] != occ[j as int] || count(occ[i as int]) != 2 {
        b
    } else {
        restrict_slots(b, unit, occ[i as int], single(i as u16) | single(j as u16))
    }
}

/// The steps of the hidden-pair pass for the digit `i` with a later digit.
pub open spec fn hidden_pair_inner(unit: SliceType, occ: Seq<u16>, i: usize) -> spec_fn(
    Board,
    usize,
) -> Board {
    |b: Board, j: usize| hidden_pair_at(b, unit, occ, i, j)
}

/// The steps of the hidden-pair pass on a unit, one for each digit.
pub open spec fn hidden_pair_outer(unit: SliceType, occ: Seq<u16>) -> spec_fn(
    Board,
    usize,
) -> Board {
    |b: Board, i: usize| repeat(b, hidden_pair_inner(unit, occ, i), (i + 1) as usize, 9)
}

/// The hidden-pair pass on one unit. The occurrences are counted once, at the start.
pub open spec fn hidden_pair_unit(b: Board, unit: SliceType) -> Board {
    repeat(b, hidden_pair_outer(unit, occurrences(b, unit)), 0, 9)
}

/// The hidden-triple pass for the digits `i < j < k`, the first of which occurred at three
/// slots and the second at the same three.
pub open spec fn hidden_triple_at(
    b: Board,
    unit: SliceType,
    occ: Seq<u16>,
    i: usize,
    j: usize,
    k: usize,
) -> Board {
    if occ[i as int] != occ[k as int] {
        b
    } else {
        restrict_slots(
            b,
            unit,
            occ[i as int],
            single(i as u16) | single(j as u16) | single(k as u16),
        )
    }
}

/// The steps of the hidden-triple pass for the digits `i < j` with a later digit.
pub open spec fn hidden_triple_inner(unit: SliceType, occ: Seq<u16>, i: usize, j: usize)
    -> spec_fn(Board, usize) -> Board {
    |b: Board, k: usize| hidden_triple_at(b, unit, occ, i, j, k)
}

/// The hidden-triple pass for the digits `i < j` with every later digit; nothing where the two
/// did not occur at the same slots.
pub open spec fn hidden_triple_mid(b: Board, unit: SliceType, occ: Seq<u16>, i: usize, j: usize)
    -> Board {
    if occ[i as int] != occ[j as int] {
        b
    } else {
        repeat(b, hidden_triple_inner(unit, occ, i, j), (j + 1) as usize, 9)
    }
}

/// The steps of the hidden-triple pass for the digit `i` with a later digit.
pub open spec fn hidden_triple_middle(unit: SliceType, occ: Seq<u16>, i: usize) -> spec_fn(
    Board,
    usize,
) -> Board {
    |b: Board, j: usize| hidden_triple_mid(b, unit, occ, i, j)
}

/// The hidden-triple pass for the digit `i` with every two later digits; nothing where `i` did
/// not occur at exactly three slots.
pub open spec fn hidden_triple_from(b: Board, unit: SliceType, occ: Seq<u16>, i: usize) -> Board {
    if count(occ[i as int]) != 3 {
        b
    } else {
        repeat(b, hidden_triple_middle(unit, occ, i), (i + 1) as usize, 9)
    }
}

/// The steps of the hidden-triple pass on a unit, one for each digit.
pub open spec fn hidden_triple_outer(unit: SliceType, occ: Seq<u16>) -> spec_fn(
    Board,
    usize,
) -> Board {
    |b: Board, i: usize| hidden_triple_from(b, unit, occ, i)
}

/// The hidden-triple pass on one unit. The occurrences are counted once, at the start.
pub open spec fn hidden_triple_unit(b: Board, unit: SliceType) -> Board {
    repeat(b, hidden_triple_outer(unit, occurrences(b, unit)), 0, 9)
}

/// The five passes that work unit by unit.
pub enum UnitPass {
    HiddenSingle,
    NakedPair,
    NakedTriple,
    HiddenPair,
    HiddenTriple,
}

/// What the pass makes of the grid on one unit.
pub open spec fn unit_pass(b: Board, pass: UnitPass, unit: SliceType) -> Board {
    match pass {
        UnitPass::HiddenSingle => hidden_single_unit(b, unit),
        UnitPass::NakedPair => naked_pair_unit(b, unit),
        UnitPass::NakedTriple => naked_triple_unit(b, unit),
        UnitPass::HiddenPair => hidden_pair_unit(b, unit),
        UnitPass::HiddenTriple => hidden_triple_unit(b, unit),
    }
}

/// One round of a pass: block `i`, then column `i`, then row `i`.
pub open spec fn each_unit_step(pass: UnitPass) -> spec_fn(Board, usize) -> Board {
    |b: Board, i: usize|
        unit_pass(
            unit_pass(unit_pass(b, pass, SliceType::Block(i)), pass, SliceType::Col(i)),
            pass,
            SliceType::Row(i),
        )
}

/// A pass over all 27 units.
pub open spec fn each_unit(b: Board, pass: UnitPass) -> Board {
    repeat(b, each_unit_step(pass), 0, 9)
}

/// The digits of `x` that are neither in `y` nor in `z`.
pub open spec fn only(x: u16, y: u16, z: u16) -> u16 {
    x & (x ^ y) & (x ^ z)
}

/// The candidates of the three cells at the slots `3 * chunk ..= 3 * chunk + 2`, together.
pub open spec fn chunk_sum(b: Board, unit: SliceType, chunk: usize) -> u16 {
    slot_bits(b, unit, (chunk * 3) as usize) | slot_bits(b, unit, (chunk * 3 + 1) as usize)
        | slot_bits(b, unit, (chunk * 3 + 2) as usize)
}

/// The candidates of the three cells at the slots `stride`, `stride + 3`, `stride + 6`,
/// together.
pub open spec fn stride_sum(b: Board, unit: SliceType, stride: usize) -> u16 {
    slot_bits(b, unit, stride) | slot_bits(b, unit, (stride + 3) as usize) | slot_bits(
        b,
        unit,
        (stride + 6) as usize,
    )
}

/// One step of `strike_line`.
pub open spec fn strike_line_step(line: SliceType, apart: SliceType, mask: u16) -> spec_fn(
    Board,
    usize,
) -> Board {
    |b: Board, j: usize|
        if apart.holds(line.at(j)) {
            b
        } else {
            struck(b, line.at(j), mask)
        }
}

/// Every cell of `line` that does not lie in `apart` loses `mask` and is asked to settle.
pub open spec fn strike_line(b: Board, line: SliceType, apart: SliceType, mask: u16) -> Board {
    repeat(b, strike_line_step(line, apart, mask), 0, 9)
}

/// Box-line reduction from block `i`: a digit that the block holds in one of its columns only
/// leaves that column outside the block; the same for its rows.
pub open spec fn box_line_block(b: Board, i: usize) -> Board {
    let blk = SliceType::Block(i);
    let c0 = chunk_sum(b, blk, 0);
    let c1 = chunk_sum(b, blk, 1);
    let c2 = chunk_sum(b, blk, 2);
    let r0 = stride_sum(b, blk, 0);
    let r1 = stride_sum(b, blk, 1);
    let r2 = stride_sum(b, blk, 2);
    let b1 = strike_line(b, SliceType::Col(blk.at(0).col), blk, only(c0, c1, c2));
    let b2 = strike_line(b1, SliceType::Col(blk.at(3).col), blk, only(c1, c0, c2));
    let b3 = strike_line(b2, SliceType::Col(blk.at(6).col), blk, only(c2, c0, c1));
    let b4 = strike_line(b3, SliceType::Row(blk.at(0).row), blk, only(r0, r1, r2));
    let b5 = strike_line(b4, SliceType::Row(blk.at(1).row), blk, only(r1, r0, r2));
    strike_line(b5, SliceType::Row(blk.at(2).row), blk, only(r2, r0, r1))
}

/// Box-line reduction from a row or a column: a digit that the line holds in one of its three
/// blocks only leaves the rest of that block.
pub open spec fn box_line_line(b: Board, line: SliceType) -> Board {
    let s0 = chunk_sum(b, line, 0);
    let s1 = chunk_sum(b, line, 1);
    let s2 = chunk_sum(b, line, 2);
    let b1 = strike_line(b, SliceType::Block(line.at(0).block() as usize), line, only(s0, s1, s2));
    let b2 = strike_line(b1, SliceType::Block(line.at(3).block() as usize), line, only(s1, s0, s2));
    strike_line(b2, SliceType::Block(line.at(6).block() as usize), line, only(s2, s0, s1))
}

/// One round of box-line reduction: from block `i`, then from row `i`, then from column `i`.
pub open spec fn box_line_step() -> spec_fn(Board, usize) -> Board {
    |b: Board, i: usize|
        box_line_line(box_line_line(box_line_block(b, i), SliceType::Row(i)), SliceType::Col(i))
}

/// The box-line reduction pass.
pub open spec fn box_line_reduction(b: Board) -> Board {
    repeat(b, box_line_step(), 0, 9)
}

/// The cell on the diagonal of the grid at `t`.
pub open spec fn diagonal(t: usize) -> PuzzleIndex {
    PuzzleIndex { col: t, row: t }
}

/// One step of the x-wing elimination for the lines `i`, `j` and the digit `d`: where slot `t`
/// is one of `slots` and neither `i` nor `j`, the cell on the diagonal at `t` loses `d`.
pub open spec fn x_wing_slot_step(slots: u16, i: usize, j: usize, d: usize) -> spec_fn(
    Board,
    usize,
) -> Board {
    |b: Board, t: usize|
        if holds(slots, t as u16) && t != i && t != j {
            eliminated_at(b, diagonal(t), single(d as u16))
        } else {
            b
        }
}

/// One step of the x-wing pass on two lines: the digit `d`, if it occurred at the same two
/// slots in both.
pub open spec fn x_wing_digit_step(first: Seq<u16>, second: Seq<u16>, i: usize, j: usize)
    -> spec_fn(Board, usize) -> Board {
    |b: Board, d: usize|
        if count(first[d as int]) != 2 || second[d as int] != first[d as int] {
            b
        } else {
            repeat(b, x_wing_slot_step(first[d as int], i, j, d), 0, 9)
        }
}

/// The x-wing pass on the two lines `first` and `second`, which are the rows, or the columns,
/// `i` and `j`. The occurrences are counted once, at the start.
pub open spec fn x_wing_lines(b: Board, first: SliceType, second: SliceType, i: usize, j: usize)
    -> Board {
    repeat(b, x_wing_digit_step(occurrences(b, first), occurrences(b, second), i, j), 0, 9)
}

/// The x-wing pass for `i < j`: on the columns `i` and `j`, then on the rows `i` and `j`.
pub open spec fn x_wing_at(b: Board, i: usize, j: usize) -> Board {
    x_wing_lines(
        x_wing_lines(b, SliceType::Col(i), SliceType::Col(j), i, j),
        SliceType::Row(i),
        SliceType::Row(j),
        i,
        j,
    )
}

/// The steps of the x-wing pass for the lines `i` with a later line.
pub open spec fn x_wing_inner(i: usize) -> spec_fn(Board, usize) -> Board {
    |b: Board, j: usize| x_wing_at(b, i, j)
}

/// The steps of the x-wing pass, one for each line.
pub open spec fn x_wing_outer() -> spec_fn(Board, usize) -> Board {
    |b: Board, i: usize| repeat(b, x_wing_inner(i), (i + 1) as usize, 9)
}

/// The x-wing pass.
pub open spec fn x_wing(b: Board) -> Board {
    repeat(b, x_wing_outer(), 0, 9)
}

/// The cell at `p` can serve the pivot as a pincer: it is open, has two candidates, and
/// shares exactly one of them with the pivot.
pub open spec fn is_pincer(b: Board, pivot: PuzzleIndex, p: PuzzleIndex) -> bool {
    !b[p.flat()].filled() && count(b[p.flat()].bits()) == 2 && count(
        b[p.flat()].bits() & b[pivot.flat()].bits(),
    ) == 1
}

/// Adds to `found` the pincers among the slots `i..9` of a unit that it does not hold yet.
pub open spec fn pincers_in(
    b: Board,
    pivot: PuzzleIndex,
    unit: SliceType,
    i: usize,
    found: Seq<PuzzleIndex>,
) -> Seq<PuzzleIndex>
    decreases 9 - i,
{
    if i >= 9 {
        found
    } else {
        let p = unit.at(i);
        let f = if is_pincer(b, pivot, p) && !found.contains(p) {
            found.push(p)
        } else {
            found
        };
        pincers_in(b, pivot, unit, (i + 1) as usize, f)
    }
}

/// The pincers of a pivot: those of its row, then of its column, then of its block, each
/// listed once.
pub open spec fn pincers(b: Board, pivot: PuzzleIndex) -> Seq<PuzzleIndex> {
    let f1 = pincers_in(b, pivot, SliceType::Row(pivot.row), 0, Seq::empty());
    let f2 = pincers_in(b, pivot, SliceType::Col(pivot.col), 0, f1);
    pincers_in(b, pivot, SliceType::Block(pivot.block() as usize), 0, f2)
}

/// The three cells lie in one row, in one column or in one block.
pub open spec fn same_group(p: PuzzleIndex, q: PuzzleIndex, r: PuzzleIndex) -> bool {
    (p.row == q.row && p.row == r.row) || (p.col == q.col && p.col == r.col) || (p.block()
        == q.block() && p.block() == r.block())
}

/// One step of the xy-wing elimination in a block: the cell at slot `k`, unless it is one of
/// the two pincers, loses `common` if it lies in the column or the row of `other`.
pub open spec fn wing_block_step(
    blk: SliceType,
    i: PuzzleIndex,
    j: PuzzleIndex,
    other: PuzzleIndex,
    common: u16,
) -> spec_fn(Board, usize) -> Board {
    |b: Board, k: usize|
        {
            let p = blk.at(k);
            if p == i || p == j || (p.col != other.col && p.row != other.row) {
                b
            } else {
                eliminated_at(b, p, common)
            }
        }
}

/// The xy-wing pass for a pivot and two of its pincers.
pub open spec fn xy_wing_at(b: Board, pivot: PuzzleIndex, i: PuzzleIndex, j: PuzzleIndex) -> Board {
    let bp = b[pivot.flat()].bits();
    let bi = b[i.flat()].bits();
    let bj = b[j.flat()].bits();
    if !same_group(pivot, i, j) && count(bi | bj | bp) == 3 && (bi & bp) != (bj & bp) {
        let common = bi & bj;
        let b1 = eliminated_at(b, PuzzleIndex { col: i.col, row: j.row }, common);
        let b2 = eliminated_at(b1, PuzzleIndex { col: j.col, row: i.row }, common);
        let b3 = repeat(
            b2,
            wing_block_step(SliceType::Block(i.block() as usize), i, j, j, common),
            0,
            9,
        );
        repeat(b3, wing_block_step(SliceType::Block(j.block() as usize), i, j, i, common), 0, 9)
    } else {
        b
    }
}

/// The steps of the xy-wing pass for a pivot and its pincer `a` with a later pincer.
pub open spec fn xy_wing_inner(pivot: PuzzleIndex, found: Seq<PuzzleIndex>, a: usize) -> spec_fn(
    Board,
    usize,
) -> Board {
    |b: Board, c: usize| xy_wing_at(b, pivot, found[a as int], found[c as int])
}

/// The steps of the xy-wing pass for a pivot, one for each of its pincers.
pub open spec fn xy_wing_outer(pivot: PuzzleIndex, found: Seq<PuzzleIndex>) -> spec_fn(
    Board,
    usize,
) -> Board {
    |b: Board, a: usize|
        repeat(b, xy_wing_inner(pivot, found, a), (a + 1) as usize, found.len() as usize)
}

/// One step of the xy-wing pass: the cell that stands at `k` as pivot, if it has two
/// candidates, with every pair of its pincers. The pincers are listed once, at the start.
pub open spec fn xy_wing_step() -> spec_fn(Board, usize) -> Board {
    |b: Board, k: usize|
        if count(b[k as int].bits()) != 2 {
            b
        } else {
            let found = pincers(b, pos_of(k as int));
            repeat(b, xy_wing_outer(pos_of(k as int), found), 0, found.len() as usize)
        }
}

/// The xy-wing pass.
pub open spec fn xy_wing(b: Board) -> Board {
    repeat(b, xy_wing_step(), 0, 81)
}

/// The eight passes that follow the naked-single pass in a round, in their fixed order.
pub open spec fn later_passes(b: Board) -> Board {
    let b2 = each_unit(b, UnitPass::HiddenSingle);
    let b3 = box_line_reduction(b2);
    let b4 = each_unit(b3, UnitPass::NakedPair);
    let b5 = each_unit(b4, UnitPass::NakedTriple);
    let b6 = each_unit(b5, UnitPass::HiddenPair);
    let b7 = each_unit(b6, UnitPass::HiddenTriple);
    let b8 = x_wing(b7);
    xy_wing(b8)
}

/// One round of deduction: the nine passes, each once, in their fixed order.
pub open spec fn solved_once(b: Board) -> Board {
    later_passes(naked_single(b))
}

} // verus!
