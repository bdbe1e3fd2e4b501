//! What holds of writing a value, of one round of deduction, and of a grid that was seeded
//! from a puzzle with a solution.

use super::cascade::{all_filled, lemma_drain, lemma_sweep_advances, lemma_sweep_cells};
use super::lines::{lemma_keeps_box_line_reduction, lemma_keeps_x_wing};
use super::model::{
    cell_advances, compatible, is_solution, keeps, lemma_blank, lemma_flat, lemma_keeps_trans,
    settled, value_at,
};
use super::techniques::{
    lemma_differ, lemma_keeps_each_unit, lemma_keeps_naked_single, lemma_placed, lemma_slot_allows,
};
use super::wings::{lemma_keeps_xy_wing, lemma_masked};
use crate::bits::{
    FULL_MASK, holds, lemma_holds_ops, lemma_holds_single, lemma_is_mask, lemma_mask_ext, single,
};
use crate::cell::_Cell;
use crate::puzzle::board::{
    all_on_grid, blank, Board, board_wf, drain, filled_at, lemma_stacked, lemma_sweep, lemma_swept,
    stacked, sweep, swept,
};
use crate::puzzle::passes::{
    box_line_reduction, each_unit, later_passes, naked_single, slot_bits, slot_filled, solved_once,
    UnitPass, x_wing, xy_wing,
};
use crate::puzzle::PuzzleIndex;
use crate::puzzle::slice_type::{lemma_slot, lemma_unit_sees, SliceType};
use crate::puzzle::validity::{
    clash_below, filled_sum, lemma_filled_sum, lemma_open_sum, open_sum, unit_valid, valid,
};
use vstd::prelude::*;

verus! {

/// The passes that follow the naked-single pass keep the grid.
pub proof fn lemma_keeps_later_passes(b: Board)
    requires
        board_wf(b),
    ensures
        keeps(b, later_passes(b)),
{
    let b2 = each_unit(b, UnitPass::HiddenSingle);
    let b3 = box_line_reduction(b2);
    let b4 = each_unit(b3, UnitPass::NakedPair);
    let b5 = each_unit(b4, UnitPass::NakedTriple);
    let b6 = each_unit(b5, UnitPass::HiddenPair);
    let b7 = each_unit(b6, UnitPass::HiddenTriple);
    let b8 = x_wing(b7);
    let b9 = xy_wing(b8);
    lemma_keeps_each_unit(b, UnitPass::HiddenSingle);
    lemma_keeps_box_line_reduction(b2);
    lemma_keeps_trans(b, b2, b3);
    lemma_keeps_each_unit(b3, UnitPass::NakedPair);
    lemma_keeps_trans(b, b3, b4);
    lemma_keeps_each_unit(b4, UnitPass::NakedTriple);
    lemma_keeps_trans(b, b4, b5);
    lemma_keeps_each_unit(b5, UnitPass::HiddenPair);
    lemma_keeps_trans(b, b5, b6);
    lemma_keeps_each_unit(b6, UnitPass::HiddenTriple);
    lemma_keeps_trans(b, b6, b7);
    lemma_keeps_x_wing(b7);
    lemma_keeps_trans(b, b7, b8);
    lemma_keeps_xy_wing(b8);
    lemma_keeps_trans(b, b8, b9);
}

/// One round of deduction keeps the grid: it stays valid, every cell moves on, no solution
/// is lost, and a settled grid stays settled.
pub proof fn lemma_keeps_solved_once(b: Board)
    requires
        board_wf(b),
    ensures
        keeps(b, solved_once(b)),
{
    lemma_keeps_naked_single(b);
    lemma_keeps_later_passes(naked_single(b));
    lemma_keeps_trans(b, naked_single(b), solved_once(b));
}

/// Writing a value to a cell keeps the grid valid and leaves every fixed cell as it was. A
/// settled grid stays settled, and a solution that the grid admits and that has this value
/// at this cell is still admitted.
pub proof fn lemma_filled_at(b: Board, p: PuzzleIndex, v: u8)
    requires
        board_wf(b),
        p.wf(),
        1 <= v <= 9,
    ensures
        board_wf(filled_at(b, p, v)),
        forall|k: int| 0 <= k < 81 && b[k].filled() ==> #[trigger] filled_at(b, p, v)[k] == b[k],
        !b[p.flat()].filled() ==> filled_at(b, p, v)[p.flat()] == _Cell::Filled(v),
        settled(b) ==> settled(filled_at(b, p, v)),
        forall|s: Seq<u8>|
            #[trigger] is_solution(s) && compatible(b, s) && value_at(s, p) == v ==> compatible(
                filled_at(b, p, v),
                s,
            ),
{
    lemma_flat(p);
    if !b[p.flat()].filled() {
        let c = _Cell::Filled(v);
        let b1 = b.update(p.flat(), c);
        let stack = seq![p];
        assert(all_on_grid(stack));
        assert(all_filled(b1, stack));
        lemma_drain(b1, stack);
        let r = drain(b1, stack);
        assert(r == filled_at(b, p, v));
        assert forall|k: int| 0 <= k < 81 && b[k].filled() implies #[trigger] r[k] == b[k] by {
            assert(cell_advances(b1[k], r[k]));
        }
        assert(cell_advances(b1[p.flat()], r[p.flat()]));
        lemma_holds_single();
        assert forall|s: Seq<u8>|
            #[trigger] is_solution(s) && compatible(b, s) && value_at(s, p) == v implies compatible(
            r,
            s,
        ) by {
            assert forall|k: int| 0 <= k < 81 implies (#[trigger] b1[k]).allows(s[k] as int) by {
                assert(b[k].allows(s[k] as int));
            }
            assert(compatible(b1, s));
        }
        if settled(b) {
            assert forall|x: PuzzleIndex, y: PuzzleIndex|
                x.wf() && y.wf() && #[trigger] x.sees(y) && b1[x.flat()].filled() && !b1[y.flat()].filled()
                    && !stack.contains(x) implies b1[y.flat()].bits() & b1[x.flat()].bits()
                == 0 by {
                lemma_flat(x);
                lemma_flat(y);
                assert(stack[0] == p);
                assert(x != p);
                assert(b[y.flat()].bits() & b[x.flat()].bits() == 0);
            }
        }
    }
}

/// After a value was written to an open cell, no cell that it sees has the value among its
/// candidates, but one that was fixed before and is as it was.
#[verifier::rlimit(40)]
pub proof fn lemma_fill_clears(b: Board, p: PuzzleIndex, v: u8, q: PuzzleIndex)
    requires
        board_wf(b),
        p.wf(),
        q.wf(),
        1 <= v <= 9,
        !b[p.flat()].filled(),
        p.sees(q),
    ensures
        filled_at(b, p, v)[p.flat()] == _Cell::Filled(v),
        (b[q.flat()].filled() && filled_at(b, p, v)[q.flat()] == b[q.flat()]) || !filled_at(
            b,
            p,
            v,
        )[q.flat()].allows(v as int),
{
    lemma_flat(p);
    lemma_flat(q);
    let c = _Cell::Filled(v);
    let b1 = b.update(p.flat(), c);
    let stack = seq![p];
    let (b2, found) = sweep(b1, p);
    let next = stacked(stack.drop_last(), found, found.len() as int);
    assert(all_on_grid(stack));
    assert(all_filled(b1, stack));
    assert(stack.last() == p);
    let r = drain(b1, stack);
    assert(r == filled_at(b, p, v));
    assert(r == drain(b2, next));
    lemma_sweep(b1, p);
    lemma_sweep_cells(b1, p);
    lemma_sweep_advances(b1, p);
    lemma_stacked(stack.drop_last(), found, found.len() as int);
    super::cascade::lemma_drain_step(b1, stack);
    lemma_drain(b2, next);
    let bit = single((v - 1) as u16);
    assert(b1[p.flat()].bits() == bit);
    assert(b2[q.flat()] == swept(b[q.flat()], bit)) by {
        super::model::lemma_pos_of(q.flat());
    }
    assert(cell_advances(b2[q.flat()], r[q.flat()]));
    assert(cell_advances(b1[p.flat()], b2[p.flat()]));
    assert(cell_advances(b2[p.flat()], r[p.flat()]));
    lemma_swept(b[q.flat()], bit);
    if !b[q.flat()].filled() {
        let m = b[q.flat()]->Unfilled_0;
        assert((m & !bit) & bit == 0) by (bit_vector);
        super::cascade::lemma_disjoint_subset(r[q.flat()].bits(), b2[q.flat()].bits(), bit);
        lemma_holds_ops();
        lemma_holds_single();
        assert(holds(r[q.flat()].bits() & bit, (v - 1) as u16) == (holds(
            r[q.flat()].bits(),
            (v - 1) as u16,
        ) && holds(bit, (v - 1) as u16)));
    }
}

/// A valid and settled grid that admits a solution meets the three rules in every unit.
pub proof fn lemma_valid(b: Board, s: Seq<u8>)
    requires
        board_wf(b),
        settled(b),
        is_solution(s),
        compatible(b, s),
    ensures
        valid(b),
{
    assert forall|unit: SliceType| unit.wf() implies #[trigger] unit_valid(b, unit) by {
        lemma_unit_valid(b, s, unit);
    }
}

/// A unit of a valid and settled grid that admits a solution meets the three rules.
#[verifier::rlimit(40)]
proof fn lemma_unit_valid(b: Board, s: Seq<u8>, unit: SliceType)
    requires
        board_wf(b),
        settled(b),
        is_solution(s),
        compatible(b, s),
        unit.wf(),
    ensures
        unit_valid(b, unit),
{
    lemma_holds_ops();
    lemma_holds_single();
    lemma_filled_sum(b, unit, 9);
    lemma_open_sum(b, unit, 9);
    let fs = filled_sum(b, unit, 9);
    let os = open_sum(b, unit, 9);
    // no two fixed cells with one value
    if clash_below(b, unit, 9) {
        let (i, j) = choose|i: usize, j: usize|
            i < j < 9 && #[trigger] slot_filled(b, unit, i) && #[trigger] slot_filled(b, unit, j)
                && slot_bits(b, unit, i) == slot_bits(b, unit, j);
        lemma_slot_allows(b, s, unit, i);
        lemma_slot_allows(b, s, unit, j);
        lemma_differ(s, unit, i, j);
        lemma_slot(unit, i);
        lemma_slot(unit, j);
        lemma_flat(unit.at(i));
        lemma_flat(unit.at(j));
        assert(false);
    }
    // every value is a candidate somewhere, and nothing else is
    assert forall|d: u16| d < 16 implies holds(fs | os, d) == holds(FULL_MASK, d) by {
        if d < 9 {
            let t = lemma_placed(b, s, unit, d);
            if slot_filled(b, unit, t) {
                assert(holds(fs, d));
            } else {
                assert(holds(os, d));
            }
        } else {
            if holds(fs, d) {
                let i = choose|i: usize|
                    i < 9 && #[trigger] slot_filled(b, unit, i) && holds(slot_bits(b, unit, i), d);
                lemma_slot(unit, i);
                lemma_flat(unit.at(i));
                lemma_masked(b[unit.at(i).flat()]);
                lemma_is_mask(slot_bits(b, unit, i));
            }
            if holds(os, d) {
                let i = choose|i: usize|
                    i < 9 && !#[trigger] slot_filled(b, unit, i) && holds(slot_bits(b, unit, i), d);
                lemma_slot(unit, i);
                lemma_flat(unit.at(i));
                lemma_masked(b[unit.at(i).flat()]);
                lemma_is_mask(slot_bits(b, unit, i));
            }
        }
    }
    lemma_mask_ext(fs | os, FULL_MASK);
    // no value of a fixed cell is a candidate of an open one
    assert forall|d: u16| d < 16 implies holds(fs & os, d) == holds(0, d) by {
        if holds(fs, d) && holds(os, d) {
            let i = choose|i: usize|
                i < 9 && #[trigger] slot_filled(b, unit, i) && holds(slot_bits(b, unit, i), d);
            let j = choose|j: usize|
                j < 9 && !#[trigger] slot_filled(b, unit, j) && holds(slot_bits(b, unit, j), d);
            lemma_slot(unit, i);
            lemma_slot(unit, j);
            lemma_unit_sees(unit, i, j);
            assert(unit.at(i).sees(unit.at(j)));
            let m = slot_bits(b, unit, j) & slot_bits(b, unit, i);
            assert(m == 0);
            assert(holds(m, d));
        }
    }
    lemma_mask_ext(fs & os, 0);
}

/// The grid after the clues from `n` on were written to it, in turn.
pub open spec fn seeded_from(b: Board, clues: Seq<(PuzzleIndex, u8)>, n: int) -> Board
    decreases clues.len() - n,
{
    if n < 0 || n >= clues.len() {
        b
    } else {
        seeded_from(filled_at(b, clues[n].0, clues[n].1), clues, n + 1)
    }
}

/// The grid after `n` rounds of deduction.
pub open spec fn solved(b: Board, n: nat) -> Board
    decreases n,
{
    if n == 0 {
        b
    } else {
        solved(solved_once(b), (n - 1) as nat)
    }
}

/// Every clue names a cell of the grid and the value that the assignment gives it.
pub open spec fn clues_of(clues: Seq<(PuzzleIndex, u8)>, s: Seq<u8>) -> bool {
    forall|n: int|
        0 <= n < clues.len() ==> (#[trigger] clues[n]).0.wf() && value_at(s, clues[n].0)
            == clues[n].1
}

/// Writing clues of a solution to a grid that is valid and settled and admits the solution
/// leaves it so.
pub proof fn lemma_seeded(b: Board, clues: Seq<(PuzzleIndex, u8)>, n: int, s: Seq<u8>)
    requires
        board_wf(b),
        settled(b),
        is_solution(s),
        compatible(b, s),
        clues_of(clues, s),
        0 <= n,
    ensures
        board_wf(seeded_from(b, clues, n)),
        settled(seeded_from(b, clues, n)),
        compatible(seeded_from(b, clues, n), s),
    decreases clues.len() - n,
{
    if n < clues.len() {
        let p = clues[n].0;
        lemma_flat(p);
        assert(1 <= s[p.flat()] <= 9);
        lemma_filled_at(b, p, clues[n].1);
        lemma_seeded(filled_at(b, p, clues[n].1), clues, n + 1, s);
    }
}

/// Rounds of deduction leave a grid that is valid and settled and admits a solution so.
pub proof fn lemma_solved(b: Board, n: nat, s: Seq<u8>)
    requires
        board_wf(b),
        settled(b),
        is_solution(s),
        compatible(b, s),
    ensures
        board_wf(solved(b, n)),
        settled(solved(b, n)),
        compatible(solved(b, n), s),
    decreases n,
{
    if n > 0 {
        lemma_keeps_solved_once(b);
        lemma_solved(solved_once(b), (n - 1) as nat, s);
    }
}

/// A grid that was seeded with clues of a solved grid, and on which any number of rounds of
/// deduction was made, meets the three rules in every unit.
pub proof fn lemma_seeded_solved_valid(clues: Seq<(PuzzleIndex, u8)>, s: Seq<u8>, n: nat)
    requires
        is_solution(s),
        clues_of(clues, s),
    ensures
        valid(solved(seeded_from(blank(), clues, 0), n)),
{
    lemma_blank();
    lemma_seeded(blank(), clues, 0, s);
    let b = seeded_from(blank(), clues, 0);
    lemma_solved(b, n, s);
    lemma_valid(solved(b, n), s);
}

} // verus!
