//! The blank grid: no pass finds anything to do on it.

use super::fixed_point::{calm, lemma_naked_single_rests};
use super::model::{lemma_blank, lemma_flat, lemma_pos_of};
use super::steps::lemma_repeat;
use crate::bits::{count, FULL_MASK, holds, lemma_holds_ops, lemma_mask_ext};
use crate::cell::_Cell;
use crate::puzzle::board::{blank, Board, pos_of};
use crate::puzzle::passes::{
    box_line_block, box_line_line, box_line_reduction, box_line_step, chunk_sum, each_unit,
    each_unit_step, hidden_pair_inner, hidden_pair_outer, hidden_single_step, hidden_triple_outer,
    lemma_occurs_below, naked_pair_inner, naked_pair_outer, naked_single, naked_triple_inner,
    naked_triple_middle, naked_triple_outer, occurrences, only, slot_bits, solved_once, stride_sum,
    strike_line, strike_line_step, unit_pass, UnitPass, x_wing, x_wing_digit_step, x_wing_inner,
    x_wing_lines, x_wing_outer, xy_wing, xy_wing_step,
};
use crate::puzzle::PuzzleIndex;
use crate::puzzle::slice_type::{lemma_slot, SliceType};
use vstd::prelude::*;

verus! {

/// Every cell of the blank grid is open with all nine candidates.
proof fn lemma_blank_cell(p: PuzzleIndex)
    requires
        p.wf(),
    ensures
        blank()[p.flat()] == _Cell::Unfilled(FULL_MASK),
        count(FULL_MASK) == 9,
{
    lemma_flat(p);
    lemma_holds_ops();
}

/// In a unit of the blank grid every digit occurs at all nine slots.
proof fn lemma_blank_occurrences(unit: SliceType, d: usize)
    requires
        unit.wf(),
        d < 9,
    ensures
        occurrences(blank(), unit)[d as int] == FULL_MASK,
        forall|i: usize| i < 9 ==> #[trigger] slot_bits(blank(), unit, i) == FULL_MASK,
{
    lemma_holds_ops();
    lemma_occurs_below(blank(), unit, d as u16, 9);
    let m = occurrences(blank(), unit)[d as int];
    assert forall|i: usize| i < 9 implies #[trigger] slot_bits(blank(), unit, i) == FULL_MASK by {
        lemma_slot(unit, i);
        lemma_blank_cell(unit.at(i));
    }
    assert forall|i: u16| i < 16 implies holds(m, i) == holds(FULL_MASK, i) by {
        if i < 9 {
            assert(slot_bits(blank(), unit, i as usize) == FULL_MASK);
        }
    }
    lemma_mask_ext(m, FULL_MASK);
}

/// The pass on a unit leaves the blank grid as it is, whichever of the five it is.
#[verifier::rlimit(40)]
proof fn lemma_blank_unit_pass(pass: UnitPass, unit: SliceType)
    requires
        unit.wf(),
    ensures
        unit_pass(blank(), pass, unit) == blank(),
{
    let b = blank();
    let same = |x: Board| x == b;
    lemma_holds_ops();
    lemma_blank_occurrences(unit, 0);
    let occ = occurrences(b, unit);
    assert forall|d: usize| d < 9 implies count(#[trigger] occ[d as int]) == 9 by {
        lemma_blank_occurrences(unit, d);
    }
    assert forall|i: usize| i < 9 implies !#[trigger] b[unit.at(i).flat()].filled() by {
        lemma_slot(unit, i);
        lemma_blank_cell(unit.at(i));
    }
    assert(FULL_MASK | FULL_MASK == FULL_MASK) by (bit_vector);
    match pass {
        UnitPass::HiddenSingle => {
            let step = hidden_single_step(unit, occ);
            assert forall|x: Board, d: usize| 0 <= d < 9 && same(x) implies same(
                #[trigger] step(x, d),
            ) by {
                assert(count(occ[d as int]) == 9);
            }
            lemma_repeat(same, b, step, 0, 9);
        },
        UnitPass::NakedPair => {
            let outer = naked_pair_outer(unit);
            assert forall|x: Board, i: usize| 0 <= i < 9 && same(x) implies same(
                #[trigger] outer(x, i),
            ) by {
                let inner = naked_pair_inner(unit, i);
                assert forall|y: Board, j: usize| i + 1 <= j < 9 && same(y) implies same(
                    #[trigger] inner(y, j),
                ) by {
                    assert(slot_bits(b, unit, i) == FULL_MASK);
                    assert(slot_bits(b, unit, j) == FULL_MASK);
                }
                lemma_repeat(same, x, inner, (i + 1) as usize, 9);
            }
            lemma_repeat(same, b, outer, 0, 9);
        },
        UnitPass::NakedTriple => {
            let outer = naked_triple_outer(unit);
            assert forall|x: Board, i: usize| 0 <= i < 9 && same(x) implies same(
                #[trigger] outer(x, i),
            ) by {
                let middle = naked_triple_middle(unit, i);
                assert forall|y: Board, j: usize| i + 1 <= j < 9 && same(y) implies same(
                    #[trigger] middle(y, j),
                ) by {
                    let inner = naked_triple_inner(unit, i, j);
                    assert forall|z: Board, k: usize| j + 1 <= k < 9 && same(z) implies same(
                        #[trigger] inner(z, k),
                    ) by {
                        assert(slot_bits(b, unit, i) == FULL_MASK);
                        assert(slot_bits(b, unit, j) == FULL_MASK);
                        assert(slot_bits(b, unit, k) == FULL_MASK);
                    }
                    lemma_repeat(same, y, inner, (j + 1) as usize, 9);
                }
                lemma_repeat(same, x, middle, (i + 1) as usize, 9);
            }
            lemma_repeat(same, b, outer, 0, 9);
        },
        UnitPass::HiddenPair => {
            let outer = hidden_pair_outer(unit, occ);
            assert forall|x: Board, i: usize| 0 <= i < 9 && same(x) implies same(
                #[trigger] outer(x, i),
            ) by {
                let inner = hidden_pair_inner(unit, occ, i);
                assert forall|y: Board, j: usize| i + 1 <= j < 9 && same(y) implies same(
                    #[trigger] inner(y, j),
                ) by {
                    assert(count(occ[i as int]) == 9);
                }
                lemma_repeat(same, x, inner, (i + 1) as usize, 9);
            }
            lemma_repeat(same, b, outer, 0, 9);
        },
        UnitPass::HiddenTriple => {
            let outer = hidden_triple_outer(unit, occ);
            assert forall|x: Board, i: usize| 0 <= i < 9 && same(x) implies same(
                #[trigger] outer(x, i),
            ) by {
                assert(count(occ[i as int]) == 9);
            }
            lemma_repeat(same, b, outer, 0, 9);
        },
    }
}

/// A pass over the 27 units leaves the blank grid as it is.
proof fn lemma_blank_each_unit(pass: UnitPass)
    ensures
        each_unit(blank(), pass) == blank(),
{
    let b = blank();
    let same = |x: Board| x == b;
    let step = each_unit_step(pass);
    assert forall|x: Board, i: usize| 0 <= i < 9 && same(x) implies same(#[trigger] step(x, i)) by {
        lemma_blank_unit_pass(pass, SliceType::Block(i));
        lemma_blank_unit_pass(pass, SliceType::Col(i));
        lemma_blank_unit_pass(pass, SliceType::Row(i));
    }
    lemma_repeat(same, b, step, 0, 9);
}

/// Striking nothing from a line leaves the blank grid as it is.
proof fn lemma_blank_strike_line(line: SliceType, apart: SliceType)
    requires
        line.wf(),
    ensures
        strike_line(blank(), line, apart, 0) == blank(),
{
    let b = blank();
    let same = |x: Board| x == b;
    let step = strike_line_step(line, apart, 0);
    assert forall|x: Board, j: usize| 0 <= j < 9 && same(x) implies same(#[trigger] step(x, j)) by {
        lemma_slot(line, j);
        let p = line.at(j);
        lemma_blank_cell(p);
        assert(FULL_MASK & !0u16 == FULL_MASK) by (bit_vector);
        assert(b.update(p.flat(), b[p.flat()].eliminated(0)) =~= b);
    }
    lemma_repeat(same, b, step, 0, 9);
}

/// Box-line reduction leaves the blank grid as it is.
#[verifier::rlimit(40)]
proof fn lemma_blank_box_line()
    ensures
        box_line_reduction(blank()) == blank(),
{
    let b = blank();
    let same = |x: Board| x == b;
    let step = box_line_step();
    assert(only(FULL_MASK, FULL_MASK, FULL_MASK) == 0) by (bit_vector);
    assert(FULL_MASK | FULL_MASK | FULL_MASK == FULL_MASK) by (bit_vector);
    assert forall|x: Board, i: usize| 0 <= i < 9 && same(x) implies same(#[trigger] step(x, i)) by {
        let blk = SliceType::Block(i);
        let row = SliceType::Row(i);
        let col = SliceType::Col(i);
        lemma_blank_occurrences(blk, 0);
        lemma_blank_occurrences(row, 0);
        lemma_blank_occurrences(col, 0);
        assert forall|c: usize| c < 3 implies chunk_sum(b, blk, c) == FULL_MASK && stride_sum(
            b,
            blk,
            c,
        ) == FULL_MASK && chunk_sum(b, row, c) == FULL_MASK && chunk_sum(b, col, c)
            == FULL_MASK by {
            assert(slot_bits(b, blk, (c * 3) as usize) == FULL_MASK);
            assert(slot_bits(b, blk, (c * 3 + 1) as usize) == FULL_MASK);
            assert(slot_bits(b, blk, (c * 3 + 2) as usize) == FULL_MASK);
            assert(slot_bits(b, blk, c) == FULL_MASK);
            assert(slot_bits(b, blk, (c + 3) as usize) == FULL_MASK);
            assert(slot_bits(b, blk, (c + 6) as usize) == FULL_MASK);
            assert(slot_bits(b, row, (c * 3) as usize) == FULL_MASK);
            assert(slot_bits(b, row, (c * 3 + 1) as usize) == FULL_MASK);
            assert(slot_bits(b, row, (c * 3 + 2) as usize) == FULL_MASK);
            assert(slot_bits(b, col, (c * 3) as usize) == FULL_MASK);
            assert(slot_bits(b, col, (c * 3 + 1) as usize) == FULL_MASK);
            assert(slot_bits(b, col, (c * 3 + 2) as usize) == FULL_MASK);
        }
        assert(chunk_sum(b, blk, 0) == FULL_MASK && chunk_sum(b, blk, 1) == FULL_MASK
            && chunk_sum(b, blk, 2) == FULL_MASK);
        assert(stride_sum(b, blk, 0) == FULL_MASK && stride_sum(b, blk, 1) == FULL_MASK
            && stride_sum(b, blk, 2) == FULL_MASK);
        assert(chunk_sum(b, row, 0) == FULL_MASK && chunk_sum(b, row, 1) == FULL_MASK
            && chunk_sum(b, row, 2) == FULL_MASK);
        assert(chunk_sum(b, col, 0) == FULL_MASK && chunk_sum(b, col, 1) == FULL_MASK
            && chunk_sum(b, col, 2) == FULL_MASK);
        lemma_slot(blk, 0);
        lemma_slot(blk, 1);
        lemma_slot(blk, 2);
        lemma_slot(blk, 3);
        lemma_slot(blk, 6);
        lemma_blank_strike_line(SliceType::Col(blk.at(0).col), blk);
        lemma_blank_strike_line(SliceType::Col(blk.at(3).col), blk);
        lemma_blank_strike_line(SliceType::Col(blk.at(6).col), blk);
        lemma_blank_strike_line(SliceType::Row(blk.at(0).row), blk);
        lemma_blank_strike_line(SliceType::Row(blk.at(1).row), blk);
        lemma_blank_strike_line(SliceType::Row(blk.at(2).row), blk);
        assert(box_line_block(b, i) == b);
        lemma_slot(row, 0);
        lemma_slot(row, 3);
        lemma_slot(row, 6);
        lemma_blank_strike_line(SliceType::Block(row.at(0).block() as usize), row);
        lemma_blank_strike_line(SliceType::Block(row.at(3).block() as usize), row);
        lemma_blank_strike_line(SliceType::Block(row.at(6).block() as usize), row);
        assert(box_line_line(b, row) == b);
        lemma_slot(col, 0);
        lemma_slot(col, 3);
        lemma_slot(col, 6);
        lemma_blank_strike_line(SliceType::Block(col.at(0).block() as usize), col);
        lemma_blank_strike_line(SliceType::Block(col.at(3).block() as usize), col);
        lemma_blank_strike_line(SliceType::Block(col.at(6).block() as usize), col);
        assert(box_line_line(b, col) == b);
    }
    lemma_repeat(same, b, step, 0, 9);
}

/// The x-wing pass leaves the blank grid as it is.
proof fn lemma_blank_x_wing()
    ensures
        x_wing(blank()) == blank(),
{
    let b = blank();
    let same = |x: Board| x == b;
    let outer = x_wing_outer();
    lemma_holds_ops();
    assert forall|x: Board, i: usize| 0 <= i < 9 && same(x) implies same(#[trigger] outer(x, i)) by {
        let inner = x_wing_inner(i);
        assert forall|y: Board, j: usize| i + 1 <= j < 9 && same(y) implies same(
            #[trigger] inner(y, j),
        ) by {
            lemma_blank_lines(SliceType::Col(i), SliceType::Col(j), i, j);
            lemma_blank_lines(SliceType::Row(i), SliceType::Row(j), i, j);
        }
        lemma_repeat(same, x, inner, (i + 1) as usize, 9);
    }
    lemma_repeat(same, b, outer, 0, 9);
}

/// The x-wing pass on two lines leaves the blank grid as it is.
proof fn lemma_blank_lines(first: SliceType, second: SliceType, i: usize, j: usize)
    requires
        first.wf(),
        second.wf(),
    ensures
        x_wing_lines(blank(), first, second, i, j) == blank(),
{
    let b = blank();
    let same = |x: Board| x == b;
    let occ1 = occurrences(b, first);
    let occ2 = occurrences(b, second);
    let step = x_wing_digit_step(occ1, occ2, i, j);
    lemma_holds_ops();
    assert forall|x: Board, d: usize| 0 <= d < 9 && same(x) implies same(#[trigger] step(x, d)) by {
        lemma_blank_occurrences(first, d);
        assert(count(occ1[d as int]) == 9);
    }
    lemma_repeat(same, b, step, 0, 9);
}

/// The xy-wing pass leaves the blank grid as it is.
proof fn lemma_blank_xy_wing()
    ensures
        xy_wing(blank()) == blank(),
{
    let b = blank();
    let same = |x: Board| x == b;
    let step = xy_wing_step();
    lemma_holds_ops();
    assert forall|x: Board, k: usize| 0 <= k < 81 && same(x) implies same(#[trigger] step(x, k)) by {
        lemma_pos_of(k as int);
        lemma_blank_cell(pos_of(k as int));
    }
    lemma_repeat(same, b, step, 0, 81);
}

/// On the blank grid no pass changes anything, and so a round of deduction changes nothing.
pub proof fn lemma_blank_at_rest()
    ensures
        naked_single(blank()) == blank(),
        forall|pass: UnitPass| #[trigger] each_unit(blank(), pass) == blank(),
        box_line_reduction(blank()) == blank(),
        x_wing(blank()) == blank(),
        xy_wing(blank()) == blank(),
        solved_once(blank()) == blank(),
{
    let b = blank();
    lemma_blank();
    lemma_holds_ops();
    assert forall|k: int| 0 <= k < 81 implies calm(#[trigger] b[k]) by {
        lemma_pos_of(k);
        lemma_blank_cell(pos_of(k));
    }
    lemma_naked_single_rests(b);
    assert forall|pass: UnitPass| #[trigger] each_unit(blank(), pass) == blank() by {
        lemma_blank_each_unit(pass);
    }
    lemma_blank_each_unit(UnitPass::HiddenSingle);
    lemma_blank_box_line();
    lemma_blank_each_unit(UnitPass::NakedPair);
    lemma_blank_each_unit(UnitPass::NakedTriple);
    lemma_blank_each_unit(UnitPass::HiddenPair);
    lemma_blank_each_unit(UnitPass::HiddenTriple);
    lemma_blank_x_wing();
    lemma_blank_xy_wing();
}

} // verus!
