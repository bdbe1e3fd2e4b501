//! A round of deduction that leaves every mask as it was leaves the grid at rest.

use super::cascade::lemma_sweep_cells;
use super::model::{advances, cell_advances, lemma_flat, lemma_pos_of};
use super::solving::lemma_keeps_later_passes;
use super::steps::lemma_repeat;
use super::techniques::lemma_keeps_naked_single;
use crate::bits::{count, lemma_count_one, lemma_single_count};
use crate::cell::_Cell;
use crate::puzzle::board::{
    all_on_grid, Board, board_wf, determined_at, drain, lemma_stacked, lemma_sweep, open_cells,
    pos_of, stacked, sweep, swept,
};
use crate::puzzle::hash::{hash_of, lemma_hash_unique, same_masks};
use crate::puzzle::passes::{later_passes, naked_single, naked_single_step, repeat, solved_once};
use crate::puzzle::PuzzleIndex;
use vstd::prelude::*;

verus! {

/// The cell is fixed, or it is open and does not have exactly one candidate.
pub open spec fn calm(c: _Cell) -> bool {
    c.filled() || count(c.bits()) != 1
}

/// No open cell of the grid has exactly one candidate.
pub open spec fn all_calm(b: Board) -> bool {
    forall|k: int| 0 <= k < 81 ==> calm(#[trigger] b[k])
}

/// A swept cell is calm.
proof fn lemma_swept_calm(c: _Cell, bit: u16)
    requires
        c.wf(),
    ensures
        calm(swept(c, bit)),
{
}

/// The working off of a stack leaves a calm cell calm.
proof fn lemma_drain_calm(b: Board, stack: Seq<PuzzleIndex>, k: int)
    requires
        board_wf(b),
        all_on_grid(stack),
        0 <= k < 81,
        calm(b[k]),
    ensures
        calm(drain(b, stack)[k]),
    decreases open_cells(b) + stack.len(),
{
    if stack.len() > 0 {
        let top = stack.last();
        let rest = stack.drop_last();
        let (b1, found) = sweep(b, top);
        lemma_sweep(b, top);
        lemma_sweep_cells(b, top);
        lemma_stacked(rest, found, found.len() as int);
        lemma_swept_calm(b[k], b[top.flat()].bits());
        assert(all_on_grid(rest));
        lemma_drain_calm(b1, stacked(rest, found, found.len() as int), k);
    }
}

/// Asking a cell to settle leaves it calm, and leaves every calm cell calm.
proof fn lemma_determined_calm(b: Board, p: PuzzleIndex, k: int)
    requires
        board_wf(b),
        p.wf(),
        0 <= k < 81,
        k == p.flat() || calm(b[k]),
    ensures
        calm(determined_at(b, p)[k]),
        board_wf(determined_at(b, p)),
{
    lemma_flat(p);
    super::model::lemma_keeps_refl(b);
    super::steps::lemma_keeps_determine(b, b, p);
    let c = b[p.flat()];
    if !c.filled() && c.determined().filled() {
        let m = c->Unfilled_0;
        lemma_count_one(m);
        let b1 = b.update(p.flat(), c.determined());
        assert(all_on_grid(seq![p]));
        lemma_drain_calm(b1, seq![p], k);
    }
}

/// A loop can be cut in two at any step.
pub proof fn lemma_repeat_split(
    b: Board,
    step: spec_fn(Board, usize) -> Board,
    from: usize,
    mid: usize,
    to: usize,
)
    requires
        from <= mid <= to,
    ensures
        repeat(b, step, from, to) == repeat(repeat(b, step, from, mid), step, mid, to),
    decreases mid - from,
{
    if from < mid {
        lemma_repeat_split(step(b, from), step, (from + 1) as usize, mid, to);
    }
}

/// After the naked-single pass no open cell has exactly one candidate.
pub proof fn lemma_naked_single_calm(b: Board)
    requires
        board_wf(b),
    ensures
        all_calm(naked_single(b)),
{
    let step = naked_single_step();
    assert forall|k: int| 0 <= k < 81 implies calm(#[trigger] naked_single(b)[k]) by {
        let n = k as usize;
        lemma_repeat_split(b, step, 0, n, 81);
        let x = repeat(b, step, 0, n);
        let valid = |y: Board| board_wf(y);
        assert forall|y: Board, m: usize| 0 <= m < n && valid(y) implies valid(
            #[trigger] step(y, m),
        ) by {
            lemma_pos_of(m as int);
            lemma_determined_calm(y, pos_of(m as int), m as int);
        }
        lemma_repeat(valid, b, step, 0, n);
        lemma_pos_of(k);
        lemma_determined_calm(x, pos_of(k), k);
        let x1 = step(x, n);
        let rests = |y: Board| board_wf(y) && calm(y[k]);
        assert forall|y: Board, m: usize| n + 1 <= m < 81 && rests(y) implies rests(
            #[trigger] step(y, m),
        ) by {
            lemma_pos_of(m as int);
            lemma_determined_calm(y, pos_of(m as int), k);
        }
        lemma_repeat(rests, x1, step, (n + 1) as usize, 81);
    }
}

/// The naked-single pass leaves a grid as it is in which no open cell has exactly one
/// candidate.
pub proof fn lemma_naked_single_rests(b: Board)
    requires
        board_wf(b),
        all_calm(b),
    ensures
        naked_single(b) == b,
{
    let step = naked_single_step();
    let same = |y: Board| y == b;
    assert forall|y: Board, m: usize| 0 <= m < 81 && same(y) implies same(#[trigger] step(y, m)) by {
        lemma_pos_of(m as int);
        assert(calm(b[m as int]));
    }
    lemma_repeat(same, b, step, 0, 81);
}

/// A grid that has moved on from a calm grid and has the same masks is the same grid.
pub proof fn lemma_same_masks_same(a: Board, b: Board)
    requires
        board_wf(a),
        board_wf(b),
        advances(a, b),
        all_calm(a),
        same_masks(a, b),
    ensures
        a == b,
{
    assert forall|k: int| 0 <= k < 81 implies a[k] == b[k] by {
        assert(cell_advances(a[k], b[k]));
        assert(calm(a[k]));
        assert(a[k].bits() == b[k].bits());
        if b[k].filled() && !a[k].filled() {
            lemma_single_count((b[k]->Filled_0 - 1) as u16);
        }
    }
    assert(a =~= b);
}

/// Where a grid has moved on twice and has the masks that it had, it had them in between.
pub proof fn lemma_between(a: Board, b: Board, c: Board)
    requires
        advances(a, b),
        advances(b, c),
        same_masks(a, c),
    ensures
        same_masks(b, c),
{
    assert forall|k: int| 0 <= k < 81 implies b[k].bits() == c[k].bits() by {
        assert(cell_advances(a[k], b[k]));
        assert(cell_advances(b[k], c[k]));
        assert(a[k].bits() == c[k].bits());
        let x = b[k].bits();
        let y = c[k].bits();
        assert(x & !y == 0 && y & !x == 0 ==> x == y) by (bit_vector);
    }
}

/// A round of deduction that leaves the text of the grid as it was has brought the grid to
/// rest: a further round changes nothing.
pub proof fn lemma_fixed_point(b: Board)
    requires
        board_wf(b),
        hash_of(solved_once(b)) == hash_of(b),
    ensures
        solved_once(solved_once(b)) == solved_once(b),
        hash_of(solved_once(solved_once(b))) == hash_of(solved_once(b)),
{
    let b1 = naked_single(b);
    let b2 = later_passes(b1);
    lemma_keeps_naked_single(b);
    lemma_keeps_later_passes(b1);
    lemma_hash_unique(b, b2);
    assert(same_masks(b, b2));
    lemma_between(b, b1, b2);
    lemma_naked_single_calm(b);
    lemma_same_masks_same(b1, b2);
    lemma_naked_single_rests(b1);
}

} // verus!
