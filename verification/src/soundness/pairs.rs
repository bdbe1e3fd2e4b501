//! The naked-pair pass on a unit reaches every pair that the unit holds when the pass
//! begins, on a grid that admits a solution.

use super::cascade::{
    all_filled, lemma_disjoint_subset, lemma_drain_step, lemma_stacked_contains,
    lemma_sweep_advances, lemma_sweep_cells, lemma_sweep_found, lemma_swept_open,
};
use super::effects::lemma_excluded_later;
use super::fixed_point::{calm, lemma_repeat_split};
use super::model::{
    advances, cell_advances, compatible, is_solution, keeps, lemma_filled_allows, lemma_flat,
    lemma_keeps_refl, lemma_keeps_trans, solvable, value_at,
};
use super::steps::{excluded, lemma_keeps_eliminate, lemma_keeps_struck, lemma_repeat};
use super::techniques::{
    lemma_differ, lemma_keeps_naked_pair_at, lemma_naked_pair_excluded, lemma_slot_allows,
};
use super::wings::lemma_masked;
use crate::bits::{
    count, holds, lemma_count_at_most_two, lemma_count_one, lemma_holds_ops, lemma_holds_single,
    lemma_is_mask, lemma_mask_ext, lemma_single_count, lemma_subset, single,
};
use crate::puzzle::board::{
    all_on_grid, Board, board_wf, determined_at, drain, lemma_stacked, lemma_sweep, open_cells,
    stacked, sweep, swept,
};
use crate::puzzle::passes::{
    each_unit, each_unit_step, eliminated_at, naked_pair_at, naked_pair_inner, naked_pair_outer,
    naked_pair_unit, repeat, slot_bits, slot_filled, strike_others, strike_others_step, struck,
    unit_pass, UnitPass,
};
use crate::puzzle::PuzzleIndex;
use crate::puzzle::slice_type::{lemma_slot, lemma_unit_sees, SliceType};
use vstd::prelude::*;

verus! {

/// Every cell that the cell at `p` sees is fixed, or lacks the value of `p` and is calm.
pub open spec fn tidy_around(x: Board, p: PuzzleIndex) -> bool {
    forall|q: PuzzleIndex|
        q.wf() && #[trigger] p.sees(q) ==> x[q.flat()].filled() || (x[q.flat()].bits()
            & x[p.flat()].bits() == 0 && calm(x[q.flat()]))
}

/// It is tidy around every cell that is fixed in `x`, was open in `b0` and is not on the
/// stack.
pub open spec fn fresh_but(b0: Board, x: Board, stack: Seq<PuzzleIndex>) -> bool {
    forall|p: PuzzleIndex|
        #![trigger x[p.flat()]]
        p.wf() && x[p.flat()].filled() && !b0[p.flat()].filled() && !stack.contains(p)
            ==> tidy_around(x, p)
}

/// One step of the working off keeps the grid fresh but for the stack.
#[verifier::rlimit(40)]
proof fn lemma_fresh_step(b0: Board, x: Board, stack: Seq<PuzzleIndex>)
    requires
        board_wf(x),
        all_on_grid(stack),
        all_filled(x, stack),
        stack.len() > 0,
        fresh_but(b0, x, stack),
    ensures
        ({
            let (x1, found) = sweep(x, stack.last());
            fresh_but(b0, x1, stacked(stack.drop_last(), found, found.len() as int))
        }),
{
    let top = stack.last();
    let rest = stack.drop_last();
    let (x1, found) = sweep(x, top);
    let next = stacked(rest, found, found.len() as int);
    let bit = x[top.flat()].bits();
    lemma_sweep_cells(x, top);
    lemma_sweep_advances(x, top);
    assert(found.take(found.len() as int) =~= found);
    assert forall|p: PuzzleIndex|
        #![trigger x1[p.flat()]]
        p.wf() && x1[p.flat()].filled() && !b0[p.flat()].filled() && !next.contains(
            p,
        ) implies tidy_around(x1, p) by {
        lemma_flat(p);
        lemma_stacked_contains(rest, found, found.len() as int, p);
        lemma_sweep_found(x, top, p);
        assert(cell_advances(x[p.flat()], x1[p.flat()]));
        assert(x[p.flat()].filled());
        if stack.contains(p) {
            let n = choose|n: int| 0 <= n < stack.len() && stack[n] == p;
            if n < stack.len() - 1 {
                assert(rest[n] == p);
                assert(false);
            }
            assert(p == top);
            assert forall|q: PuzzleIndex| q.wf() && #[trigger] p.sees(q) implies x1[q.flat()].filled()
                || (x1[q.flat()].bits() & x1[p.flat()].bits() == 0 && calm(x1[q.flat()])) by {
                lemma_flat(q);
                super::model::lemma_pos_of(q.flat());
                assert(x1[q.flat()] == swept(x[q.flat()], bit));
                if !x1[q.flat()].filled() {
                    lemma_swept_open(x[q.flat()], bit);
                }
            }
        } else {
            assert(tidy_around(x, p));
            assert forall|q: PuzzleIndex| q.wf() && #[trigger] p.sees(q) implies x1[q.flat()].filled()
                || (x1[q.flat()].bits() & x1[p.flat()].bits() == 0 && calm(x1[q.flat()])) by {
                lemma_flat(q);
                assert(cell_advances(x[q.flat()], x1[q.flat()]));
                if !x1[q.flat()].filled() {
                    assert(x1[q.flat()] == x[q.flat()] || x1[q.flat()] == swept(x[q.flat()], bit));
                    lemma_disjoint_subset(
                        x1[q.flat()].bits(),
                        x[q.flat()].bits(),
                        x[p.flat()].bits(),
                    );
                    if x1[q.flat()] != x[q.flat()] {
                        lemma_swept_open(x[q.flat()], bit);
                    }
                }
            }
        }
    }
}

/// After the working off of the stack it is tidy around every cell that became fixed.
pub proof fn lemma_drain_fresh(b0: Board, x: Board, stack: Seq<PuzzleIndex>)
    requires
        board_wf(x),
        all_on_grid(stack),
        all_filled(x, stack),
        fresh_but(b0, x, stack),
    ensures
        fresh_but(b0, drain(x, stack), Seq::empty()),
    decreases open_cells(x) + stack.len(),
{
    if stack.len() == 0 {
        assert(stack =~= Seq::empty());
    } else {
        let top = stack.last();
        let rest = stack.drop_last();
        let (x1, found) = sweep(x, top);
        let next = stacked(rest, found, found.len() as int);
        lemma_sweep(x, top);
        lemma_stacked(rest, found, found.len() as int);
        lemma_drain_step(x, stack);
        lemma_fresh_step(b0, x, stack);
        assert(all_on_grid(rest));
        lemma_drain_fresh(b0, x1, next);
    }
}

/// After a cell was asked to settle it is tidy around every cell that became fixed.
pub proof fn lemma_determined_fresh(e: Board, p: PuzzleIndex)
    requires
        board_wf(e),
        p.wf(),
    ensures
        fresh_but(e, determined_at(e, p), Seq::empty()),
{
    lemma_flat(p);
    let c = e[p.flat()];
    if !c.filled() && c.determined().filled() {
        let m = c->Unfilled_0;
        lemma_count_one(m);
        let e1 = e.update(p.flat(), c.determined());
        let stack = seq![p];
        assert(all_on_grid(stack));
        assert(all_filled(e1, stack));
        assert forall|q: PuzzleIndex|
            #![trigger e1[q.flat()]]
            q.wf() && e1[q.flat()].filled() && !e[q.flat()].filled() && !stack.contains(
                q,
            ) implies tidy_around(e1, q) by {
            lemma_flat(q);
            assert(stack[0] == p);
            assert(q == p);
        }
        lemma_drain_fresh(e, e1, stack);
    } else {
        assert forall|q: PuzzleIndex|
            #![trigger e[q.flat()]]
            q.wf() && e[q.flat()].filled() && !e[q.flat()].filled() implies tidy_around(e, q) by {}
    }
}

/// What is fixed about a pair: the grid `b` admits the solution `s`, the cells at the slots
/// `i` and `j` of the unit are open in it, and `bit` holds the two candidates that they have
/// between them.
pub open spec fn pair_given(
    b: Board,
    unit: SliceType,
    i: usize,
    j: usize,
    bit: u16,
    s: Seq<u8>,
) -> bool {
    &&& board_wf(b)
    &&& unit.wf()
    &&& i < j < 9
    &&& is_solution(s)
    &&& compatible(b, s)
    &&& !slot_filled(b, unit, i)
    &&& !slot_filled(b, unit, j)
    &&& bit == slot_bits(b, unit, i) | slot_bits(b, unit, j)
    &&& count(bit) == 2
}

/// No cell of the unit but the two of the pair has a candidate of the pair.
pub open spec fn pair_done(x: Board, unit: SliceType, i: usize, j: usize, bit: u16) -> bool {
    forall|l: usize| l < 9 && l != i && l != j ==> #[trigger] slot_bits(x, unit, l) & bit == 0
}

/// The two cells of the pair are open.
pub open spec fn pair_open(x: Board, unit: SliceType, i: usize, j: usize) -> bool {
    !slot_filled(x, unit, i) && !slot_filled(x, unit, j)
}

/// What the pass maintains until it comes to the pair: the grid came from `b` by sound steps,
/// and the pair is still open unless the rest of the unit is already clear of it.
pub open spec fn pair_inv(b: Board, x: Board, unit: SliceType, i: usize, j: usize, bit: u16) -> bool {
    keeps(b, x) && (pair_done(x, unit, i, j, bit) || pair_open(x, unit, i, j))
}

/// The candidates of the pair are the values, less one, that the solution gives its two cells.
proof fn lemma_pair_bits(b: Board, unit: SliceType, i: usize, j: usize, bit: u16, s: Seq<u8>)
    requires
        pair_given(b, unit, i, j, bit, s),
    ensures
        forall|z: u16|
            holds(bit, z) <==> z == value_at(s, unit.at(i)) - 1 || z == value_at(s, unit.at(j)) - 1,
        value_at(s, unit.at(i)) != value_at(s, unit.at(j)),
        1 <= value_at(s, unit.at(i)) <= 9,
        1 <= value_at(s, unit.at(j)) <= 9,
{
    lemma_holds_ops();
    lemma_slot_allows(b, s, unit, i);
    lemma_slot_allows(b, s, unit, j);
    lemma_differ(s, unit, i, j);
    lemma_differ(s, unit, j, i);
    let vi = (value_at(s, unit.at(i)) - 1) as u16;
    let vj = (value_at(s, unit.at(j)) - 1) as u16;
    lemma_count_at_most_two(bit, vi, vj);
    lemma_slot(unit, i);
    lemma_slot(unit, j);
    lemma_flat(unit.at(i));
    lemma_flat(unit.at(j));
    lemma_masked(b[unit.at(i).flat()]);
    lemma_masked(b[unit.at(j).flat()]);
    lemma_is_mask(slot_bits(b, unit, i));
    lemma_is_mask(slot_bits(b, unit, j));
}

/// Once the rest of the unit is clear of the pair it stays clear.
proof fn lemma_pair_done_later(x: Board, y: Board, unit: SliceType, i: usize, j: usize, bit: u16)
    requires
        unit.wf(),
        advances(x, y),
        pair_done(x, unit, i, j, bit),
    ensures
        pair_done(y, unit, i, j, bit),
{
    assert forall|l: usize| l < 9 && l != i && l != j implies #[trigger] slot_bits(y, unit, l)
        & bit == 0 by {
        lemma_slot(unit, l);
        lemma_flat(unit.at(l));
        assert(cell_advances(x[unit.at(l).flat()], y[unit.at(l).flat()]));
        assert(slot_bits(x, unit, l) & bit == 0);
        lemma_disjoint_subset(slot_bits(y, unit, l), slot_bits(x, unit, l), bit);
    }
}

/// Where one cell of the pair became fixed by a step after which it is tidy around every
/// cell that the step fixed, the rest of the unit is clear of the pair.
#[verifier::rlimit(40)]
proof fn lemma_pair_closed(
    b: Board,
    e: Board,
    y: Board,
    unit: SliceType,
    i: usize,
    j: usize,
    bit: u16,
    s: Seq<u8>,
)
    requires
        pair_given(b, unit, i, j, bit, s),
        keeps(b, y),
        advances(e, y),
        pair_open(e, unit, i, j),
        !pair_open(y, unit, i, j),
        fresh_but(e, y, Seq::empty()),
    ensures
        pair_done(y, unit, i, j, bit),
{
    let ci = unit.at(i);
    let cj = unit.at(j);
    lemma_slot(unit, i);
    lemma_slot(unit, j);
    lemma_flat(ci);
    lemma_flat(cj);
    lemma_unit_sees(unit, i, j);
    lemma_unit_sees(unit, j, i);
    lemma_pair_bits(b, unit, i, j, bit, s);
    lemma_holds_ops();
    lemma_holds_single();
    let vi = (value_at(s, ci) - 1) as u16;
    let vj = (value_at(s, cj) - 1) as u16;
    assert(compatible(y, s));
    assert(y[ci.flat()].allows(s[ci.flat()] as int));
    assert(y[cj.flat()].allows(s[cj.flat()] as int));
    assert(cell_advances(b[ci.flat()], y[ci.flat()]));
    assert(cell_advances(b[cj.flat()], y[cj.flat()]));
    lemma_subset(y[ci.flat()].bits(), b[ci.flat()].bits());
    lemma_subset(y[cj.flat()].bits(), b[cj.flat()].bits());
    lemma_masked(y[ci.flat()]);
    lemma_masked(y[cj.flat()]);
    lemma_is_mask(y[ci.flat()].bits());
    lemma_is_mask(y[cj.flat()].bits());
    assert(!Seq::<PuzzleIndex>::empty().contains(ci));
    assert(!Seq::<PuzzleIndex>::empty().contains(cj));
    // both cells of the pair are fixed in the end
    if y[ci.flat()].filled() {
        assert(tidy_around(y, ci));
        lemma_filled_allows(y[ci.flat()], s[ci.flat()] as int);
        if !y[cj.flat()].filled() {
            let m = y[cj.flat()].bits();
            assert(m & single(vi) == 0);
            assert(holds(m & single(vi), vi) == (holds(m, vi) && holds(single(vi), vi)));
            assert forall|z: u16| z < 16 implies holds(m, z) == holds(single(vj), z) by {}
            lemma_mask_ext(m, single(vj));
            lemma_single_count(vj);
            assert(false);
        }
    } else {
        assert(y[cj.flat()].filled());
        assert(tidy_around(y, cj));
        lemma_filled_allows(y[cj.flat()], s[cj.flat()] as int);
        let m = y[ci.flat()].bits();
        assert(m & single(vj) == 0);
        assert(holds(m & single(vj), vj) == (holds(m, vj) && holds(single(vj), vj)));
        assert forall|z: u16| z < 16 implies holds(m, z) == holds(single(vi), z) by {}
        lemma_mask_ext(m, single(vi));
        lemma_single_count(vi);
        assert(false);
    }
    assert(tidy_around(y, ci));
    assert(tidy_around(y, cj));
    lemma_filled_allows(y[ci.flat()], s[ci.flat()] as int);
    lemma_filled_allows(y[cj.flat()], s[cj.flat()] as int);
    assert forall|l: usize| l < 9 && l != i && l != j implies #[trigger] slot_bits(y, unit, l)
        & bit == 0 by {
        let cl = unit.at(l);
        lemma_slot(unit, l);
        lemma_flat(cl);
        lemma_unit_sees(unit, i, l);
        lemma_unit_sees(unit, j, l);
        lemma_differ(s, unit, i, l);
        lemma_differ(s, unit, j, l);
        let m = y[cl.flat()].bits();
        assert(y[cl.flat()].allows(s[cl.flat()] as int));
        if y[cl.flat()].filled() {
            lemma_filled_allows(y[cl.flat()], s[cl.flat()] as int);
        } else {
            assert(m & single(vi) == 0);
            assert(m & single(vj) == 0);
            assert(holds(m & single(vi), vi) == (holds(m, vi) && holds(single(vi), vi)));
            assert(holds(m & single(vj), vj) == (holds(m, vj) && holds(single(vj), vj)));
        }
        assert forall|z: u16| z < 16 implies holds(m & bit, z) == holds(0, z) by {}
        lemma_mask_ext(m & bit, 0);
    }
}

/// A strike that no solution forbids maintains what the pass maintains.
#[verifier::rlimit(40)]
proof fn lemma_pair_inv_struck(
    b: Board,
    x0: Board,
    z: Board,
    unit: SliceType,
    i: usize,
    j: usize,
    bit: u16,
    s: Seq<u8>,
    p: PuzzleIndex,
    mask: u16,
)
    requires
        pair_given(b, unit, i, j, bit, s),
        pair_inv(b, z, unit, i, j, bit),
        keeps(x0, z),
        p.wf(),
        excluded(x0, p, mask),
    ensures
        pair_inv(b, struck(z, p, mask), unit, i, j, bit),
        keeps(x0, struck(z, p, mask)),
{
    let y = struck(z, p, mask);
    let e = eliminated_at(z, p, mask);
    lemma_keeps_struck(x0, z, p, mask);
    lemma_excluded_later(x0, z, p, mask);
    lemma_keeps_refl(z);
    lemma_keeps_struck(z, z, p, mask);
    lemma_keeps_trans(b, z, y);
    lemma_keeps_eliminate(z, z, p, mask);
    if pair_done(z, unit, i, j, bit) {
        lemma_pair_done_later(z, y, unit, i, j, bit);
    } else if !pair_open(y, unit, i, j) {
        lemma_flat(p);
        lemma_slot(unit, i);
        lemma_slot(unit, j);
        lemma_flat(unit.at(i));
        lemma_flat(unit.at(j));
        assert(pair_open(e, unit, i, j));
        lemma_determined_fresh(e, p);
        lemma_keeps_refl(e);
        super::steps::lemma_keeps_determine(e, e, p);
        lemma_pair_closed(b, e, y, unit, i, j, bit, s);
    }
}

/// Strikes from the cells of a unit that no solution forbids maintain what the pass
/// maintains.
proof fn lemma_pair_inv_strike_others(
    b: Board,
    x: Board,
    unit: SliceType,
    i: usize,
    j: usize,
    bit: u16,
    s: Seq<u8>,
    at: SliceType,
    i1: usize,
    j1: usize,
    k1: usize,
    mask: u16,
)
    requires
        pair_given(b, unit, i, j, bit, s),
        pair_inv(b, x, unit, i, j, bit),
        at.wf(),
        forall|l: usize|
            l < 9 && l != i1 && l != j1 && l != k1 ==> excluded(x, #[trigger] at.at(l), mask),
    ensures
        pair_inv(b, strike_others(x, at, i1, j1, k1, mask), unit, i, j, bit),
{
    let step = strike_others_step(at, i1, j1, k1, mask);
    let inv = |z: Board| pair_inv(b, z, unit, i, j, bit) && keeps(x, z);
    lemma_keeps_refl(x);
    assert forall|z: Board, l: usize| 0 <= l < 9 && inv(z) implies inv(#[trigger] step(z, l)) by {
        if !(l == i1 || l == j1 || l == k1) {
            lemma_slot(at, l);
            assert(excluded(x, at.at(l), mask));
            lemma_pair_inv_struck(b, x, z, unit, i, j, bit, s, at.at(l), mask);
        }
    }
    lemma_repeat(inv, x, step, 0, 9);
}

/// The step of the pass for two slots of a unit maintains what the pass maintains.
proof fn lemma_pair_inv_at(
    b: Board,
    x: Board,
    unit: SliceType,
    i: usize,
    j: usize,
    bit: u16,
    s: Seq<u8>,
    at: SliceType,
    i1: usize,
    j1: usize,
)
    requires
        pair_given(b, unit, i, j, bit, s),
        pair_inv(b, x, unit, i, j, bit),
        at.wf(),
        i1 < j1 < 9,
    ensures
        pair_inv(b, naked_pair_at(x, at, i1, j1), unit, i, j, bit),
{
    let mask = slot_bits(x, at, i1) | slot_bits(x, at, j1);
    if !(slot_filled(x, at, j1) || count(mask) != 2) {
        assert forall|l: usize| l < 9 && l != i1 && l != j1 implies excluded(
            x,
            #[trigger] at.at(l),
            mask,
        ) by {
            lemma_naked_pair_excluded(x, at, i1, j1, l);
        }
        lemma_pair_inv_strike_others(b, x, unit, i, j, bit, s, at, i1, j1, j1, mask);
    }
}

/// When the pass comes to the pair, the rest of the unit is clear of it afterwards.
#[verifier::rlimit(40)]
proof fn lemma_pair_reached(
    b: Board,
    x: Board,
    unit: SliceType,
    i: usize,
    j: usize,
    bit: u16,
    s: Seq<u8>,
)
    requires
        pair_given(b, unit, i, j, bit, s),
        pair_inv(b, x, unit, i, j, bit),
    ensures
        pair_kept(b, naked_pair_at(x, unit, i, j), unit, i, j, bit),
{
    let y = naked_pair_at(x, unit, i, j);
    lemma_keeps_naked_pair_at(b, x, unit, i, j);
    lemma_keeps_refl(x);
    lemma_keeps_naked_pair_at(x, x, unit, i, j);
    if pair_done(x, unit, i, j, bit) {
        lemma_pair_done_later(x, y, unit, i, j, bit);
    } else {
        // the pair is open, and its two cells still have the two candidates between them
        lemma_pair_bits(b, unit, i, j, bit, s);
        lemma_holds_ops();
        lemma_slot(unit, i);
        lemma_slot(unit, j);
        lemma_flat(unit.at(i));
        lemma_flat(unit.at(j));
        assert(compatible(x, s));
        lemma_slot_allows(x, s, unit, i);
        lemma_slot_allows(x, s, unit, j);
        let mi = slot_bits(x, unit, i);
        let mj = slot_bits(x, unit, j);
        assert(cell_advances(b[unit.at(i).flat()], x[unit.at(i).flat()]));
        assert(cell_advances(b[unit.at(j).flat()], x[unit.at(j).flat()]));
        lemma_subset(mi, slot_bits(b, unit, i));
        lemma_subset(mj, slot_bits(b, unit, j));
        assert forall|z: u16| z < 16 implies holds(mi | mj, z) == holds(bit, z) by {}
        lemma_mask_ext(mi | mj, bit);
        assert forall|l: usize| l < 9 && l != i && l != j implies #[trigger] slot_bits(y, unit, l)
            & bit == 0 by {
            super::effects::lemma_naked_pair_clears(x, unit, i, j, s, l);
        }
    }
}

/// What the pass maintains once it has come to the pair.
pub open spec fn pair_kept(b: Board, x: Board, unit: SliceType, i: usize, j: usize, bit: u16) -> bool {
    keeps(b, x) && pair_done(x, unit, i, j, bit)
}

/// The step of the pass for two slots of a unit leaves the rest of the pair's unit clear of
/// the pair.
proof fn lemma_pair_kept_at(
    b: Board,
    x: Board,
    unit: SliceType,
    i: usize,
    j: usize,
    bit: u16,
    at: SliceType,
    i1: usize,
    j1: usize,
)
    requires
        unit.wf(),
        at.wf(),
        pair_kept(b, x, unit, i, j, bit),
        i1 < j1 < 9,
    ensures
        pair_kept(b, naked_pair_at(x, at, i1, j1), unit, i, j, bit),
{
    lemma_keeps_naked_pair_at(b, x, at, i1, j1);
    lemma_keeps_refl(x);
    lemma_keeps_naked_pair_at(x, x, at, i1, j1);
    lemma_pair_done_later(x, naked_pair_at(x, at, i1, j1), unit, i, j, bit);
}

/// The steps of the pass for one slot with the later slots, up to `to`, maintain what the
/// pass maintains.
proof fn lemma_pair_inv_from(
    b: Board,
    x: Board,
    unit: SliceType,
    i: usize,
    j: usize,
    bit: u16,
    s: Seq<u8>,
    at: SliceType,
    i1: usize,
    to: usize,
)
    requires
        pair_given(b, unit, i, j, bit, s),
        pair_inv(b, x, unit, i, j, bit),
        at.wf(),
        i1 < 9,
        to <= 9,
    ensures
        pair_inv(b, repeat(x, naked_pair_inner(at, i1), (i1 + 1) as usize, to), unit, i, j, bit),
{
    let inner = naked_pair_inner(at, i1);
    let inv = |z: Board| pair_inv(b, z, unit, i, j, bit);
    assert forall|z: Board, j1: usize| i1 + 1 <= j1 < to && inv(z) implies inv(
        #[trigger] inner(z, j1),
    ) by {
        lemma_pair_inv_at(b, z, unit, i, j, bit, s, at, i1, j1);
    }
    lemma_repeat(inv, x, inner, (i1 + 1) as usize, to);
}

/// The steps of the pass for one slot with later slots leave the rest of the pair's unit
/// clear of the pair.
proof fn lemma_pair_kept_from(
    b: Board,
    x: Board,
    unit: SliceType,
    i: usize,
    j: usize,
    bit: u16,
    at: SliceType,
    i1: usize,
    from: usize,
)
    requires
        unit.wf(),
        at.wf(),
        pair_kept(b, x, unit, i, j, bit),
        i1 < from,
    ensures
        pair_kept(b, repeat(x, naked_pair_inner(at, i1), from, 9), unit, i, j, bit),
{
    let inner = naked_pair_inner(at, i1);
    let inv = |z: Board| pair_kept(b, z, unit, i, j, bit);
    assert forall|z: Board, j1: usize| from <= j1 < 9 && inv(z) implies inv(
        #[trigger] inner(z, j1),
    ) by {
        lemma_pair_kept_at(b, z, unit, i, j, bit, at, i1, j1);
    }
    lemma_repeat(inv, x, inner, from, 9);
}

/// The pass on another unit maintains what the pass maintains.
proof fn lemma_pair_inv_unit(
    b: Board,
    x: Board,
    unit: SliceType,
    i: usize,
    j: usize,
    bit: u16,
    s: Seq<u8>,
    at: SliceType,
)
    requires
        pair_given(b, unit, i, j, bit, s),
        pair_inv(b, x, unit, i, j, bit),
        at.wf(),
    ensures
        pair_inv(b, naked_pair_unit(x, at), unit, i, j, bit),
{
    let outer = naked_pair_outer(at);
    let inv = |z: Board| pair_inv(b, z, unit, i, j, bit);
    assert forall|z: Board, i1: usize| 0 <= i1 < 9 && inv(z) implies inv(#[trigger] outer(z, i1)) by {
        if !slot_filled(z, at, i1) {
            lemma_pair_inv_from(b, z, unit, i, j, bit, s, at, i1, 9);
        }
    }
    lemma_repeat(inv, x, outer, 0, 9);
}

/// The pass on any unit leaves the rest of the pair's unit clear of the pair.
proof fn lemma_pair_kept_unit(
    b: Board,
    x: Board,
    unit: SliceType,
    i: usize,
    j: usize,
    bit: u16,
    at: SliceType,
)
    requires
        unit.wf(),
        at.wf(),
        pair_kept(b, x, unit, i, j, bit),
    ensures
        pair_kept(b, naked_pair_unit(x, at), unit, i, j, bit),
{
    let outer = naked_pair_outer(at);
    let kept = |z: Board| pair_kept(b, z, unit, i, j, bit);
    assert forall|z: Board, i1: usize| 0 <= i1 < 9 && kept(z) implies kept(
        #[trigger] outer(z, i1),
    ) by {
        if !slot_filled(z, at, i1) {
            lemma_pair_kept_from(b, z, unit, i, j, bit, at, i1, (i1 + 1) as usize);
        }
    }
    lemma_repeat(kept, x, outer, 0, 9);
}

/// The pass on the unit of the pair leaves the rest of the unit clear of the pair.
#[verifier::rlimit(40)]
proof fn lemma_pair_unit(
    b: Board,
    x: Board,
    unit: SliceType,
    i: usize,
    j: usize,
    bit: u16,
    s: Seq<u8>,
)
    requires
        pair_given(b, unit, i, j, bit, s),
        pair_inv(b, x, unit, i, j, bit),
    ensures
        pair_kept(b, naked_pair_unit(x, unit), unit, i, j, bit),
{
    let outer = naked_pair_outer(unit);
    // the slots before `i`
    let inv = |z: Board| pair_inv(b, z, unit, i, j, bit);
    assert forall|z: Board, i1: usize| 0 <= i1 < i && inv(z) implies inv(#[trigger] outer(z, i1)) by {
        if !slot_filled(z, unit, i1) {
            lemma_pair_inv_from(b, z, unit, i, j, bit, s, unit, i1, 9);
        }
    }
    lemma_repeat(inv, x, outer, 0, i);
    let xi = repeat(x, outer, 0, i);
    lemma_repeat_split(x, outer, 0, i, 9);
    let yi = outer(xi, i);
    assert(repeat(xi, outer, i, 9) == repeat(yi, outer, (i + 1) as usize, 9));
    // slot `i`
    if slot_filled(xi, unit, i) {
        assert(yi == xi);
        assert(pair_kept(b, yi, unit, i, j, bit));
    } else {
        let inner = naked_pair_inner(unit, i);
        lemma_pair_inv_from(b, xi, unit, i, j, bit, s, unit, i, j);
        let xj = repeat(xi, inner, (i + 1) as usize, j);
        lemma_repeat_split(xi, inner, (i + 1) as usize, j, 9);
        let yj = inner(xj, j);
        assert(repeat(xj, inner, j, 9) == repeat(yj, inner, (j + 1) as usize, 9));
        lemma_pair_reached(b, xj, unit, i, j, bit, s);
        lemma_pair_kept_from(b, yj, unit, i, j, bit, unit, i, (j + 1) as usize);
        assert(pair_kept(b, yi, unit, i, j, bit));
    }
    // the slots after `i`
    let kept = |z: Board| pair_kept(b, z, unit, i, j, bit);
    assert forall|z: Board, i1: usize| i + 1 <= i1 < 9 && kept(z) implies kept(
        #[trigger] outer(z, i1),
    ) by {
        if !slot_filled(z, unit, i1) {
            lemma_pair_kept_from(b, z, unit, i, j, bit, unit, i1, (i1 + 1) as usize);
        }
    }
    lemma_repeat(kept, yi, outer, (i + 1) as usize, 9);
}

/// Naked pair, on one unit: where the grid admits a solution, and two open cells of the unit
/// have two candidates between them, no other cell of the unit has either candidate after
/// the pass on that unit.
pub proof fn lemma_naked_pair_unit_clears(
    b: Board,
    unit: SliceType,
    i: usize,
    j: usize,
    s: Seq<u8>,
    l: usize,
)
    requires
        board_wf(b),
        unit.wf(),
        i < j < 9,
        is_solution(s),
        compatible(b, s),
        !slot_filled(b, unit, i),
        !slot_filled(b, unit, j),
        count(slot_bits(b, unit, i) | slot_bits(b, unit, j)) == 2,
        l < 9,
        l != i,
        l != j,
    ensures
        slot_bits(naked_pair_unit(b, unit), unit, l) & (slot_bits(b, unit, i) | slot_bits(
            b,
            unit,
            j,
        )) == 0,
{
    let bit = slot_bits(b, unit, i) | slot_bits(b, unit, j);
    lemma_keeps_refl(b);
    lemma_pair_unit(b, b, unit, i, j, bit, s);
}

/// One round of the pass over the grid maintains what the pass maintains, and leaves the
/// rest of the pair's unit clear of the pair if it is the round of that unit.
#[verifier::rlimit(40)]
proof fn lemma_pair_round(
    b: Board,
    x: Board,
    unit: SliceType,
    i: usize,
    j: usize,
    bit: u16,
    s: Seq<u8>,
    n: usize,
)
    requires
        pair_given(b, unit, i, j, bit, s),
        pair_inv(b, x, unit, i, j, bit),
        n < 9,
    ensures
        pair_inv(b, each_unit_step(UnitPass::NakedPair)(x, n), unit, i, j, bit),
        n == unit.n() ==> pair_kept(
            b,
            each_unit_step(UnitPass::NakedPair)(x, n),
            unit,
            i,
            j,
            bit,
        ),
{
    let pass = UnitPass::NakedPair;
    let blk = SliceType::Block(n);
    let col = SliceType::Col(n);
    let row = SliceType::Row(n);
    let x1 = unit_pass(x, pass, blk);
    let x2 = unit_pass(x1, pass, col);
    let x3 = unit_pass(x2, pass, row);
    assert(x3 == each_unit_step(pass)(x, n));
    if n == unit.n() {
        match unit {
            SliceType::Block(_) => {
                lemma_pair_unit(b, x, unit, i, j, bit, s);
                lemma_pair_kept_unit(b, x1, unit, i, j, bit, col);
                lemma_pair_kept_unit(b, x2, unit, i, j, bit, row);
            },
            SliceType::Col(_) => {
                lemma_pair_inv_unit(b, x, unit, i, j, bit, s, blk);
                lemma_pair_unit(b, x1, unit, i, j, bit, s);
                lemma_pair_kept_unit(b, x2, unit, i, j, bit, row);
            },
            SliceType::Row(_) => {
                lemma_pair_inv_unit(b, x, unit, i, j, bit, s, blk);
                lemma_pair_inv_unit(b, x1, unit, i, j, bit, s, col);
                lemma_pair_unit(b, x2, unit, i, j, bit, s);
            },
        }
    } else {
        lemma_pair_inv_unit(b, x, unit, i, j, bit, s, blk);
        lemma_pair_inv_unit(b, x1, unit, i, j, bit, s, col);
        lemma_pair_inv_unit(b, x2, unit, i, j, bit, s, row);
    }
}

/// Naked pair, over the grid: where the grid admits a solution, and two open cells of a unit
/// have two candidates between them, no other cell of that unit has either candidate after
/// the pass over the 27 units.
pub proof fn lemma_naked_pair_pass_clears(
    b: Board,
    unit: SliceType,
    i: usize,
    j: usize,
    s: Seq<u8>,
    l: usize,
)
    requires
        board_wf(b),
        unit.wf(),
        i < j < 9,
        is_solution(s),
        compatible(b, s),
        !slot_filled(b, unit, i),
        !slot_filled(b, unit, j),
        count(slot_bits(b, unit, i) | slot_bits(b, unit, j)) == 2,
        l < 9,
        l != i,
        l != j,
    ensures
        slot_bits(each_unit(b, UnitPass::NakedPair), unit, l) & (slot_bits(b, unit, i)
            | slot_bits(b, unit, j)) == 0,
{
    let bit = slot_bits(b, unit, i) | slot_bits(b, unit, j);
    let pass = UnitPass::NakedPair;
    let step = each_unit_step(pass);
    let n = unit.n();
    lemma_keeps_refl(b);
    let inv = |z: Board| pair_inv(b, z, unit, i, j, bit);
    assert forall|z: Board, m: usize| 0 <= m < n && inv(z) implies inv(#[trigger] step(z, m)) by {
        lemma_pair_round(b, z, unit, i, j, bit, s, m);
    }
    lemma_repeat(inv, b, step, 0, n);
    let x = repeat(b, step, 0, n);
    lemma_repeat_split(b, step, 0, n, 9);
    let y = step(x, n);
    assert(repeat(x, step, n, 9) == repeat(y, step, (n + 1) as usize, 9));
    lemma_pair_round(b, x, unit, i, j, bit, s, n);
    let kept = |z: Board| pair_kept(b, z, unit, i, j, bit);
    assert forall|z: Board, m: usize| n + 1 <= m < 9 && kept(z) implies kept(
        #[trigger] step(z, m),
    ) by {
        let z1 = unit_pass(z, pass, SliceType::Block(m));
        let z2 = unit_pass(z1, pass, SliceType::Col(m));
        lemma_pair_kept_unit(b, z, unit, i, j, bit, SliceType::Block(m));
        lemma_pair_kept_unit(b, z1, unit, i, j, bit, SliceType::Col(m));
        lemma_pair_kept_unit(b, z2, unit, i, j, bit, SliceType::Row(m));
    }
    lemma_repeat(kept, y, step, (n + 1) as usize, 9);
}

/// In `r`, no cell of the unit has a candidate of a pair that the unit held in `b`: of two
/// open cells with two candidates between them.
pub open spec fn naked_pairs_cleared(b: Board, r: Board, unit: SliceType) -> bool {
    forall|i: usize, j: usize, l: usize|
        i < j < 9 && l < 9 && l != i && l != j && !#[trigger] slot_filled(b, unit, i)
            && !#[trigger] slot_filled(b, unit, j) && count(
            slot_bits(b, unit, i) | slot_bits(b, unit, j),
        ) == 2 ==> #[trigger] slot_bits(r, unit, l) & (slot_bits(b, unit, i) | slot_bits(
            b,
            unit,
            j,
        )) == 0
}

/// Naked pair, on one unit and for all its pairs: on a grid that admits a solution, the pass
/// on a unit clears the rest of the unit of every pair that the unit holds.
pub proof fn lemma_naked_pair_unit(b: Board, unit: SliceType)
    requires
        board_wf(b),
        unit.wf(),
        solvable(b),
    ensures
        naked_pairs_cleared(b, naked_pair_unit(b, unit), unit),
{
    let s = choose|s: Seq<u8>| #[trigger] is_solution(s) && compatible(b, s);
    let r = naked_pair_unit(b, unit);
    assert forall|i: usize, j: usize, l: usize|
        i < j < 9 && l < 9 && l != i && l != j && !#[trigger] slot_filled(b, unit, i)
            && !#[trigger] slot_filled(b, unit, j) && count(
            slot_bits(b, unit, i) | slot_bits(b, unit, j),
        ) == 2 implies #[trigger] slot_bits(r, unit, l) & (slot_bits(b, unit, i) | slot_bits(
        b,
        unit,
        j,
    )) == 0 by {
        lemma_naked_pair_unit_clears(b, unit, i, j, s, l);
    }
}

/// Naked pair, over the grid and for all units and pairs: on a grid that admits a solution,
/// the pass clears the rest of each unit of every pair that the unit holds.
pub proof fn lemma_naked_pair_pass(b: Board)
    requires
        board_wf(b),
        solvable(b),
    ensures
        forall|unit: SliceType|
            unit.wf() ==> #[trigger] naked_pairs_cleared(
                b,
                each_unit(b, UnitPass::NakedPair),
                unit,
            ),
{
    let s = choose|s: Seq<u8>| #[trigger] is_solution(s) && compatible(b, s);
    let r = each_unit(b, UnitPass::NakedPair);
    assert forall|unit: SliceType| unit.wf() implies #[trigger] naked_pairs_cleared(
        b,
        r,
        unit,
    ) by {
        assert forall|i: usize, j: usize, l: usize|
            i < j < 9 && l < 9 && l != i && l != j && !#[trigger] slot_filled(b, unit, i)
                && !#[trigger] slot_filled(b, unit, j) && count(
                slot_bits(b, unit, i) | slot_bits(b, unit, j),
            ) == 2 implies #[trigger] slot_bits(r, unit, l) & (slot_bits(b, unit, i)
            | slot_bits(b, unit, j)) == 0 by {
            lemma_naked_pair_pass_clears(b, unit, i, j, s, l);
        }
    }
}

} // verus!
