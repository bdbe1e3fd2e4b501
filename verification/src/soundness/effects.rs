//! What the passes achieve on a grid that admits a solution.

use super::fixed_point::lemma_repeat_split;
use super::lines::parallel;
use super::model::{
    advances, cell_advances, compatible, is_solution, keeps, lemma_compatible_back,
    lemma_filled_allows, lemma_flat, lemma_keeps_refl, solvable, value_at,
};
use super::solving::lemma_filled_at;
use super::steps::{
    excluded, lemma_keeps_determine, lemma_keeps_eliminate, lemma_keeps_struck, lemma_repeat,
    lemma_repeat_keeps,
};
use super::techniques::{
    lemma_hidden_single_forced, lemma_keeps_hidden_single_step, lemma_keeps_unit_pass,
    lemma_naked_pair_excluded, lemma_naked_triple_excluded, lemma_slot_allows,
};
use crate::bits::{
    count, holds, lemma_count_one_low, lemma_holds_ops, lemma_holds_single, lemma_mask_ext,
    lemma_subset, lowest, single, subset,
};
use crate::cell::_Cell;
use crate::puzzle::board::{Board, board_wf, pos_of};
use crate::puzzle::passes::{
    diagonal, each_unit, each_unit_step, eliminated_at, hidden_single_step, hidden_single_unit,
    lemma_occurs_below, naked_pair_at, naked_triple_at, occurrences, repeat, slot_bits, slot_filled,
    strike_others, strike_others_step, struck, unit_pass, UnitPass, x_wing, x_wing_digit_step,
    x_wing_inner, x_wing_lines, x_wing_outer, x_wing_slot_step,
};
use crate::puzzle::PuzzleIndex;
use crate::puzzle::slice_type::{lemma_slot, SliceType};
use vstd::prelude::*;

verus! {

/// Hidden single, on one unit: where the grid admits a solution and a digit occurs at one
/// slot of the unit only, the cell at that slot is fixed to the value of the digit after the
/// pass on that unit.
pub proof fn lemma_hidden_single_fixes(b: Board, unit: SliceType, d: usize, s: Seq<u8>)
    requires
        board_wf(b),
        unit.wf(),
        d < 9,
        is_solution(s),
        compatible(b, s),
        count(occurrences(b, unit)[d as int]) == 1,
    ensures
        hidden_single_unit(b, unit)[unit.at(
            lowest(occurrences(b, unit)[d as int]) as usize,
        ).flat()] == _Cell::Filled((d + 1) as u8),
{
    let occ = occurrences(b, unit);
    let step = hidden_single_step(unit, occ);
    let p = unit.at(lowest(occ[d as int]) as usize);
    let v = (d + 1) as u8;
    lemma_hidden_single_forced(b, unit, d);
    lemma_flat(p);
    lemma_keeps_refl(b);
    assert forall|x: Board, k: usize| 0 <= k < d && keeps(b, x) implies keeps(
        b,
        #[trigger] step(x, k),
    ) by {
        lemma_keeps_hidden_single_step(b, x, unit, k);
    }
    lemma_repeat_keeps(b, b, step, 0, d);
    let x = repeat(b, step, 0, d);
    lemma_repeat_split(b, step, 0, d, 9);
    let y = step(x, d);
    assert(repeat(x, step, d, 9) == repeat(y, step, (d + 1) as usize, 9));
    lemma_filled_at(x, p, v);
    if x[p.flat()].filled() {
        assert(compatible(x, s));
        assert(x[p.flat()].allows(s[p.flat()] as int));
        lemma_filled_allows(x[p.flat()], s[p.flat()] as int);
        assert(value_at(s, p) == v);
    }
    assert(y[p.flat()] == _Cell::Filled(v));
    let fixed = |z: Board| board_wf(z) && z[p.flat()] == _Cell::Filled(v);
    assert forall|z: Board, k: usize| d + 1 <= k < 9 && fixed(z) implies fixed(
        #[trigger] step(z, k),
    ) by {
        if count(occ[k as int]) == 1 {
            lemma_count_one_low(occ[k as int]);
            lemma_slot(unit, lowest(occ[k as int]) as usize);
            lemma_filled_at(z, unit.at(lowest(occ[k as int]) as usize), (k + 1) as u8);
        }
    }
    lemma_repeat(fixed, y, step, (d + 1) as usize, 9);
}

/// A digit that occurred at one slot of a unit only, on a grid that admits a solution, occurs
/// at that slot only on every grid that came from it by sound steps.
proof fn lemma_occurrence_stays(b: Board, x: Board, unit: SliceType, d: usize, s: Seq<u8>)
    requires
        board_wf(b),
        keeps(b, x),
        unit.wf(),
        d < 9,
        is_solution(s),
        compatible(b, s),
        count(occurrences(b, unit)[d as int]) == 1,
    ensures
        occurrences(x, unit)[d as int] == occurrences(b, unit)[d as int],
{
    let m = occurrences(b, unit)[d as int];
    let n = occurrences(x, unit)[d as int];
    lemma_occurs_below(b, unit, d as u16, 9);
    lemma_occurs_below(x, unit, d as u16, 9);
    lemma_hidden_single_forced(b, unit, d);
    crate::bits::lemma_count_one(m);
    let t = lowest(m) as usize;
    assert(compatible(x, s));
    lemma_slot_allows(x, s, unit, t);
    assert forall|i: u16| i < 16 implies holds(n, i) == holds(m, i) by {
        if i < 9 {
            lemma_slot(unit, i as usize);
            lemma_flat(unit.at(i as usize));
            assert(cell_advances(b[unit.at(i as usize).flat()], x[unit.at(i as usize).flat()]));
            lemma_subset(slot_bits(x, unit, i as usize), slot_bits(b, unit, i as usize));
        }
    }
    lemma_mask_ext(n, m);
}

/// Hidden single, over the grid: where the grid admits a solution and a digit occurs at one
/// slot of a unit only, the cell at that slot is fixed to the value of the digit after the
/// pass over the 27 units.
#[verifier::rlimit(40)]
pub proof fn lemma_hidden_single_pass_fixes(b: Board, unit: SliceType, d: usize, s: Seq<u8>)
    requires
        board_wf(b),
        unit.wf(),
        d < 9,
        is_solution(s),
        compatible(b, s),
        count(occurrences(b, unit)[d as int]) == 1,
    ensures
        each_unit(b, UnitPass::HiddenSingle)[unit.at(
            lowest(occurrences(b, unit)[d as int]) as usize,
        ).flat()] == _Cell::Filled((d + 1) as u8),
{
    let pass = UnitPass::HiddenSingle;
    let step = each_unit_step(pass);
    let n = unit.n();
    let p = unit.at(lowest(occurrences(b, unit)[d as int]) as usize);
    let v = (d + 1) as u8;
    lemma_hidden_single_forced(b, unit, d);
    lemma_flat(p);
    lemma_keeps_refl(b);
    assert forall|x: Board, i: usize| 0 <= i < n && keeps(b, x) implies keeps(
        b,
        #[trigger] step(x, i),
    ) by {
        let x1 = unit_pass(x, pass, SliceType::Block(i));
        let x2 = unit_pass(x1, pass, SliceType::Col(i));
        lemma_keeps_unit_pass(b, x, pass, SliceType::Block(i));
        lemma_keeps_unit_pass(b, x1, pass, SliceType::Col(i));
        lemma_keeps_unit_pass(b, x2, pass, SliceType::Row(i));
    }
    lemma_repeat_keeps(b, b, step, 0, n);
    let x = repeat(b, step, 0, n);
    lemma_repeat_split(b, step, 0, n, 9);
    let x1 = unit_pass(x, pass, SliceType::Block(n));
    let x2 = unit_pass(x1, pass, SliceType::Col(n));
    let x3 = unit_pass(x2, pass, SliceType::Row(n));
    assert(x3 == step(x, n));
    assert(repeat(x, step, n, 9) == repeat(x3, step, (n + 1) as usize, 9));
    lemma_keeps_unit_pass(b, x, pass, SliceType::Block(n));
    lemma_keeps_unit_pass(b, x1, pass, SliceType::Col(n));
    lemma_keeps_unit_pass(b, x2, pass, SliceType::Row(n));
    lemma_keeps_refl(x1);
    lemma_keeps_refl(x2);
    match unit {
        SliceType::Block(_) => {
            lemma_occurrence_stays(b, x, unit, d, s);
            assert(compatible(x, s));
            lemma_hidden_single_fixes(x, unit, d, s);
            lemma_keeps_unit_pass(x1, x1, pass, SliceType::Col(n));
            assert(cell_advances(x1[p.flat()], x2[p.flat()]));
            lemma_keeps_unit_pass(x2, x2, pass, SliceType::Row(n));
            assert(cell_advances(x2[p.flat()], x3[p.flat()]));
        },
        SliceType::Col(_) => {
            lemma_occurrence_stays(b, x1, unit, d, s);
            assert(compatible(x1, s));
            lemma_hidden_single_fixes(x1, unit, d, s);
            lemma_keeps_unit_pass(x2, x2, pass, SliceType::Row(n));
            assert(cell_advances(x2[p.flat()], x3[p.flat()]));
        },
        SliceType::Row(_) => {
            lemma_occurrence_stays(b, x2, unit, d, s);
            assert(compatible(x2, s));
            lemma_hidden_single_fixes(x2, unit, d, s);
        },
    }
    assert(x3[p.flat()] == _Cell::Filled(v));
    let fixed = |z: Board| board_wf(z) && z[p.flat()] == _Cell::Filled(v);
    assert forall|z: Board, i: usize| n + 1 <= i < 9 && fixed(z) implies fixed(
        #[trigger] step(z, i),
    ) by {
        let z1 = unit_pass(z, pass, SliceType::Block(i));
        let z2 = unit_pass(z1, pass, SliceType::Col(i));
        let z3 = unit_pass(z2, pass, SliceType::Row(i));
        lemma_keeps_refl(z);
        lemma_keeps_unit_pass(z, z, pass, SliceType::Block(i));
        lemma_keeps_unit_pass(z, z1, pass, SliceType::Col(i));
        lemma_keeps_unit_pass(z, z2, pass, SliceType::Row(i));
        assert(cell_advances(z[p.flat()], z3[p.flat()]));
    }
    lemma_repeat(fixed, x3, step, (n + 1) as usize, 9);
}

/// The grid `x` differs from `b` only in open cells on the diagonal, which have lost
/// candidates.
pub open spec fn narrowed_on_diagonal(b: Board, x: Board) -> bool {
    b.len() == 81 && x.len() == 81 && forall|k: int|
        0 <= k < 81 ==> #[trigger] x[k] == b[k] || (pos_of(k).col == pos_of(k).row
            && !b[k].filled() && !x[k].filled() && subset(x[k].bits(), b[k].bits()))
}

/// What the x-wing pass maintains: the grid is valid and differs from `b` only on the
/// diagonal; and, where `on` is set, the cell at `q` is fixed or has lost the digit `e`.
pub open spec fn x_wing_inv(b: Board, q: PuzzleIndex, e: u16, on: bool, x: Board) -> bool {
    &&& board_wf(x)
    &&& narrowed_on_diagonal(b, x)
    &&& on ==> x[q.flat()].filled() || !holds(x[q.flat()].bits(), e)
}

/// Taking digits from a cell on the diagonal maintains `x_wing_inv`.
proof fn lemma_x_wing_inv_eliminate(
    b: Board,
    q: PuzzleIndex,
    e: u16,
    on: bool,
    x: Board,
    t: usize,
    mask: u16,
)
    requires
        x_wing_inv(b, q, e, on, x),
        q.wf(),
        t < 9,
    ensures
        x_wing_inv(b, q, e, on, eliminated_at(x, diagonal(t), mask)),
        !on && q == diagonal(t) && holds(mask, e) ==> x_wing_inv(
            b,
            q,
            e,
            true,
            eliminated_at(x, diagonal(t), mask),
        ),
{
    let p = diagonal(t);
    let r = eliminated_at(x, p, mask);
    lemma_flat(p);
    lemma_flat(q);
    lemma_holds_ops();
    let c = x[p.flat()];
    if let _Cell::Unfilled(m) = c {
        crate::cell::_cell::lemma_and_keeps_mask(m, !mask);
        lemma_subset(m & !mask, m);
        assert(x[p.flat()] == b[p.flat()] || subset(m, b[p.flat()].bits()));
        if x[p.flat()] != b[p.flat()] {
            lemma_subset(m, b[p.flat()].bits());
            lemma_subset(m & !mask, b[p.flat()].bits());
        }
    } else {
        assert(r =~= x);
    }
    assert forall|k: int| 0 <= k < 81 implies #[trigger] r[k] == b[k] || (pos_of(k).col == pos_of(
        k,
    ).row && !b[k].filled() && !r[k].filled() && subset(r[k].bits(), b[k].bits())) by {
        assert(x[k] == b[k] || (pos_of(k).col == pos_of(k).row && !b[k].filled()
            && !x[k].filled() && subset(x[k].bits(), b[k].bits())));
    }
}

/// The x-wing elimination for one digit maintains `x_wing_inv`.
proof fn lemma_x_wing_inv_slots(
    b: Board,
    q: PuzzleIndex,
    e: u16,
    on: bool,
    x: Board,
    slots: u16,
    i: usize,
    j: usize,
    d: usize,
    from: usize,
)
    requires
        x_wing_inv(b, q, e, on, x),
        q.wf(),
    ensures
        x_wing_inv(b, q, e, on, repeat(x, x_wing_slot_step(slots, i, j, d), from, 9)),
{
    let step = x_wing_slot_step(slots, i, j, d);
    let inv = |y: Board| x_wing_inv(b, q, e, on, y);
    assert forall|y: Board, t: usize| from <= t < 9 && inv(y) implies inv(#[trigger] step(y, t)) by {
        lemma_x_wing_inv_eliminate(b, q, e, on, y, t, single(d as u16));
    }
    lemma_repeat(inv, x, step, from, 9);
}

/// The x-wing pass on two lines maintains `x_wing_inv`, from whichever digit it goes on.
proof fn lemma_x_wing_inv_digits(
    b: Board,
    q: PuzzleIndex,
    e: u16,
    on: bool,
    x: Board,
    first: Seq<u16>,
    second: Seq<u16>,
    i: usize,
    j: usize,
    from: usize,
)
    requires
        x_wing_inv(b, q, e, on, x),
        q.wf(),
    ensures
        x_wing_inv(b, q, e, on, repeat(x, x_wing_digit_step(first, second, i, j), from, 9)),
{
    let step = x_wing_digit_step(first, second, i, j);
    let inv = |y: Board| x_wing_inv(b, q, e, on, y);
    assert forall|y: Board, d: usize| from <= d < 9 && inv(y) implies inv(#[trigger] step(y, d)) by {
        lemma_x_wing_inv_slots(b, q, e, on, y, first[d as int], i, j, d, 0);
    }
    lemma_repeat(inv, x, step, from, 9);
}

/// The x-wing pass changes no cell off the diagonal of the grid, and no fixed cell; an open
/// cell on the diagonal stays open and keeps a part of its candidates.
pub proof fn lemma_x_wing_scope(b: Board)
    requires
        board_wf(b),
    ensures
        narrowed_on_diagonal(b, x_wing(b)),
{
    let q = diagonal(0);
    let inv = |y: Board| x_wing_inv(b, q, 0, false, y);
    let outer = x_wing_outer();
    assert forall|y: Board, i: usize| 0 <= i < 9 && inv(y) implies inv(#[trigger] outer(y, i)) by {
        let inner = x_wing_inner(i);
        assert forall|z: Board, j: usize| i + 1 <= j < 9 && inv(z) implies inv(
            #[trigger] inner(z, j),
        ) by {
            let c1 = SliceType::Col(i);
            let c2 = SliceType::Col(j);
            let r1 = SliceType::Row(i);
            let r2 = SliceType::Row(j);
            lemma_x_wing_inv_digits(
                b,
                q,
                0,
                false,
                z,
                occurrences(z, c1),
                occurrences(z, c2),
                i,
                j,
                0,
            );
            let z1 = x_wing_lines(z, c1, c2, i, j);
            lemma_x_wing_inv_digits(
                b,
                q,
                0,
                false,
                z1,
                occurrences(z1, r1),
                occurrences(z1, r2),
                i,
                j,
                0,
            );
        }
        lemma_repeat(inv, y, inner, (i + 1) as usize, 9);
    }
    lemma_repeat(inv, b, outer, 0, 9);
}

/// X-wing: where a digit occurs in two parallel lines `i` and `j` at the same two slots and at
/// no other, the pass on the two lines takes it from the cell on the diagonal at each of the
/// two slots, unless that cell lies in one of the two lines or is fixed.
#[verifier::rlimit(40)]
pub proof fn lemma_x_wing_removes(
    b: Board,
    first: SliceType,
    second: SliceType,
    i: usize,
    j: usize,
    d: usize,
    t: usize,
)
    requires
        board_wf(b),
        parallel(first, second, i, j),
        i < j < 9,
        d < 9,
        t < 9,
        count(occurrences(b, first)[d as int]) == 2,
        occurrences(b, second)[d as int] == occurrences(b, first)[d as int],
        holds(occurrences(b, first)[d as int], t as u16),
        t != i,
        t != j,
    ensures
        x_wing_lines(b, first, second, i, j)[diagonal(t).flat()].filled() == b[diagonal(
            t,
        ).flat()].filled(),
        b[diagonal(t).flat()].filled() || !x_wing_lines(b, first, second, i, j)[diagonal(
            t,
        ).flat()].allows(d + 1),
{
    let q = diagonal(t);
    let e = d as u16;
    let occ1 = occurrences(b, first);
    let occ2 = occurrences(b, second);
    let dstep = x_wing_digit_step(occ1, occ2, i, j);
    let slots = occ1[d as int];
    let sstep = x_wing_slot_step(slots, i, j, d);
    lemma_flat(q);
    assert(x_wing_inv(b, q, e, false, b));
    // the digits before `d`
    let xd = repeat(b, dstep, 0, d);
    lemma_x_wing_inv_digits_upto(b, q, e, b, occ1, occ2, i, j, d);
    lemma_repeat_split(b, dstep, 0, d, 9);
    let y = dstep(xd, d);
    assert(repeat(xd, dstep, d, 9) == repeat(y, dstep, (d + 1) as usize, 9));
    assert(y == repeat(xd, sstep, 0, 9));
    // the slots before `t`
    let zt = repeat(xd, sstep, 0, t);
    lemma_x_wing_inv_slots_upto(b, q, e, xd, slots, i, j, d, t);
    lemma_repeat_split(xd, sstep, 0, t, 9);
    let z1 = sstep(zt, t);
    assert(repeat(zt, sstep, t, 9) == repeat(z1, sstep, (t + 1) as usize, 9));
    lemma_holds_single();
    lemma_x_wing_inv_eliminate(b, q, e, false, zt, t, single(e));
    assert(x_wing_inv(b, q, e, true, z1));
    lemma_x_wing_inv_slots(b, q, e, true, z1, slots, i, j, d, (t + 1) as usize);
    lemma_x_wing_inv_digits(b, q, e, true, y, occ1, occ2, i, j, (d + 1) as usize);
    let r = x_wing_lines(b, first, second, i, j);
    assert(x_wing_inv(b, q, e, true, r));
}

/// The digits before `d` of the x-wing pass on two lines maintain `x_wing_inv`.
proof fn lemma_x_wing_inv_digits_upto(
    b: Board,
    q: PuzzleIndex,
    e: u16,
    x: Board,
    first: Seq<u16>,
    second: Seq<u16>,
    i: usize,
    j: usize,
    to: usize,
)
    requires
        x_wing_inv(b, q, e, false, x),
        q.wf(),
        to <= 9,
    ensures
        x_wing_inv(b, q, e, false, repeat(x, x_wing_digit_step(first, second, i, j), 0, to)),
{
    let step = x_wing_digit_step(first, second, i, j);
    let inv = |y: Board| x_wing_inv(b, q, e, false, y);
    assert forall|y: Board, d: usize| 0 <= d < to && inv(y) implies inv(#[trigger] step(y, d)) by {
        lemma_x_wing_inv_slots(b, q, e, false, y, first[d as int], i, j, d, 0);
    }
    lemma_repeat(inv, x, step, 0, to);
}

/// The slots before `to` of the x-wing elimination for one digit maintain `x_wing_inv`.
proof fn lemma_x_wing_inv_slots_upto(
    b: Board,
    q: PuzzleIndex,
    e: u16,
    x: Board,
    slots: u16,
    i: usize,
    j: usize,
    d: usize,
    to: usize,
)
    requires
        x_wing_inv(b, q, e, false, x),
        q.wf(),
        to <= 9,
    ensures
        x_wing_inv(b, q, e, false, repeat(x, x_wing_slot_step(slots, i, j, d), 0, to)),
{
    let step = x_wing_slot_step(slots, i, j, d);
    let inv = |y: Board| x_wing_inv(b, q, e, false, y);
    assert forall|y: Board, t: usize| 0 <= t < to && inv(y) implies inv(#[trigger] step(y, t)) by {
        lemma_x_wing_inv_eliminate(b, q, e, false, y, t, single(d as u16));
    }
    lemma_repeat(inv, x, step, 0, to);
}

/// What no solution of a grid gives a cell, no solution of a grid that has moved on from it
/// gives that cell.
pub proof fn lemma_excluded_later(a: Board, x: Board, p: PuzzleIndex, mask: u16)
    requires
        advances(a, x),
        excluded(a, p, mask),
    ensures
        excluded(x, p, mask),
{
    assert forall|s: Seq<u8>| #[trigger] is_solution(s) && compatible(x, s) implies !holds(
        mask,
        (value_at(s, p) - 1) as u16,
    ) by {
        lemma_compatible_back(a, x, s);
    }
}

/// A cell that admits a value outside `mask`, and from which `mask` was taken, has no digit
/// of `mask`.
proof fn lemma_eliminated_clear(c: _Cell, mask: u16, v: int)
    requires
        c.wf(),
        c.allows(v),
        !holds(mask, (v - 1) as u16),
    ensures
        c.eliminated(mask).bits() & mask == 0,
{
    lemma_holds_ops();
    lemma_holds_single();
    match c {
        _Cell::Unfilled(m) => {
            assert((m & !mask) & mask == 0) by (bit_vector);
        },
        _Cell::Filled(w) => {
            let one = single((w - 1) as u16);
            assert forall|z: u16| z < 16 implies holds(one & mask, z) == holds(0, z) by {}
            lemma_mask_ext(one & mask, 0);
        },
    }
}

/// On a grid that admits a solution, after digits that no solution gives them were struck
/// from the cells of a unit other than those at the slots `i`, `j`, `k`, none of those cells
/// has any of the digits.
#[verifier::rlimit(40)]
pub proof fn lemma_strike_others_clears(
    x: Board,
    unit: SliceType,
    i: usize,
    j: usize,
    k: usize,
    mask: u16,
    s: Seq<u8>,
    l: usize,
)
    requires
        board_wf(x),
        unit.wf(),
        is_solution(s),
        compatible(x, s),
        l < 9,
        l != i,
        l != j,
        l != k,
        forall|n: usize|
            n < 9 && n != i && n != j && n != k ==> excluded(x, #[trigger] unit.at(n), mask),
    ensures
        strike_others(x, unit, i, j, k, mask)[unit.at(l).flat()].bits() & mask == 0,
{
    let step = strike_others_step(unit, i, j, k, mask);
    let p = unit.at(l);
    lemma_slot(unit, l);
    lemma_flat(p);
    lemma_keeps_refl(x);
    assert forall|z: Board, n: usize| 0 <= n < l && keeps(x, z) implies keeps(
        x,
        #[trigger] step(z, n),
    ) by {
        if !(n == i || n == j || n == k) {
            lemma_slot(unit, n);
            assert(excluded(x, unit.at(n), mask));
            lemma_keeps_struck(x, z, unit.at(n), mask);
        }
    }
    lemma_repeat_keeps(x, x, step, 0, l);
    let xl = repeat(x, step, 0, l);
    lemma_repeat_split(x, step, 0, l, 9);
    let e = eliminated_at(xl, p, mask);
    let y = step(xl, l);
    assert(repeat(xl, step, l, 9) == repeat(y, step, (l + 1) as usize, 9));
    assert(excluded(x, p, mask));
    lemma_keeps_eliminate(x, xl, p, mask);
    assert(compatible(xl, s));
    assert(xl[p.flat()].allows(s[p.flat()] as int));
    lemma_eliminated_clear(xl[p.flat()], mask, s[p.flat()] as int);
    lemma_keeps_refl(e);
    lemma_keeps_determine(e, e, p);
    assert forall|z: Board, n: usize| l + 1 <= n < 9 && keeps(e, z) implies keeps(
        e,
        #[trigger] step(z, n),
    ) by {
        if !(n == i || n == j || n == k) {
            lemma_slot(unit, n);
            assert(excluded(x, unit.at(n), mask));
            lemma_excluded_later(x, e, unit.at(n), mask);
            lemma_keeps_struck(e, z, unit.at(n), mask);
        }
    }
    lemma_repeat_keeps(e, y, step, (l + 1) as usize, 9);
    let r = strike_others(x, unit, i, j, k, mask);
    assert(cell_advances(e[p.flat()], r[p.flat()]));
    super::cascade::lemma_disjoint_subset(r[p.flat()].bits(), e[p.flat()].bits(), mask);
}

/// Naked pair: where the grid admits a solution, and the pass comes to two open cells of a
/// unit that have two candidates between them, no other cell of the unit has either
/// candidate after the step.
pub proof fn lemma_naked_pair_clears(
    x: Board,
    unit: SliceType,
    i: usize,
    j: usize,
    s: Seq<u8>,
    l: usize,
)
    requires
        board_wf(x),
        unit.wf(),
        is_solution(s),
        compatible(x, s),
        i < j < 9,
        l < 9,
        l != i,
        l != j,
        !slot_filled(x, unit, j),
        count(slot_bits(x, unit, i) | slot_bits(x, unit, j)) == 2,
    ensures
        naked_pair_at(x, unit, i, j)[unit.at(l).flat()].bits() & (slot_bits(x, unit, i)
            | slot_bits(x, unit, j)) == 0,
{
    let bit = slot_bits(x, unit, i) | slot_bits(x, unit, j);
    assert forall|n: usize| n < 9 && n != i && n != j implies excluded(
        x,
        #[trigger] unit.at(n),
        bit,
    ) by {
        lemma_naked_pair_excluded(x, unit, i, j, n);
    }
    lemma_strike_others_clears(x, unit, i, j, j, bit, s, l);
}

/// Naked triple: where the grid admits a solution, and the pass comes to three open cells
/// of a unit that have three candidates between them, no other cell of the unit has any of
/// the three after the step.
pub proof fn lemma_naked_triple_clears(
    x: Board,
    unit: SliceType,
    i: usize,
    j: usize,
    k: usize,
    s: Seq<u8>,
    l: usize,
)
    requires
        board_wf(x),
        unit.wf(),
        is_solution(s),
        compatible(x, s),
        i < j < k < 9,
        l < 9,
        l != i,
        l != j,
        l != k,
        !slot_filled(x, unit, k),
        count(slot_bits(x, unit, i) | slot_bits(x, unit, j) | slot_bits(x, unit, k)) == 3,
    ensures
        naked_triple_at(x, unit, i, j, k)[unit.at(l).flat()].bits() & (slot_bits(x, unit, i)
            | slot_bits(x, unit, j) | slot_bits(x, unit, k)) == 0,
{
    let bit = slot_bits(x, unit, i) | slot_bits(x, unit, j) | slot_bits(x, unit, k);
    assert forall|n: usize| n < 9 && n != i && n != j && n != k implies excluded(
        x,
        #[trigger] unit.at(n),
        bit,
    ) by {
        lemma_naked_triple_excluded(x, unit, i, j, k, n);
    }
    lemma_strike_others_clears(x, unit, i, j, k, bit, s, l);
}

/// In `r`, every cell of the unit that was the only one to carry a digit in `b` is fixed to
/// the value of that digit.
pub open spec fn hidden_singles_fixed(b: Board, r: Board, unit: SliceType) -> bool {
    forall|d: usize|
        d < 9 && count(#[trigger] occurrences(b, unit)[d as int]) == 1 ==> r[unit.at(
            lowest(occurrences(b, unit)[d as int]) as usize,
        ).flat()] == _Cell::Filled((d + 1) as u8)
}

/// Hidden single, on one unit and for all its digits: on a grid that admits a solution, the
/// pass on a unit fixes every cell that is the only one of the unit to carry a digit.
pub proof fn lemma_hidden_single_unit(b: Board, unit: SliceType)
    requires
        board_wf(b),
        unit.wf(),
        solvable(b),
    ensures
        hidden_singles_fixed(b, hidden_single_unit(b, unit), unit),
{
    let s = choose|s: Seq<u8>| #[trigger] is_solution(s) && compatible(b, s);
    assert forall|d: usize|
        d < 9 && count(#[trigger] occurrences(b, unit)[d as int]) == 1 implies hidden_single_unit(
        b,
        unit,
    )[unit.at(lowest(occurrences(b, unit)[d as int]) as usize).flat()] == _Cell::Filled(
        (d + 1) as u8,
    ) by {
        lemma_hidden_single_fixes(b, unit, d, s);
    }
}

/// Hidden single, over the grid and for all units and digits: on a grid that admits a
/// solution, the pass fixes every cell that is the only one of a unit to carry a digit.
pub proof fn lemma_hidden_single_pass(b: Board)
    requires
        board_wf(b),
        solvable(b),
    ensures
        forall|unit: SliceType|
            unit.wf() ==> #[trigger] hidden_singles_fixed(
                b,
                each_unit(b, UnitPass::HiddenSingle),
                unit,
            ),
{
    let s = choose|s: Seq<u8>| #[trigger] is_solution(s) && compatible(b, s);
    let r = each_unit(b, UnitPass::HiddenSingle);
    assert forall|unit: SliceType| unit.wf() implies #[trigger] hidden_singles_fixed(
        b,
        r,
        unit,
    ) by {
        assert forall|d: usize|
            d < 9 && count(#[trigger] occurrences(b, unit)[d as int]) == 1 implies r[unit.at(
            lowest(occurrences(b, unit)[d as int]) as usize,
        ).flat()] == _Cell::Filled((d + 1) as u8) by {
            lemma_hidden_single_pass_fixes(b, unit, d, s);
        }
    }
}

} // verus!
