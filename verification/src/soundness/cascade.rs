//! The cascade keeps what it should: sweeps and the working off of the stack.

use super::model::{
    advances, cell_advances, compatible, is_solution, keeps, lemma_advances_trans,
    lemma_filled_allows, lemma_flat, lemma_pos_of, settled, sound, value_at,
};
use crate::bits::{
    count, holds, lemma_count_one, lemma_holds_ops, lemma_holds_single, lemma_subset, single,
    subset,
};
use crate::cell::_Cell;
use crate::puzzle::board::{
    all_on_grid, Board, board_wf, drain, lemma_stacked, lemma_sweep, lemma_sweep_unit, lemma_swept,
    open_cells, pos_of, stacked, sweep, sweep_unit, swept,
};
use crate::puzzle::PuzzleIndex;
use crate::puzzle::slice_type::{lemma_sees_units, lemma_slot, lemma_slot_of, SliceType};
use vstd::prelude::*;

verus! {

/// Sweeping a cell twice is sweeping it once.
pub proof fn lemma_swept_twice(c: _Cell, bit: u16)
    requires
        c.wf(),
    ensures
        swept(swept(c, bit), bit) == swept(c, bit),
{
    if let _Cell::Unfilled(m) = c {
        assert((m & !bit) & !bit == m & !bit) by (bit_vector);
    }
}

/// An open cell that was swept has lost the digits of `bit`, and is not left with one
/// candidate.
pub proof fn lemma_swept_open(c: _Cell, bit: u16)
    requires
        c.wf(),
        !swept(c, bit).filled(),
    ensures
        swept(c, bit).bits() & bit == 0,
        count(swept(c, bit).bits()) != 1,
{
    let m = c->Unfilled_0;
    assert((m & !bit) & bit == 0) by (bit_vector);
}

/// What a sweep of the slots `i..9` of a unit leaves of each cell: the cells at those slots
/// are swept, the others are as they were.
#[verifier::rlimit(40)]
pub proof fn lemma_sweep_unit_cells(
    b: Board,
    unit: SliceType,
    bit: u16,
    i: usize,
    found: Seq<PuzzleIndex>,
)
    requires
        board_wf(b),
        unit.wf(),
        i <= 9,
    ensures
        sweep_unit(b, unit, bit, i, found).0.len() == 81,
        forall|t: usize|
            i <= t < 9 ==> sweep_unit(b, unit, bit, i, found).0[(#[trigger] unit.at(t)).flat()]
                == swept(b[unit.at(t).flat()], bit),
        forall|k: int|
            0 <= k < 81 ==> #[trigger] sweep_unit(b, unit, bit, i, found).0[k] == b[k]
                || sweep_unit(b, unit, bit, i, found).0[k] == swept(b[k], bit),
        forall|k: int|
            0 <= k < 81 && !unit.holds(pos_of(k)) ==> #[trigger] sweep_unit(
                b,
                unit,
                bit,
                i,
                found,
            ).0[k] == b[k],
    decreases 9 - i,
{
    let r = sweep_unit(b, unit, bit, i, found).0;
    if i < 9 {
        let p = unit.at(i);
        lemma_slot(unit, i);
        lemma_flat(p);
        let c = swept(b[p.flat()], bit);
        let f1 = if !b[p.flat()].filled() && c.filled() {
            found.push(p)
        } else {
            found
        };
        let b1 = b.update(p.flat(), c);
        lemma_swept(b[p.flat()], bit);
        lemma_swept_twice(b[p.flat()], bit);
        lemma_sweep_unit_cells(b1, unit, bit, (i + 1) as usize, f1);
        assert(r == sweep_unit(b1, unit, bit, (i + 1) as usize, f1).0);
        assert forall|t: usize| i <= t < 9 implies r[(#[trigger] unit.at(t)).flat()] == swept(
            b[unit.at(t).flat()],
            bit,
        ) by {
            lemma_slot(unit, t);
            lemma_flat(unit.at(t));
            if t == i {
                assert(r[p.flat()] == b1[p.flat()] || r[p.flat()] == swept(b1[p.flat()], bit));
            } else {
                assert(unit.at(t) != p);
                assert(unit.at(t).flat() != p.flat());
            }
        }
        assert forall|k: int| 0 <= k < 81 implies #[trigger] r[k] == b[k] || r[k] == swept(
            b[k],
            bit,
        ) by {
            assert(r[k] == b1[k] || r[k] == swept(b1[k], bit));
        }
        assert forall|k: int| 0 <= k < 81 && !unit.holds(pos_of(k)) implies #[trigger] r[k]
            == b[k] by {
            lemma_pos_of(k);
            assert(pos_of(k) != p);
            assert(r[k] == b1[k]);
        }
    }
}

/// Which cells a sweep of the slots `i..9` of a unit lists: those that were listed, and the
/// cells at those slots that were open and are now fixed.
#[verifier::rlimit(40)]
pub proof fn lemma_sweep_unit_found(
    b: Board,
    unit: SliceType,
    bit: u16,
    i: usize,
    found: Seq<PuzzleIndex>,
    q: PuzzleIndex,
)
    requires
        board_wf(b),
        unit.wf(),
        i <= 9,
    ensures
        sweep_unit(b, unit, bit, i, found).1.contains(q) <==> found.contains(q) || (exists|
            t: usize,
        |
            i <= t < 9 && q == #[trigger] unit.at(t) && !b[q.flat()].filled() && swept(
                b[q.flat()],
                bit,
            ).filled()),
    decreases 9 - i,
{
    if i < 9 {
        let p = unit.at(i);
        lemma_slot(unit, i);
        lemma_flat(p);
        let c = swept(b[p.flat()], bit);
        let f1 = if !b[p.flat()].filled() && c.filled() {
            found.push(p)
        } else {
            found
        };
        let b1 = b.update(p.flat(), c);
        lemma_swept(b[p.flat()], bit);
        lemma_sweep_unit_found(b1, unit, bit, (i + 1) as usize, f1, q);
        let later = exists|t: usize|
            i + 1 <= t < 9 && q == #[trigger] unit.at(t) && !b1[q.flat()].filled() && swept(
                b1[q.flat()],
                bit,
            ).filled();
        let now = exists|t: usize|
            i <= t < 9 && q == #[trigger] unit.at(t) && !b[q.flat()].filled() && swept(
                b[q.flat()],
                bit,
            ).filled();
        let here = q == p && !b[p.flat()].filled() && c.filled();
        assert(f1.contains(q) == (found.contains(q) || here)) by {
            if found.contains(q) {
                let n = choose|n: int| 0 <= n < found.len() && found[n] == q;
                assert(f1[n] == q);
            }
            if here {
                assert(f1[found.len() as int] == q);
            }
            if f1.contains(q) {
                let n = choose|n: int| 0 <= n < f1.len() && f1[n] == q;
                if n < found.len() {
                    assert(found[n] == q);
                }
            }
        }
        if later {
            let t = choose|t: usize|
                i + 1 <= t < 9 && q == #[trigger] unit.at(t) && !b1[q.flat()].filled() && swept(
                    b1[q.flat()],
                    bit,
                ).filled();
            lemma_slot(unit, t);
            lemma_flat(q);
            assert(q.flat() != p.flat());
            assert(i <= t < 9 && q == unit.at(t));
        }
        if now {
            let t = choose|t: usize|
                i <= t < 9 && q == #[trigger] unit.at(t) && !b[q.flat()].filled() && swept(
                    b[q.flat()],
                    bit,
                ).filled();
            if t == i {
                assert(here);
            } else {
                lemma_slot(unit, t);
                lemma_flat(q);
                assert(q.flat() != p.flat());
                assert(i + 1 <= t < 9 && q == unit.at(t));
                assert(later);
            }
        }
        if here {
            assert(i <= i < 9 && q == unit.at(i));
        }
        assert(now == (here || later));
    } else {
        if exists|t: usize|
            i <= t < 9 && q == #[trigger] unit.at(t) && !b[q.flat()].filled() && swept(
                b[q.flat()],
                bit,
            ).filled() {
            assert(false);
        }
    }
}

/// What a sweep from the cell at `pos` leaves of each cell: the cell itself and the cells
/// that it sees are swept, the others are as they were.
#[verifier::rlimit(40)]
pub proof fn lemma_sweep_cells(b: Board, pos: PuzzleIndex)
    requires
        board_wf(b),
        pos.wf(),
    ensures
        board_wf(sweep(b, pos).0),
        all_on_grid(sweep(b, pos).1),
        forall|k: int|
            0 <= k < 81 ==> #[trigger] sweep(b, pos).0[k] == if pos.sees(pos_of(k)) || pos_of(k)
                == pos {
                swept(b[k], b[pos.flat()].bits())
            } else {
                b[k]
            },
{
    let bit = b[pos.flat()].bits();
    let col = SliceType::Col(pos.col);
    let row = SliceType::Row(pos.row);
    let blk = SliceType::Block(pos.block() as usize);
    let none = Seq::<PuzzleIndex>::empty();
    let (b1, f1) = sweep_unit(b, col, bit, 0, none);
    let (b2, f2) = sweep_unit(b1, row, bit, 0, f1);
    let (r, f) = sweep_unit(b2, blk, bit, 0, f2);
    lemma_sweep(b, pos);
    lemma_sweep_unit(b, col, bit, 0, none);
    lemma_sweep_unit(b1, row, bit, 0, f1);
    lemma_sweep_unit_cells(b, col, bit, 0, none);
    lemma_sweep_unit_cells(b1, row, bit, 0, f1);
    lemma_sweep_unit_cells(b2, blk, bit, 0, f2);
    assert forall|k: int| 0 <= k < 81 implies #[trigger] r[k] == if pos.sees(pos_of(k)) || pos_of(
        k,
    ) == pos {
        swept(b[k], bit)
    } else {
        b[k]
    } by {
        lemma_pos_of(k);
        let q = pos_of(k);
        lemma_sees_units(pos, q);
        lemma_swept_twice(b[k], bit);
        lemma_swept(b[k], bit);
        lemma_swept_twice(swept(b[k], bit), bit);
        if col.holds(q) {
            lemma_slot_of(col, q);
            assert(b1[col.at(col.slot_of(q)).flat()] == swept(b[k], bit));
        }
        if row.holds(q) {
            lemma_slot_of(row, q);
            assert(b2[row.at(row.slot_of(q)).flat()] == swept(b1[k], bit));
        }
        if blk.holds(q) {
            lemma_slot_of(blk, q);
            assert(r[blk.at(blk.slot_of(q)).flat()] == swept(b2[k], bit));
        }
        assert(b1[k] == b[k] || b1[k] == swept(b[k], bit));
        assert(b2[k] == b1[k] || b2[k] == swept(b1[k], bit));
        assert(r[k] == b2[k] || r[k] == swept(b2[k], bit));
    }
}

/// A sweep lists exactly the cells that were open and are now fixed.
#[verifier::rlimit(40)]
pub proof fn lemma_sweep_found(b: Board, pos: PuzzleIndex, q: PuzzleIndex)
    requires
        board_wf(b),
        pos.wf(),
        q.wf(),
    ensures
        sweep(b, pos).1.contains(q) <==> !b[q.flat()].filled() && sweep(b, pos).0[q.flat()].filled(),
{
    let bit = b[pos.flat()].bits();
    let col = SliceType::Col(pos.col);
    let row = SliceType::Row(pos.row);
    let blk = SliceType::Block(pos.block() as usize);
    let none = Seq::<PuzzleIndex>::empty();
    let (b1, f1) = sweep_unit(b, col, bit, 0, none);
    let (b2, f2) = sweep_unit(b1, row, bit, 0, f1);
    let (r, f) = sweep_unit(b2, blk, bit, 0, f2);
    lemma_sweep_cells(b, pos);
    lemma_sweep_unit(b, col, bit, 0, none);
    lemma_sweep_unit(b1, row, bit, 0, f1);
    lemma_sweep_unit_cells(b, col, bit, 0, none);
    lemma_sweep_unit_cells(b1, row, bit, 0, f1);
    lemma_sweep_unit_cells(b2, blk, bit, 0, f2);
    lemma_sweep_unit_found(b, col, bit, 0, none, q);
    lemma_sweep_unit_found(b1, row, bit, 0, f1, q);
    lemma_sweep_unit_found(b2, blk, bit, 0, f2, q);
    lemma_flat(q);
    lemma_sees_units(pos, q);
    let k = q.flat();
    lemma_swept(b[k], bit);
    lemma_swept_twice(b[k], bit);
    lemma_swept(swept(b[k], bit), bit);
    assert(!none.contains(q));
    assert(b1[k] == b[k] || b1[k] == swept(b[k], bit));
    assert(b2[k] == b1[k] || b2[k] == swept(b1[k], bit));
    assert(r[k] == b2[k] || r[k] == swept(b2[k], bit));
    let in_col = exists|t: usize|
        0 <= t < 9 && q == #[trigger] col.at(t) && !b[q.flat()].filled() && swept(
            b[q.flat()],
            bit,
        ).filled();
    let in_row = exists|t: usize|
        0 <= t < 9 && q == #[trigger] row.at(t) && !b1[q.flat()].filled() && swept(
            b1[q.flat()],
            bit,
        ).filled();
    let in_blk = exists|t: usize|
        0 <= t < 9 && q == #[trigger] blk.at(t) && !b2[q.flat()].filled() && swept(
            b2[q.flat()],
            bit,
        ).filled();
    assert(f.contains(q) == (in_col || in_row || in_blk));
    if col.holds(q) {
        lemma_slot_of(col, q);
        assert(b1[col.at(col.slot_of(q)).flat()] == swept(b[k], bit));
        assert(0 <= col.slot_of(q) < 9 && q == col.at(col.slot_of(q)));
    }
    if row.holds(q) {
        lemma_slot_of(row, q);
        assert(b2[row.at(row.slot_of(q)).flat()] == swept(b1[k], bit));
        assert(0 <= row.slot_of(q) < 9 && q == row.at(row.slot_of(q)));
    }
    if blk.holds(q) {
        lemma_slot_of(blk, q);
        assert(r[blk.at(blk.slot_of(q)).flat()] == swept(b2[k], bit));
        assert(0 <= blk.slot_of(q) < 9 && q == blk.at(blk.slot_of(q)));
    }
    if in_col {
        let t = choose|t: usize|
            0 <= t < 9 && q == #[trigger] col.at(t) && !b[q.flat()].filled() && swept(
                b[q.flat()],
                bit,
            ).filled();
        lemma_slot(col, t);
    }
    if in_row {
        let t = choose|t: usize|
            0 <= t < 9 && q == #[trigger] row.at(t) && !b1[q.flat()].filled() && swept(
                b1[q.flat()],
                bit,
            ).filled();
        lemma_slot(row, t);
    }
    if in_blk {
        let t = choose|t: usize|
            0 <= t < 9 && q == #[trigger] blk.at(t) && !b2[q.flat()].filled() && swept(
                b2[q.flat()],
                bit,
            ).filled();
        lemma_slot(blk, t);
    }
}

/// A sweep lets every cell move on.
pub proof fn lemma_sweep_advances(b: Board, pos: PuzzleIndex)
    requires
        board_wf(b),
        pos.wf(),
    ensures
        advances(b, sweep(b, pos).0),
{
    lemma_sweep_cells(b, pos);
    let r = sweep(b, pos).0;
    let bit = b[pos.flat()].bits();
    assert forall|k: int| 0 <= k < 81 implies cell_advances(b[k], r[k]) by {
        lemma_swept(b[k], bit);
        lemma_subset(b[k].bits(), b[k].bits());
    }
}

/// A sweep from a fixed cell loses no solution.
#[verifier::rlimit(40)]
pub proof fn lemma_sweep_sound(b: Board, pos: PuzzleIndex)
    requires
        board_wf(b),
        pos.wf(),
        b[pos.flat()].filled(),
    ensures
        sound(b, sweep(b, pos).0),
{
    lemma_sweep_cells(b, pos);
    let r = sweep(b, pos).0;
    let bit = b[pos.flat()].bits();
    assert forall|s: Seq<u8>| #[trigger] is_solution(s) && compatible(b, s) implies compatible(
        r,
        s,
    ) by {
        assert forall|k: int| 0 <= k < 81 implies (#[trigger] r[k]).allows(s[k] as int) by {
            lemma_pos_of(k);
            lemma_flat(pos);
            let q = pos_of(k);
            assert(b[k].allows(s[k] as int));
            if pos.sees(q) {
                assert(value_at(s, pos) != value_at(s, q));
                assert(b[pos.flat()].allows(s[pos.flat()] as int));
                lemma_filled_allows(b[pos.flat()], s[pos.flat()] as int);
                lemma_holds_single();
                assert(bit == single((s[pos.flat()] - 1) as u16));
                assert(!holds(bit, (s[k] - 1) as u16));
                lemma_swept_allows(b[k], bit, s[k] as int);
            }
        }
    }
}

/// A swept cell still admits every value that it admitted and that is not in `bit`.
pub proof fn lemma_swept_allows(c: _Cell, bit: u16, v: int)
    requires
        c.wf(),
        c.allows(v),
        c.filled() || !holds(bit, (v - 1) as u16),
    ensures
        swept(c, bit).allows(v),
{
    lemma_holds_ops();
    lemma_holds_single();
    if let _Cell::Unfilled(m) = c {
        let e = m & !bit;
        crate::cell::_cell::lemma_and_keeps_mask(m, !bit);
        if count(e) == 1 {
            lemma_count_one(e);
        }
    }
}

/// The grid is settled but for the fixed cells on the stack, whose values have not been
/// taken from their units yet.
pub open spec fn settled_but(b: Board, stack: Seq<PuzzleIndex>) -> bool {
    forall|p: PuzzleIndex, q: PuzzleIndex|
        p.wf() && q.wf() && #[trigger] p.sees(q) && b[p.flat()].filled() && !b[q.flat()].filled()
            && !stack.contains(p) ==> b[q.flat()].bits() & b[p.flat()].bits() == 0
}

/// Every cell on the stack is fixed.
pub open spec fn all_filled(b: Board, stack: Seq<PuzzleIndex>) -> bool {
    forall|i: int| 0 <= i < stack.len() ==> b[(#[trigger] stack[i]).flat()].filled()
}

/// An entry of `stacked` was on the stack or is one of the first `j` entries of `found`, and
/// the other way round.
pub proof fn lemma_stacked_contains(
    stack: Seq<PuzzleIndex>,
    found: Seq<PuzzleIndex>,
    j: int,
    p: PuzzleIndex,
)
    requires
        0 <= j <= found.len(),
    ensures
        stacked(stack, found, j).contains(p) <==> stack.contains(p) || found.take(j).contains(p),
    decreases j,
{
    if j > 0 {
        let s1 = stack.push(found[j - 1]);
        lemma_stacked_contains(s1, found, j - 1, p);
        if s1.contains(p) {
            let n = choose|n: int| 0 <= n < s1.len() && s1[n] == p;
            if n < stack.len() {
                assert(stack[n] == p);
            } else {
                assert(found.take(j)[j - 1] == p);
                assert(found.take(j).contains(p));
            }
        }
        if stack.contains(p) {
            let n = choose|n: int| 0 <= n < stack.len() && stack[n] == p;
            assert(s1[n] == p);
        }
        let here = found.take(j);
        let before = found.take(j - 1);
        if here.contains(p) {
            let n = choose|n: int| 0 <= n < here.len() && here[n] == p;
            if n < j - 1 {
                assert(before[n] == p);
            } else {
                assert(s1[stack.len() as int] == p);
            }
        }
        if before.contains(p) {
            let n = choose|n: int| 0 <= n < before.len() && before[n] == p;
            assert(here[n] == p);
        }
    } else {
        assert(found.take(0).len() == 0);
    }
}

/// After one step of the working off, every cell on the new stack is fixed, and what was
/// settled but for the old stack is settled but for the new one.
#[verifier::rlimit(40)]
pub proof fn lemma_drain_step(b: Board, stack: Seq<PuzzleIndex>)
    requires
        board_wf(b),
        all_on_grid(stack),
        all_filled(b, stack),
        stack.len() > 0,
    ensures
        ({
            let (b1, found) = sweep(b, stack.last());
            let next = stacked(stack.drop_last(), found, found.len() as int);
            &&& all_filled(b1, next)
            &&& settled_but(b, stack) ==> settled_but(b1, next)
        }),
{
    let top = stack.last();
    let rest = stack.drop_last();
    let (b1, found) = sweep(b, top);
    let next = stacked(rest, found, found.len() as int);
    let bit = b[top.flat()].bits();
    lemma_sweep_cells(b, top);
    lemma_sweep_advances(b, top);
    assert(found.take(found.len() as int) =~= found);
    assert forall|i: int| 0 <= i < next.len() implies b1[(#[trigger] next[i]).flat()].filled() by {
        let p = next[i];
        assert(next.contains(p));
        lemma_stacked_contains(rest, found, found.len() as int, p);
        if rest.contains(p) {
            let n = choose|n: int| 0 <= n < rest.len() && rest[n] == p;
            assert(stack[n] == p);
            lemma_flat(p);
            assert(cell_advances(b[p.flat()], b1[p.flat()]));
        } else {
            let n = choose|n: int| 0 <= n < found.len() && found[n] == p;
            assert(found[n].wf());
            lemma_sweep_found(b, top, p);
        }
    }
    if settled_but(b, stack) {
        assert forall|p: PuzzleIndex, q: PuzzleIndex|
            p.wf() && q.wf() && #[trigger] p.sees(q) && b1[p.flat()].filled() && !b1[q.flat()].filled()
                && !next.contains(p) implies b1[q.flat()].bits() & b1[p.flat()].bits() == 0 by {
            lemma_flat(p);
            lemma_flat(q);
            assert(cell_advances(b[p.flat()], b1[p.flat()]));
            assert(cell_advances(b[q.flat()], b1[q.flat()]));
            lemma_stacked_contains(rest, found, found.len() as int, p);
            lemma_sweep_found(b, top, p);
            if !b[p.flat()].filled() {
                assert(false);
            } else if stack.contains(p) {
                let n = choose|n: int| 0 <= n < stack.len() && stack[n] == p;
                if n < stack.len() - 1 {
                    assert(rest[n] == p);
                    assert(false);
                }
                assert(p == top);
                lemma_swept_open(b[q.flat()], bit);
            } else {
                assert(b[q.flat()].bits() & b[p.flat()].bits() == 0);
                lemma_disjoint_subset(b1[q.flat()].bits(), b[q.flat()].bits(), b[p.flat()].bits());
            }
        }
    }
}

/// The working off of a stack of fixed cells keeps the grid valid, lets every cell move on
/// and loses no solution; and if the grid was settled but for the cells on the stack, it is
/// settled afterwards.
pub proof fn lemma_drain(b: Board, stack: Seq<PuzzleIndex>)
    requires
        board_wf(b),
        all_on_grid(stack),
        all_filled(b, stack),
    ensures
        board_wf(drain(b, stack)),
        advances(b, drain(b, stack)),
        sound(b, drain(b, stack)),
        settled_but(b, stack) ==> settled(drain(b, stack)),
    decreases open_cells(b) + stack.len(),
{
    if stack.len() == 0 {
        super::model::lemma_keeps_refl(b);
        if settled_but(b, stack) {
            assert forall|p: PuzzleIndex, q: PuzzleIndex|
                p.wf() && q.wf() && #[trigger] p.sees(q) && b[p.flat()].filled() && !b[q.flat()].filled() implies b[q.flat()].bits()
                & b[p.flat()].bits() == 0 by {
                assert(!stack.contains(p));
            }
        }
    } else {
        let top = stack.last();
        let rest = stack.drop_last();
        let (b1, found) = sweep(b, top);
        let next = stacked(rest, found, found.len() as int);
        lemma_sweep(b, top);
        lemma_sweep_advances(b, top);
        assert(b[top.flat()].filled());
        lemma_sweep_sound(b, top);
        lemma_stacked(rest, found, found.len() as int);
        lemma_drain_step(b, stack);
        assert(all_on_grid(rest));
        lemma_drain(b1, next);
        let r = drain(b1, next);
        lemma_advances_trans(b, b1, r);
        assert forall|s: Seq<u8>| #[trigger] is_solution(s) && compatible(b, s) implies compatible(
            r,
            s,
        ) by {
            assert(compatible(b1, s));
        }
    }
}

/// A part of a mask that misses `c` misses `c`.
pub proof fn lemma_disjoint_subset(a: u16, b: u16, c: u16)
    requires
        subset(a, b),
        b & c == 0,
    ensures
        a & c == 0,
{
    assert(a & !b == 0 && b & c == 0 ==> a & c == 0) by (bit_vector);
}

} // verus!
