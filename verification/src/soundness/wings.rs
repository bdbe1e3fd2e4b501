//! The xy-wing pass keeps the grid.

use super::model::{
    advances, cell_advances, compatible, is_solution, keeps, lemma_flat, lemma_keeps_refl,
    lemma_keeps_trans, lemma_pos_of, value_at,
};
use super::steps::{excluded, lemma_keeps_eliminate, lemma_repeat_keeps};
use crate::bits::{
    count, holds, is_mask, lemma_count_at_most_one, lemma_count_at_most_three,
    lemma_count_at_most_two, lemma_count_subset, lemma_holds_ops, lemma_is_mask, lemma_mask_ext,
    subset,
};
use crate::puzzle::board::{Board, board_wf, pos_of};
use crate::puzzle::passes::{
    eliminated_at, is_pincer, pincers, pincers_in, repeat, same_group, wing_block_step, xy_wing,
    xy_wing_at, xy_wing_inner, xy_wing_outer, xy_wing_step,
};
use crate::puzzle::PuzzleIndex;
use crate::puzzle::slice_type::{lemma_slot, SliceType};
use vstd::prelude::*;

verus! {

/// Every entry of the list is a pincer of the pivot in one of its units, and none is listed
/// twice.
pub open spec fn pincer_list(b: Board, pivot: PuzzleIndex, list: Seq<PuzzleIndex>) -> bool {
    &&& forall|n: int|
        0 <= n < list.len() ==> (#[trigger] list[n]).wf() && is_pincer(b, pivot, list[n]) && (
        list[n].row == pivot.row || list[n].col == pivot.col || list[n].block() == pivot.block())
    &&& forall|m: int, n: int| 0 <= m < n < list.len() ==> list[m] != list[n]
}

/// Collecting the pincers of a unit of the pivot keeps the list a list of pincers.
proof fn lemma_pincers_in(
    b: Board,
    pivot: PuzzleIndex,
    unit: SliceType,
    i: usize,
    found: Seq<PuzzleIndex>,
)
    requires
        pivot.wf(),
        unit.wf(),
        unit.holds(pivot),
        i <= 9,
        pincer_list(b, pivot, found),
    ensures
        pincer_list(b, pivot, pincers_in(b, pivot, unit, i, found)),
    decreases 9 - i,
{
    if i < 9 {
        let p = unit.at(i);
        lemma_slot(unit, i);
        let f = if is_pincer(b, pivot, p) && !found.contains(p) {
            found.push(p)
        } else {
            found
        };
        if is_pincer(b, pivot, p) && !found.contains(p) {
            assert forall|m: int, n: int| 0 <= m < n < f.len() implies f[m] != f[n] by {
                if n == found.len() {
                    assert(found[m] == f[m]);
                    assert(found.contains(found[m]));
                }
            }
        }
        lemma_pincers_in(b, pivot, unit, (i + 1) as usize, f);
    }
}

/// The pincers of a pivot are a list of pincers.
pub proof fn lemma_pincers(b: Board, pivot: PuzzleIndex)
    requires
        pivot.wf(),
    ensures
        pincer_list(b, pivot, pincers(b, pivot)),
{
    let f0 = Seq::<PuzzleIndex>::empty();
    let f1 = pincers_in(b, pivot, SliceType::Row(pivot.row), 0, f0);
    let f2 = pincers_in(b, pivot, SliceType::Col(pivot.col), 0, f1);
    lemma_pincers_in(b, pivot, SliceType::Row(pivot.row), 0, f0);
    lemma_pincers_in(b, pivot, SliceType::Col(pivot.col), 0, f1);
    lemma_pincers_in(b, pivot, SliceType::Block(pivot.block() as usize), 0, f2);
}

/// Two cells that the pivot sees, and that do not lie in one unit with it, differ in their
/// row and in their column.
#[verifier::rlimit(40)]
proof fn lemma_wing_cross(p: PuzzleIndex, i: PuzzleIndex, j: PuzzleIndex)
    requires
        p.wf(),
        i.wf(),
        j.wf(),
        p.sees(i),
        p.sees(j),
        i != j,
        !same_group(p, i, j),
    ensures
        i.col != j.col,
        i.row != j.row,
{
    let pa = p.col / 3;
    let pb = p.row / 3;
    let ia = i.col / 3;
    let ib = i.row / 3;
    let ja = j.col / 3;
    let jb = j.row / 3;
    assert(p.block() == pa * 3 + pb && i.block() == ia * 3 + ib && j.block() == ja * 3 + jb);
    assert(0 <= pa < 3 && 0 <= pb < 3 && 0 <= ia < 3 && 0 <= ib < 3 && 0 <= ja < 3 && 0 <= jb < 3);
    assert(p.block() == i.block() <==> pa == ia && pb == ib);
    assert(p.block() == j.block() <==> pa == ja && pb == jb);
    assert(i.block() == j.block() <==> ia == ja && ib == jb);
}

/// Parts of two masks meet in a part of where the masks meet.
proof fn lemma_and_subset(a: u16, a1: u16, b: u16, b1: u16)
    requires
        subset(a, a1),
        subset(b, b1),
    ensures
        subset(a & b, a1 & b1),
{
    assert(a & !a1 == 0 && b & !b1 == 0 ==> (a & b) & !(a1 & b1) == 0) by (bit_vector);
}

/// The two pincers and the pivot are such that the xy-wing conclusion holds for them: they
/// are three cells, the pivot sees both pincers, each pincer has at most two candidates and
/// shares at most one with the pivot.
pub open spec fn wing(x: Board, pivot: PuzzleIndex, i: PuzzleIndex, j: PuzzleIndex) -> bool {
    &&& pivot.wf() && i.wf() && j.wf()
    &&& pivot.sees(i) && pivot.sees(j) && i != j
    &&& count(x[i.flat()].bits()) <= 2
    &&& count(x[j.flat()].bits()) <= 2
    &&& count(x[i.flat()].bits() & x[pivot.flat()].bits()) <= 1
    &&& count(x[j.flat()].bits() & x[pivot.flat()].bits()) <= 1
}

/// The candidate that the two pincers of an xy-wing share is not the value of a cell that
/// sees both.
#[verifier::rlimit(40)]
proof fn lemma_wing_excluded(
    x: Board,
    pivot: PuzzleIndex,
    i: PuzzleIndex,
    j: PuzzleIndex,
    t: PuzzleIndex,
)
    requires
        board_wf(x),
        wing(x, pivot, i, j),
        count(x[i.flat()].bits() | x[j.flat()].bits() | x[pivot.flat()].bits()) == 3,
        (x[i.flat()].bits() & x[pivot.flat()].bits()) != (x[j.flat()].bits() & x[pivot.flat()].bits()),
        t.wf(),
        t.sees(i),
        t.sees(j),
    ensures
        excluded(x, t, x[i.flat()].bits() & x[j.flat()].bits()),
{
    lemma_flat(pivot);
    lemma_flat(i);
    lemma_flat(j);
    lemma_flat(t);
    let bi = x[i.flat()].bits();
    let bj = x[j.flat()].bits();
    let bp = x[pivot.flat()].bits();
    let common = bi & bj;
    lemma_holds_ops();
    assert forall|s: Seq<u8>| #[trigger] is_solution(s) && compatible(x, s) implies !holds(
        common,
        (value_at(s, t) - 1) as u16,
    ) by {
        let c = (value_at(s, t) - 1) as u16;
        let si = (value_at(s, i) - 1) as u16;
        let sj = (value_at(s, j) - 1) as u16;
        let sp = (value_at(s, pivot) - 1) as u16;
        assert(x[i.flat()].allows(s[i.flat()] as int));
        assert(x[j.flat()].allows(s[j.flat()] as int));
        assert(x[pivot.flat()].allows(s[pivot.flat()] as int));
        assert(value_at(s, t) != value_at(s, i));
        assert(value_at(s, t) != value_at(s, j));
        assert(value_at(s, pivot) != value_at(s, i));
        assert(value_at(s, pivot) != value_at(s, j));
        if holds(common, c) {
            lemma_count_at_most_two(bi, c, si);
            lemma_count_at_most_two(bj, c, sj);
            assert(x[i.flat()].wf() && x[j.flat()].wf() && x[pivot.flat()].wf());
            lemma_masked(x[i.flat()]);
            lemma_masked(x[j.flat()]);
            lemma_is_mask(bi);
            lemma_is_mask(bj);
            lemma_is_mask(bi & bp);
            lemma_is_mask(bj & bp);
            if si == sj {
                assert forall|d: u16| d < 16 implies holds(bi, d) == holds(bj, d) by {}
                lemma_mask_ext(bi, bj);
                assert(false);
            } else {
                let all = bi | bj | bp;
                assert(holds(all, c) && holds(all, si) && holds(all, sj) && holds(all, sp));
                lemma_count_at_most_three(all, c, si, sj);
                assert(sp == c);
                lemma_count_at_most_one(bi & bp, c);
                lemma_count_at_most_one(bj & bp, c);
                assert forall|d: u16| d < 16 implies holds(bi & bp, d) == holds(bj & bp, d) by {}
                lemma_mask_ext(bi & bp, bj & bp);
                assert(false);
            }
        }
    }
}

/// The candidates of a valid cell are a nine-bit mask.
pub proof fn lemma_masked(c: crate::cell::_Cell)
    requires
        c.wf(),
    ensures
        is_mask(c.bits()),
{
    if c.filled() {
        crate::bits::lemma_single_count((c->Filled_0 - 1) as u16);
    }
}

/// The xy-wing elimination in the block of one pincer keeps the grid.
proof fn lemma_keeps_wing_block(
    x: Board,
    y: Board,
    pivot: PuzzleIndex,
    i: PuzzleIndex,
    j: PuzzleIndex,
    first: bool,
)
    requires
        board_wf(x),
        keeps(x, y),
        wing(x, pivot, i, j),
        count(x[i.flat()].bits() | x[j.flat()].bits() | x[pivot.flat()].bits()) == 3,
        (x[i.flat()].bits() & x[pivot.flat()].bits()) != (x[j.flat()].bits() & x[pivot.flat()].bits()),
    ensures
        keeps(
            x,
            repeat(
                y,
                wing_block_step(
                    SliceType::Block(
                        (if first {
                            i.block()
                        } else {
                            j.block()
                        }) as usize,
                    ),
                    i,
                    j,
                    if first {
                        j
                    } else {
                        i
                    },
                    x[i.flat()].bits() & x[j.flat()].bits(),
                ),
                0,
                9,
            ),
        ),
{
    let blk = SliceType::Block((if first {
        i.block()
    } else {
        j.block()
    }) as usize);
    let other = if first {
        j
    } else {
        i
    };
    let common = x[i.flat()].bits() & x[j.flat()].bits();
    let step = wing_block_step(blk, i, j, other, common);
    assert forall|z: Board, k: usize| 0 <= k < 9 && keeps(x, z) implies keeps(
        x,
        #[trigger] step(z, k),
    ) by {
        let p = blk.at(k);
        lemma_slot(blk, k);
        if !(p == i || p == j || (p.col != other.col && p.row != other.row)) {
            assert(p.sees(i));
            assert(p.sees(j));
            lemma_wing_excluded(x, pivot, i, j, p);
            lemma_keeps_eliminate(x, z, p, common);
        }
    }
    lemma_repeat_keeps(x, y, step, 0, 9);
}

/// The xy-wing step for a pivot and two of its pincers keeps the grid.
pub proof fn lemma_keeps_xy_wing_at(
    a: Board,
    x: Board,
    pivot: PuzzleIndex,
    i: PuzzleIndex,
    j: PuzzleIndex,
)
    requires
        keeps(a, x),
        wing(x, pivot, i, j),
    ensures
        keeps(a, xy_wing_at(x, pivot, i, j)),
{
    let bp = x[pivot.flat()].bits();
    let bi = x[i.flat()].bits();
    let bj = x[j.flat()].bits();
    if !same_group(pivot, i, j) && count(bi | bj | bp) == 3 && (bi & bp) != (bj & bp) {
        lemma_keeps_refl(x);
        lemma_wing_cross(pivot, i, j);
        let common = bi & bj;
        let t1 = PuzzleIndex { col: i.col, row: j.row };
        let t2 = PuzzleIndex { col: j.col, row: i.row };
        lemma_wing_excluded(x, pivot, i, j, t1);
        lemma_wing_excluded(x, pivot, i, j, t2);
        lemma_keeps_eliminate(x, x, t1, common);
        let x1 = eliminated_at(x, t1, common);
        lemma_keeps_eliminate(x, x1, t2, common);
        let x2 = eliminated_at(x1, t2, common);
        lemma_keeps_wing_block(x, x2, pivot, i, j, true);
        let x3 = repeat(
            x2,
            wing_block_step(SliceType::Block(i.block() as usize), i, j, j, common),
            0,
            9,
        );
        lemma_keeps_wing_block(x, x3, pivot, i, j, false);
        lemma_keeps_trans(a, x, xy_wing_at(x, pivot, i, j));
    }
}

/// Two pincers of a list are a wing on every grid that has moved on from the grid on which
/// the list was made.
proof fn lemma_wing_later(
    x: Board,
    y: Board,
    pivot: PuzzleIndex,
    found: Seq<PuzzleIndex>,
    m: int,
    n: int,
)
    requires
        board_wf(x),
        pivot.wf(),
        count(x[pivot.flat()].bits()) == 2,
        pincer_list(x, pivot, found),
        advances(x, y),
        0 <= m < n < found.len(),
    ensures
        wing(y, pivot, found[m], found[n]),
{
    let i = found[m];
    let j = found[n];
    lemma_flat(pivot);
    lemma_flat(i);
    lemma_flat(j);
    assert(cell_advances(x[i.flat()], y[i.flat()]));
    assert(cell_advances(x[j.flat()], y[j.flat()]));
    assert(cell_advances(x[pivot.flat()], y[pivot.flat()]));
    let xp = x[pivot.flat()].bits();
    assert(xp & xp == xp) by (bit_vector);
    assert(i != pivot);
    assert(j != pivot);
    lemma_count_subset(y[i.flat()].bits(), x[i.flat()].bits());
    lemma_count_subset(y[j.flat()].bits(), x[j.flat()].bits());
    lemma_and_subset(y[i.flat()].bits(), x[i.flat()].bits(), y[pivot.flat()].bits(), xp);
    lemma_and_subset(y[j.flat()].bits(), x[j.flat()].bits(), y[pivot.flat()].bits(), xp);
    lemma_count_subset(y[i.flat()].bits() & y[pivot.flat()].bits(), x[i.flat()].bits() & xp);
    lemma_count_subset(y[j.flat()].bits() & y[pivot.flat()].bits(), x[j.flat()].bits() & xp);
}

/// The xy-wing pass keeps the grid.
#[verifier::rlimit(40)]
pub proof fn lemma_keeps_xy_wing(b: Board)
    requires
        board_wf(b),
    ensures
        keeps(b, xy_wing(b)),
{
    lemma_keeps_refl(b);
    let step = xy_wing_step();
    assert forall|x: Board, k: usize| 0 <= k < 81 && keeps(b, x) implies keeps(
        b,
        #[trigger] step(x, k),
    ) by {
        if count(x[k as int].bits()) == 2 {
            let pivot = pos_of(k as int);
            lemma_pos_of(k as int);
            let found = pincers(x, pivot);
            lemma_pincers(x, pivot);
            lemma_keeps_refl(x);
            let outer = xy_wing_outer(pivot, found);
            let n = found.len() as usize;
            assert forall|y: Board, m: usize| 0 <= m < n && keeps(x, y) implies keeps(
                x,
                #[trigger] outer(y, m),
            ) by {
                let inner = xy_wing_inner(pivot, found, m);
                assert forall|z: Board, c: usize| m + 1 <= c < n && keeps(x, z) implies keeps(
                    x,
                    #[trigger] inner(z, c),
                ) by {
                    lemma_wing_later(x, z, pivot, found, m as int, c as int);
                    lemma_keeps_xy_wing_at(x, z, pivot, found[m as int], found[c as int]);
                }
                lemma_repeat_keeps(x, y, inner, (m + 1) as usize, n);
            }
            lemma_repeat_keeps(x, x, outer, 0, n);
            lemma_keeps_trans(b, x, step(x, k));
        }
    }
    lemma_repeat_keeps(b, b, step, 0, 81);
}

} // verus!
