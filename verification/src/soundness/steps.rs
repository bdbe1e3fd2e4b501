//! The steps of which every pass is made keep what they should, each under its own
//! condition.

use super::cascade::{all_filled, lemma_disjoint_subset, lemma_drain, settled_but};
use super::model::{
    advances, cell_advances, compatible, is_solution, keeps, lemma_advances_trans,
    lemma_compatible_back, lemma_flat, settled, sound, value_at,
};
use crate::bits::{
    holds, lemma_count_one, lemma_holds_ops, lemma_holds_single, lemma_single_count, lemma_subset,
    single, subset,
};
use crate::cell::_Cell;
use crate::puzzle::board::{
    all_on_grid, Board, board_wf, determined_at, drain, filled_at, propagated_from,
};
use crate::puzzle::passes::{eliminated_at, repeat, restricted_at, struck};
use crate::puzzle::PuzzleIndex;
use vstd::prelude::*;

verus! {

/// No solution that `a` admits gives the cell at `p` a value of `mask`.
pub open spec fn excluded(a: Board, p: PuzzleIndex, mask: u16) -> bool {
    forall|s: Seq<u8>|
        #[trigger] is_solution(s) && compatible(a, s) ==> !holds(mask, (value_at(s, p) - 1) as u16)
}

/// Every solution that `a` admits gives the cell at `p` a value of `mask`.
pub open spec fn confined(a: Board, p: PuzzleIndex, mask: u16) -> bool {
    forall|s: Seq<u8>|
        #[trigger] is_solution(s) && compatible(a, s) ==> holds(mask, (value_at(s, p) - 1) as u16)
}

/// Every solution that `a` admits gives the cell at `p` the value `v`.
pub open spec fn forced(a: Board, p: PuzzleIndex, v: u8) -> bool {
    forall|s: Seq<u8>| #[trigger] is_solution(s) && compatible(a, s) ==> value_at(s, p) == v
}

/// Replacing an open cell by an open cell with a part of its candidates keeps a settled grid
/// settled.
proof fn lemma_settled_shrink(b: Board, p: PuzzleIndex, c: _Cell)
    requires
        board_wf(b),
        p.wf(),
        settled(b),
        !b[p.flat()].filled(),
        !c.filled(),
        subset(c.bits(), b[p.flat()].bits()),
    ensures
        settled(b.update(p.flat(), c)),
{
    let r = b.update(p.flat(), c);
    lemma_flat(p);
    assert forall|x: PuzzleIndex, y: PuzzleIndex|
        x.wf() && y.wf() && #[trigger] x.sees(y) && r[x.flat()].filled() && !r[y.flat()].filled() implies r[y.flat()].bits()
        & r[x.flat()].bits() == 0 by {
        lemma_flat(x);
        lemma_flat(y);
        assert(b[y.flat()].bits() & b[x.flat()].bits() == 0);
        if y == p {
            lemma_disjoint_subset(c.bits(), b[p.flat()].bits(), b[x.flat()].bits());
        }
    }
}

/// Replacing one cell by a cell that has moved on from it, and that admits what the
/// solutions give it, keeps what was kept, but for being settled.
proof fn lemma_keeps_update(a: Board, b: Board, p: PuzzleIndex, c: _Cell)
    requires
        keeps(a, b),
        p.wf(),
        c.wf(),
        cell_advances(b[p.flat()], c),
        forall|s: Seq<u8>|
            #[trigger] is_solution(s) && compatible(b, s) ==> c.allows(value_at(s, p) as int),
    ensures
        board_wf(b.update(p.flat(), c)),
        advances(a, b.update(p.flat(), c)),
        advances(b, b.update(p.flat(), c)),
        sound(a, b.update(p.flat(), c)),
        sound(b, b.update(p.flat(), c)),
{
    let r = b.update(p.flat(), c);
    lemma_flat(p);
    assert forall|k: int| 0 <= k < 81 implies cell_advances(b[k], r[k]) by {
        lemma_subset(b[k].bits(), b[k].bits());
    }
    lemma_advances_trans(a, b, r);
    assert forall|s: Seq<u8>| #[trigger] is_solution(s) && compatible(b, s) implies compatible(
        r,
        s,
    ) by {
        assert(c.allows(value_at(s, p) as int));
    }
    assert forall|s: Seq<u8>| #[trigger] is_solution(s) && compatible(a, s) implies compatible(
        r,
        s,
    ) by {
        assert(compatible(b, s));
    }
}

/// Taking digits from a cell, or cutting it down to some digits, leaves the grid valid, lets
/// every cell move on and leaves a settled grid settled.
pub proof fn lemma_edit(b: Board, p: PuzzleIndex, mask: u16)
    requires
        board_wf(b),
        p.wf(),
    ensures
        board_wf(eliminated_at(b, p, mask)),
        advances(b, eliminated_at(b, p, mask)),
        settled(b) ==> settled(eliminated_at(b, p, mask)),
        board_wf(restricted_at(b, p, mask)),
        advances(b, restricted_at(b, p, mask)),
        settled(b) ==> settled(restricted_at(b, p, mask)),
{
    lemma_flat(p);
    lemma_holds_ops();
    let c0 = b[p.flat()];
    let e = c0.eliminated(mask);
    let r = c0.restricted(mask);
    lemma_subset(c0.bits(), c0.bits());
    if let _Cell::Unfilled(m) = c0 {
        crate::cell::_cell::lemma_and_keeps_mask(m, !mask);
        crate::cell::_cell::lemma_and_keeps_mask(m, mask);
        lemma_subset(m & !mask, m);
        lemma_subset(m & mask, m);
        if settled(b) {
            lemma_settled_shrink(b, p, e);
            lemma_settled_shrink(b, p, r);
        }
    } else {
        assert(b.update(p.flat(), e) =~= b);
        assert(b.update(p.flat(), r) =~= b);
    }
    assert forall|k: int| 0 <= k < 81 implies cell_advances(b[k], eliminated_at(b, p, mask)[k])
        && cell_advances(b[k], restricted_at(b, p, mask)[k]) by {
        lemma_subset(b[k].bits(), b[k].bits());
    }
}

/// Taking from a cell digits that no solution gives it keeps the grid.
pub proof fn lemma_keeps_eliminate(a: Board, b: Board, p: PuzzleIndex, mask: u16)
    requires
        keeps(a, b),
        p.wf(),
        excluded(a, p, mask),
    ensures
        keeps(a, eliminated_at(b, p, mask)),
{
    lemma_flat(p);
    lemma_holds_ops();
    let c0 = b[p.flat()];
    let c = c0.eliminated(mask);
    lemma_subset(c0.bits(), c0.bits());
    if let _Cell::Unfilled(m) = c0 {
        crate::cell::_cell::lemma_and_keeps_mask(m, !mask);
        lemma_subset(m & !mask, m);
    }
    assert forall|s: Seq<u8>| #[trigger] is_solution(s) && compatible(b, s) implies c.allows(
        value_at(s, p) as int,
    ) by {
        lemma_compatible_back(a, b, s);
        assert(c0.allows(s[p.flat()] as int));
    }
    lemma_keeps_update(a, b, p, c);
    if settled(a) && !c0.filled() {
        lemma_settled_shrink(b, p, c);
    }
    if c0.filled() {
        assert(b.update(p.flat(), c) =~= b);
    }
}

/// Cutting a cell down to digits among which every solution has its value keeps the grid.
pub proof fn lemma_keeps_restrict(a: Board, b: Board, p: PuzzleIndex, mask: u16)
    requires
        keeps(a, b),
        p.wf(),
        confined(a, p, mask),
    ensures
        keeps(a, restricted_at(b, p, mask)),
{
    lemma_flat(p);
    lemma_holds_ops();
    let c0 = b[p.flat()];
    let c = c0.restricted(mask);
    lemma_subset(c0.bits(), c0.bits());
    if let _Cell::Unfilled(m) = c0 {
        crate::cell::_cell::lemma_and_keeps_mask(m, mask);
        lemma_subset(m & mask, m);
    }
    assert forall|s: Seq<u8>| #[trigger] is_solution(s) && compatible(b, s) implies c.allows(
        value_at(s, p) as int,
    ) by {
        lemma_compatible_back(a, b, s);
        assert(c0.allows(s[p.flat()] as int));
    }
    lemma_keeps_update(a, b, p, c);
    if settled(a) && !c0.filled() {
        lemma_settled_shrink(b, p, c);
    }
    if c0.filled() {
        assert(b.update(p.flat(), c) =~= b);
    }
}

/// A settled grid in which one open cell becomes fixed is settled but for that cell.
proof fn lemma_settled_but_one(b: Board, p: PuzzleIndex, c: _Cell)
    requires
        board_wf(b),
        p.wf(),
        settled(b),
        !b[p.flat()].filled(),
        c.filled(),
    ensures
        settled_but(b.update(p.flat(), c), seq![p]),
{
    let r = b.update(p.flat(), c);
    lemma_flat(p);
    assert forall|x: PuzzleIndex, y: PuzzleIndex|
        x.wf() && y.wf() && #[trigger] x.sees(y) && r[x.flat()].filled() && !r[y.flat()].filled()
            && !seq![p].contains(x) implies r[y.flat()].bits() & r[x.flat()].bits() == 0 by {
        lemma_flat(x);
        lemma_flat(y);
        assert(seq![p][0] == p);
        assert(x != p);
        assert(b[y.flat()].bits() & b[x.flat()].bits() == 0);
    }
}

/// The cascade from a cell keeps the grid.
pub proof fn lemma_keeps_propagate(a: Board, b: Board, p: PuzzleIndex)
    requires
        keeps(a, b),
        p.wf(),
    ensures
        keeps(a, propagated_from(b, p)),
{
    if b[p.flat()].filled() {
        let stack = seq![p];
        assert(all_on_grid(stack));
        assert(all_filled(b, stack));
        lemma_drain(b, stack);
        let r = drain(b, stack);
        lemma_advances_trans(a, b, r);
        assert forall|s: Seq<u8>| #[trigger] is_solution(s) && compatible(a, s) implies compatible(
            r,
            s,
        ) by {
            assert(compatible(b, s));
        }
    }
}

/// Asking a cell to settle keeps the grid.
pub proof fn lemma_keeps_determine(a: Board, b: Board, p: PuzzleIndex)
    requires
        keeps(a, b),
        p.wf(),
    ensures
        keeps(a, determined_at(b, p)),
{
    lemma_flat(p);
    let c0 = b[p.flat()];
    let c = c0.determined();
    if !c0.filled() && c.filled() {
        let m = c0->Unfilled_0;
        lemma_count_one(m);
        lemma_single_count(crate::bits::lowest(m));
        lemma_subset(m, m);
        lemma_holds_single();
        assert forall|s: Seq<u8>| #[trigger] is_solution(s) && compatible(b, s) implies c.allows(
            value_at(s, p) as int,
        ) by {
            assert(c0.allows(s[p.flat()] as int));
        }
        lemma_keeps_update(a, b, p, c);
        let b1 = b.update(p.flat(), c);
        let stack = seq![p];
        assert(all_on_grid(stack));
        assert(all_filled(b1, stack));
        lemma_drain(b1, stack);
        let r = drain(b1, stack);
        assert(r == determined_at(b, p));
        lemma_advances_trans(a, b1, r);
        assert forall|s: Seq<u8>| #[trigger] is_solution(s) && compatible(a, s) implies compatible(
            r,
            s,
        ) by {
            assert(compatible(b1, s));
        }
        if settled(a) {
            lemma_settled_but_one(b, p, c);
        }
    }
}

/// Taking from a cell digits that no solution gives it, and asking it to settle, keeps the
/// grid.
pub proof fn lemma_keeps_struck(a: Board, b: Board, p: PuzzleIndex, mask: u16)
    requires
        keeps(a, b),
        p.wf(),
        excluded(a, p, mask),
    ensures
        keeps(a, struck(b, p, mask)),
{
    lemma_keeps_eliminate(a, b, p, mask);
    lemma_keeps_determine(a, eliminated_at(b, p, mask), p);
}

/// Writing to a cell the value that every solution gives it, a value that was among its
/// candidates, keeps the grid.
pub proof fn lemma_keeps_fill(a: Board, b: Board, p: PuzzleIndex, v: u8)
    requires
        keeps(a, b),
        p.wf(),
        1 <= v <= 9,
        a[p.flat()].allows(v as int),
        forced(a, p, v),
    ensures
        keeps(a, filled_at(b, p, v)),
{
    lemma_flat(p);
    let c0 = b[p.flat()];
    if !c0.filled() {
        let c = _Cell::Filled(v);
        let b1 = b.update(p.flat(), c);
        lemma_holds_single();
        lemma_holds_ops();
        assert(cell_advances(a[p.flat()], c0));
        lemma_subset(single((v - 1) as u16), a[p.flat()].bits());
        assert forall|k: int| 0 <= k < 81 implies cell_advances(a[k], b1[k]) by {
            assert(cell_advances(a[k], b[k]));
        }
        assert forall|s: Seq<u8>| #[trigger] is_solution(s) && compatible(a, s) implies compatible(
            b1,
            s,
        ) by {
            assert(compatible(b, s));
            assert(value_at(s, p) == v);
        }
        let stack = seq![p];
        assert(all_on_grid(stack));
        assert(all_filled(b1, stack));
        lemma_drain(b1, stack);
        let r = drain(b1, stack);
        assert(r == filled_at(b, p, v));
        lemma_advances_trans(a, b1, r);
        assert forall|s: Seq<u8>| #[trigger] is_solution(s) && compatible(a, s) implies compatible(
            r,
            s,
        ) by {
            assert(compatible(b1, s));
        }
        if settled(a) {
            lemma_settled_but_one(b, p, c);
        }
    }
}

/// A loop of steps each of which maintains `inv` maintains it.
pub proof fn lemma_repeat(
    inv: spec_fn(Board) -> bool,
    b: Board,
    step: spec_fn(Board, usize) -> Board,
    from: usize,
    to: usize,
)
    requires
        inv(b),
        forall|x: Board, k: usize| from <= k < to && inv(x) ==> inv(#[trigger] step(x, k)),
    ensures
        inv(repeat(b, step, from, to)),
    decreases to - from,
{
    if from < to {
        lemma_repeat(inv, step(b, from), step, (from + 1) as usize, to);
    }
}

/// A loop of steps each of which keeps the grid keeps it.
pub proof fn lemma_repeat_keeps(
    a: Board,
    b: Board,
    step: spec_fn(Board, usize) -> Board,
    from: usize,
    to: usize,
)
    requires
        keeps(a, b),
        forall|x: Board, k: usize| from <= k < to && keeps(a, x) ==> keeps(a, #[trigger] step(x, k)),
    ensures
        keeps(a, repeat(b, step, from, to)),
    decreases to - from,
{
    if from < to {
        lemma_repeat_keeps(a, step(b, from), step, (from + 1) as usize, to);
    }
}

} // verus!
