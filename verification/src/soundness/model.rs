//! What it means for a pass to be sound: the order in which a grid moves on, the solutions
//! that a grid still admits, and the relation `keeps` that every pass maintains.

use crate::bits::{holds, lemma_holds_ops, lemma_holds_single, lemma_subset, subset};
use crate::cell::_Cell;
use crate::puzzle::board::{blank, Board, board_wf, pos_of};
use crate::puzzle::PuzzleIndex;
use crate::puzzle::slice_type::SliceType;
use vstd::prelude::*;

verus! {

/// A cell has moved on from `c` to `d`: a fixed cell is unchanged, and no candidate was
/// added.
pub open spec fn cell_advances(c: _Cell, d: _Cell) -> bool {
    (c.filled() ==> d == c) && subset(d.bits(), c.bits())
}

/// Every cell of `b` has moved on from its state in `a`.
pub open spec fn advances(a: Board, b: Board) -> bool {
    a.len() == 81 && b.len() == 81 && forall|k: int|
        #![trigger a[k]]
        #![trigger b[k]]
        0 <= k < 81 ==> cell_advances(a[k], b[k])
}

/// The value that an assignment gives to the cell at `p`.
pub open spec fn value_at(s: Seq<u8>, p: PuzzleIndex) -> u8 {
    s[p.flat()]
}

/// The assignment gives the value `v` to some cell of the unit.
pub open spec fn placed(s: Seq<u8>, unit: SliceType, v: u8) -> bool {
    exists|i: usize| i < 9 && #[trigger] value_at(s, unit.at(i)) == v
}

/// The assignment is a solved grid: 81 values from 1 to 9, and each row, column and block
/// holds every value, none of them twice.
pub open spec fn is_solution(s: Seq<u8>) -> bool {
    &&& s.len() == 81
    &&& forall|k: int| 0 <= k < 81 ==> 1 <= #[trigger] s[k] <= 9
    &&& forall|p: PuzzleIndex, q: PuzzleIndex|
        p.wf() && q.wf() && p.sees(q) ==> #[trigger] value_at(s, p) != #[trigger] value_at(s, q)
    &&& forall|unit: SliceType, v: u8| unit.wf() && 1 <= v <= 9 ==> #[trigger] placed(s, unit, v)
}

/// Every cell of the grid has the value that the assignment gives it among its candidates.
pub open spec fn compatible(b: Board, s: Seq<u8>) -> bool {
    forall|k: int| 0 <= k < 81 ==> (#[trigger] b[k]).allows(s[k] as int)
}

/// The grid admits some solution.
pub open spec fn solvable(b: Board) -> bool {
    exists|s: Seq<u8>| #[trigger] is_solution(s) && compatible(b, s)
}

/// Every solution that `a` admits, `b` admits too.
pub open spec fn sound(a: Board, b: Board) -> bool {
    forall|s: Seq<u8>| #[trigger] is_solution(s) && compatible(a, s) ==> compatible(b, s)
}

/// No open cell has the value of a fixed cell that it sees among its candidates.
pub open spec fn settled(b: Board) -> bool {
    forall|p: PuzzleIndex, q: PuzzleIndex|
        p.wf() && q.wf() && #[trigger] p.sees(q) && b[p.flat()].filled() && !b[q.flat()].filled()
            ==> b[q.flat()].bits() & b[p.flat()].bits() == 0
}

/// The grid `b` came from `a` by sound steps: it is valid, every cell has moved on, no
/// solution was lost, and if `a` was settled then `b` is.
pub open spec fn keeps(a: Board, b: Board) -> bool {
    &&& board_wf(b)
    &&& advances(a, b)
    &&& sound(a, b)
    &&& settled(a) ==> settled(b)
}

/// A valid grid keeps itself.
pub proof fn lemma_keeps_refl(a: Board)
    requires
        board_wf(a),
    ensures
        keeps(a, a),
{
    assert forall|k: int| 0 <= k < 81 implies cell_advances(a[k], a[k]) by {
        lemma_subset(a[k].bits(), a[k].bits());
    }
}

/// `advances` is transitive.
pub proof fn lemma_advances_trans(a: Board, b: Board, c: Board)
    requires
        advances(a, b),
        advances(b, c),
    ensures
        advances(a, c),
{
    assert forall|k: int| 0 <= k < 81 implies cell_advances(a[k], c[k]) by {
        assert(cell_advances(a[k], b[k]));
        assert(cell_advances(b[k], c[k]));
        lemma_subset(c[k].bits(), b[k].bits());
        lemma_subset(b[k].bits(), a[k].bits());
        lemma_subset(c[k].bits(), a[k].bits());
    }
}

/// `keeps` is transitive.
pub proof fn lemma_keeps_trans(a: Board, b: Board, c: Board)
    requires
        keeps(a, b),
        keeps(b, c),
    ensures
        keeps(a, c),
{
    lemma_advances_trans(a, b, c);
    assert forall|s: Seq<u8>| #[trigger] is_solution(s) && compatible(a, s) implies compatible(
        c,
        s,
    ) by {
        assert(compatible(b, s));
    }
}

/// A solution that a grid admits is admitted by every grid that it has moved on from.
pub proof fn lemma_compatible_back(a: Board, b: Board, s: Seq<u8>)
    requires
        advances(a, b),
        compatible(b, s),
    ensures
        compatible(a, s),
{
    assert forall|k: int| 0 <= k < 81 implies (#[trigger] a[k]).allows(s[k] as int) by {
        assert(cell_advances(a[k], b[k]));
        assert(b[k].allows(s[k] as int));
        lemma_subset(b[k].bits(), a[k].bits());
    }
}

/// A fixed cell admits its own value only.
pub proof fn lemma_filled_allows(c: _Cell, v: int)
    requires
        c.wf(),
        c.filled(),
    ensures
        c.allows(v) <==> c == _Cell::Filled(v as u8) && 1 <= v <= 9,
{
    lemma_holds_single();
}

/// The coordinates and the places in the sequence of cells correspond.
pub proof fn lemma_flat(p: PuzzleIndex)
    requires
        p.wf(),
    ensures
        0 <= p.flat() < 81,
        pos_of(p.flat()) == p,
{
}

/// The places in the sequence of cells and the coordinates correspond.
pub proof fn lemma_pos_of(k: int)
    requires
        0 <= k < 81,
    ensures
        pos_of(k).wf(),
        pos_of(k).flat() == k,
{
}

/// The blank grid is valid and settled, and admits every solution.
pub proof fn lemma_blank()
    ensures
        board_wf(blank()),
        settled(blank()),
        forall|s: Seq<u8>| is_solution(s) ==> compatible(blank(), s),
{
    lemma_holds_ops();
    assert forall|s: Seq<u8>| is_solution(s) implies compatible(blank(), s) by {
        assert forall|k: int| 0 <= k < 81 implies (#[trigger] blank()[k]).allows(s[k] as int) by {
            assert(1 <= s[k] <= 9);
        }
    }
    assert forall|p: PuzzleIndex, q: PuzzleIndex|
        p.wf() && q.wf() && #[trigger] p.sees(q) && blank()[p.flat()].filled() implies false by {}
}

} // verus!
