//! Box-line reduction and the x-wing pass keep the grid.

use super::model::{
    compatible, is_solution, keeps, lemma_flat, lemma_keeps_refl, lemma_keeps_trans, value_at,
};
use super::steps::{excluded, lemma_keeps_eliminate, lemma_keeps_struck, lemma_repeat_keeps};
use super::techniques::lemma_placed;
use crate::bits::{
    count, holds, lemma_count_at_most_two, lemma_holds_ops, lemma_holds_single, single,
};
use crate::puzzle::board::{Board, board_wf};
use crate::puzzle::passes::{
    box_line_block, box_line_line, box_line_reduction, box_line_step, chunk_sum, diagonal,
    occurrences, only, slot_bits, stride_sum, strike_line, strike_line_step, x_wing,
    x_wing_digit_step, x_wing_inner, x_wing_lines, x_wing_outer, x_wing_slot_step,
};
use crate::puzzle::PuzzleIndex;
use crate::puzzle::slice_type::{lemma_block_slot, lemma_slot, SliceType};
use vstd::prelude::*;

verus! {

/// Striking from a line, outside a unit, digits that no solution puts there keeps the grid.
pub proof fn lemma_keeps_strike_line(
    a: Board,
    b: Board,
    line: SliceType,
    apart: SliceType,
    mask: u16,
)
    requires
        keeps(a, b),
        line.wf(),
        forall|j: usize|
            j < 9 && !apart.holds(#[trigger] line.at(j)) ==> excluded(a, line.at(j), mask),
    ensures
        keeps(a, strike_line(b, line, apart, mask)),
{
    let step = strike_line_step(line, apart, mask);
    assert forall|x: Board, j: usize| 0 <= j < 9 && keeps(a, x) implies keeps(
        a,
        #[trigger] step(x, j),
    ) by {
        if !apart.holds(line.at(j)) {
            lemma_slot(line, j);
            lemma_keeps_struck(a, x, line.at(j), mask);
        }
    }
    lemma_repeat_keeps(a, b, step, 0, 9);
}

/// Where the digits of `mask` occur in a unit only at slots that `q` sees, no solution gives
/// the cell at `q` a value of `mask`.
pub proof fn lemma_confined_excluded(
    a: Board,
    unit: SliceType,
    mask: u16,
    near: spec_fn(usize) -> bool,
    q: PuzzleIndex,
)
    requires
        board_wf(a),
        unit.wf(),
        q.wf(),
        forall|d: u16, t: usize|
            d < 9 && t < 9 && holds(mask, d) && #[trigger] holds(slot_bits(a, unit, t), d)
                ==> near(t),
        forall|t: usize| t < 9 && near(t) ==> (#[trigger] unit.at(t)).sees(q),
    ensures
        excluded(a, q, mask),
{
    assert forall|s: Seq<u8>| #[trigger] is_solution(s) && compatible(a, s) implies !holds(
        mask,
        (value_at(s, q) - 1) as u16,
    ) by {
        lemma_flat(q);
        let d = (value_at(s, q) - 1) as u16;
        if holds(mask, d) {
            let t = lemma_placed(a, s, unit, d);
            assert(near(t));
            lemma_slot(unit, t);
            assert(unit.at(t).sees(q));
            assert(value_at(s, unit.at(t)) != value_at(s, q));
        }
    }
}

/// The digits of `only(x, y, z)` are those of `x` that are neither in `y` nor in `z`.
pub proof fn lemma_only(x: u16, y: u16, z: u16)
    ensures
        forall|d: u16| holds(only(x, y, z), d) <==> holds(x, d) && !holds(y, d) && !holds(z, d),
{
    lemma_holds_ops();
    assert forall|d: u16| holds(only(x, y, z), d) <==> holds(x, d) && !holds(y, d) && !holds(
        z,
        d,
    ) by {
        assert(holds(x & (x ^ y) & (x ^ z), d) == (holds(x & (x ^ y), d) && holds(x ^ z, d)));
        assert(holds(x & (x ^ y), d) == (holds(x, d) && holds(x ^ y, d)));
    }
}

/// A digit of a cell is a digit of the chunk and of the stride that hold its slot.
pub proof fn lemma_chunk_stride(a: Board, unit: SliceType, t: usize, d: u16)
    requires
        t < 9,
        holds(slot_bits(a, unit, t), d),
    ensures
        holds(chunk_sum(a, unit, t / 3), d),
        holds(stride_sum(a, unit, t % 3), d),
{
    lemma_holds_ops();
    let c = t / 3;
    let r = t % 3;
    assert(t == c * 3 || t == c * 3 + 1 || t == c * 3 + 2);
    assert(t == r || t == r + 3 || t == r + 6);
}

/// The cells of a column of a block see the rest of that column.
#[verifier::rlimit(40)]
proof fn lemma_block_col_sees(i: usize, c: usize, t: usize, j: usize)
    requires
        i < 9,
        c < 3,
        t < 9,
        j < 9,
        t / 3 == c,
    ensures
        ({
            let blk = SliceType::Block(i);
            let col = SliceType::Col(blk.at((c * 3) as usize).col);
            &&& col.wf()
            &&& !blk.holds(col.at(j)) ==> blk.at(t).sees(col.at(j))
        }),
{
    lemma_block_slot(i, t);
    lemma_block_slot(i, (c * 3) as usize);
    assert((c * 3) / 3 == c);
}

/// The cells of a row of a block see the rest of that row.
#[verifier::rlimit(40)]
proof fn lemma_block_row_sees(i: usize, c: usize, t: usize, j: usize)
    requires
        i < 9,
        c < 3,
        t < 9,
        j < 9,
        t % 3 == c,
    ensures
        ({
            let blk = SliceType::Block(i);
            let row = SliceType::Row(blk.at(c).row);
            &&& row.wf()
            &&& !blk.holds(row.at(j)) ==> blk.at(t).sees(row.at(j))
        }),
{
    lemma_block_slot(i, t);
    lemma_block_slot(i, c);
    assert(c % 3 == c);
}

/// The cells of a third of a row see the rest of the block that holds them.
#[verifier::rlimit(40)]
proof fn lemma_row_block_sees(n: usize, c: usize, t: usize, j: usize)
    requires
        n < 9,
        c < 3,
        t < 9,
        j < 9,
        t / 3 == c,
    ensures
        ({
            let line = SliceType::Row(n);
            let blk = SliceType::Block(line.at((c * 3) as usize).block() as usize);
            &&& blk.wf()
            &&& !line.holds(blk.at(j)) ==> line.at(t).sees(blk.at(j))
        }),
{
    let line = SliceType::Row(n);
    let k = (c * 3 + n / 3) as usize;
    assert((c * 3) / 3 == c);
    assert(line.at((c * 3) as usize).block() == k);
    assert(k / 3 == c && k % 3 == n / 3);
    lemma_block_slot(k, j);
    let q = SliceType::Block(k).at(j);
    assert(q.col == c * 3 + j / 3 && q.row == n / 3 * 3 + j % 3);
    assert(line.at(t).block() == k);
}

/// The cells of a third of a column see the rest of the block that holds them.
#[verifier::rlimit(40)]
proof fn lemma_col_block_sees(n: usize, c: usize, t: usize, j: usize)
    requires
        n < 9,
        c < 3,
        t < 9,
        j < 9,
        t / 3 == c,
    ensures
        ({
            let line = SliceType::Col(n);
            let blk = SliceType::Block(line.at((c * 3) as usize).block() as usize);
            &&& blk.wf()
            &&& !line.holds(blk.at(j)) ==> line.at(t).sees(blk.at(j))
        }),
{
    let line = SliceType::Col(n);
    let k = (n / 3 * 3 + c) as usize;
    assert((c * 3) / 3 == c);
    assert(line.at((c * 3) as usize).block() == k);
    assert(k / 3 == n / 3 && k % 3 == c);
    lemma_block_slot(k, j);
    let q = SliceType::Block(k).at(j);
    assert(q.col == n / 3 * 3 + j / 3 && q.row == c * 3 + j % 3);
    assert(line.at(t).block() == k);
}

/// The cells of a third of a row or column see the rest of the block that holds them.
proof fn lemma_line_block_sees(line: SliceType, c: usize, t: usize, j: usize)
    requires
        line.wf(),
        !(line is Block),
        c < 3,
        t < 9,
        j < 9,
        t / 3 == c,
    ensures
        ({
            let blk = SliceType::Block(line.at((c * 3) as usize).block() as usize);
            &&& blk.wf()
            &&& !line.holds(blk.at(j)) ==> line.at(t).sees(blk.at(j))
        }),
{
    match line {
        SliceType::Row(n) => lemma_row_block_sees(n, c, t, j),
        SliceType::Col(n) => lemma_col_block_sees(n, c, t, j),
        SliceType::Block(n) => {},
    }
}

/// The digits that a unit holds in one chunk only occur in it at the slots of that chunk; so
/// for its strides.
proof fn lemma_only_chunk(a: Board, unit: SliceType, c: usize, y: usize, z: usize, t: usize, d: u16)
    requires
        c < 3,
        y < 3,
        z < 3,
        c != y,
        c != z,
        y != z,
        t < 9,
        holds(slot_bits(a, unit, t), d),
    ensures
        holds(only(chunk_sum(a, unit, c), chunk_sum(a, unit, y), chunk_sum(a, unit, z)), d) ==> t
            / 3 == c,
        holds(only(stride_sum(a, unit, c), stride_sum(a, unit, y), stride_sum(a, unit, z)), d)
            ==> t % 3 == c,
{
    lemma_only(chunk_sum(a, unit, c), chunk_sum(a, unit, y), chunk_sum(a, unit, z));
    lemma_only(stride_sum(a, unit, c), stride_sum(a, unit, y), stride_sum(a, unit, z));
    lemma_chunk_stride(a, unit, t, d);
}

/// Striking, outside block `i`, from the column of its chunk `c` the digits that the block
/// holds in that chunk only keeps the grid.
#[verifier::rlimit(40)]
proof fn lemma_keeps_block_col_strike(a: Board, x: Board, i: usize, c: usize, y: usize, z: usize)
    requires
        keeps(a, x),
        board_wf(a),
        i < 9,
        c < 3,
        y < 3,
        z < 3,
        c != y,
        c != z,
        y != z,
    ensures
        keeps(
            a,
            strike_line(
                x,
                SliceType::Col(SliceType::Block(i).at((c * 3) as usize).col),
                SliceType::Block(i),
                only(
                    chunk_sum(a, SliceType::Block(i), c),
                    chunk_sum(a, SliceType::Block(i), y),
                    chunk_sum(a, SliceType::Block(i), z),
                ),
            ),
        ),
{
    let blk = SliceType::Block(i);
    let col = SliceType::Col(blk.at((c * 3) as usize).col);
    let cmask = only(chunk_sum(a, blk, c), chunk_sum(a, blk, y), chunk_sum(a, blk, z));
    lemma_block_col_sees(i, c, (c * 3) as usize, 0);
    assert forall|j: usize| j < 9 && !blk.holds(#[trigger] col.at(j)) implies excluded(
        a,
        col.at(j),
        cmask,
    ) by {
        let q = col.at(j);
        lemma_slot(col, j);
        let near = |t: usize| t / 3 == c;
        assert forall|d: u16, t: usize|
            d < 9 && t < 9 && holds(cmask, d) && #[trigger] holds(
                slot_bits(a, blk, t),
                d,
            ) implies near(t) by {
            lemma_only_chunk(a, blk, c, y, z, t, d);
        }
        assert forall|t: usize| t < 9 && near(t) implies (#[trigger] blk.at(t)).sees(q) by {
            lemma_block_col_sees(i, c, t, j);
        }
        lemma_confined_excluded(a, blk, cmask, near, q);
    }
    lemma_keeps_strike_line(a, x, col, blk, cmask);
}

/// Striking, outside block `i`, from the row of its stride `c` the digits that the block
/// holds in that stride only keeps the grid.
#[verifier::rlimit(40)]
proof fn lemma_keeps_block_row_strike(a: Board, x: Board, i: usize, c: usize, y: usize, z: usize)
    requires
        keeps(a, x),
        board_wf(a),
        i < 9,
        c < 3,
        y < 3,
        z < 3,
        c != y,
        c != z,
        y != z,
    ensures
        keeps(
            a,
            strike_line(
                x,
                SliceType::Row(SliceType::Block(i).at(c).row),
                SliceType::Block(i),
                only(
                    stride_sum(a, SliceType::Block(i), c),
                    stride_sum(a, SliceType::Block(i), y),
                    stride_sum(a, SliceType::Block(i), z),
                ),
            ),
        ),
{
    let blk = SliceType::Block(i);
    let row = SliceType::Row(blk.at(c).row);
    let rmask = only(stride_sum(a, blk, c), stride_sum(a, blk, y), stride_sum(a, blk, z));
    lemma_block_row_sees(i, c, c, 0);
    assert forall|j: usize| j < 9 && !blk.holds(#[trigger] row.at(j)) implies excluded(
        a,
        row.at(j),
        rmask,
    ) by {
        let q = row.at(j);
        lemma_slot(row, j);
        let near = |t: usize| t % 3 == c;
        assert forall|d: u16, t: usize|
            d < 9 && t < 9 && holds(rmask, d) && #[trigger] holds(
                slot_bits(a, blk, t),
                d,
            ) implies near(t) by {
            lemma_only_chunk(a, blk, c, y, z, t, d);
        }
        assert forall|t: usize| t < 9 && near(t) implies (#[trigger] blk.at(t)).sees(q) by {
            lemma_block_row_sees(i, c, t, j);
        }
        lemma_confined_excluded(a, blk, rmask, near, q);
    }
    lemma_keeps_strike_line(a, x, row, blk, rmask);
}

/// Box-line reduction from a block keeps the grid.
pub proof fn lemma_keeps_box_line_block(a: Board, b: Board, i: usize)
    requires
        keeps(a, b),
        i < 9,
    ensures
        keeps(a, box_line_block(b, i)),
{
    lemma_keeps_refl(b);
    let blk = SliceType::Block(i);
    let c0 = chunk_sum(b, blk, 0);
    let c1 = chunk_sum(b, blk, 1);
    let c2 = chunk_sum(b, blk, 2);
    let r0 = stride_sum(b, blk, 0);
    let r1 = stride_sum(b, blk, 1);
    let r2 = stride_sum(b, blk, 2);
    let b1 = strike_line(b, SliceType::Col(blk.at(0).col), blk, only(c0, c1, c2));
    let b2 = strike_line(b1, SliceType::Col(blk.at(3).col), blk, only(c1, c0, c2));
    let b3 = strike_line(b2, SliceType::Col(blk.at(6).col), blk, only(c2, c0, c1));
    let b4 = strike_line(b3, SliceType::Row(blk.at(0).row), blk, only(r0, r1, r2));
    let b5 = strike_line(b4, SliceType::Row(blk.at(1).row), blk, only(r1, r0, r2));
    let b6 = strike_line(b5, SliceType::Row(blk.at(2).row), blk, only(r2, r0, r1));
    lemma_keeps_block_col_strike(b, b, i, 0, 1, 2);
    lemma_keeps_block_col_strike(b, b1, i, 1, 0, 2);
    lemma_keeps_block_col_strike(b, b2, i, 2, 0, 1);
    lemma_keeps_block_row_strike(b, b3, i, 0, 1, 2);
    lemma_keeps_block_row_strike(b, b4, i, 1, 0, 2);
    lemma_keeps_block_row_strike(b, b5, i, 2, 0, 1);
    assert(b6 == box_line_block(b, i));
    lemma_keeps_trans(a, b, b6);
}

/// One strike of the box-line reduction from a row or column keeps the grid.
#[verifier::rlimit(40)]
proof fn lemma_keeps_line_strike(
    a: Board,
    x: Board,
    line: SliceType,
    c: usize,
    y: usize,
    z: usize,
)
    requires
        keeps(a, x),
        board_wf(a),
        line.wf(),
        !(line is Block),
        c < 3,
        y < 3,
        z < 3,
        c != y,
        c != z,
        y != z,
    ensures
        keeps(
            a,
            strike_line(
                x,
                SliceType::Block(line.at((c * 3) as usize).block() as usize),
                line,
                only(chunk_sum(a, line, c), chunk_sum(a, line, y), chunk_sum(a, line, z)),
            ),
        ),
{
    let blk = SliceType::Block(line.at((c * 3) as usize).block() as usize);
    let mask = only(chunk_sum(a, line, c), chunk_sum(a, line, y), chunk_sum(a, line, z));
    lemma_line_block_sees(line, c, (c * 3) as usize, 0);
    assert forall|j: usize| j < 9 && !line.holds(#[trigger] blk.at(j)) implies excluded(
        a,
        blk.at(j),
        mask,
    ) by {
        let q = blk.at(j);
        lemma_slot(blk, j);
        let near = |t: usize| t / 3 == c;
        assert forall|d: u16, t: usize|
            d < 9 && t < 9 && holds(mask, d) && #[trigger] holds(
                slot_bits(a, line, t),
                d,
            ) implies near(t) by {
            lemma_only_chunk(a, line, c, y, z, t, d);
        }
        assert forall|t: usize| t < 9 && near(t) implies (#[trigger] line.at(t)).sees(q) by {
            lemma_line_block_sees(line, c, t, j);
        }
        lemma_confined_excluded(a, line, mask, near, q);
    }
    lemma_keeps_strike_line(a, x, blk, line, mask);
}

/// Box-line reduction from a row or a column keeps the grid.
pub proof fn lemma_keeps_box_line_line(a: Board, b: Board, line: SliceType)
    requires
        keeps(a, b),
        line.wf(),
        !(line is Block),
    ensures
        keeps(a, box_line_line(b, line)),
{
    lemma_keeps_refl(b);
    let s0 = chunk_sum(b, line, 0);
    let s1 = chunk_sum(b, line, 1);
    let s2 = chunk_sum(b, line, 2);
    let b1 = strike_line(b, SliceType::Block(line.at(0).block() as usize), line, only(s0, s1, s2));
    let b2 = strike_line(b1, SliceType::Block(line.at(3).block() as usize), line, only(s1, s0, s2));
    let b3 = strike_line(b2, SliceType::Block(line.at(6).block() as usize), line, only(s2, s0, s1));
    lemma_keeps_line_strike(b, b, line, 0, 1, 2);
    lemma_keeps_line_strike(b, b1, line, 1, 0, 2);
    lemma_keeps_line_strike(b, b2, line, 2, 0, 1);
    assert(b3 == box_line_line(b, line));
    lemma_keeps_trans(a, b, b3);
}

/// The box-line reduction pass keeps the grid.
pub proof fn lemma_keeps_box_line_reduction(b: Board)
    requires
        board_wf(b),
    ensures
        keeps(b, box_line_reduction(b)),
{
    lemma_keeps_refl(b);
    let step = box_line_step();
    assert forall|x: Board, i: usize| 0 <= i < 9 && keeps(b, x) implies keeps(
        b,
        #[trigger] step(x, i),
    ) by {
        let x1 = box_line_block(x, i);
        let x2 = box_line_line(x1, SliceType::Row(i));
        lemma_keeps_box_line_block(b, x, i);
        lemma_keeps_box_line_line(b, x1, SliceType::Row(i));
        lemma_keeps_box_line_line(b, x2, SliceType::Col(i));
    }
    lemma_repeat_keeps(b, b, step, 0, 9);
}

/// The two lines are the columns, or the rows, `i` and `j`.
pub open spec fn parallel(first: SliceType, second: SliceType, i: usize, j: usize) -> bool {
    (first == SliceType::Col(i) && second == SliceType::Col(j)) || (first == SliceType::Row(i)
        && second == SliceType::Row(j))
}

/// In two parallel lines, the cells at one slot see each other, and the cell of either line
/// at a slot sees the cell on the diagonal at that slot, unless it is that cell.
#[verifier::rlimit(40)]
proof fn lemma_parallel_sees(first: SliceType, second: SliceType, i: usize, j: usize, t: usize)
    requires
        parallel(first, second, i, j),
        i < j < 9,
        t < 9,
    ensures
        first.wf(),
        second.wf(),
        first.at(t).sees(second.at(t)),
        diagonal(t).wf(),
        t != i ==> first.at(t).sees(diagonal(t)),
        t != j ==> second.at(t).sees(diagonal(t)),
{
}

/// The x-wing pass on two parallel lines keeps the grid.
#[verifier::rlimit(40)]
pub proof fn lemma_keeps_x_wing_lines(
    a: Board,
    b: Board,
    first: SliceType,
    second: SliceType,
    i: usize,
    j: usize,
)
    requires
        keeps(a, b),
        parallel(first, second, i, j),
        i < j < 9,
    ensures
        keeps(a, x_wing_lines(b, first, second, i, j)),
{
    lemma_keeps_refl(b);
    lemma_parallel_sees(first, second, i, j, 0);
    let occ1 = occurrences(b, first);
    let occ2 = occurrences(b, second);
    let step = x_wing_digit_step(occ1, occ2, i, j);
    assert forall|x: Board, d: usize| 0 <= d < 9 && keeps(b, x) implies keeps(
        b,
        #[trigger] step(x, d),
    ) by {
        if !(count(occ1[d as int]) != 2 || occ2[d as int] != occ1[d as int]) {
            let slots = occ1[d as int];
            let inner = x_wing_slot_step(slots, i, j, d);
            assert forall|y: Board, t: usize| 0 <= t < 9 && keeps(b, y) implies keeps(
                b,
                #[trigger] inner(y, t),
            ) by {
                if holds(slots, t as u16) && t != i && t != j {
                    lemma_parallel_sees(first, second, i, j, t);
                    lemma_holds_single();
                    assert forall|s: Seq<u8>| #[trigger]
                        is_solution(s) && compatible(b, s) implies !holds(
                        single(d as u16),
                        (value_at(s, diagonal(t)) - 1) as u16,
                    ) by {
                        let r1 = lemma_placed(b, s, first, d as u16);
                        let r2 = lemma_placed(b, s, second, d as u16);
                        lemma_parallel_sees(first, second, i, j, r1);
                        lemma_flat(diagonal(t));
                        if r1 == r2 {
                            assert(value_at(s, first.at(r1)) != value_at(s, second.at(r1)));
                        }
                        lemma_count_at_most_two(slots, r1 as u16, r2 as u16);
                        assert(t == r1 || t == r2);
                        if t == r1 {
                            assert(value_at(s, first.at(t)) != value_at(s, diagonal(t)));
                        } else {
                            assert(value_at(s, second.at(t)) != value_at(s, diagonal(t)));
                        }
                    }
                    lemma_keeps_eliminate(b, y, diagonal(t), single(d as u16));
                }
            }
            lemma_repeat_keeps(b, x, inner, 0, 9);
        }
    }
    lemma_repeat_keeps(b, b, step, 0, 9);
    lemma_keeps_trans(a, b, x_wing_lines(b, first, second, i, j));
}

/// The x-wing pass keeps the grid.
pub proof fn lemma_keeps_x_wing(b: Board)
    requires
        board_wf(b),
    ensures
        keeps(b, x_wing(b)),
{
    lemma_keeps_refl(b);
    let outer = x_wing_outer();
    assert forall|x: Board, i: usize| 0 <= i < 9 && keeps(b, x) implies keeps(
        b,
        #[trigger] outer(x, i),
    ) by {
        let inner = x_wing_inner(i);
        assert forall|y: Board, j: usize| i + 1 <= j < 9 && keeps(b, y) implies keeps(
            b,
            #[trigger] inner(y, j),
        ) by {
            let y1 = x_wing_lines(y, SliceType::Col(i), SliceType::Col(j), i, j);
            lemma_keeps_x_wing_lines(b, y, SliceType::Col(i), SliceType::Col(j), i, j);
            lemma_keeps_x_wing_lines(b, y1, SliceType::Row(i), SliceType::Row(j), i, j);
        }
        lemma_repeat_keeps(b, x, inner, (i + 1) as usize, 9);
    }
    lemma_repeat_keeps(b, b, outer, 0, 9);
}

} // verus!
