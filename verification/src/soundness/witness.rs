//! A solved grid exists, so what is stated of grids that admit a solution is stated of some
//! grid.

use super::model::{compatible, is_solution, lemma_blank, lemma_flat, placed, solvable, value_at};
use crate::puzzle::board::blank;
use crate::puzzle::PuzzleIndex;
use crate::puzzle::slice_type::{lemma_block_slot, SliceType};
use vstd::prelude::*;

verus! {

/// The row number with its two base-three digits exchanged.
pub open spec fn turned(r: int) -> int {
    3 * (r % 3) + r / 3
}

/// The value of the sample solved grid at a column and a row.
pub open spec fn sample_value(col: int, row: int) -> int {
    (turned(row) + col) % 9 + 1
}

/// A solved grid: each row is the row above it, shifted by three, or by one where a new band
/// of blocks begins.
pub open spec fn sample_solution() -> Seq<u8> {
    Seq::new(81, |k: int| sample_value(k / 9, k % 9) as u8)
}

/// `turned` exchanges the numbers below nine among themselves, and is its own inverse.
proof fn lemma_turned(r: int)
    requires
        0 <= r < 9,
    ensures
        0 <= turned(r) < 9,
        turned(turned(r)) == r,
        turned(r) % 3 == r / 3,
        turned(r) / 3 == r % 3,
{
    let a = r / 3;
    let b = r % 3;
    assert(r == 3 * a + b && 0 <= a < 3 && 0 <= b < 3);
    let t = 3 * b + a;
    assert(t / 3 == b && t % 3 == a);
}

/// The sample grid has the sample value at every cell.
proof fn lemma_sample_at(p: PuzzleIndex)
    requires
        p.wf(),
    ensures
        value_at(sample_solution(), p) == sample_value(p.col as int, p.row as int),
        1 <= sample_value(p.col as int, p.row as int) <= 9,
{
    lemma_flat(p);
    let k = p.flat();
    assert(k / 9 == p.col && k % 9 == p.row);
}

/// Two sums below eighteen that leave the same rest on division by nine are equal or nine
/// apart.
proof fn lemma_same_rest(x: int, y: int)
    requires
        0 <= x < 18,
        0 <= y < 18,
        x % 9 == y % 9,
    ensures
        x == y || x == y + 9 || y == x + 9,
{
}

/// Two cells of the sample grid that see each other have different values.
#[verifier::rlimit(40)]
proof fn lemma_sample_differ(p: PuzzleIndex, q: PuzzleIndex)
    requires
        p.wf(),
        q.wf(),
        p.sees(q),
    ensures
        value_at(sample_solution(), p) != value_at(sample_solution(), q),
{
    lemma_sample_at(p);
    lemma_sample_at(q);
    lemma_turned(p.row as int);
    lemma_turned(q.row as int);
    let x = turned(p.row as int) + p.col;
    let y = turned(q.row as int) + q.col;
    if sample_value(p.col as int, p.row as int) == sample_value(q.col as int, q.row as int) {
        lemma_same_rest(x, y);
        if p.row == q.row {
            assert(false);
        } else if p.col == q.col {
            assert(turned(p.row as int) == turned(q.row as int));
            assert(false);
        } else {
            // one block: the rows share their band, the columns theirs
            let a = p.row as int / 3;
            let b = p.col as int / 3;
            assert(p.block() == b * 3 + a);
            assert(q.block() == (q.col as int / 3) * 3 + q.row as int / 3);
            assert(q.row as int / 3 == a && q.col as int / 3 == b);
            let px = p.row as int % 3;
            let qx = q.row as int % 3;
            let py = p.col as int % 3;
            let qy = q.col as int % 3;
            assert(x == 3 * px + a + 3 * b + py);
            assert(y == 3 * qx + a + 3 * b + qy);
            assert(3 * px + py == 3 * qx + qy);
            assert(px == qx && py == qy);
            assert(false);
        }
    }
}

/// What has to be added to `t` to reach `w`, counting round nine.
proof fn lemma_rest(t: int, w: int)
    requires
        0 <= t < 9,
        0 <= w < 9,
    ensures
        0 <= (w - t + 9) % 9 < 9,
        (t + (w - t + 9) % 9) % 9 == w,
{
    if w >= t {
        assert((w - t + 9) % 9 == w - t);
    } else {
        assert((w - t + 9) % 9 == w - t + 9);
    }
}

/// The sample grid has every value in every row.
proof fn lemma_sample_row(n: usize, v: u8)
    requires
        n < 9,
        1 <= v <= 9,
    ensures
        placed(sample_solution(), SliceType::Row(n), v),
{
    let unit = SliceType::Row(n);
    lemma_turned(n as int);
    lemma_rest(turned(n as int), v - 1);
    let i = ((v - 1 - turned(n as int) + 9) % 9) as usize;
    lemma_sample_at(unit.at(i));
    assert(i < 9 && value_at(sample_solution(), unit.at(i)) == v);
}

/// The sample grid has every value in every column.
proof fn lemma_sample_col(n: usize, v: u8)
    requires
        n < 9,
        1 <= v <= 9,
    ensures
        placed(sample_solution(), SliceType::Col(n), v),
{
    let unit = SliceType::Col(n);
    lemma_rest(n as int, v - 1);
    let t = (v - 1 - n + 9) % 9;
    lemma_turned(t);
    let i = turned(t) as usize;
    lemma_sample_at(unit.at(i));
    assert((t + n) % 9 == v - 1);
    assert(i < 9 && value_at(sample_solution(), unit.at(i)) == v);
}

/// The sample grid has every value in every block.
#[verifier::rlimit(40)]
proof fn lemma_sample_block(n: usize, v: u8)
    requires
        n < 9,
        1 <= v <= 9,
    ensures
        placed(sample_solution(), SliceType::Block(n), v),
{
    let unit = SliceType::Block(n);
    lemma_rest(n as int, v - 1);
    let t = (v - 1 - n + 9) % 9;
    lemma_turned(t);
    let i = turned(t) as usize;
    lemma_block_slot(n, i);
    let p = unit.at(i);
    lemma_sample_at(p);
    let a = n as int % 3;
    let b = n as int / 3;
    let x = i as int % 3;
    let y = i as int / 3;
    assert(n == 3 * b + a && i == 3 * y + x);
    assert(p.row == 3 * a + x && p.col == 3 * b + y);
    assert(p.row as int % 3 == x && p.row as int / 3 == a);
    assert(turned(p.row as int) == 3 * x + a);
    assert(t == 3 * x + y);
    assert(turned(p.row as int) + p.col == t + n);
    assert((t + n) % 9 == v - 1);
    assert(i < 9 && value_at(sample_solution(), unit.at(i)) == v);
}

/// The sample grid has every value in every unit.
proof fn lemma_sample_placed(unit: SliceType, v: u8)
    requires
        unit.wf(),
        1 <= v <= 9,
    ensures
        placed(sample_solution(), unit, v),
{
    match unit {
        SliceType::Row(n) => lemma_sample_row(n, v),
        SliceType::Col(n) => lemma_sample_col(n, v),
        SliceType::Block(n) => lemma_sample_block(n, v),
    }
}

/// There is a solved grid, and the blank grid admits it.
pub proof fn lemma_solution_exists()
    ensures
        is_solution(sample_solution()),
        solvable(blank()),
{
    let s = sample_solution();
    assert forall|k: int| 0 <= k < 81 implies 1 <= #[trigger] s[k] <= 9 by {
        super::model::lemma_pos_of(k);
        lemma_sample_at(crate::puzzle::board::pos_of(k));
    }
    assert forall|p: PuzzleIndex, q: PuzzleIndex| p.wf() && q.wf() && p.sees(q) implies #[trigger]
        value_at(s, p) != #[trigger] value_at(s, q) by {
        lemma_sample_differ(p, q);
    }
    assert forall|unit: SliceType, v: u8| unit.wf() && 1 <= v <= 9 implies #[trigger] placed(
        s,
        unit,
        v,
    ) by {
        lemma_sample_placed(unit, v);
    }
    lemma_blank();
    assert(is_solution(s) && compatible(blank(), s));
}

} // verus!
