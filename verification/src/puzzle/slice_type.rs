//! The three kinds of unit and the map from a slot of a unit to its coordinates.

use super::puzzle_index::PuzzleIndex;
use vstd::prelude::*;

verus! {

/// A row, a column or a block, by its number.
#[derive(Debug, Clone, Copy)]
pub enum SliceType {
    Row(usize),
    Col(usize),
    Block(usize),
}

impl SliceType {
    /// The number of the unit.
    pub open spec fn n(&self) -> usize {
        match *self {
            SliceType::Row(n) => n,
            SliceType::Col(n) => n,
            SliceType::Block(n) => n,
        }
    }

    /// The number of the unit is below nine.
    pub open spec fn wf(&self) -> bool {
        self.n() < 9
    }

    /// The coordinates of slot `idx` of the unit.
    pub open spec fn at(&self, idx: usize) -> PuzzleIndex {
        match *self {
            SliceType::Row(n) => PuzzleIndex { col: idx, row: n },
            SliceType::Col(n) => PuzzleIndex { col: n, row: idx },
            SliceType::Block(n) => PuzzleIndex {
                col: (n / 3 * 3 + idx / 3) as usize,
                row: (n % 3 * 3 + idx % 3) as usize,
            },
        }
    }

    /// The coordinates `p` lie in the unit.
    pub open spec fn holds(&self, p: PuzzleIndex) -> bool {
        match *self {
            SliceType::Row(n) => p.row == n,
            SliceType::Col(n) => p.col == n,
            SliceType::Block(n) => p.block() == n,
        }
    }

    /// The slot at which the unit holds `p`.
    pub open spec fn slot_of(&self, p: PuzzleIndex) -> usize {
        match *self {
            SliceType::Row(n) => p.col,
            SliceType::Col(n) => p.row,
            SliceType::Block(n) => (p.col % 3 * 3 + p.row % 3) as usize,
        }
    }

    /// Whether the coordinates `p` lie in the unit.
    pub fn contains(&self, p: PuzzleIndex) -> (r: bool)
        requires
            p.wf(),
        ensures
            r == self.holds(p),
    {
        match *self {
            SliceType::Row(n) => p.row() == n,
            SliceType::Col(n) => p.col() == n,
            SliceType::Block(n) => p.block_idx() == n,
        }
    }

    /// The coordinates of slot `index`.
    pub fn index_of(&self, index: usize) -> (r: PuzzleIndex)
        requires
            self.wf(),
            index < 9,
        ensures
            r == self.at(index),
            r.wf(),
    {
        match *self {
            SliceType::Row(n) => PuzzleIndex::new(index, n),
            SliceType::Col(n) => PuzzleIndex::new(n, index),
            SliceType::Block(n) => {
                let row = n % 3 * 3;
                let col = n / 3 * 3;
                let row = row + (index % 3);
                let col = col + (index / 3);
                PuzzleIndex::new(col, row)
            },
        }
    }
}

/// Slot `i` of block `n`: where it lies, and that it is found again at `i`.
#[verifier::rlimit(40)]
pub proof fn lemma_block_slot(n: usize, i: usize)
    requires
        n < 9,
        i < 9,
    ensures
        SliceType::Block(n).at(i).col == n / 3 * 3 + i / 3,
        SliceType::Block(n).at(i).row == n % 3 * 3 + i % 3,
        SliceType::Block(n).at(i).wf(),
        SliceType::Block(n).at(i).block() == n,
        SliceType::Block(n).slot_of(SliceType::Block(n).at(i)) == i,
{
    let a = n / 3;
    let b = n % 3;
    let c = i / 3;
    let d = i % 3;
    assert(n == a * 3 + b && i == c * 3 + d);
    assert(0 <= a < 3 && 0 <= b < 3 && 0 <= c < 3 && 0 <= d < 3);
    let col = a * 3 + c;
    let row = b * 3 + d;
    assert(col / 3 == a && col % 3 == c);
    assert(row / 3 == b && row % 3 == d);
}

/// Slot `i` of a unit lies on the grid and in the unit, and is found again at `i`.
pub proof fn lemma_slot(u: SliceType, i: usize)
    requires
        u.wf(),
        i < 9,
    ensures
        u.at(i).wf(),
        u.holds(u.at(i)),
        u.slot_of(u.at(i)) == i,
{
    match u {
        SliceType::Row(n) => {},
        SliceType::Col(n) => {},
        SliceType::Block(n) => {
            lemma_block_slot(n, i);
        },
    }
}

/// A coordinate of a unit stands at one of its nine slots.
#[verifier::rlimit(40)]
pub proof fn lemma_slot_of(u: SliceType, p: PuzzleIndex)
    requires
        u.wf(),
        p.wf(),
        u.holds(p),
    ensures
        u.slot_of(p) < 9,
        u.at(u.slot_of(p)) == p,
{
    match u {
        SliceType::Row(n) => {},
        SliceType::Col(n) => {},
        SliceType::Block(n) => {
            let a = p.col / 3;
            let c = p.col % 3;
            let b = p.row / 3;
            let d = p.row % 3;
            assert(p.col == a * 3 + c && p.row == b * 3 + d);
            assert(n == a * 3 + b);
            assert(n / 3 == a && n % 3 == b);
            let i = c * 3 + d;
            assert(i / 3 == c && i % 3 == d);
        },
    }
}

/// The cells at two different slots of a unit see each other.
#[verifier::rlimit(40)]
pub proof fn lemma_unit_sees(u: SliceType, i: usize, j: usize)
    requires
        u.wf(),
        i < 9,
        j < 9,
        i != j,
    ensures
        u.at(i).sees(u.at(j)),
{
    match u {
        SliceType::Row(n) => {},
        SliceType::Col(n) => {},
        SliceType::Block(n) => {
            lemma_block_slot(n, i);
            lemma_block_slot(n, j);
        },
    }
}

/// Two different cells see each other exactly when some unit holds both.
#[verifier::rlimit(40)]
pub proof fn lemma_sees_units(p: PuzzleIndex, q: PuzzleIndex)
    requires
        p.wf(),
        q.wf(),
    ensures
        SliceType::Row(p.row).wf() && SliceType::Col(p.col).wf() && SliceType::Block(p.block() as usize).wf(),
        SliceType::Row(p.row).holds(p) && SliceType::Col(p.col).holds(p) && SliceType::Block(p.block() as usize).holds(p),
        p.sees(q) <==> p != q && (SliceType::Row(p.row).holds(q) || SliceType::Col(p.col).holds(q)
            || SliceType::Block(p.block() as usize).holds(q)),
{
    let a = p.col / 3;
    let b = p.row / 3;
    assert(0 <= a < 3 && 0 <= b < 3);
    assert(p.block() == a * 3 + b);
}

} // verus!
