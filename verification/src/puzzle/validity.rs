//! The three rules that every unit of a grid has to meet.

use super::board::{Board, board_wf};
use super::passes::{slot_bits, slot_filled};
use super::puzzle_slice::PuzzleSlice;
use super::slice_type::{lemma_slot, SliceType};
use crate::bits::{FULL_MASK, holds, lemma_holds_ops};
use vstd::prelude::*;

verus! {

/// The candidates of the fixed cells among the slots below `n`, together.
pub open spec fn filled_sum(b: Board, unit: SliceType, n: usize) -> u16
    decreases n,
{
    if n == 0 {
        0
    } else if slot_filled(b, unit, (n - 1) as usize) {
        filled_sum(b, unit, (n - 1) as usize) | slot_bits(b, unit, (n - 1) as usize)
    } else {
        filled_sum(b, unit, (n - 1) as usize)
    }
}

/// The candidates of the open cells among the slots below `n`, together.
pub open spec fn open_sum(b: Board, unit: SliceType, n: usize) -> u16
    decreases n,
{
    if n == 0 {
        0
    } else if slot_filled(b, unit, (n - 1) as usize) {
        open_sum(b, unit, (n - 1) as usize)
    } else {
        open_sum(b, unit, (n - 1) as usize) | slot_bits(b, unit, (n - 1) as usize)
    }
}

/// Two fixed cells among the slots below `n` hold the same value.
pub open spec fn clash_below(b: Board, unit: SliceType, n: usize) -> bool {
    exists|i: usize, j: usize|
        i < j < n && #[trigger] slot_filled(b, unit, i) && #[trigger] slot_filled(b, unit, j)
            && slot_bits(b, unit, i) == slot_bits(b, unit, j)
}

/// What the rules look at in one unit.
pub struct UnitSums {
    /// The values of the fixed cells, as a mask.
    pub filled: u16,
    /// The candidates of the open cells, together.
    pub open: u16,
    /// Two fixed cells hold the same value.
    pub clash: bool,
}

impl UnitSums {
    /// No two fixed cells share a value; every value is a candidate somewhere; and no
    /// value of a fixed cell is a candidate of an open one.
    pub open spec fn ok(&self) -> bool {
        !self.clash && (self.filled | self.open) == FULL_MASK && (self.filled & self.open) == 0
    }

    /// Whether the sums meet the three rules.
    pub fn is_ok(&self) -> (r: bool)
        ensures
            r == self.ok(),
    {
        !self.clash && (self.filled | self.open) == FULL_MASK && (self.filled & self.open) == 0
    }
}

/// The sums of one unit.
pub open spec fn unit_sums(b: Board, unit: SliceType) -> UnitSums {
    UnitSums {
        filled: filled_sum(b, unit, 9),
        open: open_sum(b, unit, 9),
        clash: clash_below(b, unit, 9),
    }
}

/// The unit meets the three rules.
pub open spec fn unit_valid(b: Board, unit: SliceType) -> bool {
    unit_sums(b, unit).ok()
}

/// Every one of the 27 units meets the three rules.
pub open spec fn valid(b: Board) -> bool {
    forall|unit: SliceType| unit.wf() ==> #[trigger] unit_valid(b, unit)
}

/// The block, the column and the row of the number `i` meet the three rules.
pub open spec fn round_valid(b: Board, i: usize) -> bool {
    unit_valid(b, SliceType::Block(i)) && unit_valid(b, SliceType::Col(i)) && unit_valid(
        b,
        SliceType::Row(i),
    )
}

/// A digit is in `filled_sum` exactly when a fixed cell below `n` holds it.
pub proof fn lemma_filled_sum(b: Board, unit: SliceType, n: usize)
    ensures
        forall|d: u16|
            holds(filled_sum(b, unit, n), d) <==> exists|i: usize|
                i < n && #[trigger] slot_filled(b, unit, i) && holds(slot_bits(b, unit, i), d),
    decreases n,
{
    lemma_holds_ops();
    if n > 0 {
        let m = (n - 1) as usize;
        lemma_filled_sum(b, unit, m);
        assert forall|d: u16|
            holds(filled_sum(b, unit, n), d) <==> exists|i: usize|
                i < n && #[trigger] slot_filled(b, unit, i) && holds(slot_bits(b, unit, i), d) by {
            let before = exists|i: usize|
                i < m && #[trigger] slot_filled(b, unit, i) && holds(slot_bits(b, unit, i), d);
            let now = exists|i: usize|
                i < n && #[trigger] slot_filled(b, unit, i) && holds(slot_bits(b, unit, i), d);
            let here = slot_filled(b, unit, m) && holds(slot_bits(b, unit, m), d);
            assert(holds(filled_sum(b, unit, m), d) == before);
            if before {
                let i = choose|i: usize|
                    i < m && #[trigger] slot_filled(b, unit, i) && holds(slot_bits(b, unit, i), d);
                assert(i < n && slot_filled(b, unit, i));
            }
            if now {
                let i = choose|i: usize|
                    i < n && #[trigger] slot_filled(b, unit, i) && holds(slot_bits(b, unit, i), d);
                if i < m {
                    assert(before);
                } else {
                    assert(here);
                }
            }
            assert(now == (before || here));
        }
    }
}

/// A digit is in `open_sum` exactly when an open cell below `n` has it as a candidate.
pub proof fn lemma_open_sum(b: Board, unit: SliceType, n: usize)
    ensures
        forall|d: u16|
            holds(open_sum(b, unit, n), d) <==> exists|i: usize|
                i < n && !#[trigger] slot_filled(b, unit, i) && holds(slot_bits(b, unit, i), d),
    decreases n,
{
    lemma_holds_ops();
    if n > 0 {
        let m = (n - 1) as usize;
        lemma_open_sum(b, unit, m);
        assert forall|d: u16|
            holds(open_sum(b, unit, n), d) <==> exists|i: usize|
                i < n && !#[trigger] slot_filled(b, unit, i) && holds(slot_bits(b, unit, i), d) by {
            let before = exists|i: usize|
                i < m && !#[trigger] slot_filled(b, unit, i) && holds(slot_bits(b, unit, i), d);
            let now = exists|i: usize|
                i < n && !#[trigger] slot_filled(b, unit, i) && holds(slot_bits(b, unit, i), d);
            let here = !slot_filled(b, unit, m) && holds(slot_bits(b, unit, m), d);
            assert(holds(open_sum(b, unit, m), d) == before);
            if before {
                let i = choose|i: usize|
                    i < m && !#[trigger] slot_filled(b, unit, i) && holds(slot_bits(b, unit, i), d);
                assert(i < n && !slot_filled(b, unit, i));
            }
            if now {
                let i = choose|i: usize|
                    i < n && !#[trigger] slot_filled(b, unit, i) && holds(slot_bits(b, unit, i), d);
                if i < m {
                    assert(before);
                } else {
                    assert(here);
                }
            }
            assert(now == (before || here));
        }
    }
}

impl<'a> PuzzleSlice<'a> {
    /// What the rules look at in this unit.
    #[verifier::rlimit(40)]
    pub fn sums(&self) -> (r: UnitSums)
        requires
            self.wf(),
        ensures
            r == unit_sums(self.puzzle@, self.type_),
    {
        let mut filled: u16 = 0;
        let mut open: u16 = 0;
        let mut clash = false;
        let mut n: usize = 0;
        while n < 9
            invariant
                n <= 9,
                self.wf(),
                filled == filled_sum(self.puzzle@, self.type_, n),
                open == open_sum(self.puzzle@, self.type_, n),
                clash == clash_below(self.puzzle@, self.type_, n),
            decreases 9 - n,
        {
            let c = self.get(n);
            let bit = c.bit();
            if c.is_filled() {
                proof {
                    self.puzzle.lemma_wf();
                    lemma_clash_step(self.puzzle@, self.type_, n);
                }
                if filled & bit != 0 {
                    clash = true;
                }
                filled = filled | bit;
            } else {
                open = open | bit;
                proof {
                    lemma_clash_skip(self.puzzle@, self.type_, n);
                }
            }
            n += 1;
        }
        UnitSums { filled, open, clash }
    }

    /// Whether this unit meets the three rules.
    pub fn check(&self) -> (r: bool)
        requires
            self.wf(),
        ensures
            r == unit_valid(self.puzzle@, self.type_),
    {
        self.sums().is_ok()
    }
}

/// An open cell at slot `n` adds no clash.
proof fn lemma_clash_skip(b: Board, unit: SliceType, n: usize)
    requires
        n < 9,
        !slot_filled(b, unit, n),
    ensures
        clash_below(b, unit, (n + 1) as usize) == clash_below(b, unit, n),
{
    if clash_below(b, unit, (n + 1) as usize) {
        let (i, j) = choose|i: usize, j: usize|
            i < j < n + 1 && #[trigger] slot_filled(b, unit, i) && #[trigger] slot_filled(
                b,
                unit,
                j,
            ) && slot_bits(b, unit, i) == slot_bits(b, unit, j);
        assert(i < j < n && slot_filled(b, unit, i) && slot_filled(b, unit, j));
    }
    if clash_below(b, unit, n) {
        let (i, j) = choose|i: usize, j: usize|
            i < j < n && #[trigger] slot_filled(b, unit, i) && #[trigger] slot_filled(b, unit, j)
                && slot_bits(b, unit, i) == slot_bits(b, unit, j);
        assert(i < j < n + 1 && slot_filled(b, unit, i) && slot_filled(b, unit, j));
    }
}

/// A fixed cell at slot `n` adds a clash exactly when its value is among those of the fixed
/// cells before it.
#[verifier::rlimit(40)]
proof fn lemma_clash_step(b: Board, unit: SliceType, n: usize)
    requires
        n < 9,
        slot_filled(b, unit, n),
        board_wf(b),
        unit.wf(),
    ensures
        clash_below(b, unit, (n + 1) as usize) == (clash_below(b, unit, n) || (filled_sum(
            b,
            unit,
            n,
        ) & slot_bits(b, unit, n)) != 0),
{
    lemma_holds_ops();
    crate::bits::lemma_holds_single();
    lemma_filled_sum(b, unit, n);
    lemma_slot(unit, n);
    let bit = slot_bits(b, unit, n);
    let v = b[unit.at(n).flat()]->Filled_0;
    let d = (v - 1) as u16;
    assert(bit == crate::bits::single(d));
    let meet = filled_sum(b, unit, n) & bit;
    // the meet is empty or the bit itself
    assert(holds(meet, d) == holds(filled_sum(b, unit, n), d));
    if meet != 0 {
        if !holds(meet, d) {
            assert forall|e: u16| e < 16 implies holds(meet, e) == holds(0, e) by {}
            crate::bits::lemma_mask_ext(meet, 0);
        }
        let i = choose|i: usize|
            i < n && #[trigger] slot_filled(b, unit, i) && holds(slot_bits(b, unit, i), d);
        lemma_slot(unit, i);
        let w = b[unit.at(i).flat()]->Filled_0;
        assert(slot_bits(b, unit, i) == crate::bits::single((w - 1) as u16));
        assert(slot_filled(b, unit, i) && slot_filled(b, unit, n) && i < n < n + 1);
    }
    if clash_below(b, unit, n) {
        let (i, j) = choose|i: usize, j: usize|
            i < j < n && #[trigger] slot_filled(b, unit, i) && #[trigger] slot_filled(b, unit, j)
                && slot_bits(b, unit, i) == slot_bits(b, unit, j);
        assert(i < j < n + 1 && slot_filled(b, unit, i) && slot_filled(b, unit, j));
    }
    if clash_below(b, unit, (n + 1) as usize) {
        let (i, j) = choose|i: usize, j: usize|
            i < j < n + 1 && #[trigger] slot_filled(b, unit, i) && #[trigger] slot_filled(
                b,
                unit,
                j,
            ) && slot_bits(b, unit, i) == slot_bits(b, unit, j);
        if j < n {
            assert(i < j < n && slot_filled(b, unit, i) && slot_filled(b, unit, j));
        } else {
            lemma_slot(unit, i);
            assert(holds(slot_bits(b, unit, i), d));
            assert(i < n && slot_filled(b, unit, i));
            assert(holds(filled_sum(b, unit, n), d));
            assert(holds(meet, d));
        }
    }
}

} // verus!
