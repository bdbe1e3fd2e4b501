//! The state of one cell: a fixed value, or the set of values still possible.

use crate::bits::{
    count, count_ones, holds, is_mask, lemma_count_one, lemma_holds_ops, lemma_is_mask,
    lemma_single_count, lowest, single, trailing_zeros,
};
use vstd::prelude::*;

verus! {

/// The state of a cell: fixed to a value, or open with a set of candidates.
#[allow(non_camel_case_types)]
#[derive(Debug, Clone, Copy)]
pub enum _Cell {
    /// The cell holds this value, from 1 to 9.
    Filled(u8),
    /// The cell is open; bit `d` of the mask says that the value `d + 1` is still possible.
    Unfilled(u16),
}

impl _Cell {
    /// A fixed value lies in 1..=9, a mask in the nine low bits.
    pub open spec fn wf(&self) -> bool {
        match *self {
            _Cell::Filled(v) => 1 <= v <= 9,
            _Cell::Unfilled(m) => is_mask(m),
        }
    }

    /// The cell holds a fixed value.
    pub open spec fn filled(&self) -> bool {
        *self is Filled
    }

    /// The candidate mask; for a fixed value the mask of that value alone.
    pub open spec fn bits(&self) -> u16 {
        match *self {
            _Cell::Filled(v) => single((v - 1) as u16),
            _Cell::Unfilled(m) => m,
        }
    }

    /// The value `v` is among the candidates.
    pub open spec fn allows(&self, v: int) -> bool {
        1 <= v <= 9 && holds(self.bits(), (v - 1) as u16)
    }

    /// The one value of a cell whose mask holds exactly one.
    pub open spec fn sole_value(&self) -> Option<u8> {
        if count(self.bits()) == 1 {
            Some((lowest(self.bits()) + 1) as u8)
        } else {
            None
        }
    }

    /// The cell after `mask` was taken from its candidates; a fixed cell stays.
    pub open spec fn eliminated(&self, mask: u16) -> _Cell {
        match *self {
            _Cell::Filled(v) => *self,
            _Cell::Unfilled(m) => _Cell::Unfilled(m & !mask),
        }
    }

    /// The cell after its candidates were cut down to `mask`; a fixed cell stays.
    pub open spec fn restricted(&self, mask: u16) -> _Cell {
        match *self {
            _Cell::Filled(v) => *self,
            _Cell::Unfilled(m) => _Cell::Unfilled(m & mask),
        }
    }

    /// An open cell with one candidate becomes fixed to it; every other cell stays.
    pub open spec fn determined(&self) -> _Cell {
        match *self {
            _Cell::Filled(v) => *self,
            _Cell::Unfilled(m) => if count(m) == 1 {
                _Cell::Filled((lowest(m) + 1) as u8)
            } else {
                *self
            },
        }
    }

    /// An open cell becomes fixed to `value`; a fixed cell stays.
    pub open spec fn inserted(&self, value: u8) -> _Cell {
        match *self {
            _Cell::Filled(v) => *self,
            _Cell::Unfilled(m) => _Cell::Filled(value),
        }
    }

    /// Whether the cell holds a fixed value.
    pub fn is_filled(&self) -> (r: bool)
        ensures
            r == self.filled(),
    {
        match self {
            _Cell::Filled(_) => true,
            _Cell::Unfilled(_) => false,
        }
    }

    /// The candidate mask: for a fixed value `v` the mask with bit `v - 1` alone.
    pub fn bit(&self) -> (r: u16)
        requires
            self.wf(),
        ensures
            r == self.bits(),
            is_mask(r),
    {
        match self {
            _Cell::Filled(i) => {
                proof {
                    lemma_single_count((*i - 1) as u16);
                }
                let d: u16 = (*i - 1) as u16;
                1u16 << d
            },
            _Cell::Unfilled(b) => *b,
        }
    }

    /// The value of the cell if its mask holds exactly one: `Some` for a fixed cell and for an
    /// open cell with one candidate, `None` otherwise.
    pub fn to_determined_number(&self) -> (r: Option<u8>)
        requires
            self.wf(),
        ensures
            r == self.sole_value(),
            r matches Some(v) ==> 1 <= v <= 9 && self.bits() == single((v - 1) as u16),
    {
        let b = self.bit();
        if count_ones(b) == 1 {
            proof {
                lemma_count_one(b);
            }
            Some((trailing_zeros(b) + 1) as u8)
        } else {
            None
        }
    }

    /// Fixes an open cell that has exactly one candidate to that candidate, and says whether it
    /// did. A fixed cell and an open cell with no or several candidates stay as they are.
    pub fn determine(&mut self) -> (r: bool)
        requires
            old(self).wf(),
        ensures
            *final(self) == old(self).determined(),
            r == (!old(self).filled() && final(self).filled()),
            final(self).wf(),
            final(self).bits() == old(self).bits(),
    {
        if self.is_filled() {
            return false;
        }
        match self.to_determined_number() {
            Some(i) => {
                *self = _Cell::Filled(i);
                true
            },
            None => false,
        }
    }

    /// Fixes an open cell to `value`, whatever its candidates are, and says whether it did. A
    /// fixed cell stays as it is.
    pub fn insert(&mut self, value: u8) -> (r: bool)
        requires
            old(self).wf(),
            1 <= value <= 9,
        ensures
            *final(self) == old(self).inserted(value),
            r == !old(self).filled(),
            final(self).wf(),
    {
        if self.is_filled() {
            false
        } else {
            *self = _Cell::Filled(value);
            true
        }
    }

    /// Takes the digits of `mask` out of the candidates of an open cell.
    pub fn eliminate(&mut self, mask: u16)
        requires
            old(self).wf(),
        ensures
            *final(self) == old(self).eliminated(mask),
            final(self).wf(),
    {
        match self {
            _Cell::Filled(_) => {},
            _Cell::Unfilled(b) => {
                let m: u16 = *b & !mask;
                proof {
                    lemma_and_keeps_mask(*b, !mask);
                }
                *self = _Cell::Unfilled(m);
            },
        }
    }

    /// Keeps of the candidates of an open cell only the digits of `mask`.
    pub fn restrict(&mut self, mask: u16)
        requires
            old(self).wf(),
        ensures
            *final(self) == old(self).restricted(mask),
            final(self).wf(),
    {
        match self {
            _Cell::Filled(_) => {},
            _Cell::Unfilled(b) => {
                let m: u16 = *b & mask;
                proof {
                    lemma_and_keeps_mask(*b, mask);
                }
                *self = _Cell::Unfilled(m);
            },
        }
    }
}

/// Cutting a nine-bit mask down leaves a nine-bit mask.
pub proof fn lemma_and_keeps_mask(m: u16, k: u16)
    requires
        is_mask(m),
    ensures
        is_mask(m & k),
{
    lemma_holds_ops();
    lemma_is_mask(m);
    lemma_is_mask(m & k);
}

} // verus!
