//! A round of deduction that changes the text of the grid takes candidates away, so the
//! rounds come to rest.

use super::model::{advances, cell_advances};
use super::solving::lemma_keeps_solved_once;
use super::wings::lemma_masked;
use crate::bits::{count, holds, is_mask, lemma_is_mask, lemma_mask_ext, lemma_subset, subset};
use crate::puzzle::board::{Board, board_wf};
use crate::puzzle::hash::{hash_of, lemma_hash_unique, same_masks};
use crate::puzzle::passes::solved_once;
use vstd::prelude::*;

verus! {

/// The number of candidates of the first `n` cells, a fixed cell counting one.
pub open spec fn weight_below(b: Board, n: int) -> nat
    decreases n,
{
    if n <= 0 {
        0
    } else {
        weight_below(b, n - 1) + count(b[n - 1].bits())
    }
}

/// The number of candidates of the grid, a fixed cell counting one; 729 at most.
pub open spec fn weight(b: Board) -> nat {
    weight_below(b, 81)
}

/// A proper part of a nine-bit mask has fewer digits.
proof fn lemma_count_proper(x: u16, y: u16)
    requires
        is_mask(x),
        is_mask(y),
        subset(x, y),
        x != y,
    ensures
        count(x) < count(y),
{
    lemma_subset(x, y);
    lemma_is_mask(x);
    lemma_is_mask(y);
    if count(x) >= count(y) {
        assert forall|d: u16| d < 16 implies holds(x, d) == holds(y, d) by {}
        lemma_mask_ext(x, y);
    }
}

/// Where every cell has moved on, the first `n` cells have no more candidates than before,
/// and fewer if one of them has another mask.
proof fn lemma_weight_below(a: Board, b: Board, n: int)
    requires
        board_wf(a),
        board_wf(b),
        advances(a, b),
        0 <= n <= 81,
    ensures
        weight_below(b, n) <= weight_below(a, n),
        (exists|k: int| 0 <= k < n && a[k].bits() != b[k].bits()) ==> weight_below(b, n)
            < weight_below(a, n),
    decreases n,
{
    if n > 0 {
        lemma_weight_below(a, b, n - 1);
        let x = b[n - 1].bits();
        let y = a[n - 1].bits();
        assert(cell_advances(a[n - 1], b[n - 1]));
        lemma_masked(a[n - 1]);
        lemma_masked(b[n - 1]);
        lemma_subset(x, y);
        if x != y {
            lemma_count_proper(x, y);
        }
        if exists|k: int| 0 <= k < n && a[k].bits() != b[k].bits() {
            let k = choose|k: int| 0 <= k < n && a[k].bits() != b[k].bits();
            if k < n - 1 {
                assert(0 <= k < n - 1 && a[k].bits() != b[k].bits());
            }
        }
    }
}

/// A round of deduction adds no candidate, and takes at least one away if it changes the
/// text of the grid. So the text changes in 729 rounds at most, and calling `solve` until it
/// stays the same comes to an end.
pub proof fn lemma_round_progress(b: Board)
    requires
        board_wf(b),
    ensures
        weight(solved_once(b)) <= weight(b) <= 729,
        hash_of(solved_once(b)) != hash_of(b) ==> weight(solved_once(b)) < weight(b),
{
    let r = solved_once(b);
    lemma_keeps_solved_once(b);
    lemma_weight_below(b, r, 81);
    lemma_hash_unique(b, r);
    lemma_weight_bound(b, 81);
    if !same_masks(b, r) {
        let k = choose|k: int| 0 <= k < 81 && !(b[k].bits() == r[k].bits());
        assert(0 <= k < 81 && b[k].bits() != r[k].bits());
    }
}

/// The first `n` cells have nine candidates each at most.
proof fn lemma_weight_bound(b: Board, n: int)
    requires
        0 <= n <= 81,
    ensures
        weight_below(b, n) <= 9 * n,
    decreases n,
{
    if n > 0 {
        lemma_weight_bound(b, n - 1);
    }
}

} // verus!
