//! The naked-triple pass on a unit clears the rest of the unit of the first triple that the
//! unit holds, on a grid that admits a solution.

use super::cascade::lemma_disjoint_subset;
use super::effects::lemma_naked_triple_clears;
use super::fixed_point::lemma_repeat_split;
use super::model::{solvable, cell_advances, compatible, is_solution, lemma_flat, lemma_keeps_refl};
use super::steps::lemma_repeat;
use super::techniques::lemma_keeps_naked_triple_at;
use crate::bits::count;
use crate::puzzle::board::{board_wf, Board};
use crate::puzzle::passes::{
    naked_triple_at, naked_triple_from, naked_triple_inner, naked_triple_mid,
    naked_triple_middle, naked_triple_outer, naked_triple_unit, repeat, slot_bits, slot_filled,
};
use crate::puzzle::slice_type::{lemma_slot, SliceType};
use vstd::prelude::*;

verus! {

/// The three cells at the slots `i < j < k` are open and have three candidates between them.
pub open spec fn is_triple(b: Board, unit: SliceType, i: usize, j: usize, k: usize) -> bool {
    i < j < k < 9 && !slot_filled(b, unit, i) && !slot_filled(b, unit, j) && !slot_filled(
        b,
        unit,
        k,
    ) && count(slot_bits(b, unit, i) | slot_bits(b, unit, j) | slot_bits(b, unit, k)) == 3
}

/// The slots `i1 < j1 < k1` come before the slots `i < j < k` in the order of the pass.
pub open spec fn comes_before(i1: usize, j1: usize, k1: usize, i: usize, j: usize, k: usize)
    -> bool {
    i1 < i || (i1 == i && (j1 < j || (j1 == j && k1 < k)))
}

/// No triple of the unit comes before the slots `i < j < k` in the order of the pass.
pub open spec fn first_triple(b: Board, unit: SliceType, i: usize, j: usize, k: usize) -> bool {
    forall|i1: usize, j1: usize, k1: usize|
        comes_before(i1, j1, k1, i, j, k) ==> !#[trigger] is_triple(b, unit, i1, j1, k1)
}

/// No cell of the unit but the three of the triple has a candidate of the triple.
pub open spec fn triple_done(
    x: Board,
    unit: SliceType,
    i: usize,
    j: usize,
    k: usize,
    bit: u16,
) -> bool {
    forall|l: usize|
        l < 9 && l != i && l != j && l != k ==> #[trigger] slot_bits(x, unit, l) & bit == 0
}

/// What the pass maintains once it has come to the triple.
pub open spec fn triple_kept(
    x: Board,
    unit: SliceType,
    i: usize,
    j: usize,
    k: usize,
    bit: u16,
) -> bool {
    board_wf(x) && triple_done(x, unit, i, j, k, bit)
}

/// A step of the pass leaves the rest of the unit clear of the triple.
proof fn lemma_triple_kept_at(
    x: Board,
    unit: SliceType,
    i: usize,
    j: usize,
    k: usize,
    bit: u16,
    i1: usize,
    j1: usize,
    k1: usize,
)
    requires
        unit.wf(),
        triple_kept(x, unit, i, j, k, bit),
        i1 < j1 < k1 < 9,
    ensures
        triple_kept(naked_triple_at(x, unit, i1, j1, k1), unit, i, j, k, bit),
{
    let y = naked_triple_at(x, unit, i1, j1, k1);
    lemma_keeps_refl(x);
    lemma_keeps_naked_triple_at(x, x, unit, i1, j1, k1);
    assert forall|l: usize| l < 9 && l != i && l != j && l != k implies #[trigger] slot_bits(
        y,
        unit,
        l,
    ) & bit == 0 by {
        lemma_slot(unit, l);
        lemma_flat(unit.at(l));
        assert(cell_advances(x[unit.at(l).flat()], y[unit.at(l).flat()]));
        assert(slot_bits(x, unit, l) & bit == 0);
        lemma_disjoint_subset(slot_bits(y, unit, l), slot_bits(x, unit, l), bit);
    }
}

/// The steps for two slots with later slots leave the rest of the unit clear of the triple.
proof fn lemma_triple_kept_mid(
    x: Board,
    unit: SliceType,
    i: usize,
    j: usize,
    k: usize,
    bit: u16,
    i1: usize,
    j1: usize,
    from: usize,
)
    requires
        unit.wf(),
        triple_kept(x, unit, i, j, k, bit),
        i1 < j1 < from,
    ensures
        triple_kept(repeat(x, naked_triple_inner(unit, i1, j1), from, 9), unit, i, j, k, bit),
{
    let inner = naked_triple_inner(unit, i1, j1);
    let kept = |z: Board| triple_kept(z, unit, i, j, k, bit);
    assert forall|z: Board, k1: usize| from <= k1 < 9 && kept(z) implies kept(
        #[trigger] inner(z, k1),
    ) by {
        lemma_triple_kept_at(z, unit, i, j, k, bit, i1, j1, k1);
    }
    lemma_repeat(kept, x, inner, from, 9);
}

/// The steps for one slot with later slots leave the rest of the unit clear of the triple.
proof fn lemma_triple_kept_from(
    x: Board,
    unit: SliceType,
    i: usize,
    j: usize,
    k: usize,
    bit: u16,
    i1: usize,
    from: usize,
)
    requires
        unit.wf(),
        triple_kept(x, unit, i, j, k, bit),
        i1 < from,
    ensures
        triple_kept(repeat(x, naked_triple_middle(unit, i1), from, 9), unit, i, j, k, bit),
{
    let middle = naked_triple_middle(unit, i1);
    let kept = |z: Board| triple_kept(z, unit, i, j, k, bit);
    assert forall|z: Board, j1: usize| from <= j1 < 9 && kept(z) implies kept(
        #[trigger] middle(z, j1),
    ) by {
        if !slot_filled(z, unit, j1) {
            lemma_triple_kept_mid(z, unit, i, j, k, bit, i1, j1, (j1 + 1) as usize);
        }
    }
    lemma_repeat(kept, x, middle, from, 9);
}

/// Naked triple, on one unit: where the grid admits a solution, and three open cells of the
/// unit have three candidates between them and are the first such three in the order of the
/// pass, no other cell of the unit has any of the three candidates after the pass on that
/// unit.
#[verifier::rlimit(40)]
pub proof fn lemma_naked_triple_unit_clears(
    b: Board,
    unit: SliceType,
    i: usize,
    j: usize,
    k: usize,
    s: Seq<u8>,
    l: usize,
)
    requires
        board_wf(b),
        unit.wf(),
        is_solution(s),
        compatible(b, s),
        is_triple(b, unit, i, j, k),
        first_triple(b, unit, i, j, k),
        l < 9,
        l != i,
        l != j,
        l != k,
    ensures
        slot_bits(naked_triple_unit(b, unit), unit, l) & (slot_bits(b, unit, i) | slot_bits(
            b,
            unit,
            j,
        ) | slot_bits(b, unit, k)) == 0,
{
    let bit = slot_bits(b, unit, i) | slot_bits(b, unit, j) | slot_bits(b, unit, k);
    let outer = naked_triple_outer(unit);
    let middle = naked_triple_middle(unit, i);
    let inner = naked_triple_inner(unit, i, j);
    let same = |z: Board| z == b;
    // nothing happens before the turn of the triple
    assert forall|z: Board, i1: usize| 0 <= i1 < i && same(z) implies same(#[trigger] outer(z, i1)) by {
        lemma_no_triple_from(b, unit, i, j, k, i1);
    }
    lemma_repeat(same, b, outer, 0, i);
    lemma_repeat_split(b, outer, 0, i, 9);
    assert(repeat(b, outer, i, 9) == repeat(outer(b, i), outer, (i + 1) as usize, 9));
    assert forall|z: Board, j1: usize| i + 1 <= j1 < j && same(z) implies same(
        #[trigger] middle(z, j1),
    ) by {
        lemma_no_triple_mid(b, unit, i, j, k, i, j1);
    }
    lemma_repeat(same, b, middle, (i + 1) as usize, j);
    lemma_repeat_split(b, middle, (i + 1) as usize, j, 9);
    assert(repeat(b, middle, j, 9) == repeat(middle(b, j), middle, (j + 1) as usize, 9));
    assert forall|z: Board, k1: usize| j + 1 <= k1 < k && same(z) implies same(
        #[trigger] inner(z, k1),
    ) by {
        assert(comes_before(i, j, k1, i, j, k));
        assert(!is_triple(b, unit, i, j, k1));
    }
    lemma_repeat(same, b, inner, (j + 1) as usize, k);
    lemma_repeat_split(b, inner, (j + 1) as usize, k, 9);
    let y = naked_triple_at(b, unit, i, j, k);
    assert(repeat(b, inner, k, 9) == repeat(y, inner, (k + 1) as usize, 9));
    // the turn of the triple
    lemma_keeps_refl(b);
    lemma_keeps_naked_triple_at(b, b, unit, i, j, k);
    assert forall|n: usize| n < 9 && n != i && n != j && n != k implies #[trigger] slot_bits(
        y,
        unit,
        n,
    ) & bit == 0 by {
        lemma_naked_triple_clears(b, unit, i, j, k, s, n);
    }
    assert(triple_kept(y, unit, i, j, k, bit));
    // what follows leaves the rest of the unit clear
    lemma_triple_kept_mid(y, unit, i, j, k, bit, i, j, (k + 1) as usize);
    let y1 = naked_triple_mid(b, unit, i, j);
    assert(y1 == repeat(b, inner, (j + 1) as usize, 9));
    assert(y1 == middle(b, j));
    lemma_triple_kept_from(y1, unit, i, j, k, bit, i, (j + 1) as usize);
    let y2 = naked_triple_from(b, unit, i);
    assert(y2 == repeat(b, middle, (i + 1) as usize, 9));
    assert(y2 == outer(b, i));
    let kept = |z: Board| triple_kept(z, unit, i, j, k, bit);
    assert forall|z: Board, i1: usize| i + 1 <= i1 < 9 && kept(z) implies kept(
        #[trigger] outer(z, i1),
    ) by {
        if !slot_filled(z, unit, i1) {
            lemma_triple_kept_from(z, unit, i, j, k, bit, i1, (i1 + 1) as usize);
        }
    }
    lemma_repeat(kept, y2, outer, (i + 1) as usize, 9);
}

/// Before the turn of the first triple, the steps for two slots change nothing.
proof fn lemma_no_triple_mid(
    b: Board,
    unit: SliceType,
    i: usize,
    j: usize,
    k: usize,
    i1: usize,
    j1: usize,
)
    requires
        first_triple(b, unit, i, j, k),
        i1 < j1 < 9,
        i1 < i || (i1 == i && j1 < j),
        !slot_filled(b, unit, i1),
    ensures
        naked_triple_mid(b, unit, i1, j1) == b,
{
    if !slot_filled(b, unit, j1) {
        let inner = naked_triple_inner(unit, i1, j1);
        let same = |z: Board| z == b;
        assert forall|z: Board, k1: usize| j1 + 1 <= k1 < 9 && same(z) implies same(
            #[trigger] inner(z, k1),
        ) by {
            assert(comes_before(i1, j1, k1, i, j, k));
            assert(!is_triple(b, unit, i1, j1, k1));
        }
        lemma_repeat(same, b, inner, (j1 + 1) as usize, 9);
    }
}

/// Before the turn of the first triple, the steps for one slot change nothing.
proof fn lemma_no_triple_from(b: Board, unit: SliceType, i: usize, j: usize, k: usize, i1: usize)
    requires
        first_triple(b, unit, i, j, k),
        i1 < i,
        i1 < 9,
    ensures
        naked_triple_from(b, unit, i1) == b,
{
    if !slot_filled(b, unit, i1) {
        let middle = naked_triple_middle(unit, i1);
        let same = |z: Board| z == b;
        assert forall|z: Board, j1: usize| i1 + 1 <= j1 < 9 && same(z) implies same(
            #[trigger] middle(z, j1),
        ) by {
            lemma_no_triple_mid(b, unit, i, j, k, i1, j1);
        }
        lemma_repeat(same, b, middle, (i1 + 1) as usize, 9);
    }
}

/// In `r`, no cell of the unit has a candidate of the first triple that the unit held in `b`.
pub open spec fn first_triple_cleared(b: Board, r: Board, unit: SliceType) -> bool {
    forall|i: usize, j: usize, k: usize, l: usize|
        #[trigger] is_triple(b, unit, i, j, k) && first_triple(b, unit, i, j, k) && l < 9 && l != i
            && l != j && l != k ==> #[trigger] slot_bits(r, unit, l) & (slot_bits(b, unit, i)
            | slot_bits(b, unit, j) | slot_bits(b, unit, k)) == 0
}

/// Naked triple, on one unit: on a grid that admits a solution, the pass on a unit clears the
/// rest of the unit of the first triple that the unit holds.
pub proof fn lemma_naked_triple_unit(b: Board, unit: SliceType)
    requires
        board_wf(b),
        unit.wf(),
        solvable(b),
    ensures
        first_triple_cleared(b, naked_triple_unit(b, unit), unit),
{
    let s = choose|s: Seq<u8>| #[trigger] is_solution(s) && compatible(b, s);
    let r = naked_triple_unit(b, unit);
    assert forall|i: usize, j: usize, k: usize, l: usize|
        #[trigger] is_triple(b, unit, i, j, k) && first_triple(b, unit, i, j, k) && l < 9 && l != i
            && l != j && l != k implies #[trigger] slot_bits(r, unit, l) & (slot_bits(b, unit, i)
        | slot_bits(b, unit, j) | slot_bits(b, unit, k)) == 0 by {
        lemma_naked_triple_unit_clears(b, unit, i, j, k, s, l);
    }
}

} // verus!
