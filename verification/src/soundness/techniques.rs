//! Each pass that works on one unit keeps the grid.

use super::model::{
    compatible, is_solution, keeps, lemma_flat, lemma_keeps_refl, lemma_keeps_trans, placed,
    value_at,
};
use super::steps::{
    confined, excluded, forced, lemma_keeps_determine, lemma_keeps_fill, lemma_keeps_restrict,
    lemma_keeps_struck, lemma_repeat_keeps,
};
use crate::bits::{
    count, holds, lemma_count_at_most_three, lemma_count_at_most_two, lemma_count_one,
    lemma_holds_ops, lemma_holds_single, lowest, single,
};
use crate::puzzle::board::{Board, board_wf, pos_of};
use crate::puzzle::passes::{
    each_unit, each_unit_step, hidden_pair_at, hidden_pair_inner, hidden_pair_outer,
    hidden_pair_unit, hidden_single_step, hidden_single_unit, hidden_triple_at, hidden_triple_inner,
    hidden_triple_middle, hidden_triple_outer, hidden_triple_unit, lemma_occurs_below,
    naked_pair_at, naked_pair_inner, naked_pair_outer, naked_pair_unit, naked_single,
    naked_single_step, naked_triple_at, naked_triple_inner, naked_triple_middle, naked_triple_outer,
    naked_triple_unit, occurrences, restrict_slots, restrict_slots_step, slot_bits, slot_filled,
    strike_others, strike_others_step, unit_pass, UnitPass,
};
use crate::puzzle::slice_type::{lemma_slot, lemma_unit_sees, SliceType};
use vstd::prelude::*;

verus! {

/// The naked-single pass keeps the grid.
pub proof fn lemma_keeps_naked_single(b: Board)
    requires
        board_wf(b),
    ensures
        keeps(b, naked_single(b)),
{
    lemma_keeps_refl(b);
    let step = naked_single_step();
    assert forall|x: Board, k: usize| 0 <= k < 81 && keeps(b, x) implies keeps(
        b,
        #[trigger] step(x, k),
    ) by {
        lemma_keeps_determine(b, x, pos_of(k as int));
    }
    lemma_repeat_keeps(b, b, step, 0, 81);
}

/// Striking from the other cells of a unit digits that no solution gives them keeps the
/// grid.
pub proof fn lemma_keeps_strike_others(
    a: Board,
    b: Board,
    unit: SliceType,
    i: usize,
    j: usize,
    k: usize,
    mask: u16,
)
    requires
        keeps(a, b),
        unit.wf(),
        forall|l: usize|
            l < 9 && l != i && l != j && l != k ==> excluded(a, #[trigger] unit.at(l), mask),
    ensures
        keeps(a, strike_others(b, unit, i, j, k, mask)),
{
    let step = strike_others_step(unit, i, j, k, mask);
    assert forall|x: Board, l: usize| 0 <= l < 9 && keeps(a, x) implies keeps(
        a,
        #[trigger] step(x, l),
    ) by {
        if !(l == i || l == j || l == k) {
            lemma_slot(unit, l);
            assert(excluded(a, unit.at(l), mask));
            lemma_keeps_struck(a, x, unit.at(l), mask);
        }
    }
    lemma_repeat_keeps(a, b, step, 0, 9);
}

/// Cutting cells of a unit down to digits among which every solution has their values keeps
/// the grid.
pub proof fn lemma_keeps_restrict_slots(a: Board, b: Board, unit: SliceType, slots: u16, keep: u16)
    requires
        keeps(a, b),
        unit.wf(),
        forall|l: usize| l < 9 && holds(slots, l as u16) ==> confined(a, #[trigger] unit.at(l), keep),
    ensures
        keeps(a, restrict_slots(b, unit, slots, keep)),
{
    let step = restrict_slots_step(unit, slots, keep);
    assert forall|x: Board, l: usize| 0 <= l < 9 && keeps(a, x) implies keeps(
        a,
        #[trigger] step(x, l),
    ) by {
        if holds(slots, l as u16) {
            lemma_slot(unit, l);
            assert(confined(a, unit.at(l), keep));
            lemma_keeps_restrict(a, x, unit.at(l), keep);
        }
    }
    lemma_repeat_keeps(a, b, step, 0, 9);
}

/// Where a solution puts the value of the digit `d` in a unit, the cell carries `d`.
pub proof fn lemma_placed(a: Board, s: Seq<u8>, unit: SliceType, d: u16) -> (t: usize)
    requires
        board_wf(a),
        is_solution(s),
        compatible(a, s),
        unit.wf(),
        d < 9,
    ensures
        t < 9,
        value_at(s, unit.at(t)) == d + 1,
        holds(slot_bits(a, unit, t), d),
        holds(occurrences(a, unit)[d as int], t as u16),
{
    assert(placed(s, unit, (d + 1) as u8));
    let t = choose|t: usize| t < 9 && #[trigger] value_at(s, unit.at(t)) == (d + 1) as u8;
    lemma_slot(unit, t);
    lemma_flat(unit.at(t));
    assert(a[unit.at(t).flat()].allows(s[unit.at(t).flat()] as int));
    lemma_occurs_below(a, unit, d, 9);
    t
}

/// A solution gives the cells at two different slots of a unit different values.
pub proof fn lemma_differ(s: Seq<u8>, unit: SliceType, i: usize, j: usize)
    requires
        is_solution(s),
        unit.wf(),
        i < 9,
        j < 9,
        i != j,
    ensures
        value_at(s, unit.at(i)) != value_at(s, unit.at(j)),
        1 <= value_at(s, unit.at(i)) <= 9,
{
    lemma_slot(unit, i);
    lemma_slot(unit, j);
    lemma_unit_sees(unit, i, j);
    lemma_flat(unit.at(i));
}

/// The value that a solution gives the cell at a slot is among the candidates there.
pub proof fn lemma_slot_allows(a: Board, s: Seq<u8>, unit: SliceType, i: usize)
    requires
        is_solution(s),
        compatible(a, s),
        unit.wf(),
        i < 9,
    ensures
        1 <= value_at(s, unit.at(i)) <= 9,
        holds(slot_bits(a, unit, i), (value_at(s, unit.at(i)) - 1) as u16),
{
    lemma_slot(unit, i);
    lemma_flat(unit.at(i));
    assert(a[unit.at(i).flat()].allows(s[unit.at(i).flat()] as int));
}

/// A digit that occurs at one slot of a unit only is the value, less one, that every solution
/// gives the cell at that slot.
pub proof fn lemma_hidden_single_forced(b: Board, unit: SliceType, d: usize)
    requires
        board_wf(b),
        unit.wf(),
        d < 9,
        count(occurrences(b, unit)[d as int]) == 1,
    ensures
        lowest(occurrences(b, unit)[d as int]) < 9,
        unit.at(lowest(occurrences(b, unit)[d as int]) as usize).wf(),
        b[unit.at(lowest(occurrences(b, unit)[d as int]) as usize).flat()].allows(d + 1),
        forced(b, unit.at(lowest(occurrences(b, unit)[d as int]) as usize), (d + 1) as u8),
{
    let m = occurrences(b, unit)[d as int];
    lemma_occurs_below(b, unit, d as u16, 9);
    lemma_count_one(m);
    let t = lowest(m) as usize;
    let p = unit.at(t);
    lemma_slot(unit, t);
    lemma_flat(p);
    assert(holds(m, t as u16));
    assert forall|s: Seq<u8>| #[trigger] is_solution(s) && compatible(b, s) implies value_at(s, p)
        == (d + 1) as u8 by {
        let i = lemma_placed(b, s, unit, d as u16);
        assert(i as u16 == lowest(m));
    }
}

/// One step of the hidden-single pass on a unit keeps the grid.
pub proof fn lemma_keeps_hidden_single_step(b: Board, x: Board, unit: SliceType, d: usize)
    requires
        board_wf(b),
        keeps(b, x),
        unit.wf(),
        d < 9,
    ensures
        keeps(b, hidden_single_step(unit, occurrences(b, unit))(x, d)),
{
    let occ = occurrences(b, unit);
    if count(occ[d as int]) == 1 {
        lemma_hidden_single_forced(b, unit, d);
        lemma_keeps_fill(b, x, unit.at(lowest(occ[d as int]) as usize), (d + 1) as u8);
    }
}

/// The hidden-single pass on one unit keeps the grid.
pub proof fn lemma_keeps_hidden_single(a: Board, b: Board, unit: SliceType)
    requires
        keeps(a, b),
        unit.wf(),
    ensures
        keeps(a, hidden_single_unit(b, unit)),
{
    lemma_keeps_refl(b);
    let occ = occurrences(b, unit);
    let step = hidden_single_step(unit, occ);
    assert forall|x: Board, d: usize| 0 <= d < 9 && keeps(b, x) implies keeps(
        b,
        #[trigger] step(x, d),
    ) by {
        lemma_keeps_hidden_single_step(b, x, unit, d);
    }
    lemma_repeat_keeps(b, b, step, 0, 9);
    lemma_keeps_trans(a, b, hidden_single_unit(b, unit));
}

/// No solution gives a cell of a unit, other than the two at the slots `i` and `j`, a value
/// among the two candidates that those two cells have between them.
pub proof fn lemma_naked_pair_excluded(x: Board, unit: SliceType, i: usize, j: usize, l: usize)
    requires
        board_wf(x),
        unit.wf(),
        i < 9,
        j < 9,
        l < 9,
        i != j,
        l != i,
        l != j,
        count(slot_bits(x, unit, i) | slot_bits(x, unit, j)) == 2,
    ensures
        excluded(x, unit.at(l), slot_bits(x, unit, i) | slot_bits(x, unit, j)),
{
    let bit = slot_bits(x, unit, i) | slot_bits(x, unit, j);
    lemma_holds_ops();
    assert forall|s: Seq<u8>| #[trigger] is_solution(s) && compatible(x, s) implies !holds(
        bit,
        (value_at(s, unit.at(l)) - 1) as u16,
    ) by {
        lemma_slot_allows(x, s, unit, i);
        lemma_slot_allows(x, s, unit, j);
        lemma_slot_allows(x, s, unit, l);
        lemma_differ(s, unit, i, j);
        lemma_differ(s, unit, i, l);
        lemma_differ(s, unit, j, l);
        let vi = (value_at(s, unit.at(i)) - 1) as u16;
        let vj = (value_at(s, unit.at(j)) - 1) as u16;
        lemma_count_at_most_two(bit, vi, vj);
    }
}

/// No solution gives a cell of a unit, other than the three at the slots `i`, `j` and `k`, a
/// value among the three candidates that those three cells have between them.
pub proof fn lemma_naked_triple_excluded(
    x: Board,
    unit: SliceType,
    i: usize,
    j: usize,
    k: usize,
    l: usize,
)
    requires
        board_wf(x),
        unit.wf(),
        i < 9,
        j < 9,
        k < 9,
        l < 9,
        i != j,
        i != k,
        j != k,
        l != i,
        l != j,
        l != k,
        count(slot_bits(x, unit, i) | slot_bits(x, unit, j) | slot_bits(x, unit, k)) == 3,
    ensures
        excluded(
            x,
            unit.at(l),
            slot_bits(x, unit, i) | slot_bits(x, unit, j) | slot_bits(x, unit, k),
        ),
{
    let bit = slot_bits(x, unit, i) | slot_bits(x, unit, j) | slot_bits(x, unit, k);
    lemma_holds_ops();
    assert forall|s: Seq<u8>| #[trigger] is_solution(s) && compatible(x, s) implies !holds(
        bit,
        (value_at(s, unit.at(l)) - 1) as u16,
    ) by {
        lemma_slot_allows(x, s, unit, i);
        lemma_slot_allows(x, s, unit, j);
        lemma_slot_allows(x, s, unit, k);
        lemma_slot_allows(x, s, unit, l);
        lemma_differ(s, unit, i, j);
        lemma_differ(s, unit, i, k);
        lemma_differ(s, unit, j, k);
        lemma_differ(s, unit, i, l);
        lemma_differ(s, unit, j, l);
        lemma_differ(s, unit, k, l);
        let vi = (value_at(s, unit.at(i)) - 1) as u16;
        let vj = (value_at(s, unit.at(j)) - 1) as u16;
        let vk = (value_at(s, unit.at(k)) - 1) as u16;
        lemma_count_at_most_three(bit, vi, vj, vk);
    }
}

/// The naked-pair step for two slots keeps the grid.
pub proof fn lemma_keeps_naked_pair_at(a: Board, x: Board, unit: SliceType, i: usize, j: usize)
    requires
        keeps(a, x),
        unit.wf(),
        i < j < 9,
    ensures
        keeps(a, naked_pair_at(x, unit, i, j)),
{
    let bit = slot_bits(x, unit, i) | slot_bits(x, unit, j);
    if !(slot_filled(x, unit, j) || count(bit) != 2) {
        lemma_keeps_refl(x);
        assert forall|l: usize| l < 9 && l != i && l != j implies excluded(
            x,
            #[trigger] unit.at(l),
            bit,
        ) by {
            lemma_naked_pair_excluded(x, unit, i, j, l);
        }
        lemma_keeps_strike_others(x, x, unit, i, j, j, bit);
        lemma_keeps_trans(a, x, naked_pair_at(x, unit, i, j));
    }
}

/// The naked-pair pass on one unit keeps the grid.
pub proof fn lemma_keeps_naked_pair(a: Board, b: Board, unit: SliceType)
    requires
        keeps(a, b),
        unit.wf(),
    ensures
        keeps(a, naked_pair_unit(b, unit)),
{
    let outer = naked_pair_outer(unit);
    assert forall|x: Board, i: usize| 0 <= i < 9 && keeps(a, x) implies keeps(
        a,
        #[trigger] outer(x, i),
    ) by {
        if !slot_filled(x, unit, i) {
            let inner = naked_pair_inner(unit, i);
            assert forall|y: Board, j: usize| i + 1 <= j < 9 && keeps(a, y) implies keeps(
                a,
                #[trigger] inner(y, j),
            ) by {
                lemma_keeps_naked_pair_at(a, y, unit, i, j);
            }
            lemma_repeat_keeps(a, x, inner, (i + 1) as usize, 9);
        }
    }
    lemma_repeat_keeps(a, b, outer, 0, 9);
}

/// The naked-triple step for three slots keeps the grid.
pub proof fn lemma_keeps_naked_triple_at(
    a: Board,
    x: Board,
    unit: SliceType,
    i: usize,
    j: usize,
    k: usize,
)
    requires
        keeps(a, x),
        unit.wf(),
        i < j < k < 9,
    ensures
        keeps(a, naked_triple_at(x, unit, i, j, k)),
{
    let bit = slot_bits(x, unit, i) | slot_bits(x, unit, j) | slot_bits(x, unit, k);
    if !(slot_filled(x, unit, k) || count(bit) != 3) {
        lemma_keeps_refl(x);
        assert forall|l: usize| l < 9 && l != i && l != j && l != k implies excluded(
            x,
            #[trigger] unit.at(l),
            bit,
        ) by {
            lemma_naked_triple_excluded(x, unit, i, j, k, l);
        }
        lemma_keeps_strike_others(x, x, unit, i, j, k, bit);
        lemma_keeps_trans(a, x, naked_triple_at(x, unit, i, j, k));
    }
}

/// The naked-triple pass on one unit keeps the grid.
pub proof fn lemma_keeps_naked_triple(a: Board, b: Board, unit: SliceType)
    requires
        keeps(a, b),
        unit.wf(),
    ensures
        keeps(a, naked_triple_unit(b, unit)),
{
    let outer = naked_triple_outer(unit);
    assert forall|x: Board, i: usize| 0 <= i < 9 && keeps(a, x) implies keeps(
        a,
        #[trigger] outer(x, i),
    ) by {
        if !slot_filled(x, unit, i) {
            let middle = naked_triple_middle(unit, i);
            assert forall|y: Board, j: usize| i + 1 <= j < 9 && keeps(a, y) implies keeps(
                a,
                #[trigger] middle(y, j),
            ) by {
                if !slot_filled(y, unit, j) {
                    let inner = naked_triple_inner(unit, i, j);
                    assert forall|z: Board, k: usize| j + 1 <= k < 9 && keeps(a, z) implies keeps(
                        a,
                        #[trigger] inner(z, k),
                    ) by {
                        lemma_keeps_naked_triple_at(a, z, unit, i, j, k);
                    }
                    lemma_repeat_keeps(a, y, inner, (j + 1) as usize, 9);
                }
            }
            lemma_repeat_keeps(a, x, middle, (i + 1) as usize, 9);
        }
    }
    lemma_repeat_keeps(a, b, outer, 0, 9);
}

/// The hidden-pair step for two digits keeps the grid.
pub proof fn lemma_keeps_hidden_pair_at(
    a: Board,
    x: Board,
    unit: SliceType,
    i: usize,
    j: usize,
)
    requires
        keeps(a, x),
        board_wf(a),
        unit.wf(),
        i < j < 9,
    ensures
        keeps(a, hidden_pair_at(x, unit, occurrences(a, unit), i, j)),
{
    let occ = occurrences(a, unit);
    if !(occ[i as int] != occ[j as int] || count(occ[i as int]) != 2) {
        let slots = occ[i as int];
        let keep = single(i as u16) | single(j as u16);
        lemma_holds_ops();
        lemma_holds_single();
        assert forall|l: usize| l < 9 && holds(slots, l as u16) implies confined(
            a,
            #[trigger] unit.at(l),
            keep,
        ) by {
            assert forall|s: Seq<u8>| #[trigger] is_solution(s) && compatible(a, s) implies holds(
                keep,
                (value_at(s, unit.at(l)) - 1) as u16,
            ) by {
                let ti = lemma_placed(a, s, unit, i as u16);
                let tj = lemma_placed(a, s, unit, j as u16);
                lemma_count_at_most_two(slots, ti as u16, tj as u16);
                assert(l == ti || l == tj);
            }
        }
        lemma_keeps_restrict_slots(a, x, unit, slots, keep);
    }
}

/// The hidden-pair pass on one unit keeps the grid.
pub proof fn lemma_keeps_hidden_pair(a: Board, b: Board, unit: SliceType)
    requires
        keeps(a, b),
        unit.wf(),
    ensures
        keeps(a, hidden_pair_unit(b, unit)),
{
    lemma_keeps_refl(b);
    let occ = occurrences(b, unit);
    let outer = hidden_pair_outer(unit, occ);
    assert forall|x: Board, i: usize| 0 <= i < 9 && keeps(b, x) implies keeps(
        b,
        #[trigger] outer(x, i),
    ) by {
        let inner = hidden_pair_inner(unit, occ, i);
        assert forall|y: Board, j: usize| i + 1 <= j < 9 && keeps(b, y) implies keeps(
            b,
            #[trigger] inner(y, j),
        ) by {
            lemma_keeps_hidden_pair_at(b, y, unit, i, j);
        }
        lemma_repeat_keeps(b, x, inner, (i + 1) as usize, 9);
    }
    lemma_repeat_keeps(b, b, outer, 0, 9);
    lemma_keeps_trans(a, b, hidden_pair_unit(b, unit));
}

/// The hidden-triple step for three digits keeps the grid.
pub proof fn lemma_keeps_hidden_triple_at(
    a: Board,
    x: Board,
    unit: SliceType,
    i: usize,
    j: usize,
    k: usize,
)
    requires
        keeps(a, x),
        board_wf(a),
        unit.wf(),
        i < j < k < 9,
        count(occurrences(a, unit)[i as int]) == 3,
        occurrences(a, unit)[i as int] == occurrences(a, unit)[j as int],
    ensures
        keeps(a, hidden_triple_at(x, unit, occurrences(a, unit), i, j, k)),
{
    let occ = occurrences(a, unit);
    if occ[i as int] == occ[k as int] {
        let slots = occ[i as int];
        let keep = single(i as u16) | single(j as u16) | single(k as u16);
        lemma_holds_ops();
        lemma_holds_single();
        assert forall|l: usize| l < 9 && holds(slots, l as u16) implies confined(
            a,
            #[trigger] unit.at(l),
            keep,
        ) by {
            assert forall|s: Seq<u8>| #[trigger] is_solution(s) && compatible(a, s) implies holds(
                keep,
                (value_at(s, unit.at(l)) - 1) as u16,
            ) by {
                let ti = lemma_placed(a, s, unit, i as u16);
                let tj = lemma_placed(a, s, unit, j as u16);
                let tk = lemma_placed(a, s, unit, k as u16);
                lemma_count_at_most_three(slots, ti as u16, tj as u16, tk as u16);
                assert(l == ti || l == tj || l == tk);
            }
        }
        lemma_keeps_restrict_slots(a, x, unit, slots, keep);
    }
}

/// The hidden-triple pass on one unit keeps the grid.
pub proof fn lemma_keeps_hidden_triple(a: Board, b: Board, unit: SliceType)
    requires
        keeps(a, b),
        unit.wf(),
    ensures
        keeps(a, hidden_triple_unit(b, unit)),
{
    lemma_keeps_refl(b);
    let occ = occurrences(b, unit);
    let outer = hidden_triple_outer(unit, occ);
    assert forall|x: Board, i: usize| 0 <= i < 9 && keeps(b, x) implies keeps(
        b,
        #[trigger] outer(x, i),
    ) by {
        if count(occ[i as int]) == 3 {
            let middle = hidden_triple_middle(unit, occ, i);
            assert forall|y: Board, j: usize| i + 1 <= j < 9 && keeps(b, y) implies keeps(
                b,
                #[trigger] middle(y, j),
            ) by {
                if occ[i as int] == occ[j as int] {
                    let inner = hidden_triple_inner(unit, occ, i, j);
                    assert forall|z: Board, k: usize| j + 1 <= k < 9 && keeps(b, z) implies keeps(
                        b,
                        #[trigger] inner(z, k),
                    ) by {
                        lemma_keeps_hidden_triple_at(b, z, unit, i, j, k);
                    }
                    lemma_repeat_keeps(b, y, inner, (j + 1) as usize, 9);
                }
            }
            lemma_repeat_keeps(b, x, middle, (i + 1) as usize, 9);
        }
    }
    lemma_repeat_keeps(b, b, outer, 0, 9);
    lemma_keeps_trans(a, b, hidden_triple_unit(b, unit));
}

/// Each of the five passes keeps the grid on every unit.
pub proof fn lemma_keeps_unit_pass(a: Board, b: Board, pass: UnitPass, unit: SliceType)
    requires
        keeps(a, b),
        unit.wf(),
    ensures
        keeps(a, unit_pass(b, pass, unit)),
{
    match pass {
        UnitPass::HiddenSingle => lemma_keeps_hidden_single(a, b, unit),
        UnitPass::NakedPair => lemma_keeps_naked_pair(a, b, unit),
        UnitPass::NakedTriple => lemma_keeps_naked_triple(a, b, unit),
        UnitPass::HiddenPair => lemma_keeps_hidden_pair(a, b, unit),
        UnitPass::HiddenTriple => lemma_keeps_hidden_triple(a, b, unit),
    }
}

/// Each of the five passes keeps the grid over the 27 units.
pub proof fn lemma_keeps_each_unit(b: Board, pass: UnitPass)
    requires
        board_wf(b),
    ensures
        keeps(b, each_unit(b, pass)),
{
    lemma_keeps_refl(b);
    let step = each_unit_step(pass);
    assert forall|x: Board, i: usize| 0 <= i < 9 && keeps(b, x) implies keeps(
        b,
        #[trigger] step(x, i),
    ) by {
        let x1 = unit_pass(x, pass, SliceType::Block(i));
        let x2 = unit_pass(x1, pass, SliceType::Col(i));
        lemma_keeps_unit_pass(b, x, pass, SliceType::Block(i));
        lemma_keeps_unit_pass(b, x1, pass, SliceType::Col(i));
        lemma_keeps_unit_pass(b, x2, pass, SliceType::Row(i));
    }
    lemma_repeat_keeps(b, b, step, 0, 9);
}

} // verus!
