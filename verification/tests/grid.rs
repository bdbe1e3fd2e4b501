use newsudoku::puzzle::validity::UnitSums;
use newsudoku::puzzle::SliceType;
use newsudoku::{Puzzle, PuzzleIndex};

const SEED: &str =
    "*5**8*91***2****6****5*13*****9********7***8*7*5**6**4***********9**51763*4**2***";

fn seeded(seed: &str) -> Puzzle {
    let mut puzzle = Puzzle::new();
    for (i, c) in seed.chars().take(81).enumerate() {
        if let Some(d) = c.to_digit(10) {
            if d >= 1 {
                puzzle.fill(PuzzleIndex::new(i / 9, i % 9), d as u8);
            }
        }
    }
    puzzle
}

fn drive(puzzle: &mut Puzzle) -> usize {
    let mut rounds = 0;
    loop {
        let before = puzzle.hash();
        puzzle.solve();
        rounds += 1;
        if before == puzzle.hash() {
            return rounds;
        }
        assert!(rounds < 1000);
    }
}

fn blank_hash() -> String {
    let mut s = String::new();
    for k in 0..81 {
        s.push_str("511");
        if k < 80 {
            s.push('/');
        }
    }
    s
}

#[test]
fn new_grid_is_all_open() {
    let p = Puzzle::new();
    for c in 0..9 {
        for r in 0..9 {
            let cell = p.cell(PuzzleIndex::new(c, r));
            assert!(!cell.is_filled());
            assert_eq!(cell.bit(), 0b1_1111_1111);
            assert_eq!(cell.pos(), PuzzleIndex::new(c, r));
        }
    }
    assert_eq!(p.hash(), blank_hash());
    assert!(p.validate());
}

#[test]
fn blank_grid_is_a_fixed_point_of_every_pass() {
    let mut p = Puzzle::new();
    p.naked_single();
    assert_eq!(p.hash(), blank_hash());
    p.hidden_single();
    assert_eq!(p.hash(), blank_hash());
    p.box_line_reduction();
    assert_eq!(p.hash(), blank_hash());
    p.naked_pair();
    assert_eq!(p.hash(), blank_hash());
    p.naked_triple();
    assert_eq!(p.hash(), blank_hash());
    p.hidden_pair();
    assert_eq!(p.hash(), blank_hash());
    p.hidden_triple();
    assert_eq!(p.hash(), blank_hash());
    p.x_wing();
    assert_eq!(p.hash(), blank_hash());
    p.xy_wing();
    assert_eq!(p.hash(), blank_hash());
    p.solve();
    assert_eq!(p.hash(), blank_hash());
    for c in 0..9 {
        for r in 0..9 {
            assert!(!p.cell(PuzzleIndex::new(c, r)).is_filled());
        }
    }
}

#[test]
fn hash_writes_masks_in_decimal_column_by_column() {
    let mut p = Puzzle::new();
    p.eliminate(PuzzleIndex::new(0, 0), 0b1_1111_1000); // 7
    p.eliminate(PuzzleIndex::new(0, 1), 0b1_1110_0000); // 31
    p.eliminate(PuzzleIndex::new(8, 8), 0b1_1111_1111); // 0
    p.eliminate(PuzzleIndex::new(1, 0), 0b0_1111_1111); // 256
    let h = p.hash();
    let parts: Vec<&str> = h.split('/').collect();
    assert_eq!(parts.len(), 81);
    assert_eq!(parts[0], "7");
    assert_eq!(parts[1], "31");
    assert_eq!(parts[9], "256");
    assert_eq!(parts[80], "0");
    assert_eq!(parts[2], "511");
    assert!(!h.ends_with('/'));
}

#[test]
fn fill_removes_the_value_from_row_column_and_block() {
    let mut p = Puzzle::new();
    let pos = PuzzleIndex::new(4, 1);
    p.fill(pos, 5);
    assert!(p.cell(pos).is_filled());
    assert_eq!(p.cell(pos).bit(), 0b1_0000);
    for c in 0..9 {
        for r in 0..9 {
            let q = PuzzleIndex::new(c, r);
            if q == pos {
                continue;
            }
            let sees = c == 4 || r == 1 || q.block_idx() == pos.block_idx();
            let bit = p.cell(q).bit();
            if sees {
                assert_eq!(bit, 0b1_1110_1111, "{:?}", q);
            } else {
                assert_eq!(bit, 0b1_1111_1111, "{:?}", q);
            }
            assert!(!p.cell(q).is_filled());
        }
    }
}

#[test]
fn fill_on_a_fixed_cell_changes_nothing() {
    let mut p = Puzzle::new();
    let pos = PuzzleIndex::new(2, 2);
    p.fill(pos, 3);
    let before = p.hash();
    p.fill(pos, 8);
    assert_eq!(p.hash(), before);
    assert!(p.cell(pos).is_filled());
    assert_eq!(p.cell(pos).bit(), 0b100);
    // the value 8 is still open for the neighbours
    assert_eq!(p.cell(PuzzleIndex::new(2, 3)).bit() & 0b1000_0000, 0b1000_0000);
    p.fill(pos, 3);
    assert_eq!(p.hash(), before);
}

#[test]
fn fill_cascades_through_cells_left_with_one_candidate() {
    let mut p = Puzzle::new();
    // values 1..=8 into row 0, columns 0..8: the last cell of the row is then fixed to 9
    for c in 0..8 {
        p.fill(PuzzleIndex::new(c, 0), c as u8 + 1);
    }
    let last = PuzzleIndex::new(8, 0);
    assert!(p.cell(last).is_filled());
    assert_eq!(p.cell(last).bit(), 0b1_0000_0000);
    // and its value has left its column and its block
    assert_eq!(p.cell(PuzzleIndex::new(8, 5)).bit() & 0b1_0000_0000, 0);
    assert_eq!(p.cell(PuzzleIndex::new(7, 2)).bit() & 0b1_0000_0000, 0);
    assert!(p.validate());
}

#[test]
fn propagate_reports_whether_the_seed_is_fixed() {
    let mut p = Puzzle::new();
    let before = p.hash();
    assert!(!p.propagate(PuzzleIndex::new(3, 3)));
    assert_eq!(p.hash(), before);
    p.fill(PuzzleIndex::new(3, 3), 1);
    let after = p.hash();
    assert!(p.propagate(PuzzleIndex::new(3, 3)));
    assert_eq!(p.hash(), after);
}

#[test]
fn determine_settles_a_single_candidate_and_propagates() {
    let mut p = Puzzle::new();
    let pos = PuzzleIndex::new(6, 6);
    p.determine(pos);
    assert!(!p.cell(pos).is_filled());
    p.restrict(pos, 0b10);
    assert!(!p.cell(pos).is_filled());
    p.determine(pos);
    assert!(p.cell(pos).is_filled());
    assert_eq!(p.cell(PuzzleIndex::new(6, 0)).bit(), 0b1_1111_1101);
    assert_eq!(p.cell(PuzzleIndex::new(0, 6)).bit(), 0b1_1111_1101);
    assert_eq!(p.cell(PuzzleIndex::new(8, 8)).bit(), 0b1_1111_1101);
    assert_eq!(p.cell(PuzzleIndex::new(5, 5)).bit(), 0b1_1111_1111);
}

#[test]
fn naked_single_pass_fixes_singletons() {
    let mut p = Puzzle::new();
    p.restrict(PuzzleIndex::new(0, 0), 0b1);
    p.restrict(PuzzleIndex::new(5, 5), 0b100);
    p.naked_single();
    assert!(p.cell(PuzzleIndex::new(0, 0)).is_filled());
    assert!(p.cell(PuzzleIndex::new(5, 5)).is_filled());
    assert_eq!(p.cell(PuzzleIndex::new(0, 8)).bit(), 0b1_1111_1110);
    assert_eq!(p.cell(PuzzleIndex::new(8, 5)).bit(), 0b1_1111_1011);
    assert_eq!(p.cell(PuzzleIndex::new(0, 5)).bit(), 0b1_1111_1010);
}

#[test]
fn views_read_the_cells_of_their_unit() {
    let mut p = Puzzle::new();
    p.fill(PuzzleIndex::new(3, 7), 2);
    assert!(p.row(7).get(3).is_filled());
    assert!(p.col(3).get(7).is_filled());
    // block 5 = columns 3..6, rows 6..9; (3, 7) is slot 1
    assert!(p.block(5).get(1).is_filled());
    assert_eq!(p.block(5).get(1).pos(), PuzzleIndex::new(3, 7));
    let row = p.row(7);
    let mut it = row.iter();
    let mut seen = 0;
    while let Some(c) = it.next() {
        assert_eq!(c.pos(), PuzzleIndex::new(seen, 7));
        assert_eq!(c.is_filled(), seen == 3);
        seen += 1;
    }
    assert_eq!(seen, 9);
    assert!(it.next().is_none());
    let view = p.col_mut(3);
    let mut it = view.iter();
    let mut seen = 0;
    while let Some(c) = it.next() {
        assert_eq!(c.pos(), PuzzleIndex::new(3, seen));
        seen += 1;
    }
    assert_eq!(seen, 9);
}

#[test]
fn number_appearance_lists_slots_per_digit() {
    let mut p = Puzzle::new();
    p.fill(PuzzleIndex::new(2, 0), 1); // row 0, slot 2 holds value 1
    let occ = p.row(0).to_number_appearance();
    assert_eq!(occ[0], 0b0_0000_0100);
    for d in 1..9 {
        assert_eq!(occ[d], 0b1_1111_1011);
    }
    let occ_mut = p.row_mut(0).to_number_appearance();
    assert_eq!(occ, occ_mut);
    // column 0: its first three cells lie in the block of the clue and have lost value 1
    let occ = p.col(0).to_number_appearance();
    assert_eq!(occ[0], 0b1_1111_1000);
    assert_eq!(occ[4], 0b1_1111_1111);
}

#[test]
fn chunk_and_stride_sums_and_products() {
    let mut p = Puzzle::new();
    for r in 0..9 {
        p.restrict(PuzzleIndex::new(0, r), 1u16 << r);
    }
    let col = p.col_mut(0);
    assert_eq!(col.chunk_bit_sum(0), 0b0_0000_0111);
    assert_eq!(col.chunk_bit_sum(1), 0b0_0011_1000);
    assert_eq!(col.chunk_bit_sum(2), 0b1_1100_0000);
    assert_eq!(col.stride_bit_sum(0), 0b0_0100_1001);
    assert_eq!(col.stride_bit_sum(2), 0b1_0010_0100);
    assert_eq!(col.chunk_bit_product(0), 0);
    assert_eq!(col.stride_bit_product(1), 0);
    let mut q = Puzzle::new();
    q.restrict(PuzzleIndex::new(0, 1), 0b110);
    q.restrict(PuzzleIndex::new(0, 2), 0b011);
    q.restrict(PuzzleIndex::new(0, 3), 0b010);
    q.restrict(PuzzleIndex::new(0, 4), 0b1_0000_0010);
    q.restrict(PuzzleIndex::new(0, 7), 0b1_0000_0001);
    let col = q.col_mut(0);
    // slots 1, 2, 3
    assert_eq!(col.chunk_bit_product(1), 0b010);
    // slots 1, 4, 7
    assert_eq!(col.stride_bit_product(1), 0);
    assert_eq!(col.stride_bit_product(0), 0b010);
}

#[test]
fn hidden_single_fills_the_only_cell_that_carries_a_value() {
    let mut p = Puzzle::new();
    // value 7 leaves every cell of row 4 but the one in column 6
    for c in 0..9 {
        if c != 6 {
            p.eliminate(PuzzleIndex::new(c, 4), 0b100_0000);
        }
    }
    p.row_mut(4).hidden_single();
    let cell = *p.cell(PuzzleIndex::new(6, 4));
    assert!(cell.is_filled());
    assert_eq!(cell.bit(), 0b100_0000);
    // propagated into the column
    assert_eq!(p.cell(PuzzleIndex::new(6, 0)).bit(), 0b1_1011_1111);
}

#[test]
fn hidden_single_pass_over_the_grid() {
    let mut p = Puzzle::new();
    for c in 0..9 {
        if c != 6 {
            p.eliminate(PuzzleIndex::new(c, 4), 0b100_0000);
        }
    }
    p.hidden_single();
    assert!(p.cell(PuzzleIndex::new(6, 4)).is_filled());
    assert_eq!(p.cell(PuzzleIndex::new(6, 4)).bit(), 0b100_0000);
}

#[test]
fn naked_pair_clears_the_rest_of_the_unit() {
    let mut p = Puzzle::new();
    p.restrict(PuzzleIndex::new(1, 3), 0b11);
    p.restrict(PuzzleIndex::new(1, 8), 0b11);
    p.col_mut(1).naked_pair();
    for r in 0..9 {
        let bit = p.cell(PuzzleIndex::new(1, r)).bit();
        if r == 3 || r == 8 {
            assert_eq!(bit, 0b11);
        } else {
            assert_eq!(bit, 0b1_1111_1100);
        }
    }
    // cells outside the column are untouched
    assert_eq!(p.cell(PuzzleIndex::new(0, 3)).bit(), 0b1_1111_1111);
}

#[test]
fn naked_pair_pass_over_the_grid() {
    let mut p = Puzzle::new();
    p.restrict(PuzzleIndex::new(1, 3), 0b11);
    p.restrict(PuzzleIndex::new(1, 8), 0b11);
    p.naked_pair();
    assert_eq!(p.cell(PuzzleIndex::new(1, 0)).bit(), 0b1_1111_1100);
    assert_eq!(p.cell(PuzzleIndex::new(1, 3)).bit(), 0b11);
}

#[test]
fn naked_triple_clears_the_rest_of_the_unit() {
    let mut p = Puzzle::new();
    p.restrict(PuzzleIndex::new(0, 2), 0b011);
    p.restrict(PuzzleIndex::new(4, 2), 0b110);
    p.restrict(PuzzleIndex::new(7, 2), 0b101);
    p.row_mut(2).naked_triple();
    for c in 0..9 {
        let bit = p.cell(PuzzleIndex::new(c, 2)).bit();
        match c {
            0 => assert_eq!(bit, 0b011),
            4 => assert_eq!(bit, 0b110),
            7 => assert_eq!(bit, 0b101),
            _ => assert_eq!(bit, 0b1_1111_1000),
        }
    }
    let mut q = Puzzle::new();
    q.restrict(PuzzleIndex::new(0, 2), 0b011);
    q.restrict(PuzzleIndex::new(4, 2), 0b110);
    q.restrict(PuzzleIndex::new(7, 2), 0b101);
    q.naked_triple();
    assert_eq!(q.cell(PuzzleIndex::new(8, 2)).bit(), 0b1_1111_1000);
}

#[test]
fn hidden_pair_cuts_the_two_cells_down() {
    let mut p = Puzzle::new();
    // values 1 and 2 stay only in slots 2 and 5 of block 0
    for i in 0..9 {
        if i != 2 && i != 5 {
            p.eliminate(SliceType::Block(0).index_of(i), 0b11);
        }
    }
    p.block_mut(0).hidden_pair();
    for i in 0..9 {
        let bit = p.cell(SliceType::Block(0).index_of(i)).bit();
        if i == 2 || i == 5 {
            assert_eq!(bit, 0b11);
        } else {
            assert_eq!(bit, 0b1_1111_1100);
        }
    }
    let mut q = Puzzle::new();
    for i in 0..9 {
        if i != 2 && i != 5 {
            q.eliminate(SliceType::Block(0).index_of(i), 0b11);
        }
    }
    q.hidden_pair();
    assert_eq!(q.cell(SliceType::Block(0).index_of(2)).bit(), 0b11);
}

#[test]
fn hidden_triple_cuts_the_three_cells_down() {
    let mut p = Puzzle::new();
    for r in 0..9 {
        if r != 1 && r != 4 && r != 6 {
            p.eliminate(PuzzleIndex::new(8, r), 0b1_1000_0001);
        }
    }
    p.col_mut(8).hidden_triple();
    for r in 0..9 {
        let bit = p.cell(PuzzleIndex::new(8, r)).bit();
        if r == 1 || r == 4 || r == 6 {
            assert_eq!(bit, 0b1_1000_0001);
        } else {
            assert_eq!(bit, 0b0_0111_1110);
        }
    }
    let mut q = Puzzle::new();
    for r in 0..9 {
        if r != 1 && r != 4 && r != 6 {
            q.eliminate(PuzzleIndex::new(8, r), 0b1_1000_0001);
        }
    }
    q.hidden_triple();
    assert_eq!(q.cell(PuzzleIndex::new(8, 4)).bit(), 0b1_1000_0001);
}

#[test]
fn box_line_reduction_from_a_block() {
    let mut p = Puzzle::new();
    // in block 0 the value 9 stays only in column 1 (slots 3, 4, 5)
    for i in 0..9 {
        if i / 3 != 1 {
            p.eliminate(SliceType::Block(0).index_of(i), 0b1_0000_0000);
        }
    }
    p.box_line_reduction();
    for r in 0..9 {
        let bit = p.cell(PuzzleIndex::new(1, r)).bit();
        if r < 3 {
            assert_eq!(bit & 0b1_0000_0000, 0b1_0000_0000);
        } else {
            assert_eq!(bit & 0b1_0000_0000, 0, "row {}", r);
        }
    }
}

#[test]
fn box_line_reduction_from_a_row() {
    let mut p = Puzzle::new();
    // in row 4 the value 1 stays only in columns 6..9, which lie in block 7
    for c in 0..6 {
        p.eliminate(PuzzleIndex::new(c, 4), 0b1);
    }
    p.box_line_reduction();
    for i in 0..9 {
        let q = SliceType::Block(7).index_of(i);
        let bit = p.cell(q).bit();
        if q.row() == 4 {
            assert_eq!(bit & 1, 1);
        } else {
            assert_eq!(bit & 1, 0, "{:?}", q);
        }
    }
}

#[test]
fn x_wing_clears_the_diagonal_cell_outside_the_two_lines() {
    let mut p = Puzzle::new();
    // value 4 stays in columns 0 and 1 only in rows 5 and 7
    for r in 0..9 {
        if r != 5 && r != 7 {
            p.eliminate(PuzzleIndex::new(0, r), 0b1000);
            p.eliminate(PuzzleIndex::new(1, r), 0b1000);
        }
    }
    let before: Vec<u16> = (0..81).map(|k| p.cell(PuzzleIndex::new(k / 9, k % 9)).bit()).collect();
    p.x_wing();
    for k in 0..81 {
        let q = PuzzleIndex::new(k / 9, k % 9);
        let bit = p.cell(q).bit();
        if q == PuzzleIndex::new(5, 5) || q == PuzzleIndex::new(7, 7) {
            assert_eq!(bit, before[k] & !0b1000, "{:?}", q);
        } else {
            assert_eq!(bit, before[k], "{:?}", q);
        }
    }
}

#[test]
fn x_wing_leaves_a_diagonal_cell_of_the_two_lines_alone() {
    let mut p = Puzzle::new();
    // value 4 stays in columns 0 and 1 only in rows 0 and 7: the diagonal cell (0, 0) lies in
    // column 0 and keeps its 4, the cell (7, 7) loses it
    for r in 0..9 {
        if r != 0 && r != 7 {
            p.eliminate(PuzzleIndex::new(0, r), 0b1000);
            p.eliminate(PuzzleIndex::new(1, r), 0b1000);
        }
    }
    p.x_wing();
    assert_eq!(p.cell(PuzzleIndex::new(0, 0)).bit() & 0b1000, 0b1000);
    assert_eq!(p.cell(PuzzleIndex::new(7, 7)).bit() & 0b1000, 0);
    assert_eq!(p.cell(PuzzleIndex::new(5, 7)).bit() & 0b1000, 0b1000);
}

#[test]
fn xy_wing_clears_the_cells_that_see_both_pincers() {
    let mut p = Puzzle::new();
    let pivot = PuzzleIndex::new(0, 0);
    let first = PuzzleIndex::new(0, 5); // same column as the pivot
    let second = PuzzleIndex::new(5, 0); // same row as the pivot
    p.restrict(pivot, 0b011);
    p.restrict(first, 0b101);
    p.restrict(second, 0b110);
    p.xy_wing();
    // the two share value 3; it leaves the crossing of row 5 and column 5
    assert_eq!(p.cell(PuzzleIndex::new(5, 5)).bit(), 0b1_1111_1011);
    assert_eq!(p.cell(pivot).bit(), 0b011);
    assert_eq!(p.cell(first).bit(), 0b101);
    assert_eq!(p.cell(second).bit(), 0b110);
    assert_eq!(p.cell(PuzzleIndex::new(4, 4)).bit(), 0b1_1111_1111);
}

#[test]
fn validate_finds_a_value_that_no_cell_of_a_unit_can_take() {
    let mut r = Puzzle::new();
    for row in 0..9 {
        r.eliminate(PuzzleIndex::new(2, row), 0b10_0000);
    }
    assert!(!r.validate());
    assert!(!r.col(2).check());
    assert!(r.col(3).check());
    let sums = r.col(2).sums();
    assert_eq!(sums.filled, 0);
    assert_eq!(sums.open, 0b1_1101_1111);
    assert!(!sums.clash);
}

#[test]
fn validate_accepts_grids_that_were_only_filled_and_settled() {
    let mut s = Puzzle::new();
    s.restrict(PuzzleIndex::new(4, 4), 0b1000);
    s.naked_single();
    assert!(s.cell(PuzzleIndex::new(4, 4)).is_filled());
    assert!(s.validate());
    let sums = s.row(4).sums();
    assert_eq!(sums.filled, 0b1000);
    assert_eq!(sums.open, 0b1_1111_0111);
    let mut t = Puzzle::new();
    t.fill(PuzzleIndex::new(4, 4), 4);
    t.fill(PuzzleIndex::new(8, 8), 2);
    assert!(t.validate());
}

#[test]
fn validate_rejects_a_clash_and_an_overlap() {
    assert!(UnitSums { filled: 0b1_1111_0000, open: 0b1111, clash: false }.is_ok());
    assert!(!UnitSums { filled: 0b1_1111_0000, open: 0b1111, clash: true }.is_ok());
    assert!(!UnitSums { filled: 0b1_1111_0000, open: 0b1_1111, clash: false }.is_ok());
    assert!(!UnitSums { filled: 0b1_1111_0000, open: 0b0111, clash: false }.is_ok());
}

#[test]
fn end_to_end_puzzle_is_solved() {
    let mut puzzle = seeded(SEED);
    drive(&mut puzzle);
    for c in 0..9 {
        for r in 0..9 {
            assert!(puzzle.cell(PuzzleIndex::new(c, r)).is_filled(), "({}, {})", c, r);
        }
    }
    assert!(puzzle.validate());
    // the clues are still in their places
    for (i, ch) in SEED.chars().enumerate() {
        if let Some(d) = ch.to_digit(10) {
            assert_eq!(puzzle.cell(PuzzleIndex::new(i / 9, i % 9)).bit(), 1u16 << (d - 1));
        }
    }
}

#[test]
fn solve_after_the_fixed_point_changes_nothing() {
    let mut puzzle = seeded(SEED);
    drive(&mut puzzle);
    let at_rest = puzzle.hash();
    puzzle.solve();
    assert_eq!(puzzle.hash(), at_rest);
    puzzle.solve();
    assert_eq!(puzzle.hash(), at_rest);
}

#[test]
fn partly_seeded_grid_stays_valid_at_its_fixed_point() {
    let mut puzzle = seeded("53**7****6**195****98****6*8***6***34**8*3**17***2***6*6****28****419**5****8**79");
    drive(&mut puzzle);
    assert!(puzzle.validate());
    let at_rest = puzzle.hash();
    puzzle.solve();
    assert_eq!(puzzle.hash(), at_rest);
}

#[test]
fn naked_triple_passes_over_a_triple_that_was_broken_up_before_its_turn() {
    let mut p = Puzzle::new();
    // row 0: slot 0 has {2, 5}, slot 1 {1, 2}, slots 2 and 3 {2, 3}
    p.restrict(PuzzleIndex::new(0, 0), 0b1_0010);
    p.restrict(PuzzleIndex::new(1, 0), 0b0_0011);
    p.restrict(PuzzleIndex::new(2, 0), 0b0_0110);
    p.restrict(PuzzleIndex::new(3, 0), 0b0_0110);
    // the slots 1, 2, 3 have the three candidates 1, 2, 3 between them; the triple of the
    // slots 0, 2, 3 comes first, fixes slot 1 to 1, and the later triple is skipped
    p.row_mut(0).naked_triple();
    assert!(p.cell(PuzzleIndex::new(1, 0)).is_filled());
    assert_eq!(p.cell(PuzzleIndex::new(1, 0)).bit(), 0b1);
    assert_eq!(p.cell(PuzzleIndex::new(0, 0)).bit(), 0b1_0010);
    assert_eq!(p.cell(PuzzleIndex::new(2, 0)).bit(), 0b0_0110);
    // the other cells lost 2, 3, 5 by the first triple and 1 by the cascade
    assert_eq!(p.cell(PuzzleIndex::new(8, 0)).bit(), 0b1_1110_1000);
}

#[test]
fn a_second_clue_with_the_same_value_in_a_row_is_found_by_validate() {
    let mut p = Puzzle::new();
    p.fill(PuzzleIndex::new(0, 0), 1);
    assert!(p.validate());
    // the cell is open, so the value is written although it is no candidate any more
    p.fill(PuzzleIndex::new(8, 0), 1);
    assert!(p.cell(PuzzleIndex::new(8, 0)).is_filled());
    assert!(!p.validate());
    let sums = p.row(0).sums();
    assert!(sums.clash);
    assert_eq!(sums.filled, 0b1);
    assert!(!p.row(0).check());
    assert!(p.col(4).check());
}

#[test]
fn an_open_cell_with_the_value_of_a_fixed_neighbour_is_found_by_validate() {
    let mut p = Puzzle::new();
    // a fixed cell that was never propagated
    p.restrict(PuzzleIndex::new(4, 4), 0b1000);
    assert!(p.validate());
    let mut q = p.clone();
    q.determine(PuzzleIndex::new(4, 4));
    assert!(q.validate());
    // the clone left the first grid alone
    assert!(!p.cell(PuzzleIndex::new(4, 4)).is_filled());
    assert_eq!(q.cell(PuzzleIndex::new(4, 0)).bit(), 0b1_1111_0111);
    assert_eq!(p.cell(PuzzleIndex::new(4, 0)).bit(), 0b1_1111_1111);
    assert_eq!(UnitSums { filled: 0b1000, open: 0b1_1111_1111, clash: false }.is_ok(), false);
}

#[test]
fn cells_are_read_by_index() {
    let mut p = Puzzle::new();
    p.fill(PuzzleIndex::new(2, 6), 9);
    assert!(p[PuzzleIndex::new(2, 6)].is_filled());
    assert_eq!(p[PuzzleIndex::new(2, 6)].bit(), 0b1_0000_0000);
    assert_eq!(p[PuzzleIndex::new(2, 5)].bit(), 0b0_1111_1111);
    assert!(p.row(6)[2].is_filled());
    assert!(p.col(2)[6].is_filled());
    assert_eq!(p.col_mut(2)[5].bit(), 0b0_1111_1111);
    // cells are compared by their coordinates alone
    assert!(p[PuzzleIndex::new(2, 6)] == *p.cell(PuzzleIndex::new(2, 6)));
    assert!(p[PuzzleIndex::new(2, 6)] != p[PuzzleIndex::new(2, 5)]);
}

#[test]
fn hidden_single_pass_fixes_the_cell_in_a_later_unit() {
    let mut p = Puzzle::new();
    // value 2 stays in column 8 only in row 7; column 8 comes last in the pass
    for r in 0..9 {
        if r != 7 {
            p.eliminate(PuzzleIndex::new(8, r), 0b10);
        }
    }
    p.hidden_single();
    assert!(p.cell(PuzzleIndex::new(8, 7)).is_filled());
    assert_eq!(p.cell(PuzzleIndex::new(8, 7)).bit(), 0b10);
    assert!(p.validate());
}

#[test]
fn slice_strike_takes_digits_and_settles() {
    let mut p = Puzzle::new();
    p.restrict(PuzzleIndex::new(0, 3), 0b0110);
    let mut row = p.row_mut(3);
    row.strike(0, 0b0100);
    assert!(p.cell(PuzzleIndex::new(0, 3)).is_filled());
    assert_eq!(p.cell(PuzzleIndex::new(0, 3)).bit(), 0b0010);
    assert_eq!(p.cell(PuzzleIndex::new(5, 3)).bit(), 0b1_1111_1101);
    let mut col = p.col_mut(7);
    col.eliminate(2, 0b1);
    col.restrict(2, 0b111);
    col.determine(2);
    assert_eq!(p.cell(PuzzleIndex::new(7, 2)).bit(), 0b110);
    assert!(!p.cell(PuzzleIndex::new(7, 2)).is_filled());
}

#[test]
fn a_fully_given_grid_is_valid_and_at_rest() {
    let mut p = Puzzle::new();
    for c in 0..9usize {
        for r in 0..9usize {
            let v = ((3 * (r % 3) + r / 3 + c) % 9 + 1) as u8;
            p.fill(PuzzleIndex::new(c, r), v);
        }
    }
    for c in 0..9usize {
        for r in 0..9usize {
            let v = (3 * (r % 3) + r / 3 + c) % 9 + 1;
            assert!(p.cell(PuzzleIndex::new(c, r)).is_filled());
            assert_eq!(p.cell(PuzzleIndex::new(c, r)).bit(), 1u16 << (v - 1));
        }
    }
    assert!(p.validate());
    let at_rest = p.hash();
    p.solve();
    assert_eq!(p.hash(), at_rest);
    assert_eq!(at_rest.split('/').count(), 81);
}
