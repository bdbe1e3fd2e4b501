use newsudoku::bits::{count_ones, digit_bit, test_digit, trailing_zeros, FULL_MASK};
use newsudoku::cell::_Cell;
use newsudoku::puzzle::SliceType;
use newsudoku::{Cell, PuzzleIndex};

#[test]
fn full_mask_has_nine_digits() {
    assert_eq!(FULL_MASK, 0b1_1111_1111);
    assert_eq!(count_ones(FULL_MASK), 9);
    assert_eq!(count_ones(0), 0);
    assert_eq!(count_ones(0b1010), 2);
}

#[test]
fn digit_bit_and_test_digit_agree() {
    for d in 0..9 {
        assert_eq!(digit_bit(d), 1u16 << d);
        assert!(test_digit(digit_bit(d), d));
        assert!(!test_digit(digit_bit(d), (d + 1) % 9));
    }
}

#[test]
fn trailing_zeros_gives_lowest_digit_or_nine() {
    assert_eq!(trailing_zeros(0b1), 0);
    assert_eq!(trailing_zeros(0b1000), 3);
    assert_eq!(trailing_zeros(0b1_0100_0000), 6);
    assert_eq!(trailing_zeros(0), 9);
}

#[test]
fn index_block_formula() {
    assert_eq!(PuzzleIndex::new(0, 0).block_idx(), 0);
    assert_eq!(PuzzleIndex::new(0, 8).block_idx(), 2);
    assert_eq!(PuzzleIndex::new(4, 4).block_idx(), 4);
    assert_eq!(PuzzleIndex::new(8, 0).block_idx(), 6);
    assert_eq!(PuzzleIndex::new(8, 8).block_idx(), 8);
    assert_eq!(PuzzleIndex::new(5, 7).block_idx(), 5);
    let p = PuzzleIndex::new(3, 7);
    assert_eq!(p.col(), 3);
    assert_eq!(p.row(), 7);
}

#[test]
fn slot_mapping_of_the_three_kinds() {
    assert_eq!(SliceType::Row(2).index_of(5), PuzzleIndex::new(5, 2));
    assert_eq!(SliceType::Col(2).index_of(5), PuzzleIndex::new(2, 5));
    // block 5 starts at column 3, row 6; slot 7 is one column to the right twice, one row down
    assert_eq!(SliceType::Block(5).index_of(0), PuzzleIndex::new(3, 6));
    assert_eq!(SliceType::Block(5).index_of(7), PuzzleIndex::new(5, 7));
    for n in 0..9 {
        for i in 0..9 {
            assert_eq!(SliceType::Block(n).index_of(i).block_idx(), n);
            assert!(SliceType::Block(n).contains(SliceType::Block(n).index_of(i)));
        }
    }
    assert!(SliceType::Row(4).contains(PuzzleIndex::new(8, 4)));
    assert!(!SliceType::Row(4).contains(PuzzleIndex::new(4, 8)));
    assert!(SliceType::Col(4).contains(PuzzleIndex::new(4, 8)));
}

#[test]
fn unfilled_cell_has_every_candidate() {
    let c = Cell::unfilled(PuzzleIndex::new(1, 2));
    assert!(!c.is_filled());
    assert_eq!(c.bit(), 0b1_1111_1111);
    assert_eq!(c.pos(), PuzzleIndex::new(1, 2));
    assert_eq!(c.col(), 1);
    assert_eq!(c.row(), 2);
    assert_eq!(c.block_idx(), 0);
}

#[test]
fn filled_cell_has_one_bit() {
    for v in 1..=9u8 {
        let c = Cell::filled(v, PuzzleIndex::new(0, 0));
        assert!(c.is_filled());
        assert_eq!(c.bit(), 1u16 << (v - 1));
    }
}

#[test]
fn insert_fixes_an_open_cell_once() {
    let mut c = Cell::unfilled(PuzzleIndex::new(0, 0));
    assert!(c.insert(4));
    assert!(c.is_filled());
    assert_eq!(c.bit(), 0b1000);
    assert!(!c.insert(7));
    assert_eq!(c.bit(), 0b1000);
}

#[test]
fn eliminate_clears_bits_of_open_cells_only() {
    let mut c = Cell::unfilled(PuzzleIndex::new(0, 0));
    c.eliminate(0b1_0000_0001);
    assert_eq!(c.bit(), 0b0_1111_1110);
    c.eliminate(0b1_0000_0001);
    assert_eq!(c.bit(), 0b0_1111_1110);
    let mut f = Cell::filled(1, PuzzleIndex::new(0, 0));
    f.eliminate(0b1);
    assert!(f.is_filled());
    assert_eq!(f.bit(), 0b1);
}

#[test]
fn restrict_keeps_bits_of_open_cells_only() {
    let mut c = Cell::unfilled(PuzzleIndex::new(0, 0));
    c.restrict(0b110);
    assert_eq!(c.bit(), 0b110);
    let mut f = Cell::filled(9, PuzzleIndex::new(0, 0));
    f.restrict(0b110);
    assert_eq!(f.bit(), 0b1_0000_0000);
}

#[test]
fn determine_needs_exactly_one_candidate() {
    let mut c = Cell::unfilled(PuzzleIndex::new(0, 0));
    assert!(!c.determine());
    c.restrict(0b10_0100);
    assert!(!c.determine());
    c.restrict(0b10_0000);
    assert!(c.determine());
    assert!(c.is_filled());
    assert_eq!(c.bit(), 0b10_0000);
    assert!(!c.determine());
    let mut e = Cell::unfilled(PuzzleIndex::new(0, 0));
    e.restrict(0);
    assert!(!e.determine());
    assert!(!e.is_filled());
    assert_eq!(e.bit(), 0);
}

#[test]
fn state_to_determined_number() {
    assert_eq!(_Cell::Unfilled(0b100).to_determined_number(), Some(3));
    assert_eq!(_Cell::Unfilled(0b1_0000_0000).to_determined_number(), Some(9));
    assert_eq!(_Cell::Unfilled(0b101).to_determined_number(), None);
    assert_eq!(_Cell::Unfilled(0).to_determined_number(), None);
    assert_eq!(_Cell::Filled(6).to_determined_number(), Some(6));
    assert!(_Cell::Filled(6).is_filled());
    assert_eq!(_Cell::Filled(6).bit(), 0b10_0000);
    let mut s = _Cell::Unfilled(0b1000);
    assert!(s.determine());
    assert!(s.is_filled());
    let mut t = _Cell::Unfilled(0b1001);
    assert!(t.insert(2));
    assert_eq!(t.bit(), 0b10);
}

#[test]
fn same_row_col_block() {
    let a = Cell::unfilled(PuzzleIndex::new(1, 4));
    let b = Cell::unfilled(PuzzleIndex::new(7, 4));
    let c = Cell::unfilled(PuzzleIndex::new(1, 8));
    let d = Cell::unfilled(PuzzleIndex::new(2, 3));
    assert!(a.is_same_row(&b));
    assert!(!a.is_same_row(&c));
    assert!(a.is_same_col(&c));
    assert!(!a.is_same_col(&b));
    assert!(a.is_same_block(&d));
    assert!(!a.is_same_block(&b));
}

#[test]
fn cells_are_equal_when_their_coordinates_are() {
    let a = Cell::filled(3, PuzzleIndex::new(4, 5));
    let b = Cell::unfilled(PuzzleIndex::new(4, 5));
    let c = Cell::filled(3, PuzzleIndex::new(5, 4));
    assert!(a == b);
    assert!(a != c);
}
