use sudoku::square::SET_BIT;
use sudoku::{SudokuError, SudokuSquare};

#[test]
fn test_grid_coordinates_11() {
    let sq = SudokuSquare::from_raw(0x11, 0x01FF);
    assert_eq!(sq.row(), 1);
    assert_eq!(sq.col(), 1);
}

#[test]
fn test_grid_coordinates_15() {
    let sq = SudokuSquare::from_raw(0x15, 0x01FF);
    assert_eq!(sq.row(), 1);
    assert_eq!(sq.col(), 5);
}

#[test]
fn test_grid_coordinates_19() {
    let sq = SudokuSquare::from_raw(0x19, 0x01FF);
    assert_eq!(sq.row(), 1);
    assert_eq!(sq.col(), 9);
}

#[test]
fn test_grid_coordinates_51() {
    let sq = SudokuSquare::from_raw(0x51, 0x01FF);
    assert_eq!(sq.row(), 5);
    assert_eq!(sq.col(), 1);
}

#[test]
fn test_grid_coordinates_91() {
    let sq = SudokuSquare::from_raw(0x91, 0x01FF);
    assert_eq!(sq.row(), 9);
    assert_eq!(sq.col(), 1);
}

#[test]
fn test_grid_coordinates_54() {
    let sq = SudokuSquare::from_raw(0x54, 0x01FF);
    assert_eq!(sq.row(), 5);
    assert_eq!(sq.col(), 4);
}

#[test]
fn test_grid_coordinates_93() {
    let sq = SudokuSquare::from_raw(0x93, 0x01FF);
    assert_eq!(sq.row(), 9);
    assert_eq!(sq.col(), 3);
}

#[test]
fn test_new_function() {
    for i in 1..10 {
        for j in 1..10 {
            let sq = SudokuSquare::new(i, j).unwrap();
            assert_eq!(sq.row(), i);
            assert_eq!(sq.col(), j);
        }
    }
}

#[test]
fn test_set_bit_false() {
    let sq = SudokuSquare::default();
    assert!(!sq.is_set());
}

#[test]
fn test_set_bit_true() {
    let sq = SudokuSquare::from_raw(0x11, 0x0200);
    assert!(sq.is_set());
}

#[test]
fn test_get_digit() {
    for i in 1..10 {
        let sq = SudokuSquare::from_raw(0x11, (0x0001 << (i - 1)) | SET_BIT);
        assert_eq!(sq.get().unwrap(), i);
    }
}

#[test]
fn test_box_correctly_set() {
    for i in 1..=9 {
        for j in 1..=9 {
            let sq = SudokuSquare::new(i, j).unwrap();
            let bx = 1 + 3 * ((i - 1) / 3) + ((j - 1) / 3);
            assert_eq!(sq.get_box(), bx);
        }
    }
}

#[test]
fn new_refuses_positions_outside_the_grid() {
    assert_eq!(
        SudokuSquare::new(0, 4).unwrap_err(),
        SudokuError::InvalidPosition { row: 0, col: 4 }
    );
    assert_eq!(
        SudokuSquare::new(3, 10).unwrap_err(),
        SudokuError::InvalidPosition { row: 3, col: 10 }
    );
}

#[test]
fn fresh_cell_is_unassigned_with_nine_candidates() {
    for i in 1..=9 {
        for j in 1..=9 {
            let sq = SudokuSquare::new(i, j).unwrap();
            assert!(!sq.is_set());
            assert_eq!(sq.possibilities_number(), 9);
            assert_eq!(sq.digit_bits(), 0x01FF);
            assert_eq!(sq.get(), Err(SudokuError::NotSet));
        }
    }
}

#[test]
fn set_value_then_get_round_trips() {
    for d in 1..=9 {
        let mut sq = SudokuSquare::new(4, 7).unwrap();
        assert_eq!(sq.set_value(d), Ok(()));
        assert_eq!(sq.get(), Ok(d));
        assert!(sq.is_set());
        assert!(sq.is(d));
        assert_eq!(sq.row(), 4);
        assert_eq!(sq.col(), 7);
        assert_eq!(sq.get_box(), 6);
        assert_eq!(sq.possibilities_number(), 1);
    }
}

#[test]
fn set_value_refuses_digits_outside_one_to_nine() {
    let mut sq = SudokuSquare::new(1, 1).unwrap();
    assert_eq!(sq.set_value(0), Err(SudokuError::InvalidDigit { digit: 0 }));
    assert_eq!(sq.set_value(10), Err(SudokuError::InvalidDigit { digit: 10 }));
    assert!(!sq.is_set());
    assert_eq!(sq.possibilities_number(), 9);
}

#[test]
fn with_value_places_the_digit() {
    let sq = SudokuSquare::with_value(8, 2, 6).unwrap();
    assert_eq!(sq.row(), 8);
    assert_eq!(sq.col(), 2);
    assert_eq!(sq.get_box(), 7);
    assert_eq!(sq.get(), Ok(6));
    assert_eq!(sq.digit_bits(), 0x0020);
}

#[test]
fn with_value_reports_position_then_digit() {
    assert_eq!(
        SudokuSquare::with_value(0, 2, 6).unwrap_err(),
        SudokuError::InvalidPosition { row: 0, col: 2 }
    );
    assert_eq!(
        SudokuSquare::with_value(10, 2, 0).unwrap_err(),
        SudokuError::InvalidPosition { row: 10, col: 2 }
    );
    assert_eq!(
        SudokuSquare::with_value(2, 2, 0).unwrap_err(),
        SudokuError::InvalidDigit { digit: 0 }
    );
}

#[test]
fn is_checks_the_placed_digit_only() {
    let free = SudokuSquare::new(1, 1).unwrap();
    assert!(!free.is(3));
    let sq = SudokuSquare::with_value(1, 1, 3).unwrap();
    assert!(sq.is(3));
    assert!(!sq.is(4));
    assert!(!sq.is(0));
    assert!(!sq.is(10));
}

#[test]
fn get_reports_a_pattern_that_is_not_one_digit() {
    let sq = SudokuSquare::from_raw(0x11, SET_BIT | 0x0003);
    assert_eq!(sq.get(), Err(SudokuError::InvalidDigit { digit: 0x0003 }));
    let empty = SudokuSquare::from_raw(0x11, SET_BIT);
    assert_eq!(empty.get(), Err(SudokuError::InvalidDigit { digit: 0 }));
}

#[test]
fn assign_commits_the_last_candidate() {
    let mut sq = SudokuSquare::new(5, 5).unwrap();
    sq.apply_mask(0x0010);
    assert_eq!(sq.possibilities_number(), 1);
    assert!(!sq.is_set());
    assert_eq!(sq.set(), Ok(5));
    assert!(sq.is_set());
    assert_eq!(sq.get(), Ok(5));
    assert_eq!(sq.get_box(), 5);
    assert_eq!(sq.set(), Err(SudokuError::IsAlreadySet));
}

#[test]
fn assign_refuses_zero_or_several_candidates() {
    let mut full = SudokuSquare::new(2, 3).unwrap();
    assert_eq!(full.set(), Err(SudokuError::NonUniqueSet));
    assert!(!full.is_set());

    let mut two = SudokuSquare::new(2, 3).unwrap();
    two.apply_mask(0x0011);
    assert_eq!(two.possibilities_number(), 2);
    assert_eq!(two.set(), Err(SudokuError::NonUniqueSet));

    let mut none = SudokuSquare::new(2, 3).unwrap();
    none.apply_mask(0);
    assert_eq!(none.possibilities_number(), 0);
    assert_eq!(none.set(), Err(SudokuError::NonUniqueSet));
}

#[test]
fn remove_possibility_clears_one_candidate() {
    let mut sq = SudokuSquare::new(9, 9).unwrap();
    assert!(sq.is_possible(4));
    sq.remove_possibility(4);
    assert!(!sq.is_possible(4));
    assert!(sq.is_possible(3));
    assert_eq!(sq.possibilities_number(), 8);
    assert_eq!(sq.digit_bits(), 0x01F7);
    sq.remove_possibility(4);
    assert_eq!(sq.possibilities_number(), 8);
    sq.remove_possibility(0);
    sq.remove_possibility(12);
    assert_eq!(sq.digit_bits(), 0x01F7);
    assert_eq!(sq.row(), 9);
    assert_eq!(sq.col(), 9);
    assert_eq!(sq.get_box(), 9);
}

#[test]
fn apply_mask_keeps_flag_and_box() {
    let mut sq = SudokuSquare::with_value(7, 8, 2).unwrap();
    sq.apply_mask(0xFFFF);
    assert_eq!(sq.get(), Ok(2));
    assert_eq!(sq.get_box(), 9);
    let mut free = SudokuSquare::new(7, 8).unwrap();
    free.apply_mask(0x0F0F);
    assert_eq!(free.digit_bits(), 0x010F);
    assert!(!free.is_set());
    assert!(!free.is_possible(0));
    assert!(!free.is_possible(10));
}

#[test]
fn default_cell_has_every_candidate() {
    let sq = SudokuSquare::default();
    assert_eq!(sq.row(), 0);
    assert_eq!(sq.col(), 0);
    assert_eq!(sq.get_box(), 0);
    assert_eq!(sq.possibilities_number(), 9);
}
