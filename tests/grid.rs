use sudoku::{SudokuError, SudokuGrid};

const SOLUTION: [u8; 81] = [
    9, 8, 5, 4, 2, 3, 7, 1, 6,
    1, 3, 4, 6, 7, 9, 5, 8, 2,
    6, 2, 7, 8, 1, 5, 3, 9, 4,
    3, 7, 6, 9, 4, 2, 8, 5, 1,
    5, 1, 9, 7, 8, 6, 2, 4, 3,
    8, 4, 2, 3, 5, 1, 9, 6, 7,
    4, 9, 3, 5, 6, 7, 1, 2, 8,
    2, 5, 8, 1, 3, 4, 6, 7, 9,
    7, 6, 1, 2, 9, 8, 4, 3, 5,
];

#[test]
fn test_grid_default_set_up() {
    let grid = SudokuGrid::default();

    for r in 0..=8 {
        let row = grid.get_row((r + 1) as u8).unwrap();
        for c in 0..=8 {
            let sq = row[c];
            assert_eq!(sq.row(), (r + 1) as u8);
            assert_eq!(sq.col(), (c + 1) as u8);
        }
    }
}

#[test]
fn test_macro_creation_method_1() {
    let placements: Vec<(u8, u8, u8)> = vec![
        (1, 1, 9), (1, 2, 8), (1, 3, 5), (1, 4, 4), (1, 5, 2), (1, 6, 3), (1, 7, 7), (1, 8, 1), (1, 9, 6),
        (2, 1, 1), (2, 2, 3), (2, 3, 4), (2, 4, 6), (2, 5, 7), (2, 6, 9), (2, 7, 5), (2, 8, 8), (2, 9, 2),
        (3, 1, 6), (3, 2, 2), (3, 3, 7), (3, 4, 8), (3, 5, 1), (3, 6, 5), (3, 7, 3), (3, 8, 9), (3, 9, 4),
        (4, 1, 3), (4, 2, 7), (4, 3, 6), (4, 4, 9), (4, 5, 4), (4, 6, 2), (4, 7, 8), (4, 8, 5), (4, 9, 1),
        (5, 1, 5), (5, 2, 1), (5, 3, 9), (5, 4, 7), (5, 5, 8), (5, 6, 6), (5, 7, 2), (5, 8, 4), (5, 9, 3),
        (6, 1, 8), (6, 2, 4), (6, 3, 2), (6, 4, 3), (6, 5, 5), (6, 6, 1), (6, 7, 9), (6, 8, 6), (6, 9, 7),
        (7, 1, 4), (7, 2, 9), (7, 3, 3), (7, 4, 5), (7, 5, 6), (7, 6, 7), (7, 7, 1), (7, 8, 2), (7, 9, 8),
        (8, 1, 2), (8, 2, 5), (8, 3, 8), (8, 4, 1), (8, 5, 3), (8, 6, 4), (8, 7, 6), (8, 8, 7), (8, 9, 9),
        (9, 1, 7), (9, 2, 6), (9, 3, 1), (9, 4, 2), (9, 5, 9), (9, 6, 8), (9, 7, 4), (9, 8, 3), (9, 9, 5),
    ];
    let grid = SudokuGrid::from_placements(&placements).unwrap();

    match grid.check() {
        Ok(b) => {
            println!("{:?}", b);
            assert!(b);
        }
        Err(e) => {
            println!("{:?}", e);
            assert!(false);
        }
    }
}

#[test]
fn test_macro_creation_method_2() {
    let grid = SudokuGrid::from_digits(&SOLUTION).unwrap();
    assert!(grid.check().unwrap());
}

#[test]
fn test_check_false_solution() {
    let mut digits = SOLUTION;
    digits[10] = 4;
    let grid = SudokuGrid::from_digits(&digits).unwrap();
    assert!(!grid.check().unwrap());
}

#[test]
fn grid_positions_are_each_pair_once() {
    let grid = SudokuGrid::new();
    let mut seen = [[false; 9]; 9];
    for r in 1..=9u8 {
        let row = grid.get_row(r).unwrap();
        assert_eq!(row.len(), 9);
        for sq in row {
            let (i, j) = (sq.row() as usize - 1, sq.col() as usize - 1);
            assert!(!seen[i][j]);
            seen[i][j] = true;
            assert!(!sq.is_set());
            assert_eq!(sq.get_box(), (1 + 3 * ((sq.row() - 1) / 3) + (sq.col() - 1) / 3));
        }
    }
    assert!(seen.iter().all(|r| r.iter().all(|b| *b)));
}

#[test]
fn empty_grid_check_returns_a_boolean() {
    let grid = SudokuGrid::new();
    assert_eq!(grid.check(), Ok(false));
}

#[test]
fn check_is_the_same_on_repeated_calls() {
    let good = SudokuGrid::from_digits(&SOLUTION).unwrap();
    assert_eq!(good.check(), Ok(true));
    assert_eq!(good.check(), Ok(true));
    let mut digits = SOLUTION;
    digits[10] = 4;
    let bad = SudokuGrid::from_digits(&digits).unwrap();
    assert_eq!(bad.check(), Ok(false));
    assert_eq!(bad.check(), Ok(false));
}

#[test]
fn check_catches_a_column_or_box_clash_with_rows_intact() {
    // Swapping two cells within a row keeps every row sum but breaks two columns.
    let mut digits = SOLUTION;
    digits.swap(0, 1);
    let grid = SudokuGrid::from_digits(&digits).unwrap();
    assert_eq!(grid.check(), Ok(false));
}

#[test]
fn set_places_one_digit() {
    let mut grid = SudokuGrid::new();
    assert_eq!(grid.set(3, 4, 7), Ok(()));
    let row = grid.get_row(3).unwrap();
    assert_eq!(row[3].get(), Ok(7));
    assert_eq!(row[3].get_box(), 2);
    assert!(!row[2].is_set());
    assert!(!row[4].is_set());
}

#[test]
fn set_refuses_bad_position_or_digit() {
    let mut grid = SudokuGrid::new();
    assert_eq!(grid.set(0, 4, 7), Err(SudokuError::InvalidPosition { row: 0, col: 4 }));
    assert_eq!(grid.set(4, 10, 7), Err(SudokuError::InvalidPosition { row: 4, col: 10 }));
    assert_eq!(grid.set(4, 4, 0), Err(SudokuError::InvalidDigit { digit: 0 }));
    assert_eq!(grid.set(4, 4, 10), Err(SudokuError::InvalidDigit { digit: 10 }));
    assert!(!grid.get_row(4).unwrap()[3].is_set());
}

#[test]
fn get_row_refuses_rows_outside_the_grid() {
    let grid = SudokuGrid::new();
    assert_eq!(grid.get_row(0).unwrap_err(), SudokuError::InvalidPosition { row: 0, col: 1 });
    assert_eq!(grid.get_row(10).unwrap_err(), SudokuError::InvalidPosition { row: 10, col: 1 });
}

#[test]
fn from_digits_refuses_more_than_81_values() {
    let mut digits = SOLUTION.to_vec();
    digits.push(1);
    assert_eq!(
        SudokuGrid::from_digits(&digits).unwrap_err(),
        SudokuError::InvalidPosition { row: 10, col: 1 }
    );
}

#[test]
fn from_digits_fills_in_reading_order() {
    let grid = SudokuGrid::from_digits(&[5, 6, 7, 8, 9, 1, 2, 3, 4, 2]).unwrap();
    let first = grid.get_row(1).unwrap();
    assert_eq!(first[0].get(), Ok(5));
    assert_eq!(first[8].get(), Ok(4));
    let second = grid.get_row(2).unwrap();
    assert_eq!(second[0].get(), Ok(2));
    assert_eq!(second[1].get(), Err(SudokuError::NotSet));
}

#[test]
fn from_digits_reports_the_first_bad_digit() {
    assert_eq!(
        SudokuGrid::from_digits(&[1, 2, 0, 11]).unwrap_err(),
        SudokuError::InvalidDigit { digit: 0 }
    );
}

#[test]
fn from_placements_later_wins_and_errors_stop() {
    let grid = SudokuGrid::from_placements(&[(2, 2, 3), (2, 2, 8)]).unwrap();
    assert_eq!(grid.get_row(2).unwrap()[1].get(), Ok(8));
    assert_eq!(
        SudokuGrid::from_placements(&[(2, 2, 3), (0, 1, 8), (1, 1, 0)]).unwrap_err(),
        SudokuError::InvalidPosition { row: 0, col: 1 }
    );
    assert_eq!(
        SudokuGrid::from_placements(&[(1, 1, 0)]).unwrap_err(),
        SudokuError::InvalidDigit { digit: 0 }
    );
}

#[test]
fn check_catches_a_box_clash_with_rows_and_columns_intact() {
    let mut digits = [0u8; 81];
    for r in 0..9 {
        for c in 0..9 {
            digits[9 * r + c] = ((r + c) % 9 + 1) as u8;
        }
    }
    let grid = SudokuGrid::from_digits(&digits).unwrap();
    assert_eq!(grid.check(), Ok(false));
}
