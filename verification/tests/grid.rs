use sudoku_solver::sudoku::{fmt_cell, ConstructionError, Sudoku};

/// The digits of a classic complete, conflict-free grid.
fn full_grid_digits() -> Vec<u8> {
    let mut digits: Vec<u8> = Vec::new();
    for r in 0..9usize {
        for c in 0..9usize {
            digits.push((((r * 3 + r / 3 + c) % 9) + 1) as u8);
        }
    }
    digits
}

#[test]
fn construction_accepts_empty_grid() {
    let grid = Sudoku::from_digits(vec![0u8; 81]).unwrap();
    for r in 0..9 {
        for c in 0..9 {
            assert_eq!(grid.get(r, c), 0);
        }
    }
}

#[test]
fn construction_accepts_full_valid_grid() {
    let digits = full_grid_digits();
    let grid = Sudoku::from_digits(digits.clone()).unwrap();
    assert_eq!(grid.0, digits);
    assert!(grid.is_valid());
}

#[test]
fn construction_rejects_short_input() {
    assert!(matches!(
        Sudoku::from_digits(vec![0u8; 80]),
        Err(ConstructionError::MalformedInput)
    ));
    assert!(matches!(
        Sudoku::from_digits(Vec::new()),
        Err(ConstructionError::MalformedInput)
    ));
}

#[test]
fn construction_rejects_long_input() {
    assert!(matches!(
        Sudoku::from_digits(vec![0u8; 82]),
        Err(ConstructionError::MalformedInput)
    ));
    // Even a sequence full of duplicates is malformed first when its length
    // is wrong.
    assert!(matches!(
        Sudoku::from_digits(vec![5u8; 90]),
        Err(ConstructionError::MalformedInput)
    ));
}

#[test]
fn construction_rejects_out_of_range_digit() {
    let mut digits = vec![0u8; 81];
    digits[40] = 10;
    assert!(matches!(
        Sudoku::from_digits(digits),
        Err(ConstructionError::MalformedInput)
    ));
}

#[test]
fn construction_rejects_row_duplicate() {
    let mut digits = vec![0u8; 81];
    digits[0] = 5; // row 0, column 0
    digits[8] = 5; // row 0, column 8
    assert!(matches!(
        Sudoku::from_digits(digits),
        Err(ConstructionError::InvalidPuzzle)
    ));
}

#[test]
fn construction_rejects_column_duplicate() {
    let mut digits = vec![0u8; 81];
    digits[3] = 7; // row 0, column 3
    digits[75] = 7; // row 8, column 3
    assert!(matches!(
        Sudoku::from_digits(digits),
        Err(ConstructionError::InvalidPuzzle)
    ));
}

#[test]
fn construction_rejects_block_duplicate() {
    let mut digits = vec![0u8; 81];
    digits[0] = 2; // row 0, column 0
    digits[10] = 2; // row 1, column 1: same block, different row and column
    assert!(matches!(
        Sudoku::from_digits(digits),
        Err(ConstructionError::InvalidPuzzle)
    ));
}

#[test]
fn row_col_block_views() {
    let grid = Sudoku::from_digits(full_grid_digits()).unwrap();
    assert_eq!(grid.row(0), vec![1, 2, 3, 4, 5, 6, 7, 8, 9]);
    assert_eq!(grid.row(1), vec![4, 5, 6, 7, 8, 9, 1, 2, 3]);
    assert_eq!(grid.col(0), vec![1, 4, 7, 2, 5, 8, 3, 6, 9]);
    // Block (0, 0): rows 0..3 and columns 0..3, column-major within the
    // block.
    assert_eq!(grid.block(0, 0), vec![1, 4, 7, 2, 5, 8, 3, 6, 9]);
    // Block (2, 1): rows 3..6 and columns 6..9.
    assert_eq!(grid.block(2, 1), vec![8, 2, 5, 9, 3, 6, 1, 4, 7]);
}

#[test]
fn views_of_sparse_grid() {
    let mut digits = vec![0u8; 81];
    digits[4] = 9; // row 0, column 4
    digits[40] = 5; // row 4, column 4
    let grid = Sudoku::from_digits(digits).unwrap();
    assert_eq!(grid.row(0), vec![0, 0, 0, 0, 9, 0, 0, 0, 0]);
    assert_eq!(grid.col(4), vec![9, 0, 0, 0, 5, 0, 0, 0, 0]);
    assert_eq!(grid.block(1, 1), vec![0, 0, 0, 0, 5, 0, 0, 0, 0]);
}

#[test]
fn set_changes_one_cell() {
    let mut grid = Sudoku::from_digits(vec![0u8; 81]).unwrap();
    grid.set(2, 7, 4);
    assert_eq!(grid.get(2, 7), 4);
    assert_eq!(grid.0.iter().filter(|&&d| d != 0).count(), 1);
}

#[test]
fn validity_spots_duplicates() {
    let valid = Sudoku(vec![0u8; 81]);
    assert!(valid.is_valid());
    let mut digits = vec![0u8; 81];
    digits[27] = 6; // row 3, column 0
    digits[35] = 6; // row 3, column 8
    let invalid = Sudoku(digits);
    assert!(!invalid.is_valid());
}

#[test]
fn duplicate_detection_ignores_zeros() {
    assert!(Sudoku::has_no_duplicates(vec![0, 0, 0, 1, 2, 3, 0, 0, 0]));
    assert!(Sudoku::has_no_duplicates(vec![9, 8, 7, 6, 5, 4, 3, 2, 1]));
    assert!(!Sudoku::has_no_duplicates(vec![0, 4, 0, 0, 4, 0, 0, 0, 0]));
}

#[test]
fn clone_copies_every_cell() {
    let grid = Sudoku::from_digits(full_grid_digits()).unwrap();
    let copy = grid.clone();
    assert_eq!(copy.0, grid.0);
}

#[test]
fn cell_labels() {
    assert_eq!(fmt_cell(0, 0), "a0");
    assert_eq!(fmt_cell(8, 8), "i8");
    assert_eq!(fmt_cell(2, 5), "c5");
}
