use sudoku_solver::solver::{apply_rules, available_nums, find_unfilled_cell, solve};
use sudoku_solver::sudoku::Sudoku;

/// The digits of a classic complete, conflict-free grid.
fn solved_digits() -> Vec<u8> {
    let mut digits: Vec<u8> = Vec::new();
    for r in 0..9usize {
        for c in 0..9usize {
            digits.push((((r * 3 + r / 3 + c) % 9) + 1) as u8);
        }
    }
    digits
}

/// The same grid with a share of its cells blanked out.
fn puzzle_digits() -> Vec<u8> {
    let mut digits = solved_digits();
    for r in 0..9usize {
        for c in 0..9usize {
            if (r + 2 * c) % 3 == 0 {
                digits[r * 9 + c] = 0;
            }
        }
    }
    digits
}

fn assert_solved(given: &Sudoku, solution: &Sudoku) {
    assert!(solution.is_valid());
    for i in 0..81 {
        assert!((1..=9).contains(&solution.0[i]));
        if given.0[i] != 0 {
            assert_eq!(solution.0[i], given.0[i]);
        }
    }
}

#[test]
fn solves_empty_grid() {
    let grid = Sudoku::from_digits(vec![0u8; 81]).unwrap();
    let solution = solve(&grid).expect("an empty grid has completions");
    assert_solved(&grid, &solution);
}

#[test]
fn solves_puzzle_and_keeps_givens() {
    let grid = Sudoku::from_digits(puzzle_digits()).unwrap();
    let solution = solve(&grid).expect("the puzzle came from a solved grid");
    assert_solved(&grid, &solution);
}

#[test]
fn solve_is_deterministic() {
    let grid = Sudoku::from_digits(puzzle_digits()).unwrap();
    let first = solve(&grid).unwrap();
    let second = solve(&grid).unwrap();
    assert_eq!(first.0, second.0);

    let empty = Sudoku::from_digits(vec![0u8; 81]).unwrap();
    let third = solve(&empty).unwrap();
    let fourth = solve(&empty).unwrap();
    assert_eq!(third.0, fourth.0);
}

#[test]
fn solved_grid_comes_back_unchanged() {
    let grid = Sudoku::from_digits(solved_digits()).unwrap();
    let solution = solve(&grid).unwrap();
    assert_eq!(solution.0, solved_digits());
}

#[test]
fn propagation_is_idempotent() {
    let mut grid = Sudoku::from_digits(puzzle_digits()).unwrap();
    apply_rules(&mut grid);
    let fixed_point = grid.0.clone();
    apply_rules(&mut grid);
    assert_eq!(grid.0, fixed_point);
}

#[test]
fn unsolvable_grid_yields_none() {
    // Row 0 misses only the digit 9 at its last cell, but column 8 already
    // holds a 9 further down: cell (0, 8) has an empty candidate set, so no
    // completion exists although the grid itself is conflict-free.
    let mut digits = vec![0u8; 81];
    for c in 0..8usize {
        digits[c] = (c + 1) as u8;
    }
    digits[3 * 9 + 8] = 9; // row 3, column 8
    let grid = Sudoku::from_digits(digits).unwrap();
    assert!(grid.is_valid());
    assert!(solve(&grid).is_none());
}

#[test]
fn lone_empty_cell_is_filled_by_propagation_alone() {
    let mut digits = solved_digits();
    digits[4 * 9 + 7] = 0; // blank row 4, column 7
    let mut grid = Sudoku::from_digits(digits).unwrap();
    apply_rules(&mut grid);
    // Phase 1 alone completes the grid: no cell is left for backtracking.
    assert_eq!(grid.0, solved_digits());
    assert!(find_unfilled_cell(&grid).is_none());
}

#[test]
fn candidate_sets_are_exact() {
    let empty = Sudoku::from_digits(vec![0u8; 81]).unwrap();
    assert_eq!(
        available_nums(0, 0, &empty),
        vec![1, 2, 3, 4, 5, 6, 7, 8, 9]
    );

    let mut digits = vec![0u8; 81];
    for c in 0..8usize {
        digits[c] = (c + 1) as u8; // row 0: 1..=8 and one empty cell
    }
    let grid = Sudoku::from_digits(digits).unwrap();
    // The last cell of row 0 accepts only the missing 9.
    assert_eq!(available_nums(8, 0, &grid), vec![9]);
    // Row 1, column 0: the column holds 1, the block holds 1, 2, 3.
    assert_eq!(available_nums(0, 1, &grid), vec![4, 5, 6, 7, 8, 9]);
}

#[test]
fn most_constrained_cell_is_chosen() {
    let mut digits = vec![0u8; 81];
    for c in 0..8usize {
        digits[c] = (c + 1) as u8;
    }
    let grid = Sudoku::from_digits(digits).unwrap();
    let (col, row, nums) = find_unfilled_cell(&grid).unwrap();
    // Cell (row 0, column 8) has the single candidate 9; every other empty
    // cell has more.
    assert_eq!((col, row), (8, 0));
    assert_eq!(nums, vec![9]);
}

#[test]
fn full_grid_has_no_unfilled_cell() {
    let grid = Sudoku::from_digits(solved_digits()).unwrap();
    assert!(find_unfilled_cell(&grid).is_none());
}
