use std::collections::HashSet;
use sudoku_csp::model::{Csp, NotEqual};

fn solved_grid() -> Vec<i32> {
    let problem = Csp::new(NotEqual);
    problem.create_sudoku(0, 1).expect("a standard grid has a solution")
}

#[test]
fn create_sudoku_with_zero_threshold_keeps_every_cell() {
    let grid = solved_grid();
    assert_eq!(grid.len(), 81);
    for v in &grid {
        assert!((1..=9).contains(v));
    }
}

#[test]
fn create_sudoku_with_full_threshold_blanks_every_cell() {
    let problem = Csp::new(NotEqual);
    let grid = problem.create_sudoku(1, 1).expect("a standard grid has a solution");
    assert_eq!(grid.len(), 81);
    assert_eq!(grid.iter().filter(|v| **v != 0).count(), 0);
}

#[test]
fn solution_rows_columns_and_boxes_cover_one_through_nine() {
    let grid = solved_grid();
    let all: HashSet<i32> = (1..=9).collect();
    for r in 0..9 {
        let row: HashSet<i32> = (0..9).map(|c| grid[r * 9 + c]).collect();
        assert_eq!(row, all);
    }
    for c in 0..9 {
        let col: HashSet<i32> = (0..9).map(|r| grid[r * 9 + c]).collect();
        assert_eq!(col, all);
    }
    for b in 0..9 {
        let bx: HashSet<i32> =
            (0..9).map(|t| grid[(3 * (b / 3) + t / 3) * 9 + 3 * (b % 3) + t % 3]).collect();
        assert_eq!(bx, all);
    }
}

#[test]
fn backtrack_returns_a_fully_assigned_store() {
    let problem = Csp::new(NotEqual);
    let solution = problem.backtrack(problem.domains.clone()).expect("solvable");
    assert_eq!(solution.len(), 81);
    assert!(solution.iter().all(|d| d.len() == 1));
}

#[test]
fn backtrack_returns_an_already_assigned_store_unchanged() {
    let problem = Csp::new(NotEqual);
    let solved = problem.backtrack(problem.domains.clone()).expect("solvable");
    let again = problem.backtrack(solved.clone()).expect("already assigned");
    assert_eq!(again, solved);
}
