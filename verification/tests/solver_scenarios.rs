use nonogram::board::Board;
use nonogram::generate::proposals;
use nonogram::model::CellState;
use nonogram::solver::{BoardSolver, SolveError};

fn board_rows(b: &Board) -> Vec<String> {
    let mut out = Vec::new();
    for r in 0..b.rows {
        let mut s = String::new();
        for c in 0..b.cols {
            s.push(match *b.get_cell(r, c) {
                CellState::Filled => '#',
                CellState::Empty => '.',
                CellState::Unknown => '?',
            });
        }
        out.push(s);
    }
    out
}

fn row_cells(b: &Board, r: usize) -> Vec<CellState> {
    let mut out = Vec::new();
    for c in 0..b.cols {
        out.push(*b.get_cell(r, c));
    }
    out
}

fn col_cells(b: &Board, c: usize) -> Vec<CellState> {
    let mut out = Vec::new();
    for r in 0..b.rows {
        out.push(*b.get_cell(r, c));
    }
    out
}

#[test]
fn single_filled_cell() {
    let solver = BoardSolver::from_settings(vec![vec![1]], vec![vec![1]]);
    let board = solver.solve().unwrap();
    assert_eq!(board.rows, 1);
    assert_eq!(board.cols, 1);
    assert_eq!(*board.get_cell(0, 0), CellState::Filled);
}

#[test]
fn blank_clues_give_blank_grid() {
    let solver = BoardSolver::from_settings(vec![vec![], vec![]], vec![vec![], vec![]]);
    let board = solver.solve().unwrap();
    assert_eq!(board.rows, 2);
    assert_eq!(board.cols, 2);
    for r in 0..2 {
        for c in 0..2 {
            assert_eq!(*board.get_cell(r, c), CellState::Empty);
        }
    }
}

#[test]
fn one_row_of_three() {
    // One row clued [3] over three columns clued [1] each: the clues are
    // mutually consistent and force the single row to be fully filled.
    let solver = BoardSolver::from_settings(vec![vec![3]], vec![vec![1], vec![1], vec![1]]);
    let board = solver.solve().unwrap();
    assert_eq!(board_rows(&board), vec!["###"]);
}

#[test]
fn contradictory_clues_are_unsolvable() {
    // The row wants both cells filled; the second column must stay empty.
    let solver = BoardSolver::from_settings(vec![vec![2]], vec![vec![1], vec![]]);
    assert!(matches!(solver.solve(), Err(SolveError::Unsolvable)));
}

#[test]
fn over_constrained_row_is_reported() {
    // A block of five cannot fit on a one-cell row.
    let solver = BoardSolver::from_settings(vec![vec![5]], vec![vec![1]]);
    assert!(matches!(solver.solve(), Err(SolveError::OverConstrained)));
}

#[test]
fn over_constrained_column_is_reported() {
    let solver = BoardSolver::from_settings(vec![vec![1], vec![1]], vec![vec![3], vec![]]);
    assert!(matches!(solver.solve(), Err(SolveError::OverConstrained)));
}

fn fixture_rows() -> Vec<Vec<usize>> {
    vec![
        vec![9],
        vec![2, 1, 1, 1, 2],
        vec![1, 1, 1, 1, 1],
        vec![2, 1, 1, 1, 2],
        vec![2, 2, 1, 2, 2],
        vec![13],
        vec![1, 1],
        vec![15],
        vec![15],
        vec![3, 3, 3],
        vec![4, 5, 4],
        vec![4, 2, 2, 4],
        vec![6, 6],
        vec![15],
        vec![13],
    ]
}

fn fixture_cols() -> Vec<Vec<usize>> {
    vec![
        vec![8],
        vec![3, 8],
        vec![5, 8],
        vec![2, 1, 2, 5],
        vec![1, 2, 2, 3],
        vec![6, 2, 5],
        vec![1, 1, 5, 2],
        vec![6, 4, 2],
        vec![1, 1, 5, 2],
        vec![6, 2, 5],
        vec![1, 2, 2, 3],
        vec![2, 1, 2, 5],
        vec![5, 8],
        vec![3, 8],
        vec![8],
    ]
}

#[test]
fn fixture_puzzle_solves_deterministically() {
    let solver = BoardSolver::from_settings(fixture_rows(), fixture_cols());
    let board = solver.solve().unwrap();
    let expected = vec![
        "...#########...",
        "..##.#.#.#.##..",
        "..#..#.#.#..#..",
        ".##..#.#.#..##.",
        ".##.##.#.##.##.",
        ".#############.",
        "#.............#",
        "###############",
        "###############",
        "###...###...###",
        "####.#####.####",
        "####.##.##.####",
        "######...######",
        "###############",
        ".#############.",
    ];
    assert_eq!(board_rows(&board), expected);
}

#[test]
fn fixture_solution_rows_and_cols_are_candidates() {
    // Every line of the returned grid is literally a member of that
    // line's original candidate set.
    let solver = BoardSolver::from_settings(fixture_rows(), fixture_cols());
    let board = solver.solve().unwrap();
    for (r, clue) in fixture_rows().iter().enumerate() {
        let candidates = proposals(board.cols, clue);
        assert!(candidates.contains(&row_cells(&board, r)));
    }
    for (c, clue) in fixture_cols().iter().enumerate() {
        let candidates = proposals(board.rows, clue);
        assert!(candidates.contains(&col_cells(&board, c)));
    }
}
