use nonogram::board::{contains_board, Board};
use nonogram::model::CellState;
use nonogram::solver::BoardSolver;

fn line(pattern: &str) -> Vec<CellState> {
    pattern
        .chars()
        .map(|ch| if ch == '#' { CellState::Filled } else { CellState::Empty })
        .collect()
}

fn board_from_rows(rows: &[&str]) -> Board {
    let mut b = Board::new(rows.len(), rows[0].len());
    for (r, pattern) in rows.iter().enumerate() {
        b.write_row(r, &line(pattern));
    }
    b
}

#[test]
fn write_row_and_col_fill_lines() {
    let mut b = Board::new(2, 3);
    b.write_row(0, &line("#.#"));
    assert_eq!(*b.get_cell(0, 0), CellState::Filled);
    assert_eq!(*b.get_cell(0, 1), CellState::Empty);
    assert_eq!(*b.get_cell(0, 2), CellState::Filled);
    assert_eq!(*b.get_cell(1, 1), CellState::Unknown);
    b.write_col(1, &line("##"));
    assert_eq!(*b.get_cell(0, 1), CellState::Filled);
    assert_eq!(*b.get_cell(1, 1), CellState::Filled);
    assert_eq!(*b.get_cell(0, 0), CellState::Filled);
}

#[test]
fn row_assembly_expands_every_choice() {
    let solver = BoardSolver::from_settings(Vec::new(), Vec::new());
    let sets = vec![vec![line("#."), line(".#")], vec![line("##")]];
    let boards = solver.generate_row_boards(2, 2, &sets);
    assert_eq!(boards.len(), 2);
    assert!(contains_board(&boards, &board_from_rows(&["#.", "##"])));
    assert!(contains_board(&boards, &board_from_rows(&[".#", "##"])));
}

#[test]
fn col_assembly_expands_every_choice() {
    let solver = BoardSolver::from_settings(Vec::new(), Vec::new());
    let sets = vec![vec![line("#."), line(".#")], vec![line("..")]];
    let boards = solver.generate_col_boards(2, 2, &sets);
    assert_eq!(boards.len(), 2);
    assert!(contains_board(&boards, &board_from_rows(&["#.", ".."])));
    assert!(contains_board(&boards, &board_from_rows(&["..", "#."])));
}

#[test]
fn assembly_of_empty_axis_is_one_empty_board() {
    let solver = BoardSolver::from_settings(Vec::new(), Vec::new());
    let sets: Vec<Vec<Vec<CellState>>> = Vec::new();
    let boards = solver.generate_row_boards(0, 0, &sets);
    assert_eq!(boards.len(), 1);
    assert_eq!(boards[0].rows, 0);
    assert_eq!(boards[0].cols, 0);
}
