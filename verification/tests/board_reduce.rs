use nonogram::board::{boards_equal, contains_board, Board};
use nonogram::model::CellState;
use nonogram::reduce::{reduce_board, reduce_proposals};
use nonogram::solver::{counts_equal, line_counts, n_boards};

fn line(pattern: &str) -> Vec<CellState> {
    pattern
        .chars()
        .map(|ch| if ch == '#' { CellState::Filled } else { CellState::Empty })
        .collect()
}

#[test]
fn new_board_is_unknown() {
    let b = Board::new(2, 3);
    for r in 0..2 {
        for c in 0..3 {
            assert_eq!(*b.get_cell(r, c), CellState::Unknown);
        }
    }
}

#[test]
fn set_cell_changes_one_cell() {
    let mut b = Board::new(2, 2);
    b.set_cell(1, 0, CellState::Filled);
    assert_eq!(*b.get_cell(1, 0), CellState::Filled);
    assert_eq!(*b.get_cell(0, 0), CellState::Unknown);
    assert_eq!(*b.get_cell(0, 1), CellState::Unknown);
    assert_eq!(*b.get_cell(1, 1), CellState::Unknown);
}

#[test]
fn board_equality_and_lookup() {
    let mut a = Board::new(1, 2);
    a.set_cell(0, 0, CellState::Filled);
    let mut b = Board::new(1, 2);
    b.set_cell(0, 0, CellState::Filled);
    let mut c = Board::new(1, 2);
    c.set_cell(0, 1, CellState::Filled);
    assert!(boards_equal(&a, &b));
    assert!(!boards_equal(&a, &c));
    let list = vec![c, b];
    assert!(contains_board(&list, &a));
    let empty: Vec<Board> = Vec::new();
    assert!(!contains_board(&empty, &a));
}

#[test]
fn n_boards_zero_one_and_many() {
    let empty_line: Vec<Vec<Vec<CellState>>> = vec![vec![line("#")], vec![]];
    assert_eq!(n_boards(&empty_line), 0);
    let singletons = vec![vec![line("#.")], vec![line(".#")]];
    assert_eq!(n_boards(&singletons), 1);
    let many = vec![vec![line("#."), line(".#")], vec![line("##"), line(".."), line("#.")]];
    assert_eq!(n_boards(&many), 6);
    let none: Vec<Vec<Vec<CellState>>> = Vec::new();
    assert_eq!(n_boards(&none), 1);
}

#[test]
fn counts_track_lengths() {
    let sets = vec![vec![line("#."), line(".#")], vec![line("##")]];
    let counts = line_counts(&sets);
    assert_eq!(counts, vec![2, 1]);
    assert!(counts_equal(&counts, &vec![2, 1]));
    assert!(!counts_equal(&counts, &vec![2, 2]));
    assert!(!counts_equal(&counts, &vec![2]));
}

#[test]
fn reduce_board_filters_on_known_cells() {
    // Rows of a 2x2 grid: row 0 is surely filled at its first cell, row 1
    // is surely empty everywhere.
    let row_sets = vec![vec![line("#."), line("##")], vec![line("..")]];
    // Column candidates, one list per column, each proposal two cells tall.
    let col_sets = vec![
        vec![line("#."), line("..")],
        vec![line("#."), line(".."), line(".#")],
    ];
    let filtered = reduce_board(&row_sets, &col_sets, false);
    assert_eq!(filtered.len(), 2);
    // Column 0: the snapshot holds Filled at row 0 and Empty at row 1.
    assert_eq!(filtered[0], vec![line("#.")]);
    // Column 1: row 0 is undetermined, row 1 is surely Empty.
    assert_eq!(filtered[1], vec![line("#."), line("..")]);
    // Monotone: no candidate list grew.
    for (new_list, old_list) in filtered.iter().zip(col_sets.iter()) {
        assert!(new_list.len() <= old_list.len());
    }
}

#[test]
fn reduce_board_transposed_matches() {
    // The same filter with the axes swapped: authority lines are columns.
    let col_auth = vec![vec![line("#."), line("##")], vec![line("..")]];
    let row_check = vec![
        vec![line("#."), line("..")],
        vec![line("#."), line(".."), line(".#")],
    ];
    let filtered = reduce_board(&col_auth, &row_check, true);
    assert_eq!(filtered[0], vec![line("#.")]);
    assert_eq!(filtered[1], vec![line("#."), line("..")]);
}

#[test]
fn reduce_round_keeps_true_solution_lines() {
    // A solvable 2x2 puzzle: diagonal fill. Start from full candidate
    // sets; the solution's lines must survive the round.
    let rows = vec![vec![line("#."), line(".#")], vec![line("#."), line(".#")]];
    let cols = vec![vec![line("#."), line(".#")], vec![line("#."), line(".#")]];
    let (new_rows, new_cols) = reduce_proposals(rows.clone(), cols.clone());
    // The diagonal solution has row 0 = "#.", row 1 = ".#".
    assert!(new_rows[0].contains(&line("#.")));
    assert!(new_rows[1].contains(&line(".#")));
    assert!(new_cols[0].contains(&line("#.")));
    assert!(new_cols[1].contains(&line(".#")));
    for i in 0..2 {
        assert!(new_rows[i].len() <= rows[i].len());
        assert!(new_cols[i].len() <= cols[i].len());
    }
}
