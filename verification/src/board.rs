//! The rectangular grid of cells, stored row-major.

use vstd::prelude::*;

use crate::model::{CellState, Proposal, clone_cells};

verus! {

/// A rectangular grid of cells with fixed dimensions.
pub struct Board {
    pub cells: Vec<CellState>,
    pub rows: usize,
    pub cols: usize,
}

/// Two boards agree in dimensions and in every cell.
pub open spec fn board_eq(a: Board, b: Board) -> bool {
    a.rows == b.rows && a.cols == b.cols && a.cells@ == b.cells@
}

/// `bs` holds a board that agrees with `b` everywhere.
pub open spec fn has_board(bs: Seq<Board>, b: Board) -> bool {
    exists|i: int| 0 <= i < bs.len() && board_eq(bs[i], b)
}

/// A row-major index stays inside the grid's storage.
pub proof fn lemma_rc_index(rows: int, cols: int, r: int, c: int)
    requires
        0 <= r < rows,
        0 <= c < cols,
    ensures
        0 <= r * cols + c < rows * cols,
{
    assert(0 <= r * cols + c < rows * cols) by (nonlinear_arith)
        requires
            0 <= r < rows,
            0 <= c < cols,
    ;
}

/// Distinct cells have distinct row-major indices.
pub proof fn lemma_rc_distinct(cols: int, r1: int, c1: int, r2: int, c2: int)
    requires
        0 <= c1 < cols,
        0 <= c2 < cols,
        0 <= r1,
        0 <= r2,
        r1 != r2 || c1 != c2,
    ensures
        r1 * cols + c1 != r2 * cols + c2,
{
    assert(r1 * cols + c1 != r2 * cols + c2) by (nonlinear_arith)
        requires
            0 <= c1 < cols,
            0 <= c2 < cols,
            0 <= r1,
            0 <= r2,
            r1 != r2 || c1 != c2,
    ;
}

impl Board {
    /// The storage matches the stated dimensions.
    pub open spec fn wf(self) -> bool {
        self.cells@.len() == self.rows * self.cols
    }

    /// The cell at `(row, col)`.
    pub open spec fn cell(self, row: int, col: int) -> CellState {
        self.cells@[row * self.cols + col]
    }

    /// The cells of row `row`, left to right.
    pub open spec fn row_seq(self, row: int) -> Seq<CellState> {
        Seq::new(self.cols as nat, |c: int| self.cell(row, c))
    }

    /// The cells of column `col`, top to bottom.
    pub open spec fn col_seq(self, col: int) -> Seq<CellState> {
        Seq::new(self.rows as nat, |r: int| self.cell(r, col))
    }

    /// A fresh board of the given dimensions, every cell `Unknown`.
    pub fn new(rows: usize, cols: usize) -> (b: Board)
        requires
            rows * cols <= usize::MAX,
        ensures
            b.wf(),
            b.rows == rows,
            b.cols == cols,
            forall|r: int, c: int|
                0 <= r < rows && 0 <= c < cols ==> b.cell(r, c) == CellState::Unknown,
    {
        let total = rows * cols;
        let mut cells: Vec<CellState> = Vec::new();
        while cells.len() < total
            invariant
                cells@.len() <= total,
                forall|i: int| 0 <= i < cells@.len() ==> cells@[i] == CellState::Unknown,
            decreases total - cells@.len(),
        {
            cells.push(CellState::Unknown);
        }
        let b = Board { cells, rows, cols };
        proof {
            assert forall|r: int, c: int| 0 <= r < rows && 0 <= c < cols implies b.cell(r, c)
                == CellState::Unknown by {
                lemma_rc_index(rows as int, cols as int, r, c);
            }
        }
        b
    }

    /// Reads the cell at `(row, col)`.
    pub fn get_cell(&self, row: usize, col: usize) -> (c: &CellState)
        requires
            self.wf(),
            row < self.rows,
            col < self.cols,
        ensures
            *c == self.cell(row as int, col as int),
    {
        proof {
            assert(self.cells@.len() <= usize::MAX) by {
                broadcast use vstd::std_specs::vec::axiom_spec_len;

                assert(vstd::std_specs::vec::spec_vec_len(&self.cells) == self.cells@.len());
            }
            lemma_rc_index(self.rows as int, self.cols as int, row as int, col as int);
        }
        let idx = row * self.cols + col;
        &self.cells[idx]
    }

    /// Writes the cell at `(row, col)`, leaving every other cell alone.
    pub fn set_cell(&mut self, row: usize, col: usize, cell: CellState)
        requires
            old(self).wf(),
            row < old(self).rows,
            col < old(self).cols,
        ensures
            final(self).wf(),
            final(self).rows == old(self).rows,
            final(self).cols == old(self).cols,
            final(self).cell(row as int, col as int) == cell,
            forall|r2: int, c2: int|
                0 <= r2 < old(self).rows && 0 <= c2 < old(self).cols && !(r2 == row && c2 == col)
                    ==> final(self).cell(r2, c2) == old(self).cell(r2, c2),
    {
        proof {
            assert(self.cells@.len() <= usize::MAX) by {
                broadcast use vstd::std_specs::vec::axiom_spec_len;

                assert(vstd::std_specs::vec::spec_vec_len(&self.cells) == self.cells@.len());
            }
            lemma_rc_index(self.rows as int, self.cols as int, row as int, col as int);
        }
        let idx = row * self.cols + col;
        self.cells[idx] = cell;
        proof {
            assert forall|r2: int, c2: int|
                0 <= r2 < self.rows && 0 <= c2 < self.cols && !(r2 == row && c2 == col) implies self
                .cell(r2, c2) == old(self).cell(r2, c2) by {
                lemma_rc_distinct(self.cols as int, r2, c2, row as int, col as int);
                lemma_rc_index(self.rows as int, self.cols as int, r2, c2);
            }
        }
    }

    /// Writes a whole row from a proposal, leaving the other rows alone.
    pub fn write_row(&mut self, row: usize, p: &Proposal)
        requires
            old(self).wf(),
            row < old(self).rows,
            p@.len() == old(self).cols,
        ensures
            final(self).wf(),
            final(self).rows == old(self).rows,
            final(self).cols == old(self).cols,
            forall|c: int| 0 <= c < old(self).cols ==> final(self).cell(row as int, c) == p@[c],
            forall|r2: int, c2: int|
                0 <= r2 < old(self).rows && 0 <= c2 < old(self).cols && r2 != row
                    ==> final(self).cell(r2, c2) == old(self).cell(r2, c2),
    {
        let mut c: usize = 0;
        while c < p.len()
            invariant
                c <= p@.len(),
                self.wf(),
                self.rows == old(self).rows,
                self.cols == old(self).cols,
                row < self.rows,
                p@.len() == self.cols,
                forall|cc: int| 0 <= cc < c ==> self.cell(row as int, cc) == p@[cc],
                forall|r2: int, c2: int|
                    0 <= r2 < self.rows && 0 <= c2 < self.cols && r2 != row ==> self.cell(r2, c2)
                        == old(self).cell(r2, c2),
            decreases p@.len() - c,
        {
            let cell = p[c];
            self.set_cell(row, c, cell);
            c = c + 1;
        }
    }

    /// Writes a whole column from a proposal, leaving the other columns
    /// alone.
    pub fn write_col(&mut self, col: usize, p: &Proposal)
        requires
            old(self).wf(),
            col < old(self).cols,
            p@.len() == old(self).rows,
        ensures
            final(self).wf(),
            final(self).rows == old(self).rows,
            final(self).cols == old(self).cols,
            forall|r: int| 0 <= r < old(self).rows ==> final(self).cell(r, col as int) == p@[r],
            forall|r2: int, c2: int|
                0 <= r2 < old(self).rows && 0 <= c2 < old(self).cols && c2 != col
                    ==> final(self).cell(r2, c2) == old(self).cell(r2, c2),
    {
        let mut r: usize = 0;
        while r < p.len()
            invariant
                r <= p@.len(),
                self.wf(),
                self.rows == old(self).rows,
                self.cols == old(self).cols,
                col < self.cols,
                p@.len() == self.rows,
                forall|rr: int| 0 <= rr < r ==> self.cell(rr, col as int) == p@[rr],
                forall|r2: int, c2: int|
                    0 <= r2 < self.rows && 0 <= c2 < self.cols && c2 != col ==> self.cell(r2, c2)
                        == old(self).cell(r2, c2),
            decreases p@.len() - r,
        {
            let cell = p[r];
            self.set_cell(r, col, cell);
            r = r + 1;
        }
    }
}

impl Clone for Board {
    /// An exact copy: same dimensions, same cells.
    fn clone(&self) -> (r: Board)
        ensures
            board_eq(r, *self),
    {
        Board { cells: clone_cells(&self.cells), rows: self.rows, cols: self.cols }
    }
}

/// Decides whether two boards agree in dimensions and in every cell.
pub fn boards_equal(a: &Board, b: &Board) -> (r: bool)
    ensures
        r == board_eq(*a, *b),
{
    if a.rows != b.rows || a.cols != b.cols || a.cells.len() != b.cells.len() {
        return false;
    }
    let mut i: usize = 0;
    while i < a.cells.len()
        invariant
            i <= a.cells@.len(),
            a.cells@.len() == b.cells@.len(),
            forall|k: int| 0 <= k < i ==> a.cells@[k] == b.cells@[k],
        decreases a.cells@.len() - i,
    {
        if a.cells[i] != b.cells[i] {
            return false;
        }
        i = i + 1;
    }
    proof {
        assert(a.cells@ =~= b.cells@);
    }
    true
}

/// Decides whether a list of boards holds one that agrees with `b`.
pub fn contains_board(boards: &Vec<Board>, b: &Board) -> (r: bool)
    ensures
        r == has_board(boards@, *b),
{
    let mut i: usize = 0;
    while i < boards.len()
        invariant
            i <= boards@.len(),
            forall|k: int| 0 <= k < i ==> !board_eq(boards@[k], *b),
        decreases boards@.len() - i,
    {
        if boards_equal(&boards[i], b) {
            return true;
        }
        i = i + 1;
    }
    false
}

} // verus!
