//! The solver: initial candidate generation, reduction to a fixed point,
//! and brute-force intersection of the two axis-consistent grid sets.

use vstd::prelude::*;

use crate::board::{Board, board_eq, contains_board, has_board};
use crate::generate::{all_proposals, setting_fits};
use crate::model::{
    CellState, Proposal, Setting, has_line, lemma_line_ok_no_unknown, line_ok, min_span,
    valid_setting,
};
use crate::reduce::{
    fits_known, lemma_solution_col_fits, lemma_solution_row_fits, reduce_proposals,
};
use vstd::arithmetic::div_mod::{
    lemma_fundamental_div_mod, lemma_remainder_lower, lemma_remainder_upper,
};
use vstd::arithmetic::mul::lemma_mul_inequality;

verus! {

/// Why a solve attempt returned no grid.
#[derive(Clone, Copy, PartialEq, Eq, Structural, Debug)]
pub enum SolveError {
    /// Some clue sequence cannot fit on its line at all: a structural
    /// input error, found before any solving is attempted.
    OverConstrained,
    /// The row and column clues admit no common grid.
    Unsolvable,
}

/// The solver's input: one clue sequence per row and one per column.
pub struct BoardSolver {
    pub row_settings: Vec<Setting>,
    pub col_settings: Vec<Setting>,
}

/// Every row candidate list holds the matching row of `b`.
pub open spec fn covers_rows(sets: Seq<Vec<Proposal>>, b: Board) -> bool {
    forall|i: int| 0 <= i < sets.len() ==> has_line((#[trigger] sets[i])@, b.row_seq(i))
}

/// Every column candidate list holds the matching column of `b`.
pub open spec fn covers_cols(sets: Seq<Vec<Proposal>>, b: Board) -> bool {
    forall|j: int| 0 <= j < sets.len() ==> has_line((#[trigger] sets[j])@, b.col_seq(j))
}

/// Boards that agree cellwise have the same rows and columns.
pub proof fn lemma_board_eq_lines(a: Board, b: Board)
    requires
        board_eq(a, b),
    ensures
        forall|r: int| #[trigger] a.row_seq(r) == b.row_seq(r),
        forall|c: int| #[trigger] a.col_seq(c) == b.col_seq(c),
{
    assert forall|r: int| #[trigger] a.row_seq(r) == b.row_seq(r) by {
        assert(a.row_seq(r) =~= b.row_seq(r));
    }
    assert forall|c: int| #[trigger] a.col_seq(c) == b.col_seq(c) by {
        assert(a.col_seq(c) =~= b.col_seq(c));
    }
}

/// Two well-formed boards of the same dimensions that agree on every cell
/// agree on the whole storage.
pub proof fn lemma_board_eq_from_cells(a: Board, b: Board)
    requires
        a.wf(),
        b.wf(),
        a.rows == b.rows,
        a.cols == b.cols,
        forall|r: int, c: int|
            0 <= r < a.rows && 0 <= c < a.cols ==> a.cell(r, c) == #[trigger] b.cell(r, c),
    ensures
        board_eq(a, b),
{
    let rows = a.rows as int;
    let cols = a.cols as int;
    assert forall|idx: int| 0 <= idx < a.cells@.len() implies a.cells@[idx] == b.cells@[idx] by {
        if cols > 0 {
            let r = idx / cols;
            let c = idx % cols;
            lemma_fundamental_div_mod(idx, cols);
            lemma_remainder_lower(idx, cols);
            lemma_remainder_upper(idx, cols);
            assert(idx == cols * r + c);
            assert(0 <= c < cols);
            assert(r >= 0) by {
                if r < 0 {
                    assert(cols * r <= cols * (-1)) by (nonlinear_arith)
                        requires
                            cols > 0,
                            r <= -1,
                    ;
                }
            }
            assert(r < rows) by {
                if r >= rows {
                    lemma_mul_inequality(rows, r, cols);
                    assert(rows * cols <= r * cols);
                    assert(cols * r == r * cols) by (nonlinear_arith);
                }
            }
            assert(a.cell(r, c) == a.cells@[r * cols + c]);
            assert(b.cell(r, c) == b.cells@[r * cols + c]);
            assert(r * cols + c == idx) by (nonlinear_arith)
                requires
                    idx == cols * r + c,
            ;
        } else {
            assert(a.rows * a.cols == 0) by (nonlinear_arith)
                requires
                    a.cols == 0,
            ;
        }
    }
    assert(a.cells@ =~= b.cells@);
}

/// The number of full line assignments the candidate sets admit, saturated
/// at the machine's largest count: the product of the per-line counts.
pub fn n_boards(all_proposals: &Vec<Vec<Proposal>>) -> (r: usize)
    ensures
        (r == 0) <==> (exists|i: int|
            0 <= i < all_proposals@.len() && (#[trigger] all_proposals@[i])@.len() == 0),
        (r == 1) <==> (forall|i: int|
            0 <= i < all_proposals@.len() ==> (#[trigger] all_proposals@[i])@.len() == 1),
{
    let mut tot: usize = 1;
    let mut i: usize = 0;
    while i < all_proposals.len()
        invariant
            0 <= i <= all_proposals@.len(),
            (tot == 0) <==> (exists|ii: int|
                0 <= ii < i && (#[trigger] all_proposals@[ii])@.len() == 0),
            (tot == 1) <==> (forall|ii: int|
                0 <= ii < i ==> (#[trigger] all_proposals@[ii])@.len() == 1),
        decreases all_proposals@.len() - i,
    {
        let len = all_proposals[i].len();
        if len == 0 {
            tot = 0;
        } else if tot > usize::MAX / len {
            proof {
                assert(usize::MAX as int / len as int >= 1) by {
                    assert(len as int >= 1);
                    assert(usize::MAX as int / len as int >= usize::MAX as int / usize::MAX as int)
                        by {
                        vstd::arithmetic::div_mod::lemma_div_is_ordered_by_denominator(
                            usize::MAX as int,
                            len as int,
                            usize::MAX as int,
                        );
                    }
                }
            }
            tot = usize::MAX;
        } else {
            proof {
                lemma_fundamental_div_mod(usize::MAX as int, len as int);
                lemma_remainder_lower(usize::MAX as int, len as int);
                lemma_mul_inequality(tot as int, usize::MAX as int / len as int, len as int);
                assert((usize::MAX as int / len as int) * (len as int) == (len as int) * (
                usize::MAX as int / len as int)) by (nonlinear_arith);
                assert(tot * len <= usize::MAX);
                assert(tot * len == 0 <==> (tot == 0 || len == 0)) by (nonlinear_arith);
                assert(tot * len == 1 <==> (tot == 1 && len == 1)) by (nonlinear_arith);
            }
            tot = tot * len;
        }
        i = i + 1;
    }
    tot
}

/// The length of each candidate list, in order.
pub fn line_counts(sets: &Vec<Vec<Proposal>>) -> (r: Vec<usize>)
    ensures
        r@.len() == sets@.len(),
        forall|i: int| 0 <= i < sets@.len() ==> r@[i] == (#[trigger] sets@[i])@.len(),
{
    let mut r: Vec<usize> = Vec::new();
    let mut i: usize = 0;
    while i < sets.len()
        invariant
            0 <= i <= sets@.len(),
            r@.len() == i,
            forall|ii: int| 0 <= ii < i ==> r@[ii] == (#[trigger] sets@[ii])@.len(),
        decreases sets@.len() - i,
    {
        let n = sets[i].len();
        r.push(n);
        i = i + 1;
    }
    r
}

/// Decides whether two count vectors are equal.
pub fn counts_equal(a: &Vec<usize>, b: &Vec<usize>) -> (r: bool)
    ensures
        r == (a@ == b@),
{
    if a.len() != b.len() {
        return false;
    }
    let mut i: usize = 0;
    while i < a.len()
        invariant
            0 <= i <= a@.len(),
            a@.len() == b@.len(),
            forall|k: int| 0 <= k < i ==> a@[k] == b@[k],
        decreases a@.len() - i,
    {
        if a[i] != b[i] {
            return false;
        }
        i = i + 1;
    }
    proof {
        assert(a@ =~= b@);
    }
    true
}

/// The total number of candidates over all lines of one axis.
spec fn total_len(sets: Seq<Vec<Proposal>>) -> int
    decreases sets.len(),
{
    if sets.len() == 0 {
        0
    } else {
        sets[0]@.len() + total_len(sets.skip(1))
    }
}

/// Pointwise-smaller candidate sets have a smaller total, strictly so
/// where some line shrank strictly.
proof fn lemma_total_len_le(a: Seq<Vec<Proposal>>, b: Seq<Vec<Proposal>>)
    requires
        a.len() == b.len(),
        forall|i: int| 0 <= i < a.len() ==> (#[trigger] a[i])@.len() <= b[i]@.len(),
    ensures
        total_len(a) <= total_len(b),
        (exists|i: int| 0 <= i < a.len() && (#[trigger] a[i])@.len() < b[i]@.len()) ==> total_len(
            a,
        ) < total_len(b),
    decreases a.len(),
{
    if a.len() > 0 {
        assert(forall|i: int| 0 <= i < a.skip(1).len() ==> #[trigger] a.skip(1)[i] == a[i + 1]);
        assert(forall|i: int| 0 <= i < b.skip(1).len() ==> #[trigger] b.skip(1)[i] == b[i + 1]);
        lemma_total_len_le(a.skip(1), b.skip(1));
        if exists|i: int| 0 <= i < a.len() && (#[trigger] a[i])@.len() < b[i]@.len() {
            let i = choose|i: int| 0 <= i < a.len() && (#[trigger] a[i])@.len() < b[i]@.len();
            if i > 0 {
                assert(a.skip(1)[i - 1] == a[i]);
                assert(a.skip(1)[i - 1]@.len() < b.skip(1)[i - 1]@.len());
            }
        }
    }
}

/// A total over nonnegative parts is nonnegative.
proof fn lemma_total_len_nonneg(sets: Seq<Vec<Proposal>>)
    ensures
        total_len(sets) >= 0,
    decreases sets.len(),
{
    if sets.len() > 0 {
        lemma_total_len_nonneg(sets.skip(1));
    }
}

/// `b2` extends `base` by choosing, for each line index `k` from `from`
/// up, one proposal of `props[k]` as row `k`; every cell outside those
/// rows is unchanged.
pub open spec fn row_extension(b2: Board, base: Board, props: Seq<Vec<Proposal>>, from: int) -> bool {
    &&& b2.wf()
    &&& b2.rows == base.rows
    &&& b2.cols == base.cols
    &&& forall|k: int| from <= k < props.len() ==> has_line((#[trigger] props[k])@, b2.row_seq(k))
    &&& forall|r: int, c: int|
        0 <= r < b2.rows && 0 <= c < b2.cols && !(from <= r < props.len()) ==> #[trigger] b2.cell(
            r,
            c,
        ) == base.cell(r, c)
}

/// As `row_extension`, with the chosen proposals written as columns.
pub open spec fn col_extension(b2: Board, base: Board, props: Seq<Vec<Proposal>>, from: int) -> bool {
    &&& b2.wf()
    &&& b2.rows == base.rows
    &&& b2.cols == base.cols
    &&& forall|k: int| from <= k < props.len() ==> has_line((#[trigger] props[k])@, b2.col_seq(k))
    &&& forall|r: int, c: int|
        0 <= r < b2.rows && 0 <= c < b2.cols && !(from <= c < props.len()) ==> #[trigger] b2.cell(
            r,
            c,
        ) == base.cell(r, c)
}

impl BoardSolver {
    /// Some clue sequence cannot fit on its line at all.
    pub open spec fn over_constrained(self) -> bool {
        ||| exists|i: int|
            0 <= i < self.row_settings@.len() && min_span((#[trigger] self.row_settings@[i])@)
                > self.col_settings@.len()
        ||| exists|j: int|
            0 <= j < self.col_settings@.len() && min_span((#[trigger] self.col_settings@[j])@)
                > self.row_settings@.len()
    }

    /// The board realises every row clue and every column clue.
    pub open spec fn solves(self, b: Board) -> bool {
        &&& b.wf()
        &&& b.rows == self.row_settings@.len()
        &&& b.cols == self.col_settings@.len()
        &&& forall|i: int|
            0 <= i < self.row_settings@.len() ==> line_ok(
                b.row_seq(i),
                (#[trigger] self.row_settings@[i])@,
            )
        &&& forall|j: int|
            0 <= j < self.col_settings@.len() ==> line_ok(
                b.col_seq(j),
                (#[trigger] self.col_settings@[j])@,
            )
    }

    /// Every row candidate is a legal row filling of the right length.
    pub open spec fn sets_sound_rows(self, sets: Seq<Vec<Proposal>>, cols: int) -> bool {
        &&& sets.len() == self.row_settings@.len()
        &&& forall|i: int, k: int|
            0 <= i < sets.len() && 0 <= k < sets[i]@.len() ==> (#[trigger] sets[i]@[k])@.len()
                == cols && line_ok(sets[i]@[k]@, self.row_settings@[i]@)
    }

    /// Every column candidate is a legal column filling of the right
    /// length.
    pub open spec fn sets_sound_cols(self, sets: Seq<Vec<Proposal>>, rows: int) -> bool {
        &&& sets.len() == self.col_settings@.len()
        &&& forall|j: int, k: int|
            0 <= j < sets.len() && 0 <= k < sets[j]@.len() ==> (#[trigger] sets[j]@[k])@.len()
                == rows && line_ok(sets[j]@[k]@, self.col_settings@[j]@)
    }

    /// A board that realises every clue is fully determined: no cell of it
    /// is `Unknown`.
    pub proof fn lemma_solves_determined(self, b: Board)
        requires
            self.solves(b),
        ensures
            forall|r: int, c: int|
                0 <= r < b.rows && 0 <= c < b.cols ==> #[trigger] b.cell(r, c)
                    != CellState::Unknown,
    {
        assert forall|r: int, c: int|
            0 <= r < b.rows && 0 <= c < b.cols implies #[trigger] b.cell(r, c)
            != CellState::Unknown by {
            lemma_line_ok_no_unknown(b.row_seq(r), self.row_settings@[r]@);
            assert(b.row_seq(r)[c] == b.cell(r, c));
        }
    }

    /// Reducer safety, carried through the whole solve: the candidate sets
    /// still hold every line of every solving board.
    pub open spec fn covers_solutions(
        self,
        rsets: Seq<Vec<Proposal>>,
        csets: Seq<Vec<Proposal>>,
    ) -> bool {
        forall|b2: Board| #![trigger self.solves(b2)]
            self.solves(b2) ==> covers_rows(rsets, b2) && covers_cols(csets, b2)
    }

    /// Packs the two clue lists into a solver.
    pub fn from_settings(row_settings: Vec<Setting>, col_settings: Vec<Setting>) -> (r: Self)
        ensures
            r.row_settings == row_settings,
            r.col_settings == col_settings,
    {
        Self { row_settings, col_settings }
    }

    /// Appends to `boards` every board that extends `current_board` by one
    /// choice of proposal per row from `row` up — all of them, and nothing
    /// else.
    pub fn prop_boards_rows(
        &self,
        boards: &mut Vec<Board>,
        current_board: Board,
        props: &Vec<Vec<Proposal>>,
        row: usize,
    )
        requires
            current_board.wf(),
            props@.len() == current_board.rows,
            row <= props@.len(),
            forall|k: int, m: int|
                0 <= k < props@.len() && 0 <= m < props@[k]@.len() ==> (
                #[trigger] props@[k]@[m])@.len() == current_board.cols,
        ensures
            final(boards)@.len() >= old(boards)@.len(),
            forall|k: int| 0 <= k < old(boards)@.len() ==> final(boards)@[k] == old(boards)@[k],
            forall|k: int|
                old(boards)@.len() <= k < final(boards)@.len() ==> row_extension(
                    #[trigger] final(boards)@[k],
                    current_board,
                    props@,
                    row as int,
                ),
            forall|b2: Board| #![trigger row_extension(b2, current_board, props@, row as int)]
                row_extension(b2, current_board, props@, row as int) ==> has_board(
                    final(boards)@,
                    b2,
                ),
        decreases props@.len() - row,
    {
        if row == props.len() {
            let ghost cb = current_board;
            boards.push(current_board);
            proof {
                assert(boards@[boards@.len() - 1] == cb);
                assert(row_extension(cb, cb, props@, row as int));
                assert forall|b2: Board|
                    row_extension(b2, cb, props@, row as int) implies has_board(boards@, b2) by {
                    lemma_board_eq_from_cells(cb, b2);
                    assert(board_eq(boards@[boards@.len() - 1], b2));
                }
            }
            return;
        }
        let line = &props[row];
        let ghost old_boards = boards@;
        let mut m: usize = 0;
        while m < line.len()
            invariant
                0 <= m <= line@.len(),
                line@ == props@[row as int]@,
                row < props@.len(),
                current_board.wf(),
                props@.len() == current_board.rows,
                forall|k: int, mm: int|
                    0 <= k < props@.len() && 0 <= mm < props@[k]@.len() ==> (
                    #[trigger] props@[k]@[mm])@.len() == current_board.cols,
                boards@.len() >= old_boards.len(),
                forall|k: int| 0 <= k < old_boards.len() ==> boards@[k] == old_boards[k],
                forall|k: int|
                    old_boards.len() <= k < boards@.len() ==> row_extension(
                        #[trigger] boards@[k],
                        current_board,
                        props@,
                        row as int,
                    ),
                forall|b2: Board| #![trigger row_extension(b2, current_board, props@, row as int)]
                    row_extension(b2, current_board, props@, row as int) && (exists|mm: int|
                        0 <= mm < m && line@[mm]@ == b2.row_seq(row as int)) ==> has_board(
                        boards@,
                        b2,
                    ),
            decreases line@.len() - m,
        {
            let p = &line[m];
            let mut next_board = current_board.clone();
            proof {
                assert(next_board.wf());
            }
            next_board.write_row(row, p);
            let ghost nb = next_board;
            let ghost before_rec = boards@;
            self.prop_boards_rows(boards, next_board, props, row + 1);
            proof {
                // Boards appended by the recursion extend `current_board`.
                assert forall|k: int|
                    before_rec.len() <= k < boards@.len() implies row_extension(
                    #[trigger] boards@[k],
                    current_board,
                    props@,
                    row as int,
                ) by {
                    let b2 = boards@[k];
                    assert(row_extension(b2, nb, props@, row + 1));
                    assert(b2.row_seq(row as int) =~= p@) by {
                        assert forall|c: int| 0 <= c < b2.cols implies b2.row_seq(row as int)[c]
                            == p@[c] by {
                            assert(b2.cell(row as int, c) == nb.cell(row as int, c));
                        }
                    }
                    assert(has_line(props@[row as int]@, b2.row_seq(row as int))) by {
                        assert(line@[m as int]@ == b2.row_seq(row as int));
                    }
                }
                // Completeness: one more choice of this row's proposal is
                // now covered.
                assert forall|b2: Board|
                    row_extension(b2, current_board, props@, row as int) && (exists|mm: int|
                        0 <= mm < m + 1 && line@[mm]@ == b2.row_seq(row as int)) implies has_board(
                    boards@,
                    b2,
                ) by {
                    let mm = choose|mm: int|
                        0 <= mm < m + 1 && line@[mm]@ == b2.row_seq(row as int);
                    if mm < m {
                        let w = choose|w: int|
                            0 <= w < before_rec.len() && board_eq(before_rec[w], b2);
                        assert(board_eq(boards@[w], b2));
                    } else {
                        assert(row_extension(b2, nb, props@, row + 1)) by {
                            assert forall|r2: int, c2: int|
                                0 <= r2 < b2.rows && 0 <= c2 < b2.cols && !(row + 1 <= r2
                                    < props@.len()) implies #[trigger] b2.cell(r2, c2) == nb.cell(
                                r2,
                                c2,
                            ) by {
                                if r2 == row {
                                    assert(b2.row_seq(row as int)[c2] == b2.cell(row as int, c2));
                                    assert(nb.cell(row as int, c2) == p@[c2]);
                                } else {
                                    assert(b2.cell(r2, c2) == current_board.cell(r2, c2));
                                    assert(nb.cell(r2, c2) == current_board.cell(r2, c2));
                                }
                            }
                        }
                        assert(has_board(boards@, b2));
                    }
                }
            }
            m = m + 1;
        }
        proof {
            assert forall|b2: Board|
                row_extension(b2, current_board, props@, row as int) implies has_board(
                boards@,
                b2,
            ) by {
                assert(has_line(props@[row as int]@, b2.row_seq(row as int)));
                let mm = choose|mm: int|
                    0 <= mm < line@.len() && (#[trigger] line@[mm])@ == b2.row_seq(row as int);
            }
        }
    }

    /// Appends to `boards` every board that extends `current_board` by one
    /// choice of proposal per column from `col` up — all of them, and
    /// nothing else.
    pub fn prop_boards_cols(
        &self,
        boards: &mut Vec<Board>,
        current_board: Board,
        props: &Vec<Vec<Proposal>>,
        col: usize,
    )
        requires
            current_board.wf(),
            props@.len() == current_board.cols,
            col <= props@.len(),
            forall|k: int, m: int|
                0 <= k < props@.len() && 0 <= m < props@[k]@.len() ==> (
                #[trigger] props@[k]@[m])@.len() == current_board.rows,
        ensures
            final(boards)@.len() >= old(boards)@.len(),
            forall|k: int| 0 <= k < old(boards)@.len() ==> final(boards)@[k] == old(boards)@[k],
            forall|k: int|
                old(boards)@.len() <= k < final(boards)@.len() ==> col_extension(
                    #[trigger] final(boards)@[k],
                    current_board,
                    props@,
                    col as int,
                ),
            forall|b2: Board| #![trigger col_extension(b2, current_board, props@, col as int)]
                col_extension(b2, current_board, props@, col as int) ==> has_board(
                    final(boards)@,
                    b2,
                ),
        decreases props@.len() - col,
    {
        if col == props.len() {
            let ghost cb = current_board;
            boards.push(current_board);
            proof {
                assert(boards@[boards@.len() - 1] == cb);
                assert(col_extension(cb, cb, props@, col as int));
                assert forall|b2: Board|
                    col_extension(b2, cb, props@, col as int) implies has_board(boards@, b2) by {
                    lemma_board_eq_from_cells(cb, b2);
                    assert(board_eq(boards@[boards@.len() - 1], b2));
                }
            }
            return;
        }
        let line = &props[col];
        let ghost old_boards = boards@;
        let mut m: usize = 0;
        while m < line.len()
            invariant
                0 <= m <= line@.len(),
                line@ == props@[col as int]@,
                col < props@.len(),
                current_board.wf(),
                props@.len() == current_board.cols,
                forall|k: int, mm: int|
                    0 <= k < props@.len() && 0 <= mm < props@[k]@.len() ==> (
                    #[trigger] props@[k]@[mm])@.len() == current_board.rows,
                boards@.len() >= old_boards.len(),
                forall|k: int| 0 <= k < old_boards.len() ==> boards@[k] == old_boards[k],
                forall|k: int|
                    old_boards.len() <= k < boards@.len() ==> col_extension(
                        #[trigger] boards@[k],
                        current_board,
                        props@,
                        col as int,
                    ),
                forall|b2: Board| #![trigger col_extension(b2, current_board, props@, col as int)]
                    col_extension(b2, current_board, props@, col as int) && (exists|mm: int|
                        0 <= mm < m && line@[mm]@ == b2.col_seq(col as int)) ==> has_board(
                        boards@,
                        b2,
                    ),
            decreases line@.len() - m,
        {
            let p = &line[m];
            let mut next_board = current_board.clone();
            proof {
                assert(next_board.wf());
            }
            next_board.write_col(col, p);
            let ghost nb = next_board;
            let ghost before_rec = boards@;
            self.prop_boards_cols(boards, next_board, props, col + 1);
            proof {
                assert forall|k: int|
                    before_rec.len() <= k < boards@.len() implies col_extension(
                    #[trigger] boards@[k],
                    current_board,
                    props@,
                    col as int,
                ) by {
                    let b2 = boards@[k];
                    assert(col_extension(b2, nb, props@, col + 1));
                    assert(b2.col_seq(col as int) =~= p@) by {
                        assert forall|r2: int| 0 <= r2 < b2.rows implies b2.col_seq(col as int)[r2]
                            == p@[r2] by {
                            assert(b2.cell(r2, col as int) == nb.cell(r2, col as int));
                        }
                    }
                    assert(has_line(props@[col as int]@, b2.col_seq(col as int))) by {
                        assert(line@[m as int]@ == b2.col_seq(col as int));
                    }
                }
                assert forall|b2: Board|
                    col_extension(b2, current_board, props@, col as int) && (exists|mm: int|
                        0 <= mm < m + 1 && line@[mm]@ == b2.col_seq(col as int)) implies has_board(
                    boards@,
                    b2,
                ) by {
                    let mm = choose|mm: int|
                        0 <= mm < m + 1 && line@[mm]@ == b2.col_seq(col as int);
                    if mm < m {
                        let w = choose|w: int|
                            0 <= w < before_rec.len() && board_eq(before_rec[w], b2);
                        assert(board_eq(boards@[w], b2));
                    } else {
                        assert(col_extension(b2, nb, props@, col + 1)) by {
                            assert forall|r2: int, c2: int|
                                0 <= r2 < b2.rows && 0 <= c2 < b2.cols && !(col + 1 <= c2
                                    < props@.len()) implies #[trigger] b2.cell(r2, c2) == nb.cell(
                                r2,
                                c2,
                            ) by {
                                if c2 == col {
                                    assert(b2.col_seq(col as int)[r2] == b2.cell(r2, col as int));
                                    assert(nb.cell(r2, col as int) == p@[r2]);
                                } else {
                                    assert(b2.cell(r2, c2) == current_board.cell(r2, c2));
                                    assert(nb.cell(r2, c2) == current_board.cell(r2, c2));
                                }
                            }
                        }
                        assert(has_board(boards@, b2));
                    }
                }
            }
            m = m + 1;
        }
        proof {
            assert forall|b2: Board|
                col_extension(b2, current_board, props@, col as int) implies has_board(
                boards@,
                b2,
            ) by {
                assert(has_line(props@[col as int]@, b2.col_seq(col as int)));
                let mm = choose|mm: int|
                    0 <= mm < line@.len() && (#[trigger] line@[mm])@ == b2.col_seq(col as int);
            }
        }
    }

    /// The set of every full grid obtainable by choosing one candidate per
    /// row and writing the rows into an empty board.
    pub fn generate_row_boards(
        &self,
        rows: usize,
        cols: usize,
        row_proposals: &Vec<Vec<Proposal>>,
    ) -> (r: Vec<Board>)
        requires
            rows * cols <= usize::MAX,
            row_proposals@.len() == rows,
            forall|k: int, m: int|
                0 <= k < row_proposals@.len() && 0 <= m < row_proposals@[k]@.len() ==> (
                #[trigger] row_proposals@[k]@[m])@.len() == cols,
        ensures
            forall|k: int|
                0 <= k < r@.len() ==> ((#[trigger] r@[k]).wf() && r@[k].rows == rows && r@[k].cols
                    == cols && covers_rows(row_proposals@, r@[k])),
            forall|b2: Board| #![trigger covers_rows(row_proposals@, b2)]
                b2.wf() && b2.rows == rows && b2.cols == cols && covers_rows(row_proposals@, b2)
                    ==> has_board(r@, b2),
    {
        let mut boards: Vec<Board> = Vec::new();
        let empty_board = Board::new(rows, cols);
        let ghost eb = empty_board;
        self.prop_boards_rows(&mut boards, empty_board, row_proposals, 0);
        proof {
            assert forall|k: int|
                0 <= k < boards@.len() implies ((#[trigger] boards@[k]).wf() && boards@[k].rows
                == rows && boards@[k].cols == cols && covers_rows(row_proposals@, boards@[k])) by {
                assert(row_extension(boards@[k], eb, row_proposals@, 0));
            }
            assert forall|b2: Board|
                b2.wf() && b2.rows == rows && b2.cols == cols && covers_rows(
                    row_proposals@,
                    b2,
                ) implies has_board(boards@, b2) by {
                assert(row_extension(b2, eb, row_proposals@, 0));
            }
        }
        boards
    }

    /// The set of every full grid obtainable by choosing one candidate per
    /// column and writing the columns into an empty board.
    pub fn generate_col_boards(
        &self,
        rows: usize,
        cols: usize,
        col_proposals: &Vec<Vec<Proposal>>,
    ) -> (r: Vec<Board>)
        requires
            rows * cols <= usize::MAX,
            col_proposals@.len() == cols,
            forall|k: int, m: int|
                0 <= k < col_proposals@.len() && 0 <= m < col_proposals@[k]@.len() ==> (
                #[trigger] col_proposals@[k]@[m])@.len() == rows,
        ensures
            forall|k: int|
                0 <= k < r@.len() ==> ((#[trigger] r@[k]).wf() && r@[k].rows == rows && r@[k].cols
                    == cols && covers_cols(col_proposals@, r@[k])),
            forall|b2: Board| #![trigger covers_cols(col_proposals@, b2)]
                b2.wf() && b2.rows == rows && b2.cols == cols && covers_cols(col_proposals@, b2)
                    ==> has_board(r@, b2),
    {
        let mut boards: Vec<Board> = Vec::new();
        let empty_board = Board::new(rows, cols);
        let ghost eb = empty_board;
        self.prop_boards_cols(&mut boards, empty_board, col_proposals, 0);
        proof {
            assert forall|k: int|
                0 <= k < boards@.len() implies ((#[trigger] boards@[k]).wf() && boards@[k].rows
                == rows && boards@[k].cols == cols && covers_cols(col_proposals@, boards@[k])) by {
                assert(col_extension(boards@[k], eb, col_proposals@, 0));
            }
            assert forall|b2: Board|
                b2.wf() && b2.rows == rows && b2.cols == cols && covers_cols(
                    col_proposals@,
                    b2,
                ) implies has_board(boards@, b2) by {
                assert(col_extension(b2, eb, col_proposals@, 0));
            }
        }
        boards
    }

    /// Solves the puzzle: builds each line's candidate set, runs reduction
    /// rounds to a fixed point, and, where ambiguity remains, intersects
    /// the row-derived and column-derived grid sets.
    ///
    /// Where several grids satisfy every clue, the one returned is the
    /// first found in the column-derived expansion order: an
    /// implementation-defined tie-break, not a promise of uniqueness.
    ///
    /// Returns a grid that realises every clue; `OverConstrained` exactly
    /// when some clue sequence cannot fit on its line; and `Unsolvable`
    /// exactly when the clues fit their lines but no grid realises them
    /// all.
    #[verifier::rlimit(50)]
    pub fn solve(&self) -> (r: Result<Board, SolveError>)
        requires
            forall|i: int|
                0 <= i < self.row_settings@.len() ==> valid_setting(
                    (#[trigger] self.row_settings@[i])@,
                ),
            forall|j: int|
                0 <= j < self.col_settings@.len() ==> valid_setting(
                    (#[trigger] self.col_settings@[j])@,
                ),
            self.row_settings@.len() * self.col_settings@.len() <= usize::MAX,
        ensures
            r matches Ok(b) ==> self.solves(b) && !self.over_constrained() && (forall|
                r2: int,
                c2: int,
            |
                0 <= r2 < b.rows && 0 <= c2 < b.cols ==> #[trigger] b.cell(r2, c2)
                    != CellState::Unknown),
            r matches Err(e) ==> ((e == SolveError::OverConstrained) <==> self.over_constrained())
                && (e == SolveError::Unsolvable ==> (forall|b2: Board| !self.solves(b2))),
    {
        let rows = self.row_settings.len();
        let cols = self.col_settings.len();
        // Structural check: every clue sequence must fit on its line.
        let mut si: usize = 0;
        while si < rows
            invariant
                rows == self.row_settings@.len(),
                cols == self.col_settings@.len(),
                0 <= si <= rows,
                forall|ii: int|
                    0 <= ii < si ==> min_span((#[trigger] self.row_settings@[ii])@) <= cols,
            decreases rows - si,
        {
            if !setting_fits(cols, &self.row_settings[si]) {
                return Err(SolveError::OverConstrained);
            }
            si = si + 1;
        }
        let mut sj: usize = 0;
        while sj < cols
            invariant
                rows == self.row_settings@.len(),
                cols == self.col_settings@.len(),
                0 <= sj <= cols,
                forall|ii: int|
                    0 <= ii < rows ==> min_span((#[trigger] self.row_settings@[ii])@) <= cols,
                forall|jj: int|
                    0 <= jj < sj ==> min_span((#[trigger] self.col_settings@[jj])@) <= rows,
            decreases cols - sj,
        {
            if !setting_fits(rows, &self.col_settings[sj]) {
                return Err(SolveError::OverConstrained);
            }
            sj = sj + 1;
        }
        proof {
            assert(!self.over_constrained());
        }
        // Every line's initial candidate set.
        let mut row_proposals = all_proposals(cols, &self.row_settings);
        let mut col_proposals = all_proposals(rows, &self.col_settings);
        proof {
            assert(self.sets_sound_rows(row_proposals@, cols as int));
            assert(self.sets_sound_cols(col_proposals@, rows as int));
            assert forall|b2: Board| #![trigger self.solves(b2)]
                self.solves(b2) implies covers_rows(row_proposals@, b2) && covers_cols(
                col_proposals@,
                b2,
            ) by {
                assert forall|ii: int| 0 <= ii < row_proposals@.len() implies has_line(
                    (#[trigger] row_proposals@[ii])@,
                    b2.row_seq(ii),
                ) by {
                    assert(b2.row_seq(ii).len() == cols);
                    assert(line_ok(b2.row_seq(ii), self.row_settings@[ii]@));
                }
                assert forall|jj: int| 0 <= jj < col_proposals@.len() implies has_line(
                    (#[trigger] col_proposals@[jj])@,
                    b2.col_seq(jj),
                ) by {
                    assert(b2.col_seq(jj).len() == rows);
                    assert(line_ok(b2.col_seq(jj), self.col_settings@[jj]@));
                }
            }
        }
        // Reduce to a fixed point.
        let mut row_counts = line_counts(&row_proposals);
        let mut col_counts = line_counts(&col_proposals);
        let mut finished = false;
        while !finished
            invariant
                rows == self.row_settings@.len(),
                cols == self.col_settings@.len(),
                rows * cols <= usize::MAX,
                !self.over_constrained(),
                self.sets_sound_rows(row_proposals@, cols as int),
                self.sets_sound_cols(col_proposals@, rows as int),
                self.covers_solutions(row_proposals@, col_proposals@),
                row_counts@.len() == rows,
                col_counts@.len() == cols,
                forall|ii: int|
                    0 <= ii < rows ==> row_counts@[ii] == (#[trigger] row_proposals@[ii])@.len(),
                forall|jj: int|
                    0 <= jj < cols ==> col_counts@[jj] == (#[trigger] col_proposals@[jj])@.len(),
            decreases total_len(row_proposals@) + total_len(col_proposals@) + (if finished {
                0int
            } else {
                1int
            }),
        {
            let ghost old_rows_sets = row_proposals@;
            let ghost old_cols_sets = col_proposals@;
            let reduced = reduce_proposals(row_proposals, col_proposals);
            row_proposals = reduced.0;
            col_proposals = reduced.1;
            proof {
                // Soundness: every kept candidate was already a candidate.
                assert forall|i: int, k: int|
                    0 <= i < row_proposals@.len() && 0 <= k < row_proposals@[i]@.len() implies (
                #[trigger] row_proposals@[i]@[k])@.len() == cols && line_ok(
                    row_proposals@[i]@[k]@,
                    self.row_settings@[i]@,
                ) by {
                    assert(has_line(old_rows_sets[i]@, row_proposals@[i]@[k]@));
                    let w = choose|w: int|
                        0 <= w < old_rows_sets[i]@.len() && old_rows_sets[i]@[w]@
                            == row_proposals@[i]@[k]@;
                    assert((#[trigger] old_rows_sets[i]@[w])@.len() == cols);
                }
                assert forall|j: int, k: int|
                    0 <= j < col_proposals@.len() && 0 <= k < col_proposals@[j]@.len() implies (
                #[trigger] col_proposals@[j]@[k])@.len() == rows && line_ok(
                    col_proposals@[j]@[k]@,
                    self.col_settings@[j]@,
                ) by {
                    assert(has_line(old_cols_sets[j]@, col_proposals@[j]@[k]@));
                    let w = choose|w: int|
                        0 <= w < old_cols_sets[j]@.len() && old_cols_sets[j]@[w]@
                            == col_proposals@[j]@[k]@;
                    assert((#[trigger] old_cols_sets[j]@[w])@.len() == rows);
                }
                // Safety: the lines of any solving board survive both
                // halves of the round.
                assert forall|b2: Board| #![trigger self.solves(b2)]
                    self.solves(b2) implies covers_rows(row_proposals@, b2) && covers_cols(
                    col_proposals@,
                    b2,
                ) by {
                    assert(covers_rows(old_rows_sets, b2));
                    assert(covers_cols(old_cols_sets, b2));
                    assert forall|jj: int| 0 <= jj < cols implies has_line(
                        (#[trigger] col_proposals@[jj])@,
                        b2.col_seq(jj),
                    ) by {
                        lemma_solution_col_fits(old_rows_sets, b2, jj);
                        assert(has_line(old_cols_sets[jj]@, b2.col_seq(jj)));
                        let w = choose|w: int|
                            0 <= w < old_cols_sets[jj]@.len() && old_cols_sets[jj]@[w]@
                                == b2.col_seq(jj);
                        assert(fits_known(
                            (#[trigger] old_cols_sets[jj]@[w])@,
                            old_rows_sets,
                            jj,
                        ));
                        assert(has_line(col_proposals@[jj]@, old_cols_sets[jj]@[w]@));
                    }
                    assert(covers_cols(col_proposals@, b2));
                    assert forall|ii: int| 0 <= ii < rows implies has_line(
                        (#[trigger] row_proposals@[ii])@,
                        b2.row_seq(ii),
                    ) by {
                        lemma_solution_row_fits(col_proposals@, b2, ii);
                        assert(has_line(old_rows_sets[ii]@, b2.row_seq(ii)));
                        let w = choose|w: int|
                            0 <= w < old_rows_sets[ii]@.len() && old_rows_sets[ii]@[w]@
                                == b2.row_seq(ii);
                        assert(fits_known(
                            (#[trigger] old_rows_sets[ii]@[w])@,
                            col_proposals@,
                            ii,
                        ));
                        assert(has_line(row_proposals@[ii]@, old_rows_sets[ii]@[w]@));
                    }
                }
            }
            let n_row = n_boards(&row_proposals);
            let n_col = n_boards(&col_proposals);
            // An emptied candidate set is a contradiction: no solution.
            if n_row == 0 || n_col == 0 {
                proof {
                    assert forall|b2: Board| !self.solves(b2) by {
                        if self.solves(b2) {
                            if n_row == 0 {
                                let i = choose|i: int|
                                    0 <= i < row_proposals@.len() && (
                                    #[trigger] row_proposals@[i])@.len() == 0;
                                assert(has_line(row_proposals@[i]@, b2.row_seq(i)));
                            } else {
                                let j = choose|j: int|
                                    0 <= j < col_proposals@.len() && (
                                    #[trigger] col_proposals@[j])@.len() == 0;
                                assert(has_line(col_proposals@[j]@, b2.col_seq(j)));
                            }
                        }
                    }
                }
                return Err(SolveError::Unsolvable);
            }
            let new_row_counts = line_counts(&row_proposals);
            let new_col_counts = line_counts(&col_proposals);
            let solved_now = n_row == 1 && n_col == 1;
            let rows_stable = counts_equal(&new_row_counts, &row_counts);
            let cols_stable = counts_equal(&new_col_counts, &col_counts);
            proof {
                lemma_total_len_le(row_proposals@, old_rows_sets);
                lemma_total_len_le(col_proposals@, old_cols_sets);
                lemma_total_len_nonneg(row_proposals@);
                lemma_total_len_nonneg(col_proposals@);
            }
            if solved_now || (rows_stable && cols_stable) {
                finished = true;
            } else {
                proof {
                    if !rows_stable {
                        assert(exists|i: int|
                            0 <= i < rows && (#[trigger] row_proposals@[i])@.len()
                                < old_rows_sets[i]@.len()) by {
                            if forall|i: int|
                                0 <= i < rows ==> (#[trigger] row_proposals@[i])@.len()
                                    == old_rows_sets[i]@.len() {
                                assert forall|i: int|
                                    0 <= i < rows implies new_row_counts@[i]
                                    == #[trigger] row_counts@[i] by {
                                    assert(row_proposals@[i]@.len() == old_rows_sets[i]@.len());
                                }
                                assert(new_row_counts@ =~= row_counts@);
                            }
                        }
                    } else {
                        assert(!cols_stable);
                        assert(exists|j: int|
                            0 <= j < cols && (#[trigger] col_proposals@[j])@.len()
                                < old_cols_sets[j]@.len()) by {
                            if forall|j: int|
                                0 <= j < cols ==> (#[trigger] col_proposals@[j])@.len()
                                    == old_cols_sets[j]@.len() {
                                assert forall|j: int|
                                    0 <= j < cols implies new_col_counts@[j]
                                    == #[trigger] col_counts@[j] by {
                                    assert(col_proposals@[j]@.len() == old_cols_sets[j]@.len());
                                }
                                assert(new_col_counts@ =~= col_counts@);
                            }
                        }
                    }
                }
            }
            row_counts = new_row_counts;
            col_counts = new_col_counts;
        }
        // Brute force: expand both axes' grid sets and intersect them.
        let row_boards = self.generate_row_boards(rows, cols, &row_proposals);
        let col_boards = self.generate_col_boards(rows, cols, &col_proposals);
        let mut ci: usize = 0;
        while ci < col_boards.len()
            invariant
                rows == self.row_settings@.len(),
                cols == self.col_settings@.len(),
                !self.over_constrained(),
                self.sets_sound_rows(row_proposals@, cols as int),
                self.sets_sound_cols(col_proposals@, rows as int),
                self.covers_solutions(row_proposals@, col_proposals@),
                0 <= ci <= col_boards@.len(),
                forall|k: int|
                    0 <= k < row_boards@.len() ==> ((#[trigger] row_boards@[k]).wf()
                        && row_boards@[k].rows == rows && row_boards@[k].cols == cols
                        && covers_rows(row_proposals@, row_boards@[k])),
                forall|k: int|
                    0 <= k < col_boards@.len() ==> ((#[trigger] col_boards@[k]).wf()
                        && col_boards@[k].rows == rows && col_boards@[k].cols == cols
                        && covers_cols(col_proposals@, col_boards@[k])),
                forall|b2: Board| #![trigger covers_rows(row_proposals@, b2)]
                    b2.wf() && b2.rows == rows && b2.cols == cols && covers_rows(
                        row_proposals@,
                        b2,
                    ) ==> has_board(row_boards@, b2),
                forall|b2: Board| #![trigger covers_cols(col_proposals@, b2)]
                    b2.wf() && b2.rows == rows && b2.cols == cols && covers_cols(
                        col_proposals@,
                        b2,
                    ) ==> has_board(col_boards@, b2),
                forall|k: int| 0 <= k < ci ==> !has_board(row_boards@, #[trigger] col_boards@[k]),
            decreases col_boards@.len() - ci,
        {
            let cb_ref = &col_boards[ci];
            if contains_board(&row_boards, cb_ref) {
                let result = cb_ref.clone();
                proof {
                    let cb = col_boards@[ci as int];
                    assert(board_eq(result, cb));
                    let w = choose|w: int|
                        0 <= w < row_boards@.len() && board_eq(row_boards@[w], cb);
                    let rb = row_boards@[w];
                    lemma_board_eq_lines(rb, cb);
                    lemma_board_eq_lines(result, cb);
                    assert forall|i2: int| 0 <= i2 < rows implies line_ok(
                        result.row_seq(i2),
                        (#[trigger] self.row_settings@[i2])@,
                    ) by {
                        assert(has_line(row_proposals@[i2]@, rb.row_seq(i2)));
                        let k = choose|k: int|
                            0 <= k < row_proposals@[i2]@.len() && (
                            #[trigger] row_proposals@[i2]@[k])@ == rb.row_seq(i2);
                        assert(line_ok(row_proposals@[i2]@[k]@, self.row_settings@[i2]@));
                        assert(result.row_seq(i2) == rb.row_seq(i2));
                    }
                    assert forall|j2: int| 0 <= j2 < cols implies line_ok(
                        result.col_seq(j2),
                        (#[trigger] self.col_settings@[j2])@,
                    ) by {
                        assert(has_line(col_proposals@[j2]@, cb.col_seq(j2)));
                        let k = choose|k: int|
                            0 <= k < col_proposals@[j2]@.len() && (
                            #[trigger] col_proposals@[j2]@[k])@ == cb.col_seq(j2);
                        assert(line_ok(col_proposals@[j2]@[k]@, self.col_settings@[j2]@));
                        assert(result.col_seq(j2) == cb.col_seq(j2));
                    }
                    assert(self.solves(result));
                    self.lemma_solves_determined(result);
                }
                return Ok(result);
            }
            ci = ci + 1;
        }
        proof {
            assert forall|b2: Board| !self.solves(b2) by {
                if self.solves(b2) {
                    assert(covers_rows(row_proposals@, b2));
                    assert(covers_cols(col_proposals@, b2));
                    assert(has_board(row_boards@, b2));
                    assert(has_board(col_boards@, b2));
                    let wc = choose|wc: int|
                        0 <= wc < col_boards@.len() && board_eq(col_boards@[wc], b2);
                    let wr = choose|wr: int|
                        0 <= wr < row_boards@.len() && board_eq(row_boards@[wr], b2);
                    assert(board_eq(row_boards@[wr], col_boards@[wc]));
                    assert(has_board(row_boards@, col_boards@[wc]));
                }
            }
        }
        Err(SolveError::Unsolvable)
    }
}

} // verus!
