//! The constraint reducer: one axis's candidate sets imply a snapshot of
//! unanimously known cells, and the other axis's candidates are filtered
//! against it.
//!
//! The filter is monotone (candidate lists never grow) and safe: a line of
//! any grid that realises every authority candidate set fits the snapshot,
//! so it is never discarded.

use vstd::prelude::*;

use crate::board::Board;
use crate::model::{CellState, Proposal, clone_cells, has_line};

verus! {

/// The cell that every proposal of one authority line agrees on at `pos`,
/// or `Unknown` where the proposals disagree or there are none.
pub open spec fn known_cell(props: Seq<Proposal>, pos: int) -> CellState {
    if props.len() > 0 && (forall|k: int|
        0 <= k < props.len() ==> (#[trigger] props[k])@[pos] == props[0]@[pos]) {
        props[0]@[pos]
    } else {
        CellState::Unknown
    }
}

/// A target-line proposal `p` fits the snapshot drawn from the authority
/// candidate sets `auth` at target index `j`: wherever the authority lines
/// agree unanimously on the crossing cell, `p` holds that value.
pub open spec fn fits_known(p: Seq<CellState>, auth: Seq<Vec<Proposal>>, j: int) -> bool {
    forall|i: int|
        0 <= i < auth.len() ==> (known_cell((#[trigger] auth[i])@, j) == CellState::Unknown || p[i]
            == known_cell(auth[i]@, j))
}

/// Reducer safety for rows as authority: if every row candidate set of
/// `auth` holds the matching row of the solved board `b`, then column `j`
/// of `b` fits the snapshot and is never discarded from a column set.
pub proof fn lemma_solution_col_fits(auth: Seq<Vec<Proposal>>, b: Board, j: int)
    requires
        auth.len() == b.rows,
        0 <= j < b.cols,
        forall|i: int| 0 <= i < auth.len() ==> has_line((#[trigger] auth[i])@, b.row_seq(i)),
    ensures
        fits_known(b.col_seq(j), auth, j),
{
    assert forall|i: int|
        0 <= i < auth.len() implies (known_cell((#[trigger] auth[i])@, j) == CellState::Unknown
        || b.col_seq(j)[i] == known_cell(auth[i]@, j)) by {
        if known_cell(auth[i]@, j) != CellState::Unknown {
            let k = choose|k: int| 0 <= k < auth[i]@.len() && auth[i]@[k]@ == b.row_seq(i);
            assert(auth[i]@[k]@[j] == auth[i]@[0]@[j]);
            assert(b.row_seq(i)[j] == b.cell(i, j));
            assert(b.col_seq(j)[i] == b.cell(i, j));
        }
    }
}

/// Reducer safety for columns as authority: if every column candidate set
/// of `auth` holds the matching column of the solved board `b`, then row
/// `j` of `b` fits the snapshot and is never discarded from a row set.
pub proof fn lemma_solution_row_fits(auth: Seq<Vec<Proposal>>, b: Board, j: int)
    requires
        auth.len() == b.cols,
        0 <= j < b.rows,
        forall|i: int| 0 <= i < auth.len() ==> has_line((#[trigger] auth[i])@, b.col_seq(i)),
    ensures
        fits_known(b.row_seq(j), auth, j),
{
    assert forall|i: int|
        0 <= i < auth.len() implies (known_cell((#[trigger] auth[i])@, j) == CellState::Unknown
        || b.row_seq(j)[i] == known_cell(auth[i]@, j)) by {
        if known_cell(auth[i]@, j) != CellState::Unknown {
            let k = choose|k: int| 0 <= k < auth[i]@.len() && auth[i]@[k]@ == b.col_seq(i);
            assert(auth[i]@[k]@[j] == auth[i]@[0]@[j]);
            assert(b.col_seq(i)[j] == b.cell(j, i));
            assert(b.row_seq(j)[i] == b.cell(j, i));
        }
    }
}

/// Computes the cell that all proposals of one line agree on at `pos`.
fn known_cell_exec(props: &Vec<Proposal>, pos: usize) -> (c: CellState)
    requires
        forall|k: int| 0 <= k < props@.len() ==> pos < (#[trigger] props@[k])@.len(),
    ensures
        c == known_cell(props@, pos as int),
{
    if props.len() == 0 {
        return CellState::Unknown;
    }
    let first_prop = &props[0];
    let first = first_prop[pos];
    let mut k: usize = 1;
    while k < props.len()
        invariant
            1 <= k <= props@.len(),
            first == props@[0]@[pos as int],
            forall|kk: int| 0 <= kk < k ==> (#[trigger] props@[kk])@[pos as int] == first,
            forall|kk: int| 0 <= kk < props@.len() ==> pos < (#[trigger] props@[kk])@.len(),
        decreases props@.len() - k,
    {
        let prop = &props[k];
        if prop[pos] != first {
            return CellState::Unknown;
        }
        k = k + 1;
    }
    first
}

/// Checks one target proposal against the snapshot board.
fn fits_board(
    p: &Proposal,
    board: &Board,
    j: usize,
    transpose: bool,
    Ghost(auth): Ghost<Seq<Vec<Proposal>>>,
) -> (r: bool)
    requires
        board.wf(),
        p@.len() == auth.len(),
        !transpose ==> board.rows == auth.len() && j < board.cols,
        transpose ==> board.cols == auth.len() && j < board.rows,
        forall|i: int|
            0 <= i < auth.len() ==> (if transpose {
                board.cell(j as int, i)
            } else {
                board.cell(i, j as int)
            }) == known_cell((#[trigger] auth[i])@, j as int),
    ensures
        r == fits_known(p@, auth, j as int),
{
    let mut i: usize = 0;
    while i < p.len()
        invariant
            0 <= i <= p@.len(),
            board.wf(),
            p@.len() == auth.len(),
            !transpose ==> board.rows == auth.len() && j < board.cols,
            transpose ==> board.cols == auth.len() && j < board.rows,
            forall|ii: int|
                0 <= ii < auth.len() ==> (if transpose {
                    board.cell(j as int, ii)
                } else {
                    board.cell(ii, j as int)
                }) == known_cell((#[trigger] auth[ii])@, j as int),
            forall|ii: int|
                0 <= ii < i ==> (known_cell((#[trigger] auth[ii])@, j as int) == CellState::Unknown
                    || p@[ii] == known_cell(auth[ii]@, j as int)),
        decreases p@.len() - i,
    {
        let bc = if transpose {
            *board.get_cell(j, i)
        } else {
            *board.get_cell(i, j)
        };
        let pc = p[i];
        if bc != CellState::Unknown && pc != bc {
            proof {
                assert(known_cell(auth[i as int]@, j as int) != CellState::Unknown);
                assert(!fits_known(p@, auth, j as int));
            }
            return false;
        }
        i = i + 1;
    }
    true
}

/// One half of a reduction round: filters every target candidate list
/// (`check_proposals`) against the cells unanimously implied by the
/// authority candidate lists (`board_proposals`).
///
/// With `transpose` false the authority lines are rows; with `transpose`
/// true they are columns, and the scratch board is laid out transposed, as
/// the dimensions of `Board::new` show.
pub fn reduce_board(
    board_proposals: &Vec<Vec<Proposal>>,
    check_proposals: &Vec<Vec<Proposal>>,
    transpose: bool,
) -> (r: Vec<Vec<Proposal>>)
    requires
        board_proposals@.len() * check_proposals@.len() <= usize::MAX,
        forall|i: int, k: int|
            0 <= i < board_proposals@.len() && 0 <= k < board_proposals@[i]@.len() ==> (
            #[trigger] board_proposals@[i]@[k])@.len() == check_proposals@.len(),
        forall|j: int, m: int|
            0 <= j < check_proposals@.len() && 0 <= m < check_proposals@[j]@.len() ==> (
            #[trigger] check_proposals@[j]@[m])@.len() == board_proposals@.len(),
    ensures
        r@.len() == check_proposals@.len(),
        forall|j: int| 0 <= j < r@.len() ==> (#[trigger] r@[j])@.len() <= check_proposals@[j]@.len(),
        forall|j: int, m: int|
            0 <= j < r@.len() && 0 <= m < r@[j]@.len() ==> (#[trigger] r@[j]@[m])@.len()
                == board_proposals@.len(),
        forall|j: int, m: int|
            0 <= j < r@.len() && 0 <= m < r@[j]@.len() ==> fits_known(
                (#[trigger] r@[j]@[m])@,
                board_proposals@,
                j,
            ),
        forall|j: int, m: int|
            0 <= j < r@.len() && 0 <= m < r@[j]@.len() ==> has_line(
                check_proposals@[j]@,
                (#[trigger] r@[j]@[m])@,
            ),
        forall|j: int, m: int|
            0 <= j < check_proposals@.len() && 0 <= m < check_proposals@[j]@.len() && fits_known(
                (#[trigger] check_proposals@[j]@[m])@,
                board_proposals@,
                j,
            ) ==> has_line(r@[j]@, check_proposals@[j]@[m]@),
{
    let na = board_proposals.len();
    let nt = check_proposals.len();
    proof {
        assert(nt * na == na * nt) by (nonlinear_arith);
    }
    let mut board = if transpose {
        Board::new(nt, na)
    } else {
        Board::new(na, nt)
    };
    // The snapshot of unanimously known cells.
    let mut i: usize = 0;
    while i < na
        invariant
            0 <= i <= na,
            na == board_proposals@.len(),
            nt == check_proposals@.len(),
            board.wf(),
            !transpose ==> board.rows == na && board.cols == nt,
            transpose ==> board.rows == nt && board.cols == na,
            forall|ii: int, kk: int|
                0 <= ii < board_proposals@.len() && 0 <= kk < board_proposals@[ii]@.len() ==> (
                #[trigger] board_proposals@[ii]@[kk])@.len() == check_proposals@.len(),
            forall|ii: int, jj: int| #![trigger known_cell(board_proposals@[ii]@, jj)]
                0 <= ii < i && 0 <= jj < nt ==> (if transpose {
                    board.cell(jj, ii)
                } else {
                    board.cell(ii, jj)
                }) == known_cell(board_proposals@[ii]@, jj),
        decreases na - i,
    {
        let mut j: usize = 0;
        while j < nt
            invariant
                0 <= i < na,
                0 <= j <= nt,
                na == board_proposals@.len(),
                nt == check_proposals@.len(),
                board.wf(),
                !transpose ==> board.rows == na && board.cols == nt,
                transpose ==> board.rows == nt && board.cols == na,
                forall|ii: int, kk: int|
                    0 <= ii < board_proposals@.len() && 0 <= kk < board_proposals@[ii]@.len() ==> (
                    #[trigger] board_proposals@[ii]@[kk])@.len() == check_proposals@.len(),
                forall|ii: int, jj: int| #![trigger known_cell(board_proposals@[ii]@, jj)]
                    0 <= ii < i && 0 <= jj < nt ==> (if transpose {
                        board.cell(jj, ii)
                    } else {
                        board.cell(ii, jj)
                    }) == known_cell(board_proposals@[ii]@, jj),
                forall|jj: int|
                    0 <= jj < j ==> (if transpose {
                        board.cell(jj, i as int)
                    } else {
                        board.cell(i as int, jj)
                    }) == known_cell(board_proposals@[i as int]@, jj),
            decreases nt - j,
        {
            let kc = known_cell_exec(&board_proposals[i], j);
            if transpose {
                board.set_cell(j, i, kc);
            } else {
                board.set_cell(i, j, kc);
            }
            j = j + 1;
        }
        i = i + 1;
    }
    // Filter each target line against the snapshot.
    let mut valid_props: Vec<Vec<Proposal>> = Vec::new();
    let mut j: usize = 0;
    while j < nt
        invariant
            0 <= j <= nt,
            na == board_proposals@.len(),
            nt == check_proposals@.len(),
            board.wf(),
            !transpose ==> board.rows == na && board.cols == nt,
            transpose ==> board.rows == nt && board.cols == na,
            forall|jj: int, mm: int|
                0 <= jj < check_proposals@.len() && 0 <= mm < check_proposals@[jj]@.len() ==> (
                #[trigger] check_proposals@[jj]@[mm])@.len() == board_proposals@.len(),
            forall|ii: int, jj: int| #![trigger known_cell(board_proposals@[ii]@, jj)]
                0 <= ii < na && 0 <= jj < nt ==> (if transpose {
                    board.cell(jj, ii)
                } else {
                    board.cell(ii, jj)
                }) == known_cell(board_proposals@[ii]@, jj),
            valid_props@.len() == j,
            forall|jj: int|
                0 <= jj < j ==> (#[trigger] valid_props@[jj])@.len()
                    <= check_proposals@[jj]@.len(),
            forall|jj: int, mm: int|
                0 <= jj < j && 0 <= mm < valid_props@[jj]@.len() ==> (
                #[trigger] valid_props@[jj]@[mm])@.len() == board_proposals@.len(),
            forall|jj: int, mm: int|
                0 <= jj < j && 0 <= mm < valid_props@[jj]@.len() ==> fits_known(
                    (#[trigger] valid_props@[jj]@[mm])@,
                    board_proposals@,
                    jj,
                ),
            forall|jj: int, mm: int|
                0 <= jj < j && 0 <= mm < valid_props@[jj]@.len() ==> has_line(
                    check_proposals@[jj]@,
                    (#[trigger] valid_props@[jj]@[mm])@,
                ),
            forall|jj: int, mm: int|
                0 <= jj < j && 0 <= mm < check_proposals@[jj]@.len() && fits_known(
                    (#[trigger] check_proposals@[jj]@[mm])@,
                    board_proposals@,
                    jj,
                ) ==> has_line(valid_props@[jj]@, check_proposals@[jj]@[mm]@),
        decreases nt - j,
    {
        let src_list = &check_proposals[j];
        let mut keep: Vec<Proposal> = Vec::new();
        let mut m: usize = 0;
        while m < src_list.len()
            invariant
                0 <= m <= src_list@.len(),
                0 <= j < nt,
                na == board_proposals@.len(),
                nt == check_proposals@.len(),
                src_list@ == check_proposals@[j as int]@,
                board.wf(),
                !transpose ==> board.rows == na && board.cols == nt,
                transpose ==> board.rows == nt && board.cols == na,
                forall|jj: int, mm: int|
                    0 <= jj < check_proposals@.len() && 0 <= mm < check_proposals@[jj]@.len() ==> (
                    #[trigger] check_proposals@[jj]@[mm])@.len() == board_proposals@.len(),
                forall|ii: int, jj: int| #![trigger known_cell(board_proposals@[ii]@, jj)]
                    0 <= ii < na && 0 <= jj < nt ==> (if transpose {
                        board.cell(jj, ii)
                    } else {
                        board.cell(ii, jj)
                    }) == known_cell(board_proposals@[ii]@, jj),
                keep@.len() <= m,
                forall|mm: int|
                    0 <= mm < keep@.len() ==> (#[trigger] keep@[mm])@.len()
                        == board_proposals@.len(),
                forall|mm: int|
                    0 <= mm < keep@.len() ==> fits_known(
                        (#[trigger] keep@[mm])@,
                        board_proposals@,
                        j as int,
                    ),
                forall|mm: int|
                    0 <= mm < keep@.len() ==> has_line(
                        check_proposals@[j as int]@,
                        (#[trigger] keep@[mm])@,
                    ),
                forall|mm: int|
                    0 <= mm < m && fits_known(
                        (#[trigger] src_list@[mm])@,
                        board_proposals@,
                        j as int,
                    ) ==> has_line(keep@, src_list@[mm]@),
            decreases src_list@.len() - m,
        {
            let p = &src_list[m];
            let ok = fits_board(p, &board, j, transpose, Ghost(board_proposals@));
            let ghost prev = keep@;
            if ok {
                let copy = clone_cells(p);
                keep.push(copy);
                proof {
                    assert(keep@[keep@.len() - 1]@ == src_list@[m as int]@);
                }
            }
            proof {
                assert forall|mm: int|
                    0 <= mm < m + 1 && fits_known(
                        (#[trigger] src_list@[mm])@,
                        board_proposals@,
                        j as int,
                    ) implies has_line(keep@, src_list@[mm]@) by {
                    if mm < m {
                        let w = choose|w: int| 0 <= w < prev.len() && prev[w]@ == src_list@[mm]@;
                        assert(keep@[w]@ == src_list@[mm]@);
                    } else {
                        assert(keep@[keep@.len() - 1]@ == src_list@[mm]@);
                    }
                }
            }
            m = m + 1;
        }
        valid_props.push(keep);
        j = j + 1;
    }
    valid_props
}

/// One full reduction round: the rows' candidate sets filter the columns',
/// then the just-filtered columns' sets filter the rows'.
///
/// Each returned candidate list is no longer than the one it came from,
/// every kept proposal comes from the matching input list, and a proposal
/// is kept exactly when it fits the snapshot of its round half.
pub fn reduce_proposals(
    row_proposals: Vec<Vec<Proposal>>,
    col_proposals: Vec<Vec<Proposal>>,
) -> (r: (Vec<Vec<Proposal>>, Vec<Vec<Proposal>>))
    requires
        row_proposals@.len() * col_proposals@.len() <= usize::MAX,
        forall|i: int, k: int|
            0 <= i < row_proposals@.len() && 0 <= k < row_proposals@[i]@.len() ==> (
            #[trigger] row_proposals@[i]@[k])@.len() == col_proposals@.len(),
        forall|j: int, m: int|
            0 <= j < col_proposals@.len() && 0 <= m < col_proposals@[j]@.len() ==> (
            #[trigger] col_proposals@[j]@[m])@.len() == row_proposals@.len(),
    ensures
        r.0@.len() == row_proposals@.len(),
        r.1@.len() == col_proposals@.len(),
        forall|j: int|
            0 <= j < r.1@.len() ==> (#[trigger] r.1@[j])@.len() <= col_proposals@[j]@.len(),
        forall|i: int|
            0 <= i < r.0@.len() ==> (#[trigger] r.0@[i])@.len() <= row_proposals@[i]@.len(),
        forall|j: int, m: int|
            0 <= j < r.1@.len() && 0 <= m < r.1@[j]@.len() ==> (#[trigger] r.1@[j]@[m])@.len()
                == row_proposals@.len(),
        forall|i: int, k: int|
            0 <= i < r.0@.len() && 0 <= k < r.0@[i]@.len() ==> (#[trigger] r.0@[i]@[k])@.len()
                == col_proposals@.len(),
        forall|j: int, m: int|
            0 <= j < r.1@.len() && 0 <= m < r.1@[j]@.len() ==> has_line(
                col_proposals@[j]@,
                (#[trigger] r.1@[j]@[m])@,
            ),
        forall|i: int, k: int|
            0 <= i < r.0@.len() && 0 <= k < r.0@[i]@.len() ==> has_line(
                row_proposals@[i]@,
                (#[trigger] r.0@[i]@[k])@,
            ),
        forall|j: int, m: int|
            0 <= j < col_proposals@.len() && 0 <= m < col_proposals@[j]@.len() && fits_known(
                (#[trigger] col_proposals@[j]@[m])@,
                row_proposals@,
                j,
            ) ==> has_line(r.1@[j]@, col_proposals@[j]@[m]@),
        forall|i: int, k: int|
            0 <= i < row_proposals@.len() && 0 <= k < row_proposals@[i]@.len() && fits_known(
                (#[trigger] row_proposals@[i]@[k])@,
                r.1@,
                i,
            ) ==> has_line(r.0@[i]@, row_proposals@[i]@[k]@),
{
    proof {
        assert(col_proposals@.len() * row_proposals@.len() == row_proposals@.len()
            * col_proposals@.len()) by (nonlinear_arith);
    }
    let new_cols = reduce_board(&row_proposals, &col_proposals, false);
    let new_rows = reduce_board(&new_cols, &row_proposals, true);
    (new_rows, new_cols)
}

} // verus!
