//! The mathematical model of lines and clues.
//!
//! A line of the puzzle is a sequence of cells; a clue sequence names the
//! lengths of the contiguous filled blocks that must appear on the line, in
//! order, with at least one empty cell between adjacent blocks.

use vstd::prelude::*;

verus! {

/// One cell of a puzzle grid: undetermined, filled, or known empty.
///
/// `Unknown` appears only in intermediate snapshots; a finished solution
/// holds `Filled` and `Empty` cells alone.
#[derive(Clone, Copy, PartialEq, Eq, Structural, Debug)]
pub enum CellState {
    Unknown,
    Filled,
    Empty,
}

/// The clue sequence of one line: the lengths of its filled blocks, in order.
pub type Setting = Vec<usize>;

/// One concrete, fully determined filling of a line.
pub type Proposal = Vec<CellState>;

/// The sum of the block lengths of a clue sequence.
pub open spec fn sum_clues(s: Seq<usize>) -> int
    decreases s.len(),
{
    if s.len() == 0 {
        0
    } else {
        s[0] + sum_clues(s.skip(1))
    }
}

/// The smallest line length that can hold the clue sequence `s`:
/// all blocks plus one separating cell between each adjacent pair.
pub open spec fn min_span(s: Seq<usize>) -> int {
    if s.len() == 0 {
        0
    } else {
        sum_clues(s) + s.len() - 1
    }
}

/// Every clue names a block of at least one cell.
pub open spec fn valid_setting(s: Seq<usize>) -> bool {
    forall|i: int| 0 <= i < s.len() ==> s[i] >= 1
}

/// `line_ok(p, s)` says that line `p` realises clue sequence `s`: no cell of
/// `p` is `Unknown`, the filled cells of `p` form contiguous blocks whose
/// lengths are exactly the members of `s` in order, and adjacent blocks are
/// parted by at least one empty cell.
pub open spec fn line_ok(p: Seq<CellState>, s: Seq<usize>) -> bool
    decreases p.len(),
{
    if s.len() == 0 {
        forall|i: int| 0 <= i < p.len() ==> p[i] == CellState::Empty
    } else if p.len() == 0 {
        false
    } else if p[0] == CellState::Empty {
        line_ok(p.skip(1), s)
    } else if p[0] == CellState::Filled {
        &&& s[0] <= p.len()
        &&& forall|i: int| 0 <= i < s[0] ==> p[i] == CellState::Filled
        &&& if p.len() == s[0] {
            s.len() == 1
        } else {
            p[s[0] as int] == CellState::Empty && line_ok(p.skip(s[0] + 1), s.skip(1))
        }
    } else {
        false
    }
}

/// `has_line(ps, q)` says that the list of proposals `ps` holds a proposal
/// whose cells are exactly `q`.
pub open spec fn has_line(ps: Seq<Proposal>, q: Seq<CellState>) -> bool {
    exists|i: int| 0 <= i < ps.len() && ps[i]@ == q
}

/// The number of empty cells at the head of a line.
pub open spec fn lead_empties(p: Seq<CellState>) -> int
    decreases p.len(),
{
    if p.len() == 0 {
        0
    } else if p[0] == CellState::Empty {
        1 + lead_empties(p.skip(1))
    } else {
        0
    }
}

/// The block-length sum of a clue sequence is never negative.
pub proof fn lemma_sum_clues_nonneg(s: Seq<usize>)
    ensures
        sum_clues(s) >= 0,
    decreases s.len(),
{
    if s.len() > 0 {
        lemma_sum_clues_nonneg(s.skip(1));
    }
}

/// Appending one clue grows the sum by that clue.
pub proof fn lemma_sum_clues_push(s: Seq<usize>, x: usize)
    ensures
        sum_clues(s.push(x)) == sum_clues(s) + x,
    decreases s.len(),
{
    if s.len() == 0 {
        assert(s.push(x).skip(1) =~= Seq::<usize>::empty());
        assert(s.push(x)[0] == x);
        assert(sum_clues(Seq::<usize>::empty()) == 0);
    } else {
        assert(s.push(x).skip(1) =~= s.skip(1).push(x));
        assert(s.push(x)[0] == s[0]);
        assert(sum_clues(s) == s[0] + sum_clues(s.skip(1)));
        lemma_sum_clues_push(s.skip(1), x);
    }
}

/// The block-length sum splits around any cut point.
pub proof fn lemma_sum_clues_split(s: Seq<usize>, i: int)
    requires
        0 <= i <= s.len(),
    ensures
        sum_clues(s) == sum_clues(s.take(i)) + sum_clues(s.skip(i)),
    decreases i,
{
    if i == 0 {
        assert(s.take(0) =~= Seq::<usize>::empty());
        assert(s.skip(0) =~= s);
    } else {
        lemma_sum_clues_split(s, i - 1);
        assert(s.take(i) =~= s.take(i - 1).push(s[i - 1]));
        lemma_sum_clues_push(s.take(i - 1), s[i - 1]);
        assert(s.skip(i - 1)[0] == s[i - 1]);
        assert(s.skip(i - 1).skip(1) =~= s.skip(i));
        assert(sum_clues(s.skip(i - 1)) == s[i - 1] + sum_clues(s.skip(i)));
    }
}

/// Appending one clue to a clue sequence grows its span by the clue plus
/// one separator, the separator only when the sequence was not empty.
pub proof fn lemma_min_span_push(t: Seq<usize>, x: usize)
    ensures
        t.len() == 0 ==> min_span(t.push(x)) == x,
        t.len() >= 1 ==> min_span(t.push(x)) == min_span(t) + 1 + x,
{
    lemma_sum_clues_push(t, x);
}

/// A prefix of a clue sequence never needs more room than the whole.
pub proof fn lemma_min_span_prefix(s: Seq<usize>, i: int)
    requires
        0 <= i <= s.len(),
    ensures
        min_span(s.take(i)) <= min_span(s),
    decreases s.len() - i,
{
    if i == s.len() {
        assert(s.take(i) =~= s);
    } else {
        assert(s.take(i + 1) =~= s.take(i).push(s[i]));
        lemma_min_span_push(s.take(i), s[i]);
        lemma_min_span_prefix(s, i + 1);
    }
}

/// A non-empty clue sequence's span is its first block, one separator if
/// more blocks follow, and the span of the rest.
pub proof fn lemma_min_span_step(s: Seq<usize>)
    requires
        s.len() >= 1,
    ensures
        s.len() == 1 ==> min_span(s) == s[0],
        s.len() >= 2 ==> min_span(s) == s[0] + 1 + min_span(s.skip(1)),
{
    if s.len() == 1 {
        assert(s.skip(1) =~= Seq::<usize>::empty());
        assert(sum_clues(Seq::<usize>::empty()) == 0);
    }
}

/// A line that realises a clue sequence holds no `Unknown` cell.
pub proof fn lemma_line_ok_no_unknown(p: Seq<CellState>, s: Seq<usize>)
    requires
        line_ok(p, s),
    ensures
        forall|i: int| 0 <= i < p.len() ==> p[i] != CellState::Unknown,
    decreases p.len(),
{
    if s.len() == 0 {
    } else if p.len() == 0 {
    } else if p[0] == CellState::Empty {
        lemma_line_ok_no_unknown(p.skip(1), s);
        assert forall|i: int| 0 <= i < p.len() implies p[i] != CellState::Unknown by {
            if i >= 1 {
                assert(p.skip(1)[i - 1] == p[i]);
            }
        }
    } else if p[0] == CellState::Filled {
        if p.len() == s[0] {
        } else {
            lemma_line_ok_no_unknown(p.skip(s[0] + 1), s.skip(1));
            assert forall|i: int| 0 <= i < p.len() implies p[i] != CellState::Unknown by {
                if i > s[0] {
                    assert(p.skip(s[0] + 1)[i - s[0] - 1] == p[i]);
                }
            }
        }
    }
}

/// A line that realises a clue sequence is at least as long as its span.
pub proof fn lemma_line_ok_min_span(p: Seq<CellState>, s: Seq<usize>)
    requires
        line_ok(p, s),
        valid_setting(s),
    ensures
        p.len() >= min_span(s),
    decreases p.len(),
{
    lemma_sum_clues_nonneg(s);
    if s.len() == 0 {
    } else if p[0] == CellState::Empty {
        lemma_line_ok_min_span(p.skip(1), s);
    } else {
        lemma_min_span_step(s);
        if p.len() == s[0] {
        } else if s.len() >= 2 {
            assert(valid_setting(s.skip(1))) by {
                assert(forall|i: int| 0 <= i < s.skip(1).len() ==> s.skip(1)[i] == s[i + 1]);
            }
            lemma_line_ok_min_span(p.skip(s[0] + 1), s.skip(1));
        }
    }
}

/// A tail of a valid clue sequence is itself valid.
pub proof fn lemma_valid_setting_skip(s: Seq<usize>, n: int)
    requires
        valid_setting(s),
        0 <= n <= s.len(),
    ensures
        valid_setting(s.skip(n)),
{
    assert(forall|i: int| 0 <= i < s.skip(n).len() ==> s.skip(n)[i] == s[i + n]);
}

/// A line whose head is `e` empty cells, then the first block, a separator
/// where blocks remain, and a valid tail, realises the clue sequence.
pub proof fn lemma_line_ok_build(p: Seq<CellState>, s: Seq<usize>, e: int)
    requires
        valid_setting(s),
        s.len() >= 1,
        0 <= e,
        e + s[0] <= p.len(),
        forall|i: int| 0 <= i < e ==> p[i] == CellState::Empty,
        forall|i: int| e <= i < e + s[0] ==> p[i] == CellState::Filled,
        s.len() == 1 ==> forall|i: int| e + s[0] <= i < p.len() ==> p[i] == CellState::Empty,
        s.len() >= 2 ==> e + s[0] < p.len() && p[e + s[0]] == CellState::Empty && line_ok(
            p.skip(e + s[0] + 1),
            s.skip(1),
        ),
    ensures
        line_ok(p, s),
    decreases e,
{
    if e == 0 {
        assert(p[0] == CellState::Filled);
        if p.len() == s[0] {
            assert(s.len() == 1) by {
                if s.len() >= 2 {
                    assert(e + s[0] < p.len());
                }
            }
        } else {
            assert(s[0] < p.len());
            if s.len() == 1 {
                assert(p[s[0] as int] == CellState::Empty);
                assert(forall|i: int|
                    0 <= i < p.skip(s[0] + 1).len() ==> #[trigger] p.skip(s[0] + 1)[i] == p[i + s[0]
                        + 1]);
                assert(line_ok(p.skip(s[0] + 1), s.skip(1)));
            }
        }
    } else {
        assert(p[0] == CellState::Empty);
        let q = p.skip(1);
        assert(forall|i: int| 0 <= i < q.len() ==> q[i] == p[i + 1]);
        if s.len() >= 2 {
            assert(q[(e - 1) + s[0]] == CellState::Empty);
            assert(q.skip((e - 1) + s[0] + 1) =~= p.skip(e + s[0] + 1));
        }
        lemma_line_ok_build(q, s, e - 1);
    }
}

/// A line that realises a non-empty clue sequence decomposes as a leading
/// gap, the first block, and a tail that realises the remaining clues.
pub proof fn lemma_line_ok_decompose(p: Seq<CellState>, s: Seq<usize>) -> (e: int)
    requires
        line_ok(p, s),
        valid_setting(s),
        s.len() >= 1,
    ensures
        e == lead_empties(p),
        0 <= e,
        e + s[0] <= p.len(),
        forall|i: int| 0 <= i < e ==> p[i] == CellState::Empty,
        forall|i: int| e <= i < e + s[0] ==> p[i] == CellState::Filled,
        s.len() == 1 ==> forall|i: int| e + s[0] <= i < p.len() ==> p[i] == CellState::Empty,
        s.len() >= 2 ==> e + s[0] < p.len() && p[e + s[0]] == CellState::Empty && line_ok(
            p.skip(e + s[0] + 1),
            s.skip(1),
        ),
        e + min_span(s) <= p.len(),
    decreases p.len(),
{
    lemma_min_span_step(s);
    if p[0] == CellState::Empty {
        let q = p.skip(1);
        assert(forall|i: int| 0 <= i < q.len() ==> q[i] == p[i + 1]);
        let e1 = lemma_line_ok_decompose(q, s);
        let e = e1 + 1;
        assert forall|i: int| 0 <= i < e implies p[i] == CellState::Empty by {
            if i >= 1 {
                assert(q[i - 1] == CellState::Empty);
            }
        }
        assert forall|i: int| e <= i < e + s[0] implies p[i] == CellState::Filled by {
            assert(q[i - 1] == CellState::Filled);
        }
        if s.len() == 1 {
            assert forall|i: int| e + s[0] <= i < p.len() implies p[i] == CellState::Empty by {
                assert(q[i - 1] == CellState::Empty);
            }
        }
        if s.len() >= 2 {
            assert(q[e1 + s[0]] == CellState::Empty);
            assert(q.skip(e1 + s[0] + 1) =~= p.skip(e + s[0] + 1));
        }
        e
    } else {
        assert(p[0] == CellState::Filled);
        if p.len() == s[0] {
            assert(forall|i: int| 0 <= i < s[0] ==> p[i] == CellState::Filled);
            0
        } else {
            if s.len() >= 2 {
                lemma_valid_setting_skip(s, 1);
                lemma_line_ok_min_span(p.skip(s[0] + 1), s.skip(1));
            } else {
                assert(forall|i: int|
                    0 <= i < p.skip(s[0] + 1).len() ==> #[trigger] p.skip(s[0] + 1)[i] == p[i + s[0]
                        + 1]);
                assert forall|i: int| s[0] <= i < p.len() implies p[i] == CellState::Empty by {
                    reveal_with_fuel(line_ok, 2);
                    if i > s[0] {
                        assert(p.skip(s[0] + 1)[i - s[0] - 1] == CellState::Empty);
                    }
                }
            }
            0
        }
    }
}

/// Copies a line of cells.
pub fn clone_cells(p: &Vec<CellState>) -> (r: Vec<CellState>)
    ensures
        r@ == p@,
{
    let mut r: Vec<CellState> = Vec::new();
    let mut i: usize = 0;
    while i < p.len()
        invariant
            i <= p@.len(),
            r@ == p@.take(i as int),
        decreases p@.len() - i,
    {
        let c = p[i];
        proof {
            assert(p@.take(i + 1) =~= p@.take(i as int).push(p@[i as int]));
        }
        r.push(c);
        i = i + 1;
    }
    proof {
        assert(p@.take(p@.len() as int) =~= p@);
    }
    r
}

/// A leading-gap count is never negative.
pub proof fn lemma_lead_empties_nonneg(p: Seq<CellState>)
    ensures
        lead_empties(p) >= 0,
    decreases p.len(),
{
    if p.len() > 0 && p[0] == CellState::Empty {
        lemma_lead_empties_nonneg(p.skip(1));
    }
}

} // verus!
