//! Generation of every legal filling of one line from its clue sequence.
//!
//! For a line of length `len` and clues `s` with `slack = len - min_span(s)`,
//! the proposals place the first block after each possible leading gap in
//! `0 ..= slack` and recurse on the remaining clues; the number of proposals
//! is the binomial count `C(slack + s.len(), s.len())`.

use vstd::prelude::*;

use crate::model::{
    CellState, Proposal, Setting, clone_cells, has_line, lead_empties, lemma_line_ok_build,
    lemma_lead_empties_nonneg, lemma_line_ok_decompose, lemma_min_span_prefix, lemma_min_span_push,
    lemma_min_span_step,
    lemma_sum_clues_nonneg, lemma_sum_clues_push, lemma_sum_clues_split, lemma_valid_setting_skip,
    line_ok, min_span, sum_clues, valid_setting,
};

verus! {

/// The binomial coefficient, by Pascal's rule.
pub open spec fn binom(n: nat, k: nat) -> nat
    decreases n,
{
    if k == 0 {
        1
    } else if n == 0 {
        0
    } else {
        binom((n - 1) as nat, (k - 1) as nat) + binom((n - 1) as nat, k)
    }
}

/// The number of legal fillings of a line of length `len` under clues `s`:
/// choosing how to spread the slack over the gaps around the blocks.
pub open spec fn count_fills(len: int, s: Seq<usize>) -> nat {
    binom((len - min_span(s) + s.len()) as nat, s.len() as nat)
}

/// The partial sums taken by the generator's gap loop: the first `i` terms
/// `binom(m - g + kk, kk)` for `g` in `0 ..= m`.
spec fn gsum(m: int, kk: nat, i: int) -> nat
    decreases i,
{
    if i <= 0 {
        0
    } else {
        gsum(m, kk, i - 1) + binom((m - (i - 1) + kk) as nat, kk)
    }
}

/// Choosing more items than there are gives no arrangement.
proof fn lemma_binom_over(n: nat, k: nat)
    requires
        k > n,
    ensures
        binom(n, k) == 0,
    decreases n,
{
    if n > 0 {
        lemma_binom_over((n - 1) as nat, (k - 1) as nat);
        lemma_binom_over((n - 1) as nat, k);
    }
}

/// Choosing everything can be done in exactly one way.
proof fn lemma_binom_diag(n: nat)
    ensures
        binom(n, n) == 1,
    decreases n,
{
    if n > 0 {
        lemma_binom_diag((n - 1) as nat);
        lemma_binom_over((n - 1) as nat, n);
    }
}

/// Peeling the first term off the gap-loop sum.
proof fn lemma_gsum_peel(m: int, kk: nat, i: int)
    requires
        1 <= i,
        i - 1 <= m,
    ensures
        gsum(m, kk, i) == binom((m + kk) as nat, kk) + gsum(m - 1, kk, i - 1),
    decreases i,
{
    if i == 1 {
        assert(gsum(m, kk, 1) == gsum(m, kk, 0) + binom((m + kk) as nat, kk));
        assert(gsum(m - 1, kk, 0) == 0);
    } else {
        lemma_gsum_peel(m, kk, i - 1);
        assert(gsum(m, kk, i) == gsum(m, kk, i - 1) + binom((m - (i - 1) + kk) as nat, kk));
        assert(gsum(m - 1, kk, i - 1) == gsum(m - 1, kk, i - 2) + binom(
            ((m - 1) - (i - 2) + kk) as nat,
            kk,
        ));
        assert((m - (i - 1) + kk) as nat == ((m - 1) - (i - 2) + kk) as nat);
    }
}

/// The full gap-loop sum is one binomial coefficient: the hockey-stick
/// identity `sum_{g=0}^{m} C(m - g + kk, kk) == C(m + kk + 1, kk + 1)`.
proof fn lemma_gsum_total(m: int, kk: nat)
    requires
        m >= 0,
    ensures
        gsum(m, kk, m + 1) == binom((m + kk + 1) as nat, (kk + 1) as nat),
    decreases m,
{
    if m == 0 {
        assert(gsum(0, kk, 1) == gsum(0, kk, 0) + binom(kk, kk));
        lemma_binom_diag(kk);
        lemma_binom_diag((kk + 1) as nat);
    } else {
        lemma_gsum_peel(m, kk, m + 1);
        lemma_gsum_total(m - 1, kk);
        assert(gsum(m - 1, kk, m) == binom((m + kk) as nat, (kk + 1) as nat));
        assert(binom((m + kk + 1) as nat, (kk + 1) as nat) == binom((m + kk) as nat, kk) + binom(
            (m + kk) as nat,
            (kk + 1) as nat,
        ));
    }
}

/// Generates every legal filling of a line of length `len` under the clues
/// `settings[start ..]`, in order of growing leading gap.
///
/// The result holds exactly the lines of length `len` that realise the
/// clues, and their number is the binomial count of `count_fills`.
pub fn gen_proposal(len: usize, settings: &Vec<usize>, start: usize) -> (r: Vec<Proposal>)
    requires
        start <= settings@.len(),
        valid_setting(settings@.skip(start as int)),
        min_span(settings@.skip(start as int)) <= len,
    ensures
        forall|k: int| 0 <= k < r@.len() ==> (#[trigger] r@[k])@.len() == len,
        forall|k: int|
            0 <= k < r@.len() ==> line_ok((#[trigger] r@[k])@, settings@.skip(start as int)),
        r@.len() == count_fills(len as int, settings@.skip(start as int)),
        forall|q: Seq<CellState>|
            q.len() == len && line_ok(q, settings@.skip(start as int)) ==> has_line(r@, q),
    decreases settings@.len() - start,
{
    let ghost s = settings@.skip(start as int);
    let mut r: Vec<Proposal> = Vec::new();
    if start == settings.len() {
        assert(s =~= Seq::<usize>::empty());
        let mut p: Vec<CellState> = Vec::new();
        while p.len() < len
            invariant
                p@.len() <= len,
                forall|m: int| 0 <= m < p@.len() ==> p@[m] == CellState::Empty,
            decreases len - p@.len(),
        {
            p.push(CellState::Empty);
        }
        let ghost pv = p@;
        r.push(p);
        proof {
            assert(r@[0]@ == pv);
            assert(line_ok(pv, s));
            assert(count_fills(len as int, s) == binom(len as nat, 0));
            assert forall|q: Seq<CellState>| q.len() == len && line_ok(q, s) implies has_line(
                r@,
                q,
            ) by {
                assert(forall|i: int| 0 <= i < q.len() ==> q[i] == CellState::Empty);
                assert(q =~= pv);
                assert(r@[0]@ == q);
            }
        }
        return r;
    }
    let s0 = settings[start];
    proof {
        assert(s[0] == settings@[start as int]);
        assert(s0 >= 1);
    }
    // The span of the remaining clues, computed once.
    let mut acc: usize = 0;
    let mut j: usize = start;
    while j < settings.len()
        invariant
            start <= j <= settings@.len(),
            s == settings@.skip(start as int),
            s.len() >= 1,
            min_span(s) <= len,
            acc == sum_clues(s.take(j - start)),
            acc <= len,
        decreases settings@.len() - j,
    {
        proof {
            lemma_sum_clues_split(s, j - start + 1);
            lemma_sum_clues_nonneg(s.skip(j - start + 1));
            assert(s.take(j - start + 1) =~= s.take(j - start).push(s[j - start]));
            lemma_sum_clues_push(s.take(j - start), s[j - start]);
            assert(s[j - start] == settings@[j as int]);
            assert(sum_clues(s) <= min_span(s));
        }
        acc = acc + settings[j];
        j = j + 1;
    }
    proof {
        assert(s.take(s.len() as int) =~= s);
        assert(acc == sum_clues(s));
    }
    let k_blocks = settings.len() - start;
    let span = acc + (k_blocks - 1);
    let slack = len - span;
    let ghost kk = (s.len() - 1) as nat;
    proof {
        lemma_min_span_step(s);
        lemma_valid_setting_skip(s, 1);
        lemma_sum_clues_nonneg(s.skip(1));
        assert(s.len() >= 2 ==> min_span(s.skip(1)) >= 0);
        assert(s.len() >= 2 ==> s0 + 1 <= span);
        assert(s.len() == 1 ==> s0 == span);
        assert(gsum(slack as int, kk, 0) == 0);
        assert forall|q: Seq<CellState>| lead_empties(q) >= 0 by {
            lemma_lead_empties_nonneg(q);
        }
    }
    let last = settings.len();
    let mut g: usize = 0;
    while g <= slack
        invariant
            start < settings@.len(),
            s == settings@.skip(start as int),
            valid_setting(s),
            s.len() == settings@.len() - start,
            s.len() >= 1,
            s[0] == s0,
            s0 >= 1,
            kk == (s.len() - 1) as nat,
            min_span(s) == span,
            span <= len,
            slack == len - span,
            s.len() >= 2 ==> s0 + 1 <= span,
            s.len() == 1 ==> s0 == span,
            last == settings@.len(),
            g <= slack + 1,
            r@.len() == gsum(slack as int, kk, g as int),
            forall|k: int| 0 <= k < r@.len() ==> (#[trigger] r@[k])@.len() == len,
            forall|k: int| 0 <= k < r@.len() ==> line_ok((#[trigger] r@[k])@, s),
            forall|q: Seq<CellState>|
                q.len() == len && line_ok(q, s) && lead_empties(q) < g ==> has_line(r@, q),
        decreases slack + 1 - g,
    {
        let mut head: Vec<CellState> = Vec::new();
        while head.len() < g
            invariant
                head@.len() <= g,
                forall|m: int| 0 <= m < head@.len() ==> head@[m] == CellState::Empty,
            decreases g - head@.len(),
        {
            head.push(CellState::Empty);
        }
        let mut f: usize = 0;
        while f < s0
            invariant
                f <= s0,
                g <= slack,
                s0 <= span,
                slack == len - span,
                head@.len() == g + f,
                forall|m: int| 0 <= m < g ==> head@[m] == CellState::Empty,
                forall|m: int| g <= m < g + f ==> head@[m] == CellState::Filled,
            decreases s0 - f,
        {
            head.push(CellState::Filled);
            f = f + 1;
        }
        if start + 1 < last {
            head.push(CellState::Empty);
            let space_taken = g + s0 + 1;
            let rest_len = len - space_taken;
            let ghost s1 = s.skip(1);
            proof {
                assert(settings@.skip(start as int).skip(1) =~= settings@.skip(start + 1));
                assert(min_span(s1) == span - s0 - 1);
            }
            let tails = gen_proposal(rest_len, settings, start + 1);
            let ghost headv = head@;
            let mut m: usize = 0;
            while m < tails.len()
                invariant
                    m <= tails@.len(),
                    s.len() >= 2,
                    valid_setting(s),
                    s[0] == s0,
                    s0 >= 1,
                    kk == (s.len() - 1) as nat,
                    s1 == s.skip(1),
                    min_span(s) == span,
                    span <= len,
                    slack == len - span,
                    g <= slack,
                    s0 + 1 <= span,
                    space_taken == g + s0 + 1,
                    rest_len == len - space_taken,
                    headv == head@,
                    headv.len() == g + s0 + 1,
                    forall|i: int| 0 <= i < g ==> headv[i] == CellState::Empty,
                    forall|i: int| g <= i < g + s0 ==> headv[i] == CellState::Filled,
                    headv[g + s0] == CellState::Empty,
                    forall|k: int| 0 <= k < tails@.len() ==> (#[trigger] tails@[k])@.len()
                        == rest_len,
                    forall|k: int| 0 <= k < tails@.len() ==> line_ok((#[trigger] tails@[k])@, s1),
                    forall|q: Seq<CellState>|
                        q.len() == rest_len && line_ok(q, s1) ==> has_line(tails@, q),
                    r@.len() == gsum(slack as int, kk, g as int) + m,
                    forall|k: int| 0 <= k < r@.len() ==> (#[trigger] r@[k])@.len() == len,
                    forall|k: int| 0 <= k < r@.len() ==> line_ok((#[trigger] r@[k])@, s),
                    forall|q: Seq<CellState>|
                        q.len() == len && line_ok(q, s) && lead_empties(q) < g ==> has_line(r@, q),
                    forall|mm: int| 0 <= mm < m ==> has_line(r@, headv + (#[trigger] tails@[mm])@),
                decreases tails@.len() - m,
            {
                let mut prop = clone_cells(&head);
                let tail = &tails[m];
                let ghost tailv = tail@;
                proof {
                    assert(tailv == tails@[m as int]@);
                    assert(headv + tailv.take(0) =~= headv);
                }
                let mut c: usize = 0;
                while c < tail.len()
                    invariant
                        c <= tailv.len(),
                        tail@ == tailv,
                        prop@ == headv + tailv.take(c as int),
                    decreases tailv.len() - c,
                {
                    let cell = tail[c];
                    proof {
                        assert((headv + tailv.take(c as int)).push(tailv[c as int]) =~= headv
                            + tailv.take(c + 1));
                    }
                    prop.push(cell);
                    c = c + 1;
                }
                proof {
                    assert(tailv.take(tailv.len() as int) =~= tailv);
                    assert(prop@ == headv + tailv);
                    assert(prop@.len() == len);
                    assert forall|i: int| 0 <= i < g implies prop@[i] == CellState::Empty by {
                        assert(prop@[i] == headv[i]);
                    }
                    assert forall|i: int| g <= i < g + s0 implies prop@[i] == CellState::Filled by {
                        assert(prop@[i] == headv[i]);
                    }
                    assert(prop@[g + s0] == headv[g + s0]);
                    assert(prop@.skip(g + s0 + 1) =~= tailv);
                    lemma_line_ok_build(prop@, s, g as int);
                }
                let ghost prev = r@;
                let ghost propvec = prop;
                r.push(prop);
                proof {
                    assert(r@ == prev.push(propvec));
                    assert(r@[r@.len() - 1]@ == headv + tails@[m as int]@);
                    assert forall|q: Seq<CellState>|
                        q.len() == len && line_ok(q, s) && lead_empties(q) < g implies has_line(
                        r@,
                        q,
                    ) by {
                        let i = choose|i: int| 0 <= i < prev.len() && prev[i]@ == q;
                        assert(r@[i]@ == q);
                    }
                    assert forall|mm: int| 0 <= mm < m + 1 implies has_line(
                        r@,
                        headv + (#[trigger] tails@[mm])@,
                    ) by {
                        if mm < m {
                            let i = choose|i: int|
                                0 <= i < prev.len() && prev[i]@ == headv + tails@[mm]@;
                            assert(r@[i]@ == headv + tails@[mm]@);
                        } else {
                            assert(r@[r@.len() - 1]@ == headv + tails@[mm]@);
                        }
                    }
                }
                m = m + 1;
            }
            proof {
                assert(tails@.len() == count_fills(rest_len as int, s1));
                assert(count_fills(rest_len as int, s1) == binom((slack - g + kk) as nat, kk));
                assert(gsum(slack as int, kk, g + 1) == gsum(slack as int, kk, g as int) + binom(
                    (slack - g + kk) as nat,
                    kk,
                ));
                assert(r@.len() == gsum(slack as int, kk, g + 1));
                assert forall|q: Seq<CellState>|
                    q.len() == len && line_ok(q, s) && lead_empties(q) < g + 1 implies has_line(
                    r@,
                    q,
                ) by {
                    if lead_empties(q) == g {
                        let e = lemma_line_ok_decompose(q, s);
                        assert(e == g);
                        let tail_q = q.skip(g + s0 + 1);
                        assert(tail_q.len() == rest_len);
                        assert(line_ok(tail_q, s1));
                        assert(has_line(tails@, tail_q));
                        let mm = choose|mm: int|
                            0 <= mm < tails@.len() && (#[trigger] tails@[mm])@ == tail_q;
                        assert(has_line(r@, headv + tails@[mm]@));
                        assert forall|i: int| 0 <= i < q.len() implies (headv + tails@[mm]@)[i]
                            == q[i] by {
                            if i < g + s0 + 1 {
                                assert((headv + tails@[mm]@)[i] == headv[i]);
                            } else {
                                assert((headv + tails@[mm]@)[i] == tail_q[i - (g + s0 + 1)]);
                                assert(tail_q[i - (g + s0 + 1)] == q[i]);
                            }
                        }
                        assert(headv + tails@[mm]@ =~= q);
                        let i = choose|i: int| 0 <= i < r@.len() && r@[i]@ == headv + tails@[mm]@;
                        assert(r@[i]@ == q);
                    }
                }
            }
        } else {
            proof {
                assert(s.len() == 1);
            }
            while head.len() < len
                invariant
                    s0 == span,
                    slack == len - span,
                    g <= slack,
                    g + s0 <= head@.len() <= len,
                    forall|m: int| 0 <= m < g ==> head@[m] == CellState::Empty,
                    forall|m: int| g <= m < g + s0 ==> head@[m] == CellState::Filled,
                    forall|m: int| g + s0 <= m < head@.len() ==> head@[m] == CellState::Empty,
                decreases len - head@.len(),
            {
                head.push(CellState::Empty);
            }
            let ghost headv = head@;
            proof {
                lemma_line_ok_build(headv, s, g as int);
            }
            let ghost prev = r@;
            r.push(head);
            proof {
                assert(r@ == prev.push(r@[r@.len() - 1]));
                assert(r@[r@.len() - 1]@ == headv);
                assert(gsum(slack as int, kk, g + 1) == gsum(slack as int, kk, g as int) + binom(
                    (slack - g + kk) as nat,
                    kk,
                ));
                assert(binom((slack - g + kk) as nat, kk) == 1);
                assert forall|q: Seq<CellState>|
                    q.len() == len && line_ok(q, s) && lead_empties(q) < g + 1 implies has_line(
                    r@,
                    q,
                ) by {
                    if lead_empties(q) == g {
                        let e = lemma_line_ok_decompose(q, s);
                        assert(e == g);
                        assert forall|i: int| 0 <= i < q.len() implies q[i] == headv[i] by {}
                        assert(q =~= headv);
                        assert(r@[r@.len() - 1]@ == q);
                    } else {
                        let i = choose|i: int| 0 <= i < prev.len() && prev[i]@ == q;
                        assert(r@[i]@ == q);
                    }
                }
            }
        }
        g = g + 1;
    }
    proof {
        lemma_gsum_total(slack as int, kk);
        assert((slack + kk + 1) as nat == (len - min_span(s) + s.len()) as nat);
        assert((kk + 1) as nat == s.len() as nat);
        assert(r@.len() == count_fills(len as int, s));
        assert forall|q: Seq<CellState>| q.len() == len && line_ok(q, s) implies has_line(
            r@,
            q,
        ) by {
            let e = lemma_line_ok_decompose(q, s);
            assert(e <= slack);
            assert(lead_empties(q) < g);
        }
    }
    r
}

/// The candidate set of one line: every legal filling of a line of length
/// `len` under the clue sequence `settings`.
///
/// An empty clue sequence yields exactly one proposal, the all-empty line.
pub fn proposals(len: usize, settings: &Setting) -> (r: Vec<Proposal>)
    requires
        valid_setting(settings@),
        min_span(settings@) <= len,
    ensures
        forall|k: int| 0 <= k < r@.len() ==> (#[trigger] r@[k])@.len() == len,
        forall|k: int| 0 <= k < r@.len() ==> line_ok((#[trigger] r@[k])@, settings@),
        r@.len() == count_fills(len as int, settings@),
        forall|q: Seq<CellState>| q.len() == len && line_ok(q, settings@) ==> has_line(r@, q),
        settings@.len() == 0 ==> r@.len() == 1 && (forall|i: int|
            0 <= i < len ==> r@[0]@[i] == CellState::Empty),
{
    proof {
        assert(settings@.skip(0) =~= settings@);
    }
    let r = gen_proposal(len, settings, 0);
    proof {
        if settings@.len() == 0 {
            assert(count_fills(len as int, settings@) == binom(len as nat, 0));
            assert(r@.len() == 1);
            assert(line_ok(r@[0]@, settings@));
        }
    }
    r
}

/// The initial candidate sets of one whole axis: one list of proposals per
/// clue sequence, each for a line of length `len`.
pub fn all_proposals(len: usize, all_settings: &Vec<Setting>) -> (r: Vec<Vec<Proposal>>)
    requires
        forall|i: int|
            0 <= i < all_settings@.len() ==> valid_setting((#[trigger] all_settings@[i])@),
        forall|i: int|
            0 <= i < all_settings@.len() ==> min_span((#[trigger] all_settings@[i])@) <= len,
    ensures
        r@.len() == all_settings@.len(),
        forall|i: int, k: int|
            0 <= i < r@.len() && 0 <= k < r@[i]@.len() ==> (#[trigger] r@[i]@[k])@.len() == len,
        forall|i: int, k: int|
            0 <= i < r@.len() && 0 <= k < r@[i]@.len() ==> line_ok(
                (#[trigger] r@[i]@[k])@,
                all_settings@[i]@,
            ),
        forall|i: int|
            0 <= i < r@.len() ==> (#[trigger] r@[i])@.len() == count_fills(
                len as int,
                all_settings@[i]@,
            ),
        forall|i: int, q: Seq<CellState>| #![trigger has_line(r@[i]@, q)]
            0 <= i < r@.len() && q.len() == len && line_ok(q, all_settings@[i]@) ==> has_line(
                r@[i]@,
                q,
            ),
{
    let mut r: Vec<Vec<Proposal>> = Vec::new();
    let mut i: usize = 0;
    while i < all_settings.len()
        invariant
            i <= all_settings@.len(),
            r@.len() == i,
            forall|ii: int|
                0 <= ii < all_settings@.len() ==> valid_setting((#[trigger] all_settings@[ii])@),
            forall|ii: int|
                0 <= ii < all_settings@.len() ==> min_span((#[trigger] all_settings@[ii])@) <= len,
            forall|ii: int, k: int|
                0 <= ii < r@.len() && 0 <= k < r@[ii]@.len() ==> (#[trigger] r@[ii]@[k])@.len()
                    == len,
            forall|ii: int, k: int|
                0 <= ii < r@.len() && 0 <= k < r@[ii]@.len() ==> line_ok(
                    (#[trigger] r@[ii]@[k])@,
                    all_settings@[ii]@,
                ),
            forall|ii: int|
                0 <= ii < r@.len() ==> (#[trigger] r@[ii])@.len() == count_fills(
                    len as int,
                    all_settings@[ii]@,
                ),
            forall|ii: int, q: Seq<CellState>| #![trigger has_line(r@[ii]@, q)]
                0 <= ii < r@.len() && q.len() == len && line_ok(q, all_settings@[ii]@)
                    ==> has_line(r@[ii]@, q),
        decreases all_settings@.len() - i,
    {
        let line = proposals(len, &all_settings[i]);
        r.push(line);
        i = i + 1;
    }
    r
}

/// Decides whether a clue sequence fits on a line of the given length.
pub fn setting_fits(len: usize, s: &Setting) -> (r: bool)
    ensures
        r == (min_span(s@) <= len),
{
    let mut acc: usize = 0;
    let mut j: usize = 0;
    while j < s.len()
        invariant
            0 <= j <= s@.len(),
            acc == min_span(s@.take(j as int)),
            acc <= len,
        decreases s@.len() - j,
    {
        proof {
            assert(s@.take(j + 1) =~= s@.take(j as int).push(s@[j as int]));
            lemma_min_span_push(s@.take(j as int), s@[j as int]);
            lemma_min_span_prefix(s@, j + 1);
        }
        if j > 0 {
            if acc >= len {
                return false;
            }
            acc = acc + 1;
        }
        if s[j] > len - acc {
            return false;
        }
        acc = acc + s[j];
        j = j + 1;
    }
    proof {
        assert(s@.take(s@.len() as int) =~= s@);
    }
    true
}

} // verus!
