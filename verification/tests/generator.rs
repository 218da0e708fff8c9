use nonogram::generate::{gen_proposal, proposals, setting_fits};
use nonogram::model::CellState;

fn line(pattern: &str) -> Vec<CellState> {
    pattern
        .chars()
        .map(|ch| if ch == '#' { CellState::Filled } else { CellState::Empty })
        .collect()
}

fn blocks_of(p: &[CellState]) -> Vec<usize> {
    let mut blocks = Vec::new();
    let mut run = 0usize;
    for c in p {
        if *c == CellState::Filled {
            run += 1;
        } else {
            if run > 0 {
                blocks.push(run);
            }
            run = 0;
        }
    }
    if run > 0 {
        blocks.push(run);
    }
    blocks
}

#[test]
fn proposals_for_two_blocks_on_five() {
    let r = proposals(5, &vec![2, 1]);
    assert_eq!(r.len(), 3);
    assert!(r.contains(&line("##.#.")));
    assert!(r.contains(&line("##..#")));
    assert!(r.contains(&line(".##.#")));
}

#[test]
fn every_proposal_has_length_and_blocks() {
    let setting = vec![3, 1, 2];
    let r = proposals(10, &setting);
    for p in &r {
        assert_eq!(p.len(), 10);
        assert_eq!(blocks_of(p), setting);
        assert!(p.iter().all(|c| *c != CellState::Unknown));
    }
}

#[test]
fn count_law_two_blocks_on_ten() {
    // slack = 10 - 3 = 7 and two blocks: C(9, 2) = 36 proposals.
    let r = proposals(10, &vec![1, 1]);
    assert_eq!(r.len(), 36);
}

#[test]
fn count_law_exact_fit() {
    // No slack: exactly one proposal.
    let r = proposals(5, &vec![2, 2]);
    assert_eq!(r.len(), 1);
    assert_eq!(r[0], line("##.##"));
}

#[test]
fn empty_clue_yields_single_empty_line() {
    let r = proposals(4, &vec![]);
    assert_eq!(r.len(), 1);
    assert_eq!(r[0], line("...."));
}

#[test]
fn empty_clue_on_empty_line() {
    let r = proposals(0, &vec![]);
    assert_eq!(r.len(), 1);
    assert_eq!(r[0].len(), 0);
}

#[test]
fn full_line_single_block() {
    let r = proposals(3, &vec![3]);
    assert_eq!(r.len(), 1);
    assert_eq!(r[0], line("###"));
}

#[test]
fn gen_proposal_skips_leading_clues() {
    let all = vec![9usize, 2, 1];
    let r = gen_proposal(5, &all, 1);
    let direct = proposals(5, &vec![2, 1]);
    assert_eq!(r, direct);
}

#[test]
fn setting_fits_boundaries() {
    assert!(setting_fits(5, &vec![2, 2]));
    assert!(!setting_fits(4, &vec![2, 2]));
    assert!(setting_fits(0, &vec![]));
    assert!(!setting_fits(0, &vec![1]));
    assert!(setting_fits(1, &vec![1]));
}
