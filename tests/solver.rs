use nonograms::{
    candidates, filter_candidates, find_consensus, into_mask, CellState, GenerateError, Line,
    Nonogram, Outcome, Solver, Violation,
};
use CellState::{Empty as E, Filled as F, Undecided as U};

fn mask(s: &str) -> Vec<CellState> {
    s.chars().map(|c| if c == '#' { F } else { E }).collect()
}

fn puzzle(width: usize, height: usize, cols: Vec<Vec<usize>>, rows: Vec<Vec<usize>>) -> Nonogram {
    let mut b = Nonogram::builder();
    b.width(width).unwrap();
    b.height(height).unwrap();
    for r in rows {
        b.push_row_constraint(r);
    }
    for c in cols {
        b.push_col_constraint(c);
    }
    b.build().unwrap()
}

#[test]
fn candidate_completeness() {
    let mut got = candidates(&vec![1, 2], 5).unwrap();
    let mut want: Vec<Vec<CellState>> = ["#.##.", "#..##", ".#.##"].iter().map(|s| mask(s)).collect();
    assert_eq!(got.len(), 3);
    got.sort_by_key(|m| format!("{:?}", m));
    want.sort_by_key(|m| format!("{:?}", m));
    assert_eq!(got, want);
}

#[test]
fn candidate_completeness_six_placements() {
    let mut got = candidates(&vec![1, 2], 6).unwrap();
    let mut want: Vec<Vec<CellState>> = ["#.##..", "#..##.", "#...##", ".#.##.", ".#..##", "..#.##"]
        .iter()
        .map(|s| mask(s))
        .collect();
    assert_eq!(got.len(), 6);
    got.sort_by_key(|m| format!("{:?}", m));
    want.sort_by_key(|m| format!("{:?}", m));
    assert_eq!(got, want);
}

#[test]
fn mask_length_invariant() {
    let cases: Vec<(Vec<usize>, usize)> = vec![
        (vec![], 0),
        (vec![], 4),
        (vec![1], 1),
        (vec![1, 1, 1], 7),
        (vec![2, 3], 9),
        (vec![4], 4),
    ];
    for (c, cap) in cases {
        let ms = candidates(&c, cap).unwrap();
        assert!(!ms.is_empty());
        for m in &ms {
            assert_eq!(m.len(), cap);
        }
    }
}

#[test]
fn infeasible_constraint() {
    assert_eq!(candidates(&vec![3, 3], 5), Err(GenerateError::InfeasibleConstraint));
    assert_eq!(candidates(&vec![3, 2], 5), Err(GenerateError::InfeasibleConstraint));
    assert_eq!(candidates(&vec![1], 0), Err(GenerateError::InfeasibleConstraint));
    assert!(candidates(&vec![3, 1], 5).is_ok());
}

#[test]
fn empty_constraint_is_all_empty() {
    assert_eq!(candidates(&vec![], 3).unwrap(), vec![vec![E, E, E]]);
}

#[test]
fn full_run_has_one_placement() {
    assert_eq!(candidates(&vec![4], 4).unwrap(), vec![vec![F, F, F, F]]);
}

#[test]
fn into_mask_lays_out_gaps_and_runs() {
    assert_eq!(into_mask(&vec![1, 2, 0], &vec![2, 1]), mask(".##..#"));
    assert_eq!(into_mask(&vec![3], &vec![]), mask("..."));
}

#[test]
fn consensus_correctness() {
    let ms = vec![vec![F, E], vec![F, F]];
    assert_eq!(find_consensus(&ms), vec![F, U]);
}

#[test]
fn consensus_of_placements() {
    let ms = candidates(&vec![3], 5).unwrap();
    assert_eq!(find_consensus(&ms), vec![U, U, F, U, U]);
    let ms = candidates(&vec![1, 2], 5).unwrap();
    assert_eq!(find_consensus(&ms), vec![U, U, U, F, U]);
}

#[test]
fn consensus_combinator_laws() {
    let all = [U, E, F];
    for a in all {
        for b in all {
            assert_eq!(a.consensus_eq(&b), b.consensus_eq(&a));
            for c in all {
                assert_eq!(
                    a.consensus_eq(&b).consensus_eq(&c),
                    a.consensus_eq(&b.consensus_eq(&c))
                );
            }
        }
    }
}

#[test]
fn accepts_relation() {
    assert!(U.accepts(&F));
    assert!(U.accepts(&E));
    assert!(F.accepts(&F));
    assert!(!F.accepts(&E));
    assert!(!E.accepts(&U));
    assert!(!F.accepts(&U));
}

#[test]
fn filter_keeps_admitted_candidates() {
    let ms = candidates(&vec![1, 2], 5).unwrap();
    let kept = filter_candidates(&ms, &[F, U, U, U, U]);
    let mut want = vec![mask("#.##."), mask("#..##")];
    let mut got = kept.clone();
    got.sort_by_key(|m| format!("{:?}", m));
    want.sort_by_key(|m| format!("{:?}", m));
    assert_eq!(got, want);
    assert!(filter_candidates(&ms, &[E, E, E, E, E]).is_empty());
}

#[test]
fn filter_monotonicity() {
    let ms = candidates(&vec![1, 2], 6).unwrap();
    let k0 = vec![U; 6];
    let k1 = vec![U, U, U, F, U, U];
    let k2 = vec![F, U, U, F, U, U];
    let f0 = filter_candidates(&ms, &k0);
    let f1 = filter_candidates(&ms, &k1);
    let f2 = filter_candidates(&ms, &k2);
    assert_eq!(f0.len(), 6);
    assert_eq!(f1.len(), 3);
    assert_eq!(f2.len(), 2);
    for m in &f1 {
        assert!(f0.contains(m));
    }
    for m in &f2 {
        assert!(f1.contains(m));
    }
    assert_eq!(filter_candidates(&f1, &k2), f2);
}

#[test]
fn idempotent_reset() {
    let mut n = puzzle(
        3,
        3,
        vec![vec![2], vec![1], vec![3]],
        vec![vec![1, 1], vec![3], vec![1]],
    );
    let mut s1 = Solver::new(&n);
    let first = s1.solve(&mut n);
    let cells1 = n.cells.clone();
    n.clear_solution();
    let mut s2 = Solver::new(&n);
    let second = s2.solve(&mut n);
    assert_eq!(first, second);
    assert_eq!(cells1, n.cells);
    let third = s1.solve(&mut n);
    assert_eq!(first, third);
    assert_eq!(cells1, n.cells);
    assert_eq!(first, Outcome::Solved);
}

#[test]
fn end_to_end_scenario() {
    let mut rows = vec![vec![]; 5];
    rows[2] = vec![5];
    let cols = vec![vec![1]; 5];
    let mut n = puzzle(5, 5, cols, rows);
    let mut s = Solver::new(&n);
    assert_eq!(s.solve(&mut n), Outcome::Solved);
    for y in 0..5 {
        for x in 0..5 {
            assert_eq!(n.get(x, y), if y == 2 { F } else { E });
        }
    }
}

#[test]
fn stuck_scenario() {
    let mut n = puzzle(2, 2, vec![vec![1], vec![1]], vec![vec![1], vec![1]]);
    let mut s = Solver::new(&n);
    assert_eq!(s.solve(&mut n), Outcome::StuckUndetermined);
    assert!(n.cells.iter().any(|c| *c == U));
}

#[test]
fn contradiction_is_reported() {
    let mut n = puzzle(2, 2, vec![vec![], vec![]], vec![vec![2], vec![]]);
    let mut s = Solver::new(&n);
    assert_eq!(s.solve(&mut n), Outcome::Contradiction(Line::Col(0), Violation::ConsensusConflict));
}

#[test]
fn infeasible_line_is_reported() {
    let mut n = puzzle(2, 2, vec![vec![1], vec![1]], vec![vec![3], vec![]]);
    let mut s = Solver::new(&n);
    assert_eq!(s.infeasible, Some(Line::Row(0)));
    let before = n.cells.clone();
    assert_eq!(s.solve(&mut n), Outcome::Infeasible(Line::Row(0)));
    assert_eq!(n.cells, before);
    let mut m = puzzle(2, 2, vec![vec![1, 1], vec![]], vec![vec![1], vec![]]);
    let mut t = Solver::new(&m);
    assert_eq!(t.solve(&mut m), Outcome::Infeasible(Line::Col(0)));
}

#[test]
fn solves_a_small_picture() {
    let mut n = puzzle(
        5,
        5,
        vec![vec![1], vec![3], vec![5], vec![3], vec![1]],
        vec![vec![1], vec![3], vec![5], vec![3], vec![1]],
    );
    let mut s = Solver::new(&n);
    assert_eq!(s.solve(&mut n), Outcome::Solved);
    assert_eq!(n.as_text(), "  \u{2588}  \n \u{2588}\u{2588}\u{2588} \n\u{2588}\u{2588}\u{2588}\u{2588}\u{2588}\n \u{2588}\u{2588}\u{2588} \n  \u{2588}  \n");
}

#[test]
fn empty_candidate_set_is_reported() {
    let mut n = puzzle(3, 1, vec![vec![1], vec![1], vec![]], vec![vec![1]]);
    let mut s = Solver::new(&n);
    assert_eq!(
        s.solve(&mut n),
        Outcome::Contradiction(Line::Row(0), Violation::NoCandidateLeft)
    );
    assert_eq!(n.cells, vec![F, F, E]);
}

#[test]
fn one_cell_conflict_is_reported() {
    let mut n = puzzle(1, 1, vec![vec![]], vec![vec![1]]);
    let mut s = Solver::new(&n);
    assert_eq!(
        s.solve(&mut n),
        Outcome::Contradiction(Line::Col(0), Violation::ConsensusConflict)
    );
}

#[test]
fn positive_runs_give_distinct_masks() {
    let ms = candidates(&vec![2, 1, 1], 9).unwrap();
    for i in 0..ms.len() {
        for j in 0..i {
            assert_ne!(ms[i], ms[j]);
        }
    }
    assert_eq!(ms.len(), 20);
}
