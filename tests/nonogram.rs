use nonogram::bits::{check_bit, paint_block};
use nonogram::board::{Board, Celltype, SolveError};
use nonogram::hint::{calculate_remain_block_len, Hint};
use nonogram::propagate::{propagate_logic, solve, SolveState};

fn generated(size: usize, index: isize, blocks: Vec<usize>) -> Hint {
    let mut h = Hint::new(index, blocks);
    h.generate_patterns(0, 0, size, 0);
    h
}

fn binomial(n: u64, k: u64) -> u64 {
    let mut r: u64 = 1;
    for i in 0..k {
        r = r * (n - i) / (i + 1);
    }
    r
}

fn hints(rows: Vec<Vec<usize>>, cols: Vec<Vec<usize>>) -> (Vec<Hint>, Vec<Hint>) {
    let r = rows
        .into_iter()
        .enumerate()
        .map(|(i, b)| Hint::new(i as isize + 1, b))
        .collect();
    let c = cols
        .into_iter()
        .enumerate()
        .map(|(i, b)| Hint::new(-(i as isize) - 1, b))
        .collect();
    (r, c)
}

#[test]
fn paint_block_sets_the_run() {
    assert_eq!(paint_block(1, 3), 0b1110);
    assert_eq!(paint_block(0, 0), 0);
    assert_eq!(paint_block(0, 32), u32::MAX);
    assert_eq!(paint_block(31, 1), 1u32 << 31);
}

#[test]
fn check_bit_tests_one_position() {
    assert!(check_bit(0b0100, 0b0100));
    assert!(!check_bit(0b1011, 0b0100));
}

#[test]
fn remaining_sums() {
    assert_eq!(calculate_remain_block_len(&[3, 1, 2]), vec![6, 3, 2, 0]);
    assert_eq!(calculate_remain_block_len(&[]), vec![0]);
}

#[test]
fn single_block_candidates() {
    let h = generated(5, 1, vec![3]);
    assert_eq!(h.candidates, vec![0b00111, 0b01110, 0b11100]);
}

#[test]
fn two_single_blocks_candidates() {
    let h = generated(4, 1, vec![1, 1]);
    assert_eq!(h.candidates, vec![0b0101, 0b1001, 0b1010]);
}

#[test]
fn empty_clue_has_the_empty_mask() {
    let h = generated(7, 1, vec![]);
    assert_eq!(h.candidates, vec![0]);
}

#[test]
fn clue_that_does_not_fit_has_no_candidate() {
    let h = generated(4, 1, vec![2, 2]);
    assert!(h.candidates.is_empty());
}

#[test]
fn full_width_clue() {
    let h = generated(32, 1, vec![32]);
    assert_eq!(h.candidates, vec![u32::MAX]);
}

#[test]
fn candidate_count_matches_binomial() {
    let cases: Vec<(usize, Vec<usize>)> = vec![
        (5, vec![3]),
        (4, vec![1, 1]),
        (10, vec![2, 3]),
        (20, vec![4, 1, 2, 1]),
        (20, vec![5, 3, 1, 1]),
        (12, vec![1, 1, 1, 1]),
        (8, vec![8]),
    ];
    for (size, blocks) in cases {
        let s: usize = blocks.iter().sum();
        let k = blocks.len() as u64;
        let h = generated(size, 1, blocks);
        assert_eq!(h.candidates.len() as u64, binomial((size - s + 1) as u64, k));
        let mut sorted = h.candidates.clone();
        sorted.sort();
        sorted.dedup();
        assert_eq!(sorted.len(), h.candidates.len());
    }
}

#[test]
fn reflection_of_single_block_fills_the_middle() {
    let mut board = Board::new(5);
    let h = generated(5, 1, vec![3]);
    assert_eq!(board.reflection_candidate_info(&h).unwrap(), true);
    let line = board.copy_by_index(1);
    assert_eq!(
        line,
        vec![Celltype::NoInfo, Celltype::NoInfo, Celltype::O, Celltype::NoInfo, Celltype::NoInfo]
    );
}

#[test]
fn reflection_of_two_single_blocks_deduces_nothing() {
    let mut board = Board::new(4);
    let h = generated(4, -2, vec![1, 1]);
    assert_eq!(board.reflection_candidate_info(&h).unwrap(), false);
    assert!(board.copy_by_index(-2).iter().all(|c| *c == Celltype::NoInfo));
}

#[test]
fn contradiction_is_reported() {
    let mut board = Board::new(5);
    assert!(board.write_deduced_cell(1, 2, Celltype::O));
    let mut h = generated(5, 1, vec![]);
    board.filtering_candidate(&mut h);
    assert!(h.candidates.is_empty());
    match board.reflection_candidate_info(&h) {
        Err(SolveError::Contradiction { index, line }) => {
            assert_eq!(index, 1);
            assert_eq!(line[2], Celltype::O);
        }
        other => panic!("expected a contradiction, got {:?}", other),
    }
}

#[test]
fn write_once() {
    let mut board = Board::new(3);
    assert!(board.write_deduced_cell(-2, 1, Celltype::O));
    assert!(!board.write_deduced_cell(-2, 1, Celltype::O));
    assert!(!board.write_deduced_cell(2, 1, Celltype::X));
    assert_eq!(board.cells[1][1], Celltype::O);
}

#[test]
fn filtering_only_shrinks() {
    let mut board = Board::new(6);
    let mut h = generated(6, 1, vec![2, 1]);
    let all = h.candidates.clone();
    board.filtering_candidate(&mut h);
    assert_eq!(h.candidates, all);
    board.write_deduced_cell(1, 0, Celltype::X);
    board.filtering_candidate(&mut h);
    let after_one = h.candidates.clone();
    assert!(after_one.len() < all.len());
    assert!(after_one.iter().all(|m| all.contains(m)));
    board.write_deduced_cell(1, 2, Celltype::O);
    board.filtering_candidate(&mut h);
    assert!(h.candidates.len() <= after_one.len());
    assert!(h.candidates.iter().all(|m| after_one.contains(m)));
    assert!(h.candidates.iter().all(|m| m & 1 == 0 && m & 0b100 != 0));
}

#[test]
fn filtering_against_a_solved_line() {
    let mut board = Board::new(6);
    let reference = [true, true, false, false, true, false];
    for (p, f) in reference.iter().enumerate() {
        let state = if *f { Celltype::O } else { Celltype::X };
        board.write_deduced_cell(-3, p, state);
    }
    let mut h = generated(6, -3, vec![2, 1]);
    board.filtering_candidate(&mut h);
    assert_eq!(h.candidates, vec![0b010011]);
}

#[test]
fn second_step_writes_nothing() {
    let mut board = Board::new(5);
    board.write_deduced_cell(1, 0, Celltype::O);
    let mut h = generated(5, 1, vec![2, 1]);
    board.filtering_candidate(&mut h);
    assert_eq!(board.reflection_candidate_info(&h).unwrap(), true);
    let before = board.copy_by_index(1);
    let kept = h.candidates.clone();
    board.filtering_candidate(&mut h);
    assert_eq!(h.candidates, kept);
    assert_eq!(board.reflection_candidate_info(&h).unwrap(), false);
    assert_eq!(board.copy_by_index(1), before);
}

#[test]
fn solvable_puzzle_is_solved() {
    let (mut rows, mut cols) = hints(
        vec![vec![5], vec![1], vec![5], vec![1], vec![5]],
        vec![vec![3, 1], vec![1, 1, 1], vec![1, 1, 1], vec![1, 1, 1], vec![1, 3]],
    );
    let (state, board) = solve(5, &mut rows, &mut cols).unwrap();
    assert_eq!(state, SolveState::Solved);
    assert!(board.is_complete());
    let expected = ["#####", "#....", "#####", "....#", "#####"];
    for (r, line) in expected.iter().enumerate() {
        for (c, ch) in line.chars().enumerate() {
            let want = if ch == '#' { Celltype::O } else { Celltype::X };
            assert_eq!(board.cells[r][c], want);
        }
    }
}

#[test]
fn ambiguous_puzzle_is_stuck() {
    let (mut rows, mut cols) = hints(vec![vec![1], vec![1]], vec![vec![1], vec![1]]);
    let (state, board) = solve(2, &mut rows, &mut cols).unwrap();
    assert_eq!(state, SolveState::Stuck);
    assert!(!board.is_complete());
    assert!(board.cells.iter().flatten().any(|c| *c == Celltype::NoInfo));
}

#[test]
fn propagate_on_prepared_board() {
    let mut board = Board::new(3);
    let mut rows = vec![generated(3, 1, vec![3]), generated(3, 2, vec![]), generated(3, 3, vec![1])];
    let mut cols = vec![generated(3, -1, vec![1, 1]), generated(3, -2, vec![1]), generated(3, -3, vec![1])];
    let state = propagate_logic(&mut board, &mut rows, &mut cols).unwrap();
    assert_eq!(state, SolveState::Solved);
    assert_eq!(board.cells[2], vec![Celltype::O, Celltype::X, Celltype::X]);
}

#[test]
fn contradictory_puzzle_fails() {
    let (mut rows, mut cols) = hints(vec![vec![2], vec![2]], vec![vec![], vec![]]);
    match solve(2, &mut rows, &mut cols) {
        Err(SolveError::Contradiction { .. }) => {}
        other => panic!("expected a contradiction, got {:?}", other.map(|(s, _)| s)),
    }
}

#[test]
fn clue_count_mismatch() {
    let (mut rows, mut cols) = hints(vec![vec![1]], vec![vec![1], vec![1]]);
    assert!(matches!(solve(2, &mut rows, &mut cols), Err(SolveError::HintCountMismatch)));
}

#[test]
fn clue_index_out_of_range() {
    let mut rows = vec![Hint::new(1, vec![1]), Hint::new(3, vec![1])];
    let mut cols = vec![Hint::new(-1, vec![1]), Hint::new(-2, vec![1])];
    assert!(matches!(solve(2, &mut rows, &mut cols), Err(SolveError::HintIndexOutOfRange)));
}

#[test]
fn twenty_by_twenty_puzzle_runs_without_contradiction() {
    let rows: Vec<Vec<usize>> = vec![
        vec![6], vec![5], vec![7], vec![11], vec![13], vec![11, 2], vec![17], vec![7, 8],
        vec![5, 8], vec![5, 2, 3], vec![4, 2, 3], vec![4, 1, 2, 1], vec![4, 1, 3], vec![3, 1, 5],
        vec![5, 3, 1, 1], vec![5, 3, 1], vec![6, 1], vec![4], vec![3], vec![3],
    ];
    let cols: Vec<Vec<usize>> = vec![
        vec![4], vec![7], vec![9], vec![1, 11], vec![1, 6, 2], vec![2, 6, 7], vec![8, 2, 3],
        vec![8, 1, 3], vec![7, 1, 1, 2], vec![6, 1, 2, 4], vec![5, 3, 6], vec![5, 3, 2, 2],
        vec![8, 1, 1], vec![6], vec![2, 3], vec![6, 3], vec![4, 2, 1], vec![2, 4], vec![2, 2],
        vec![1, 1],
    ];
    let (mut rh, mut ch) = hints(rows, cols);
    let (state, board) = solve(20, &mut rh, &mut ch).unwrap();
    assert_eq!(board.size(), 20);
    let unknown = (0..20)
        .flat_map(|r| (0..20).map(move |c| (r, c)))
        .filter(|&(r, c)| board.cell(r, c) == Celltype::NoInfo)
        .count();
    match state {
        SolveState::Solved => assert_eq!(unknown, 0),
        SolveState::Stuck => assert!(unknown > 0),
    }
    assert!(rh.iter().chain(ch.iter()).all(|h| !h.candidates.is_empty()));
}
