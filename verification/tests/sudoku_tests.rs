use sudoku::board::Board;

fn mk(rows: Vec<Vec<usize>>) -> Board {
    Board::new(&rows).expect("grid must be 9x9 with entries 0..=9")
}

fn empty_rows() -> Vec<Vec<usize>> {
    vec![vec![0; 9]; 9]
}

fn classic_rows() -> Vec<Vec<usize>> {
    vec![
        vec![5, 3, 0, 0, 7, 0, 0, 0, 0],
        vec![6, 0, 0, 1, 9, 5, 0, 0, 0],
        vec![0, 9, 8, 0, 0, 0, 0, 6, 0],
        vec![8, 0, 0, 0, 6, 0, 0, 0, 3],
        vec![4, 0, 0, 8, 0, 3, 0, 0, 1],
        vec![7, 0, 0, 0, 2, 0, 0, 0, 6],
        vec![0, 6, 0, 0, 0, 0, 2, 8, 0],
        vec![0, 0, 0, 4, 1, 9, 0, 0, 5],
        vec![0, 0, 0, 0, 8, 0, 0, 7, 9],
    ]
}

fn snapshot(b: &Board) -> Vec<(usize, usize, Option<usize>)> {
    b.cells()
}

#[test]
fn new_accepts_a_well_formed_grid() {
    assert!(Board::new(&classic_rows()).is_some());
    assert!(Board::new(&empty_rows()).is_some());
}

#[test]
fn new_rejects_wrong_dimensions() {
    let mut rows = classic_rows();
    rows.pop();
    assert!(Board::new(&rows).is_none());

    let mut rows = classic_rows();
    rows[4].push(3);
    assert!(Board::new(&rows).is_none());

    let mut rows = classic_rows();
    rows[2].pop();
    assert!(Board::new(&rows).is_none());
}

#[test]
fn new_rejects_out_of_range_digits() {
    let mut rows = empty_rows();
    rows[7][3] = 10;
    assert!(Board::new(&rows).is_none());
}

#[test]
fn get_and_set_round_trip() {
    let mut b = mk(empty_rows());
    assert_eq!(b.get(4, 7), None);
    b.set(4, 7, Some(9));
    assert_eq!(b.get(4, 7), Some(9));
    assert_eq!(b.get(4, 6), None);
    assert_eq!(b.get(3, 7), None);
    b.set(4, 7, None);
    assert_eq!(b.get(4, 7), None);
}

#[test]
fn cells_enumerates_row_major() {
    let b = mk(classic_rows());
    let cs = b.cells();
    assert_eq!(cs.len(), 81);
    let rows = classic_rows();
    for (k, &(i, j, v)) in cs.iter().enumerate() {
        assert_eq!(i, k / 9);
        assert_eq!(j, k % 9);
        let expected = if rows[i][j] == 0 { None } else { Some(rows[i][j]) };
        assert_eq!(v, expected);
    }
}

#[test]
fn valid_moves_on_empty_board_lists_all_digits() {
    let b = mk(empty_rows());
    let expected: Vec<Option<usize>> = (1..=9).map(Some).collect();
    assert_eq!(b.valid_moves(0, 0), expected);
    assert_eq!(b.valid_moves(8, 8), expected);
}

#[test]
fn valid_moves_excludes_exactly_the_shared_digit() {
    // one filled cell with digit 5; peers must lose exactly that digit
    let mut rows = empty_rows();
    rows[0][0] = 5;
    let b = mk(rows);
    let without_5: Vec<Option<usize>> =
        (1..=9).filter(|&d| d != 5).map(Some).collect();
    let all: Vec<Option<usize>> = (1..=9).map(Some).collect();
    assert_eq!(b.valid_moves(0, 4), without_5); // same row
    assert_eq!(b.valid_moves(4, 0), without_5); // same column
    assert_eq!(b.valid_moves(1, 1), without_5); // same box
    assert_eq!(b.valid_moves(4, 4), all); // unrelated cell
}

#[test]
fn is_valid_spots_a_row_conflict() {
    let mut rows = empty_rows();
    rows[2][1] = 7;
    rows[2][6] = 7;
    let b = mk(rows);
    assert!(!b.is_valid());
}

#[test]
fn is_valid_accepts_the_classic_puzzle() {
    assert!(mk(classic_rows()).is_valid());
    assert!(mk(empty_rows()).is_valid());
}

#[test]
fn solve_fills_the_classic_puzzle() {
    let mut b = mk(classic_rows());
    assert!(b.solve());
    assert!(b.is_valid());
    let row0: Vec<Option<usize>> = (0..9).map(|c| b.get(0, c)).collect();
    let expected: Vec<Option<usize>> =
        vec![5, 3, 4, 6, 7, 8, 9, 1, 2].into_iter().map(Some).collect();
    assert_eq!(row0, expected);
    for (_, _, v) in b.cells() {
        assert!(v.is_some());
    }
    // the givens are kept
    for (i, row) in classic_rows().into_iter().enumerate() {
        for (j, d) in row.into_iter().enumerate() {
            if d != 0 {
                assert_eq!(b.get(i, j), Some(d));
            }
        }
    }
}

#[test]
fn solve_again_on_a_solved_board_changes_nothing() {
    let mut b = mk(classic_rows());
    assert!(b.solve());
    let solved = snapshot(&b);
    assert!(b.solve());
    assert_eq!(snapshot(&b), solved);
}

#[test]
fn solve_fails_and_keeps_an_unsolvable_board() {
    // row 0 holds 1..=8 and its last cell's column already holds 9:
    // cell (0, 8) has no candidate, so no solution exists
    let mut rows = empty_rows();
    for c in 0..8 {
        rows[0][c] = c + 1;
    }
    rows[3][8] = 9;
    let mut b = mk(rows);
    assert!(b.is_valid());
    let before = snapshot(&b);
    assert!(!b.solve());
    assert_eq!(snapshot(&b), before);
}

#[test]
fn solve_fails_and_keeps_a_board_with_conflicting_givens() {
    // two identical digits in one row: no valid completion exists
    let mut rows = empty_rows();
    rows[5][0] = 4;
    rows[5][8] = 4;
    let mut b = mk(rows);
    let before = snapshot(&b);
    assert!(!b.solve());
    assert_eq!(snapshot(&b), before);
}

#[test]
fn solve_aux_reports_a_solved_board_directly() {
    let mut b = mk(classic_rows());
    assert!(b.solve());
    let solved = snapshot(&b);
    assert!(b.solve_aux(0, 0));
    assert_eq!(snapshot(&b), solved);
}

#[test]
fn line_permutation_is_a_block_preserving_permutation() {
    for _ in 0..20 {
        let p = Board::line_permutation();
        assert_eq!(p.len(), 9);
        let mut sorted = p.clone();
        sorted.sort();
        assert_eq!(sorted, (0..9).collect::<Vec<usize>>());
        for i in 0..9 {
            for j in 0..9 {
                assert_eq!(p[i] / 3 == p[j] / 3, i / 3 == j / 3);
            }
        }
    }
}

#[test]
fn value_permutation_is_a_permutation_of_digits() {
    for _ in 0..20 {
        let p = Board::value_permutation();
        assert_eq!(p.len(), 9);
        let mut sorted = p.clone();
        sorted.sort();
        assert_eq!(sorted, (1..=9).collect::<Vec<usize>>());
    }
}

#[test]
fn permute_leaves_the_source_board_untouched() {
    let b = mk(classic_rows());
    let before = snapshot(&b);
    let _ = b.permute();
    assert_eq!(snapshot(&b), before);
}

#[test]
fn permute_writes_every_cell_exactly_once() {
    // a fully filled source leaves no destination cell unwritten, and a
    // partly filled one keeps exactly its number of blanks
    let mut solved = mk(classic_rows());
    assert!(solved.solve());
    let p = solved.permute();
    assert!(p.cells().iter().all(|&(_, _, v)| v.is_some()));

    let puzzle = mk(classic_rows());
    let blanks = |b: &Board| b.cells().iter().filter(|&&(_, _, v)| v.is_none()).count();
    let q = puzzle.permute();
    assert_eq!(blanks(&q), blanks(&puzzle));
}

#[test]
fn permute_of_a_solved_board_stays_solvable() {
    let mut b = mk(classic_rows());
    assert!(b.solve());
    for _ in 0..5 {
        let mut p = b.permute();
        assert!(p.is_valid());
        assert!(p.solve());
        assert!(p.is_valid());
    }
}

#[test]
fn permute_of_the_puzzle_stays_solvable() {
    let b = mk(classic_rows());
    let mut p = b.permute();
    assert!(p.solve());
    assert!(p.is_valid());
}
