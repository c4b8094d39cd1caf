use sudoku::{Board, CoreError};

fn board(n: usize, cells: &[u32]) -> Board {
    Board { n, cells: cells.to_vec() }
}

#[test]
fn parse_print_roundtrip() {
    let b = Board::from_rows(&["1 . 3", ". 2 .", ". . 1"]).unwrap();
    assert_eq!(b.n, 3);
    assert_eq!(b.to_string(), "1 . 3\n. 2 .\n. . 1");
    assert!(b.is_consistent());
}

#[test]
fn allowed_basic() {
    let b = Board::from_rows(&["1.3", ".2.", "..1"]).unwrap();
    let a = b.allowed_digits(1, 0).unwrap();
    // row 1 has 2; col 0 has 1; allowed is {3}
    assert_eq!(a, vec![3]);
}

#[test]
fn new_board_is_empty() {
    let b = Board::new(3).unwrap();
    assert_eq!(b.n, 3);
    assert_eq!(b.cells, vec![0; 9]);
    assert!(b.is_consistent());
    assert!(!b.is_complete());
}

#[test]
fn new_zero_is_bad_dim() {
    assert!(matches!(Board::new(0), Err(CoreError::BadDim)));
}

#[test]
fn idx_and_get() {
    let b = board(2, &[1, 2, 2, 1]);
    assert_eq!(b.idx(1, 0).unwrap(), 2);
    assert_eq!(b.get(0, 1).unwrap(), 2);
    assert!(matches!(b.idx(2, 0), Err(CoreError::Oob { r: 2, c: 0, n: 2 })));
    assert!(matches!(b.get(0, 5), Err(CoreError::Oob { r: 0, c: 5, n: 2 })));
}

#[test]
fn get_after_set() {
    let mut b = Board::new(3).unwrap();
    b.set(1, 2, 3).unwrap();
    assert_eq!(b.get(1, 2).unwrap(), 3);
    assert_eq!(b.get(2, 1).unwrap(), 0);
    assert_eq!(b.cells, vec![0, 0, 0, 0, 0, 3, 0, 0, 0]);
}

#[test]
fn set_refusals_leave_board_unchanged() {
    let mut b = Board::new(2).unwrap();
    assert!(matches!(b.set(0, 0, 3), Err(CoreError::BadDigit { d: 3, n: 2 })));
    // a bad digit is reported before a bad position
    assert!(matches!(b.set(5, 5, 3), Err(CoreError::BadDigit { d: 3, n: 2 })));
    assert!(matches!(b.set(2, 0, 1), Err(CoreError::Oob { r: 2, c: 0, n: 2 })));
    assert_eq!(b.cells, vec![0; 4]);
}

#[test]
fn complete_and_consistent() {
    assert!(board(2, &[1, 2, 2, 1]).is_complete());
    assert!(board(2, &[1, 2, 2, 1]).is_consistent());
    assert!(!board(2, &[1, 1, 0, 0]).is_consistent());
    assert!(!board(2, &[1, 0, 1, 0]).is_consistent());
    assert!(board(2, &[1, 0, 0, 1]).is_consistent());
    assert!(!board(2, &[1, 0, 0, 1]).is_complete());
}

#[test]
fn valid_digit_checks() {
    let b = Board::from_rows(&["1.3", ".2.", "..1"]).unwrap();
    assert_eq!(b.is_valid_digit(1, 0, 3).unwrap(), true);
    assert_eq!(b.is_valid_digit(1, 0, 1).unwrap(), false);
    assert_eq!(b.is_valid_digit(1, 0, 2).unwrap(), false);
    // the cell's own value does not count against it
    assert_eq!(b.is_valid_digit(0, 0, 1).unwrap(), true);
    assert!(matches!(b.is_valid_digit(0, 0, 0), Err(CoreError::BadDigit { d: 0, n: 3 })));
    assert!(matches!(b.is_valid_digit(0, 0, 4), Err(CoreError::BadDigit { d: 4, n: 3 })));
}

#[test]
fn valid_digit_reads_raw_indices() {
    // The scan reads row `r` and column `c` by raw index, so a column past the
    // edge still reads cells of the grid: (2, 3) reads cells 6, 7, 8 and 3, 6.
    let b = board(3, &[1, 0, 3, 0, 2, 0, 0, 0, 1]);
    assert_eq!(b.is_valid_digit(2, 3, 2).unwrap(), true);
    assert_eq!(b.is_valid_digit(2, 3, 1).unwrap(), false);
    // A one-cell board reads nothing of row `r` when `c == 0`.
    let one = board(1, &[0]);
    assert_eq!(one.is_valid_digit(5, 0, 1).unwrap(), true);
}

#[test]
fn consistency_ignores_cells_past_the_grid() {
    // Only the first `n * n` cells belong to the grid.
    assert!(board(2, &[1, 2, 2, 1, 1, 1]).is_consistent());
    assert!(!board(2, &[1, 1, 2, 2, 0]).is_consistent());
}

#[test]
fn allowed_ignores_cells_off_its_lines() {
    // The cell (1, 1) sees row 1 and column 1 only.
    let b = board(2, &[2, 0, 0, 0]);
    assert_eq!(b.allowed_digits(1, 1).unwrap(), vec![1, 2]);
    assert_eq!(b.allowed_digits(0, 1).unwrap(), vec![1]);
    assert_eq!(b.allowed_digits(0, 0).unwrap(), Vec::<u32>::new());
    // A value out of range off the lines of (0, 0) is never read.
    let odd = board(2, &[0, 0, 0, 7]);
    assert_eq!(odd.allowed_digits(0, 0).unwrap(), vec![1, 2]);
}

#[test]
fn allowed_agrees_with_valid() {
    let b = Board::from_rows(&["1..4", "..3.", ".4..", "2..."]).unwrap();
    for r in 0..4 {
        for c in 0..4 {
            if b.get(r, c).unwrap() != 0 {
                assert_eq!(b.allowed_digits(r, c).unwrap(), Vec::<u32>::new());
                continue;
            }
            let allowed = b.allowed_digits(r, c).unwrap();
            for d in 1..=4u32 {
                assert_eq!(allowed.contains(&d), b.is_valid_digit(r, c, d).unwrap());
            }
        }
    }
    assert!(matches!(b.allowed_digits(4, 0), Err(CoreError::Oob { r: 4, c: 0, n: 4 })));
}

#[test]
fn valid_placement_keeps_consistency() {
    let mut b = Board::from_rows(&["1..", "...", "..2"]).unwrap();
    assert!(b.is_valid_digit(1, 1, 3).unwrap());
    b.set(1, 1, 3).unwrap();
    assert!(b.is_consistent());
}

#[test]
fn pretty_and_csv_text() {
    let b = board(3, &[1, 0, 3, 0, 2, 0, 0, 0, 1]);
    assert_eq!(b.to_pretty_string(), "1 . 3\n. 2 .\n. . 1");
    assert_eq!(b.to_csv_string(), "1,.,3\n.,2,.\n.,.,1");
    let big = board(2, &[10, 0, 0, 12]);
    assert_eq!(big.to_pretty_string(), "10 .\n. 12");
    assert_eq!(big.to_csv_string(), "10,.\n.,12");
}

#[test]
fn json_text() {
    let b = board(3, &[1, 0, 3, 0, 2, 0, 0, 0, 1]);
    assert_eq!(b.to_json_string(), "{\"n\":3,\"grid\":[[1,0,3],[0,2,0],[0,0,1]]}");
    let one = board(1, &[1]);
    assert_eq!(one.to_json_string(), "{\"n\":1,\"grid\":[[1]]}");
}
