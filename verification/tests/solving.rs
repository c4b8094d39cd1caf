use std::str::FromStr;

use rand::rngs::StdRng;
use rand::SeedableRng;
use sudoku::{
    arrange_latin, count_solutions, gen_solved, make_puzzle_clues, solve, strip_clues, Board,
    Model, NoopModel,
};

fn make_puzzle_ratio(solved: &Board, ratio: f32, enforce_unique: bool, rng: &mut StdRng) -> Board {
    let n2 = (solved.n * solved.n) as f32;
    let clues = (ratio.clamp(0.0, 1.0) * n2).round() as usize;
    make_puzzle_clues(solved, clues, enforce_unique, rng)
}

fn extends(puzzle: &Board, sol: &Board) -> bool {
    puzzle.cells.iter().zip(sol.cells.iter()).all(|(&p, &s)| p == 0 || p == s)
}

#[test]
fn solves_simple() {
    // 3x3 Latin puzzle
    let puzzle = ".2.\n..3\n1..";
    let b = Board::from_str(puzzle).unwrap();
    let solved = solve(b).unwrap();
    assert!(solved.is_complete());
    assert!(solved.is_consistent());
}

#[test]
fn solution_extends_puzzle() {
    let b = Board::from_str(".2.\n..3\n1..").unwrap();
    let s = solve(b.clone()).unwrap();
    assert!(extends(&b, &s));
    assert_eq!(s.cells, vec![3, 2, 1, 2, 1, 3, 1, 3, 2]);
}

#[test]
fn unsolvable_and_inconsistent() {
    let b = Board { n: 2, cells: vec![1, 0, 0, 2] };
    assert!(b.is_consistent());
    assert!(solve(b.clone()).is_none());
    assert_eq!(count_solutions(b, 5), 0);
    let bad = Board { n: 2, cells: vec![1, 1, 0, 0] };
    assert!(solve(bad.clone()).is_none());
    assert_eq!(count_solutions(bad, 5), 0);
}

#[test]
fn counts_latin_squares() {
    assert_eq!(count_solutions(Board::new(1).unwrap(), 10), 1);
    assert_eq!(count_solutions(Board::new(2).unwrap(), 10), 2);
    assert_eq!(count_solutions(Board::new(3).unwrap(), 100), 12);
    assert_eq!(count_solutions(Board::new(4).unwrap(), 1000), 576);
    assert_eq!(count_solutions(Board::new(4).unwrap(), 7), 7);
    assert_eq!(count_solutions(Board::new(3).unwrap(), 0), 0);
    // With a zero limit the board is not even looked at.
    assert_eq!(count_solutions(Board { n: 2, cells: vec![9, 9, 9] }, 0), 0);
}

#[test]
fn solve_agrees_with_count() {
    for text in [".2.\n..3\n1..", "1.\n.2", "...\n...\n...", "12\n21"] {
        let b = Board::from_str(text).unwrap();
        assert_eq!(solve(b.clone()).is_some(), count_solutions(b, 1) >= 1);
    }
}

#[test]
fn solution_counts_once() {
    let s = solve(Board::new(4).unwrap()).unwrap();
    assert_eq!(count_solutions(s, 10), 1);
}

#[test]
fn arrange_latin_exact() {
    let b = arrange_latin(3, &vec![2, 3, 1], &vec![1, 0, 2], &vec![0, 2, 1]);
    // cell (rr, cc) holds digits[(rows[rr] + cols[cc]) % 3]
    assert_eq!(b.cells, vec![3, 2, 1, 2, 1, 3, 1, 3, 2]);
    assert!(b.is_complete() && b.is_consistent());
}

#[test]
fn gen_and_puzzle() {
    let mut rng = StdRng::seed_from_u64(42);
    let solved = gen_solved(5, &mut rng);
    assert!(solved.is_complete());
    assert!(solved.is_consistent());
    let puzzle = make_puzzle_ratio(&solved, 0.5, true, &mut rng);
    assert!(puzzle.is_consistent());
}

#[test]
fn generated_square_is_shuffled() {
    let mut rng = StdRng::seed_from_u64(7);
    let solved = gen_solved(6, &mut rng);
    let base: Vec<u32> = (0..36).map(|i| ((i / 6 + i % 6) % 6 + 1) as u32).collect();
    assert_ne!(solved.cells, base);
    assert!(solved.is_complete() && solved.is_consistent());
}

#[test]
fn unique_puzzle_has_the_solved_board_as_only_solution() {
    let mut rng = StdRng::seed_from_u64(3);
    let solved = gen_solved(4, &mut rng);
    let puzzle = make_puzzle_clues(&solved, 0, true, &mut rng);
    assert!(extends(&puzzle, &solved));
    assert_eq!(count_solutions(puzzle.clone(), 2), 1);
    assert_eq!(solve(puzzle).unwrap(), solved);
}

#[test]
fn puzzle_keeps_requested_clues() {
    let mut rng = StdRng::seed_from_u64(11);
    let solved = gen_solved(4, &mut rng);
    let puzzle = make_puzzle_clues(&solved, 10, false, &mut rng);
    let clues = puzzle.cells.iter().filter(|&&d| d != 0).count();
    assert_eq!(clues, 10);
    assert!(solve(puzzle.clone()).is_some());
    assert!(extends(&puzzle, &solved));
}

#[test]
fn strip_clues_in_given_order() {
    let solved = Board { n: 2, cells: vec![1, 2, 2, 1] };
    // any single blank keeps exactly one solution; two blanks in one row do too
    let p = strip_clues(&solved, 2, true, &vec![0, 1, 2, 3]);
    assert_eq!(p.cells, vec![0, 0, 2, 1]);
    let all = strip_clues(&solved, 0, false, &vec![3, 2, 1, 0]);
    assert_eq!(all.cells, vec![0, 0, 0, 0]);
    let none = strip_clues(&solved, 4, true, &vec![0, 1, 2, 3]);
    assert_eq!(none.cells, solved.cells);
}

#[test]
fn noop_model_returns_cells() {
    let b = Board { n: 2, cells: vec![1, 0, 0, 2] };
    assert_eq!(NoopModel.predict(&b), vec![1u8, 0, 0, 2]);
}
