use sudoku::check_puzzle;
use sudoku::solve_puzzle;
use sudoku::SolveOutcome;
use sudoku::Sudoku;

fn board_from(text: &str) -> Sudoku {
    let mut cells: Vec<u8> = Vec::new();
    for ch in text.chars() {
        match ch {
            '.' | '0' => cells.push(0),
            '1'..='9' => cells.push(ch as u8 - b'0'),
            _ => {}
        }
    }
    Sudoku::from_cells(cells).expect("malformed board text")
}

fn board_text(b: &Sudoku) -> String {
    let mut out = String::new();
    for r in 0..9 {
        for c in 0..9 {
            out.push((b.get(r, c) + b'0') as char);
        }
    }
    out
}

// A 17-clue puzzle with a single solution (a symmetry transform of one of
// the classic minimal puzzles, which preserves clue count and uniqueness).
const SEVENTEEN_CLUES: &str =
    "200000063008910000000500000000000910000000000403000000000004000050006000090020008";
const SEVENTEEN_SOLUTION: &str =
    "219478563568913247347562189685237914971645832423189675132854796854796321796321458";

#[test]
fn seventeen_clue_puzzle_solves_to_unique_solution() {
    let mut b = board_from(SEVENTEEN_CLUES);
    let outcome = solve_puzzle(&mut b);
    assert_eq!(outcome, SolveOutcome::Solved);
    assert_eq!(board_text(&b), SEVENTEEN_SOLUTION);
    assert!(check_puzzle(&b));
}

#[test]
fn solve_conserves_clues() {
    let clues = board_from(SEVENTEEN_CLUES);
    let mut b = board_from(SEVENTEEN_CLUES);
    let outcome = solve_puzzle(&mut b);
    assert_eq!(outcome, SolveOutcome::Solved);
    for r in 0..9 {
        for c in 0..9 {
            if clues.get(r, c) != 0 {
                assert_eq!(b.get(r, c), clues.get(r, c));
            }
        }
    }
}

#[test]
fn empty_board_solves_and_validates() {
    let mut b = Sudoku::new();
    let outcome = solve_puzzle(&mut b);
    assert_eq!(outcome, SolveOutcome::Solved);
    assert!(check_puzzle(&b));
    // row-major cell order and ascending digit order fix the result
    assert_eq!(
        board_text(&b),
        "123456789456789123789123456214365897365897214897214365531642978642978531978531642"
    );
}

#[test]
fn solved_board_is_left_unchanged() {
    let mut b = board_from(SEVENTEEN_SOLUTION);
    let outcome = solve_puzzle(&mut b);
    assert_eq!(outcome, SolveOutcome::Solved);
    assert_eq!(board_text(&b), SEVENTEEN_SOLUTION);
}

#[test]
fn blanked_solutions_always_solve() {
    // blanking any subset of a solved board leaves a solvable puzzle
    for step in 2..6 {
        let mut b = board_from(SEVENTEEN_SOLUTION);
        for i in 0..81 {
            if i % step == 0 {
                b.set(i / 9, i % 9, 0);
            }
        }
        let outcome = solve_puzzle(&mut b);
        assert_eq!(outcome, SolveOutcome::Solved);
        assert!(check_puzzle(&b));
    }
}

#[test]
fn duplicate_in_row_is_invalid_input() {
    let mut b = board_from("55...............................................................................");
    let before = board_text(&b);
    let outcome = solve_puzzle(&mut b);
    assert_eq!(outcome, SolveOutcome::InvalidInput);
    assert_eq!(board_text(&b), before);
}

#[test]
fn fully_duplicated_row_is_invalid_input() {
    let mut b = board_from("123456789123456789...............................................................");
    let outcome = solve_puzzle(&mut b);
    assert_eq!(outcome, SolveOutcome::InvalidInput);
}

#[test]
fn duplicate_in_column_is_invalid_input() {
    let mut b = Sudoku::new();
    b.set(0, 4, 3);
    b.set(7, 4, 3);
    let outcome = solve_puzzle(&mut b);
    assert_eq!(outcome, SolveOutcome::InvalidInput);
}

#[test]
fn duplicate_in_subgrid_is_invalid_input() {
    let mut b = Sudoku::new();
    b.set(0, 0, 7);
    b.set(1, 1, 7);
    let outcome = solve_puzzle(&mut b);
    assert_eq!(outcome, SolveOutcome::InvalidInput);
}

#[test]
fn unsolvable_board_is_restored() {
    // row 0 lacks only the digit 9 at (0,8), but column 8 already holds a 9
    let mut b = board_from("12345678.........9...............................................................");
    let before = board_text(&b);
    let outcome = solve_puzzle(&mut b);
    assert_eq!(outcome, SolveOutcome::Unsolvable);
    assert_eq!(board_text(&b), before);
}

#[test]
fn check_puzzle_accepts_a_solution() {
    let b = board_from(SEVENTEEN_SOLUTION);
    assert!(check_puzzle(&b));
}

#[test]
fn check_puzzle_rejects_incomplete_board() {
    let mut b = board_from(SEVENTEEN_SOLUTION);
    b.set(3, 3, 0);
    assert!(!check_puzzle(&b));
    assert!(!check_puzzle(&Sudoku::new()));
}

#[test]
fn check_puzzle_rejects_row_duplicate() {
    let mut b = board_from(SEVENTEEN_SOLUTION);
    // copy a value along row 0: cells (0,0) and (0,5)
    let d = b.get(0, 0);
    b.set(0, 5, d);
    assert!(!check_puzzle(&b));
}

#[test]
fn check_puzzle_rejects_column_duplicate() {
    let mut b = board_from(SEVENTEEN_SOLUTION);
    let d = b.get(2, 6);
    b.set(7, 6, d);
    assert!(!check_puzzle(&b));
}

#[test]
fn check_puzzle_rejects_subgrid_duplicate() {
    let mut b = board_from(SEVENTEEN_SOLUTION);
    // (4,4) and (5,5) share the middle subgrid but no row or column
    let d = b.get(4, 4);
    b.set(5, 5, d);
    assert!(!check_puzzle(&b));
}
