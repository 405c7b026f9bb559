use sudoku::read_puzzle;
use sudoku::Sudoku;

fn text(b: &Sudoku) -> String {
    let mut out = String::new();
    for r in 0..9 {
        for c in 0..9 {
            let d = b.get(r, c);
            out.push(if d == 0 { '.' } else { (d + b'0') as char });
        }
    }
    out
}

const PUZZLE: &str =
    "200000063008910000000500000000000910000000000403000000000004000050006000090020008";

fn with_dots(p: &str) -> String {
    p.chars().map(|ch| if ch == '0' { '.' } else { ch }).collect()
}

#[test]
fn read_puzzle_plain_grid() {
    let input: Vec<u8> = with_dots(PUZZLE).into_bytes();
    let (b, end) = read_puzzle(&input, 0).expect("a full puzzle is present");
    assert_eq!(text(&b), with_dots(PUZZLE));
    assert_eq!(end, 81);
}

#[test]
fn read_puzzle_ignores_other_bytes() {
    let grid = with_dots(PUZZLE);
    let mut formatted = String::from("puzzle:\n");
    for r in 0..9 {
        formatted.push_str(&grid[r * 9..r * 9 + 9]);
        formatted.push('\n');
    }
    let input: Vec<u8> = formatted.into_bytes();
    let (b, end) = read_puzzle(&input, 0).expect("a full puzzle is present");
    assert_eq!(text(&b), grid);
    // consumed the header, nine rows of nine cells, and the eight newlines
    // between them; parsing stops at the 81st cell byte
    assert_eq!(end, 8 + 81 + 8);
}

#[test]
fn read_puzzle_empty_input_is_none() {
    assert!(read_puzzle(&Vec::new(), 0).is_none());
    assert!(read_puzzle(&b"no cells here".to_vec(), 0).is_none());
}

#[test]
fn read_puzzle_short_input_is_none() {
    let input: Vec<u8> = with_dots(PUZZLE).into_bytes()[..80].to_vec();
    assert!(read_puzzle(&input, 0).is_none());
}

#[test]
fn read_puzzle_reads_several_in_turn() {
    let first = with_dots(PUZZLE);
    let second = format!("1{}", ".".repeat(80));
    let mut input_text = first.clone();
    input_text.push('\n');
    input_text.push_str(&second);
    input_text.push('\n');
    let input: Vec<u8> = input_text.into_bytes();

    let (b1, end1) = read_puzzle(&input, 0).expect("first puzzle");
    assert_eq!(text(&b1), first);
    let (b2, end2) = read_puzzle(&input, end1).expect("second puzzle");
    assert_eq!(b2.get(0, 0), 1);
    assert_eq!(b2.get(8, 8), 0);
    assert!(read_puzzle(&input, end2).is_none());
}
