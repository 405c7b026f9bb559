use sudoku::verify::write_puzzle_to_json;
use sudoku::verify::SudokuHandler;
use sudoku::Sudoku;

fn board_from(text: &str) -> Sudoku {
    let mut cells: Vec<u8> = Vec::new();
    for ch in text.chars() {
        match ch {
            '.' | '0' => cells.push(0),
            '1'..='9' => cells.push(ch as u8 - b'0'),
            _ => {}
        }
    }
    Sudoku::from_cells(cells).expect("malformed board text")
}

const SOLUTION: &str =
    "219478563568913247347562189685237914971645832423189675132854796854796321796321458";

#[test]
fn json_of_empty_board() {
    let body = write_puzzle_to_json(&Sudoku::new());
    let expected = "{\"content\": [[0,0,0,0,0,0,0,0,0], [0,0,0,0,0,0,0,0,0], [0,0,0,0,0,0,0,0,0], [0,0,0,0,0,0,0,0,0], [0,0,0,0,0,0,0,0,0], [0,0,0,0,0,0,0,0,0], [0,0,0,0,0,0,0,0,0], [0,0,0,0,0,0,0,0,0], [0,0,0,0,0,0,0,0,0]]}";
    assert_eq!(String::from_utf8(body).unwrap(), expected);
}

#[test]
fn json_of_solved_board() {
    let body = write_puzzle_to_json(&board_from(SOLUTION));
    let expected = "{\"content\": [[2,1,9,4,7,8,5,6,3], [5,6,8,9,1,3,2,4,7], [3,4,7,5,6,2,1,8,9], [6,8,5,2,3,7,9,1,4], [9,7,1,6,4,5,8,3,2], [4,2,3,1,8,9,6,7,5], [1,3,2,8,5,4,7,9,6], [8,5,4,7,9,6,3,2,1], [7,9,6,3,2,1,4,5,8]]}";
    assert_eq!(String::from_utf8(body).unwrap(), expected);
}

#[test]
fn json_body_length_is_fixed() {
    assert_eq!(write_puzzle_to_json(&Sudoku::new()).len(), 202);
    assert_eq!(write_puzzle_to_json(&board_from(SOLUTION)).len(), 202);
}

#[test]
fn handler_starts_unverified() {
    let h = SudokuHandler::new(Sudoku::new());
    assert!(!h.result);
}

#[test]
fn handler_accepts_exactly_the_byte_one() {
    let mut h = SudokuHandler::new(board_from(SOLUTION));
    let n = h.handle_response(&b"1".to_vec());
    assert_eq!(n, 1);
    assert!(h.result);

    let n = h.handle_response(&b"0".to_vec());
    assert_eq!(n, 1);
    assert!(!h.result);

    let n = h.handle_response(&b"11".to_vec());
    assert_eq!(n, 2);
    assert!(!h.result);

    let n = h.handle_response(&Vec::new());
    assert_eq!(n, 0);
    assert!(!h.result);
}

#[test]
fn request_body_matches_serializer() {
    let b = board_from(SOLUTION);
    let h = SudokuHandler::new(board_from(SOLUTION));
    assert_eq!(h.request_body(), write_puzzle_to_json(&b));
}
