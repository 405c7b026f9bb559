use vstd::prelude::*;

use crate::board::at;
use crate::board::Sudoku;

verus! {

// The verification client POSTs a solved board to a remote server as the
// JSON object {"content": [[9 ints], ... 9 rows ...]}, 0 standing for an
// empty cell, and takes a response body of exactly "1" as "verified".
// Building the request body and reading the response are pure and live
// here; the HTTP transport itself is no concern of this crate.

/// The ASCII digit for a cell value 0..=9.
pub open spec fn digit_byte(v: u8) -> u8 {
    (48 + v) as u8
}

/// The first n cells of row r, as ASCII digits separated by commas.
pub open spec fn row_cells_bytes(s: Seq<u8>, r: int, n: int) -> Seq<u8>
    decreases n,
{
    if n <= 0 {
        Seq::empty()
    } else if n == 1 {
        seq![digit_byte(at(s, r, 0))]
    } else {
        row_cells_bytes(s, r, n - 1) + seq![44u8, digit_byte(at(s, r, n - 1))]
    }
}

/// Row r of the board as a JSON array of nine integers.
pub open spec fn json_row(s: Seq<u8>, r: int) -> Seq<u8> {
    seq![91u8] + row_cells_bytes(s, r, 9) + seq![93u8]
}

/// The first n rows of the board as JSON arrays, separated by ", ".
pub open spec fn json_rows(s: Seq<u8>, n: int) -> Seq<u8>
    decreases n,
{
    if n <= 0 {
        Seq::empty()
    } else if n == 1 {
        json_row(s, 0)
    } else {
        json_rows(s, n - 1) + seq![44u8, 32u8] + json_row(s, n - 1)
    }
}

/// The bytes of the opening text {"content": [ of the request body.
pub open spec fn json_header() -> Seq<u8> {
    seq![123u8, 34u8, 99u8, 111u8, 110u8, 116u8, 101u8, 110u8, 116u8, 34u8, 58u8, 32u8, 91u8]
}

/// The whole JSON request body for a board.
pub open spec fn puzzle_json(s: Seq<u8>) -> Seq<u8> {
    json_header() + json_rows(s, 9) + seq![93u8, 125u8]
}

proof fn lemma_row_cells_bytes_len(s: Seq<u8>, r: int, n: int)
    requires
        0 <= n <= 9,
    ensures
        row_cells_bytes(s, r, n).len() == if n == 0 { 0int } else { 2 * n - 1 },
    decreases n,
{
    if n > 1 {
        lemma_row_cells_bytes_len(s, r, n - 1);
    }
}

proof fn lemma_json_rows_len(s: Seq<u8>, n: int)
    requires
        0 <= n <= 9,
    ensures
        json_rows(s, n).len() == if n == 0 { 0int } else { 21 * n - 2 },
    decreases n,
{
    if n >= 1 {
        lemma_row_cells_bytes_len(s, n - 1, 9);
        lemma_json_rows_len(s, n - 1);
    }
}

/// The request body has the same length for every board: 202 bytes.
pub proof fn lemma_puzzle_json_len(s: Seq<u8>)
    ensures
        puzzle_json(s).len() == 202,
{
    lemma_json_rows_len(s, 9);
}

/// Serializes a board as the verification server's JSON request body:
/// {"content": [[...], ..., [...]]} with the 81 cell values row by row.
pub fn write_puzzle_to_json(puzzle: &Sudoku) -> (out: Vec<u8>)
    requires
        puzzle.wf(),
    ensures
        out@ == puzzle_json(puzzle@),
{
    let mut out: Vec<u8> = Vec::new();
    out.push(123);
    out.push(34);
    out.push(99);
    out.push(111);
    out.push(110);
    out.push(116);
    out.push(101);
    out.push(110);
    out.push(116);
    out.push(34);
    out.push(58);
    out.push(32);
    out.push(91);
    proof {
        assert(out@ =~= json_header());
        assert(out@ =~= json_header() + json_rows(puzzle@, 0));
    }
    let mut r: usize = 0;
    while r < 9
        invariant
            puzzle.wf(),
            r <= 9,
            out@ == json_header() + json_rows(puzzle@, r as int),
        decreases 9 - r,
    {
        let ghost rows_done = out@;
        if r > 0 {
            out.push(44);
            out.push(32);
        }
        out.push(91);
        let ghost base = out@;
        let mut c: usize = 0;
        while c < 9
            invariant
                puzzle.wf(),
                r < 9,
                c <= 9,
                out@ == base + row_cells_bytes(puzzle@, r as int, c as int),
            decreases 9 - c,
        {
            let ghost sofar = out@;
            if c > 0 {
                out.push(44);
            }
            let d = puzzle.get(r, c);
            out.push(48 + d);
            proof {
                if c == 0 {
                    assert(out@ =~= base + row_cells_bytes(puzzle@, r as int, 1));
                } else {
                    assert(out@ =~= sofar + seq![44u8, digit_byte(at(puzzle@, r as int, c as int))]);
                    assert(out@ =~= base + row_cells_bytes(puzzle@, r as int, c as int + 1));
                }
            }
            c += 1;
        }
        out.push(93);
        proof {
            assert(out@ =~= base + row_cells_bytes(puzzle@, r as int, 9) + seq![93u8]);
            if r == 0 {
                assert(out@ =~= json_header() + json_rows(puzzle@, 1));
            } else {
                assert(base =~= rows_done + seq![44u8, 32u8] + seq![91u8]);
                assert(out@ =~= json_header() + json_rows(puzzle@, r as int) + seq![44u8, 32u8]
                    + json_row(puzzle@, r as int));
                assert(out@ =~= json_header() + json_rows(puzzle@, r as int + 1));
            }
        }
        r += 1;
    }
    out.push(93);
    out.push(125);
    proof {
        assert(out@ =~= puzzle_json(puzzle@));
    }
    out
}

/// The per-request state of the verification client: the board being
/// submitted and whether the server has confirmed it.
pub struct SudokuHandler {
    pub result: bool,
    pub puzzle: Sudoku,
}

impl SudokuHandler {
    /// A fresh handler for one board, with no confirmation yet.
    pub fn new(puzzle: Sudoku) -> (h: SudokuHandler)
        requires
            puzzle.wf(),
        ensures
            h.result == false,
            h.puzzle == puzzle,
    {
        SudokuHandler { puzzle, result: false }
    }

    /// Reads a response body from the server: exactly the single byte '1'
    /// means the board was verified. Returns how many bytes were consumed,
    /// which is all of them.
    pub fn handle_response(&mut self, data: &Vec<u8>) -> (n: usize)
        ensures
            final(self).result == (data@ == seq![49u8]),
            final(self).puzzle == old(self).puzzle,
            n == data@.len(),
    {
        self.result = data.len() == 1 && data[0] == 49;
        proof {
            if data@.len() == 1 && data@[0] == 49 {
                assert(data@ =~= seq![49u8]);
            }
        }
        data.len()
    }

    /// The JSON request body for this handler's board.
    pub fn request_body(&self) -> (out: Vec<u8>)
        requires
            self.puzzle.wf(),
        ensures
            out@ == puzzle_json(self.puzzle@),
    {
        write_puzzle_to_json(&self.puzzle)
    }
}

} // verus!
