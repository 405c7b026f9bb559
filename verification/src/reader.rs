use vstd::prelude::*;

use crate::board::Sudoku;

verus! {

/// True for the bytes that stand for a puzzle cell in the textual format:
/// the digits '1'..'9' for clues, and '.' for a blank.
pub open spec fn is_cell_byte(b: u8) -> bool {
    b == 46 || (49 <= b <= 57)
}

/// The cell value a puzzle byte stands for: 0 for '.', else its digit.
pub open spec fn cell_byte_value(b: u8) -> u8 {
    if b == 46 {
        0u8
    } else {
        (b - 48) as u8
    }
}

/// The cell values of all puzzle bytes of the input, in order; every other
/// byte is ignored.
pub open spec fn puzzle_cells(s: Seq<u8>) -> Seq<u8>
    decreases s.len(),
{
    if s.len() == 0 {
        Seq::empty()
    } else if is_cell_byte(s[0]) {
        seq![cell_byte_value(s[0])] + puzzle_cells(s.skip(1))
    } else {
        puzzle_cells(s.skip(1))
    }
}

/// Unfolds puzzle_cells one input position at a time.
proof fn lemma_puzzle_cells_split(s: Seq<u8>, j: int)
    requires
        0 <= j < s.len(),
    ensures
        puzzle_cells(s.skip(j)) == if is_cell_byte(s[j]) {
            seq![cell_byte_value(s[j])] + puzzle_cells(s.skip(j + 1))
        } else {
            puzzle_cells(s.skip(j + 1))
        },
{
    assert(s.skip(j).len() == s.len() - j);
    assert(s.skip(j)[0] == s[j]);
    assert(s.skip(j).skip(1) =~= s.skip(j + 1));
}

/// Reads one puzzle out of a block of input text, starting at the given
/// byte offset: collects the next 81 puzzle bytes ('1'..'9' or '.'),
/// ignoring everything else, and returns the board they spell together
/// with the offset just past the last byte used. Returns None when fewer
/// than 81 puzzle bytes remain: the input is exhausted.
pub fn read_puzzle(input: &Vec<u8>, start: usize) -> (r: Option<(Sudoku, usize)>)
    requires
        start <= input@.len(),
    ensures
        (r is None) == (puzzle_cells(input@.skip(start as int)).len() < 81),
        r matches Some((b, end)) ==> {
            &&& start <= end <= input@.len()
            &&& b.wf()
            &&& b@ == puzzle_cells(input@.skip(start as int)).take(81)
            &&& puzzle_cells(input@.skip(end as int)) == puzzle_cells(input@.skip(start as int)).skip(81)
        },
{
    let mut cells: Vec<u8> = Vec::new();
    let mut i: usize = start;
    while i < input.len() && cells.len() < 81
        invariant
            start <= i <= input@.len(),
            cells@.len() <= 81,
            forall|k: int| 0 <= k < cells@.len() ==> cells@[k] <= 9,
            puzzle_cells(input@.skip(start as int)) == cells@ + puzzle_cells(input@.skip(i as int)),
        decreases input@.len() - i,
    {
        let byt = input[i];
        proof {
            lemma_puzzle_cells_split(input@, i as int);
        }
        let ghost oldc = cells@;
        if byt == 46 {
            cells.push(0);
            proof {
                assert(cells@ =~= oldc + seq![cell_byte_value(byt)]);
                assert(oldc + (seq![cell_byte_value(byt)] + puzzle_cells(input@.skip(i as int + 1)))
                    =~= cells@ + puzzle_cells(input@.skip(i as int + 1)));
            }
        } else if 49 <= byt && byt <= 57 {
            cells.push(byt - 48);
            proof {
                assert(cells@ =~= oldc + seq![cell_byte_value(byt)]);
                assert(oldc + (seq![cell_byte_value(byt)] + puzzle_cells(input@.skip(i as int + 1)))
                    =~= cells@ + puzzle_cells(input@.skip(i as int + 1)));
            }
        }
        i += 1;
    }
    if cells.len() == 81 {
        proof {
            let full = puzzle_cells(input@.skip(start as int));
            assert(full == cells@ + puzzle_cells(input@.skip(i as int)));
            assert(full.take(81) =~= cells@);
            assert(full.skip(81) =~= puzzle_cells(input@.skip(i as int)));
        }
        let end = i;
        let board = Sudoku::from_cells(cells);
        Some((board.unwrap(), end))
    } else {
        proof {
            assert(input@.skip(i as int).len() == 0);
            assert(puzzle_cells(input@.skip(i as int)) =~= Seq::<u8>::empty());
            assert(puzzle_cells(input@.skip(start as int)) =~= cells@);
        }
        None
    }
}

} // verus!
