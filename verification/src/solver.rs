use vstd::prelude::*;

use crate::board::at;
use crate::board::completion_of;
use crate::board::consistent;
use crate::board::extends;
use crate::board::grid_num;
use crate::board::in_range;
use crate::board::lemma_cells_equal;
use crate::board::lex_ge_from;
use crate::board::lemma_div3_decomp;
use crate::board::lemma_subgrid_bounds;
use crate::board::placeable;
use crate::board::shares_unit;
use crate::board::solved;
use crate::board::subgrid;
use crate::board::Sudoku;

verus! {

/// The outcome of a solve call: the board was completed; the board admits
/// no completion; or the given clues already break a Sudoku constraint.
#[derive(Clone, Copy, PartialEq, Eq, Debug)]
pub enum SolveOutcome {
    Solved,
    Unsolvable,
    InvalidInput,
}

/// Whether digit d may be placed at (r, c): scans the cell's row, column
/// and subgrid, ignoring the cell itself.
fn can_place(board: &Sudoku, r: usize, c: usize, d: u8) -> (ok: bool)
    requires
        board.wf(),
        r < 9,
        c < 9,
        1 <= d <= 9,
    ensures
        ok == placeable(board@, r as int, c as int, d),
{
    let g = grid_num(r, c);
    let gr = (g / 3) * 3;
    let gc = (g % 3) * 3;
    let mut k: usize = 0;
    while k < 9
        invariant
            board.wf(),
            r < 9,
            c < 9,
            1 <= d <= 9,
            k <= 9,
            g as int == subgrid(r as int, c as int),
            g < 9,
            gr == (g / 3) * 3,
            gc == (g % 3) * 3,
            forall|r2: int, c2: int|
                #![trigger at(board@, r2, c2)]
                r2 == r as int && 0 <= c2 < k && c2 != c as int ==> at(board@, r2, c2) != d,
            forall|r2: int, c2: int|
                #![trigger at(board@, r2, c2)]
                c2 == c as int && 0 <= r2 < k && r2 != r as int ==> at(board@, r2, c2) != d,
            forall|r2: int, c2: int|
                #![trigger at(board@, r2, c2)]
                in_range(r2, c2) && subgrid(r2, c2) == g as int && !(r2 == r as int && c2 == c as int)
                    && (r2 - gr as int) * 3 + (c2 - gc as int) < k
                    ==> at(board@, r2, c2) != d,
        decreases 9 - k,
    {
        if k != c && board.get(r, k) == d {
            return false;
        }
        if k != r && board.get(k, c) == d {
            return false;
        }
        let rr = gr + k / 3;
        let cc = gc + k % 3;
        proof {
            lemma_div3_decomp(rr as int, g as int / 3, k as int / 3);
            lemma_div3_decomp(cc as int, g as int % 3, k as int % 3);
            assert(subgrid(rr as int, cc as int) == g as int);
        }
        if (rr != r || cc != c) && board.get(rr, cc) == d {
            return false;
        }
        proof {
            assert forall|r2: int, c2: int|
                in_range(r2, c2) && subgrid(r2, c2) == g as int && !(r2 == r as int && c2 == c as int)
                    && (r2 - gr as int) * 3 + (c2 - gc as int) < k + 1
                implies at(board@, r2, c2) != d by {
                if (r2 - gr as int) * 3 + (c2 - gc as int) == k as int {
                    lemma_subgrid_bounds(r2, c2);
                    lemma_div3_decomp(k as int, r2 - gr as int, c2 - gc as int);
                    assert(r2 == rr as int && c2 == cc as int);
                }
            }
        }
        k += 1;
    }
    proof {
        assert forall|r2: int, c2: int|
            in_range(r2, c2) && !(r2 == r as int && c2 == c as int)
                && shares_unit(r as int, c as int, r2, c2)
            implies at(board@, r2, c2) != d by {
            if r2 == r as int {
                assert(at(board@, r2, c2) != d);
            } else if c2 == c as int {
                assert(at(board@, r2, c2) != d);
            } else {
                lemma_subgrid_bounds(r2, c2);
                assert(0 <= (r2 - gr as int) * 3 + (c2 - gc as int) < 9);
                assert(at(board@, r2, c2) != d);
            }
        }
    }
    true
}

/// A board all of whose filled cells could be placed where they stand is
/// free of duplicates.
proof fn lemma_all_placeable_consistent(s: Seq<u8>)
    requires
        s.len() == 81,
        forall|r: int, c: int| #![trigger at(s, r, c)]
            in_range(r, c) && at(s, r, c) != 0 ==> placeable(s, r, c, at(s, r, c)),
    ensures
        consistent(s),
{
    assert forall|r1: int, c1: int, r2: int, c2: int|
        in_range(r1, c1) && in_range(r2, c2) && !(r1 == r2 && c1 == c2)
            && shares_unit(r1, c1, r2, c2) && at(s, r1, c1) != 0
        implies at(s, r1, c1) != at(s, r2, c2) by {
        assert(placeable(s, r1, c1, at(s, r1, c1)));
    }
}

/// A filled cell whose digit occurs again in its row, column or subgrid
/// witnesses an inconsistent board.
proof fn lemma_unplaceable_inconsistent(s: Seq<u8>, r: int, c: int)
    requires
        s.len() == 81,
        in_range(r, c),
        at(s, r, c) != 0,
        !placeable(s, r, c, at(s, r, c)),
    ensures
        !consistent(s),
{
    let (r2, c2) = choose|r2: int, c2: int|
        in_range(r2, c2) && !(r2 == r && c2 == c) && shares_unit(r, c, r2, c2)
            && at(s, r2, c2) == at(s, r, c);
    if consistent(s) {
        assert(at(s, r, c) != at(s, r2, c2));
    }
}

/// Placing a fitting digit in an empty cell keeps the board free of
/// duplicates. s2 is s with digit d written at (r, c).
proof fn lemma_place_consistent(s: Seq<u8>, s2: Seq<u8>, r: int, c: int, d: u8)
    requires
        s.len() == 81,
        s2.len() == 81,
        consistent(s),
        in_range(r, c),
        at(s, r, c) == 0,
        1 <= d <= 9,
        placeable(s, r, c, d),
        at(s2, r, c) == d,
        forall|r2: int, c2: int| #![trigger at(s2, r2, c2)]
            in_range(r2, c2) && !(r2 == r && c2 == c) ==> at(s2, r2, c2) == at(s, r2, c2),
    ensures
        consistent(s2),
{
    assert forall|r1: int, c1: int, r2: int, c2: int|
        in_range(r1, c1) && in_range(r2, c2) && !(r1 == r2 && c1 == c2)
            && shares_unit(r1, c1, r2, c2) && at(s2, r1, c1) != 0
        implies at(s2, r1, c1) != at(s2, r2, c2) by {
        if r1 == r && c1 == c {
            assert(at(s2, r2, c2) == at(s, r2, c2));
            assert(at(s, r2, c2) != d);
        } else if r2 == r && c2 == c {
            assert(at(s2, r1, c1) == at(s, r1, c1));
            assert(at(s, r1, c1) != d);
        } else {
            assert(at(s2, r1, c1) == at(s, r1, c1));
            assert(at(s2, r2, c2) == at(s, r2, c2));
        }
    }
}

/// A solution of a puzzle fills each empty cell with a digit that fits
/// there: placing that digit breaks no constraint of the puzzle.
proof fn lemma_completion_digit(t: Seq<u8>, s: Seq<u8>, r: int, c: int)
    requires
        s.len() == 81,
        completion_of(t, s),
        in_range(r, c),
        at(s, r, c) == 0,
    ensures
        1 <= at(t, r, c) <= 9,
        placeable(s, r, c, at(t, r, c)),
{
    let d = at(t, r, c);
    assert forall|r2: int, c2: int|
        in_range(r2, c2) && !(r2 == r && c2 == c) && shares_unit(r, c, r2, c2)
        implies at(s, r2, c2) != d by {
        if at(s, r2, c2) != 0 {
            assert(at(t, r2, c2) == at(s, r2, c2));
            if at(s, r2, c2) == d {
                assert(at(t, r2, c2) != at(t, r, c));
            }
        }
    }
}

/// A solution of puzzle s that holds digit d at the empty cell (r, c) is
/// also a solution of s with d written at (r, c).
proof fn lemma_completion_place(t: Seq<u8>, s: Seq<u8>, s2: Seq<u8>, r: int, c: int, d: u8)
    requires
        s.len() == 81,
        s2.len() == 81,
        completion_of(t, s),
        in_range(r, c),
        at(s, r, c) == 0,
        at(t, r, c) == d,
        at(s2, r, c) == d,
        forall|r2: int, c2: int| #![trigger at(s2, r2, c2)]
            in_range(r2, c2) && !(r2 == r && c2 == c) ==> at(s2, r2, c2) == at(s, r2, c2),
    ensures
        completion_of(t, s2),
{
    assert forall|r2: int, c2: int|
        in_range(r2, c2) && at(s2, r2, c2) != 0 implies at(t, r2, c2) == at(s2, r2, c2) by {
        if !(r2 == r && c2 == c) {
            assert(at(s2, r2, c2) == at(s, r2, c2));
        }
    }
}

/// Any board obtained from a solved board t by blanking an arbitrary
/// subset of its cells is a consistent puzzle that t still completes.
/// With the solve contract this means such a puzzle always solves: the
/// solver answers Solved on every board derivable that way.
pub proof fn lemma_blanked_board_solvable(t: Seq<u8>, s: Seq<u8>)
    requires
        solved(t),
        s.len() == 81,
        forall|r: int, c: int| #![trigger at(s, r, c)]
            in_range(r, c) ==> at(s, r, c) == at(t, r, c) || at(s, r, c) == 0,
    ensures
        consistent(s),
        completion_of(t, s),
{
    assert forall|r1: int, c1: int, r2: int, c2: int|
        in_range(r1, c1) && in_range(r2, c2) && !(r1 == r2 && c1 == c2)
            && shares_unit(r1, c1, r2, c2) && at(s, r1, c1) != 0
        implies at(s, r1, c1) != at(s, r2, c2) by {
        assert(at(s, r1, c1) == at(t, r1, c1));
        assert(1 <= at(t, r1, c1) <= 9);
        if at(s, r2, c2) != 0 {
            assert(at(s, r2, c2) == at(t, r2, c2));
            assert(at(t, r1, c1) != at(t, r2, c2));
        }
    }
}

/// Depth-first search from cell position pos (row-major), every earlier
/// cell being already filled. On success the board holds a solution of
/// the board as it was given; on failure the board is exactly as given,
/// and the given board admits no solution at all.
fn solve_sudoku_from(board: &mut Sudoku, pos: usize) -> (found: bool)
    requires
        old(board).wf(),
        consistent(old(board)@),
        pos <= 81,
        forall|r2: int, c2: int| #![trigger at(old(board)@, r2, c2)]
            in_range(r2, c2) && r2 * 9 + c2 < pos ==> at(old(board)@, r2, c2) != 0,
    ensures
        final(board).wf(),
        found ==> solved(final(board)@) && extends(final(board)@, old(board)@),
        !found ==> final(board)@ == old(board)@,
        (exists|t: Seq<u8>| completion_of(t, old(board)@)) ==> found,
        found ==> forall|t: Seq<u8>| #![trigger completion_of(t, old(board)@)]
            completion_of(t, old(board)@) ==> lex_ge_from(t, final(board)@, pos as int),
    decreases 81 - pos,
{
    if pos == 81 {
        proof {
            assert forall|r2: int, c2: int| in_range(r2, c2)
                implies 1 <= at(board@, r2, c2) <= 9 by {
                assert(r2 * 9 + c2 < 81);
                assert(at(board@, r2, c2) != 0);
            }
        }
        return true;
    }
    let r = pos / 9;
    let c = pos % 9;
    proof {
        assert(r * 9 + c == pos);
        assert(in_range(r as int, c as int));
    }
    let d0 = board.get(r, c);
    if d0 != 0 {
        proof {
            assert forall|r2: int, c2: int|
                in_range(r2, c2) && r2 * 9 + c2 < pos + 1
                implies at(board@, r2, c2) != 0 by {
                if r2 * 9 + c2 == pos {
                    assert(r2 == r as int && c2 == c as int);
                }
            }
        }
        let found = solve_sudoku_from(board, pos + 1);
        proof {
            if found {
                assert forall|t: Seq<u8>| completion_of(t, old(board)@)
                    implies lex_ge_from(t, board@, pos as int) by {
                    assert(lex_ge_from(t, board@, pos as int + 1));
                    assert(at(t, r as int, c as int) == d0);
                    assert(at(board@, r as int, c as int) == d0);
                }
            }
        }
        return found;
    }
    let ghost s0 = board@;
    let mut d: u8 = 1;
    while d <= 9
        invariant
            board.wf(),
            board@ == s0,
            old(board)@ == s0,
            consistent(s0),
            pos < 81,
            r == pos / 9,
            c == pos % 9,
            r < 9,
            c < 9,
            at(s0, r as int, c as int) == 0,
            forall|r2: int, c2: int| #![trigger at(s0, r2, c2)]
                in_range(r2, c2) && r2 * 9 + c2 < pos ==> at(s0, r2, c2) != 0,
            1 <= d <= 10,
            forall|t: Seq<u8>| #![trigger completion_of(t, s0)]
                completion_of(t, s0) ==> at(t, r as int, c as int) >= d,
        decreases 10 - d,
    {
        if can_place(board, r, c, d) {
            board.set(r, c, d);
            proof {
                lemma_place_consistent(s0, board@, r as int, c as int, d);
                assert forall|r2: int, c2: int|
                    in_range(r2, c2) && r2 * 9 + c2 < pos + 1
                    implies at(board@, r2, c2) != 0 by {
                    if r2 * 9 + c2 == pos {
                        assert(r2 == r as int && c2 == c as int);
                    } else {
                        assert(!(r2 == r as int && c2 == c as int));
                        assert(at(board@, r2, c2) == at(s0, r2, c2));
                    }
                }
            }
            let ghost s1 = board@;
            let sub = solve_sudoku_from(board, pos + 1);
            if sub {
                proof {
                    assert forall|r2: int, c2: int|
                        in_range(r2, c2) && at(s0, r2, c2) != 0
                        implies at(board@, r2, c2) == at(s0, r2, c2) by {
                        assert(!(r2 == r as int && c2 == c as int));
                        assert(at(s1, r2, c2) == at(s0, r2, c2));
                    }
                    assert forall|t: Seq<u8>| completion_of(t, s0)
                        implies lex_ge_from(t, board@, pos as int) by {
                        assert(at(t, r as int, c as int) >= d);
                        assert(at(s1, r as int, c as int) == d);
                        assert(at(board@, r as int, c as int) == d);
                        if at(t, r as int, c as int) == d {
                            lemma_completion_place(t, s0, s1, r as int, c as int, d);
                            assert(completion_of(t, s1));
                            assert(lex_ge_from(t, board@, pos as int + 1));
                        }
                    }
                }
                return true;
            }
            board.set(r, c, 0);
            proof {
                assert forall|r2: int, c2: int| in_range(r2, c2)
                    implies at(board@, r2, c2) == at(s0, r2, c2) by {
                    if !(r2 == r as int && c2 == c as int) {
                        assert(at(board@, r2, c2) == at(s1, r2, c2));
                        assert(at(s1, r2, c2) == at(s0, r2, c2));
                    }
                }
                lemma_cells_equal(board@, s0);
                assert forall|t: Seq<u8>| completion_of(t, s0)
                    implies at(t, r as int, c as int) >= d + 1 by {
                    assert(at(t, r as int, c as int) >= d);
                    if at(t, r as int, c as int) == d {
                        lemma_completion_place(t, s0, s1, r as int, c as int, d);
                        assert(completion_of(t, s1));
                        assert(false);
                    }
                }
            }
        } else {
            proof {
                assert forall|t: Seq<u8>| completion_of(t, s0)
                    implies at(t, r as int, c as int) >= d + 1 by {
                    assert(at(t, r as int, c as int) >= d);
                    if at(t, r as int, c as int) == d {
                        lemma_completion_digit(t, s0, r as int, c as int);
                        assert(placeable(s0, r as int, c as int, d));
                        assert(false);
                    }
                }
            }
        }
        d = d + 1;
    }
    proof {
        assert forall|t: Seq<u8>| !completion_of(t, s0) by {
            if completion_of(t, s0) {
                assert(at(t, r as int, c as int) >= 10);
                assert(1 <= at(t, r as int, c as int) <= 9);
            }
        }
    }
    false
}

/// Solves the board in place by exhaustive backtracking over the cells in
/// row-major order, trying digits in ascending order. Rejects a board whose
/// given clues already repeat a digit in a row, column or subgrid; reports
/// failure, leaving the board untouched, when no completion exists; and
/// otherwise completes the board into a solved one that keeps every clue.
/// The fixed cell and digit order pins which solution an under-constrained
/// board gets: the least one in row-major digit order.
pub fn solve_puzzle(board: &mut Sudoku) -> (outcome: SolveOutcome)
    requires
        old(board).wf(),
    ensures
        final(board).wf(),
        (outcome == SolveOutcome::InvalidInput) <==> !consistent(old(board)@),
        outcome != SolveOutcome::Solved ==> final(board)@ == old(board)@,
        outcome == SolveOutcome::Solved ==> solved(final(board)@) && extends(final(board)@, old(board)@),
        consistent(old(board)@) && (exists|t: Seq<u8>| completion_of(t, old(board)@))
            ==> outcome == SolveOutcome::Solved,
        outcome == SolveOutcome::Solved ==> forall|t: Seq<u8>|
            #![trigger completion_of(t, old(board)@)]
            completion_of(t, old(board)@) ==> lex_ge_from(t, final(board)@, 0),
{
    let mut p: usize = 0;
    while p < 81
        invariant
            board.wf(),
            board@ == old(board)@,
            p <= 81,
            forall|r2: int, c2: int| #![trigger at(board@, r2, c2)]
                in_range(r2, c2) && r2 * 9 + c2 < p && at(board@, r2, c2) != 0
                    ==> placeable(board@, r2, c2, at(board@, r2, c2)),
        decreases 81 - p,
    {
        let r = p / 9;
        let c = p % 9;
        proof {
            assert(r * 9 + c == p);
            assert(in_range(r as int, c as int));
        }
        let d = board.get(r, c);
        if d != 0 && !can_place(board, r, c, d) {
            proof {
                lemma_unplaceable_inconsistent(board@, r as int, c as int);
            }
            return SolveOutcome::InvalidInput;
        }
        proof {
            assert forall|r2: int, c2: int|
                in_range(r2, c2) && r2 * 9 + c2 < p + 1 && at(board@, r2, c2) != 0
                implies placeable(board@, r2, c2, at(board@, r2, c2)) by {
                if r2 * 9 + c2 == p {
                    assert(r2 == r as int && c2 == c as int);
                }
            }
        }
        p += 1;
    }
    proof {
        lemma_all_placeable_consistent(board@);
    }
    let found = solve_sudoku_from(board, 0);
    if found {
        SolveOutcome::Solved
    } else {
        SolveOutcome::Unsolvable
    }
}

} // verus!
