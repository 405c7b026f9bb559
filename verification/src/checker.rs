use vstd::prelude::*;

use crate::board::at;
use crate::board::complete;
use crate::board::consistent;
use crate::board::grid_num;
use crate::board::in_range;
use crate::board::shares_unit;
use crate::board::solved;
use crate::board::Sudoku;

verus! {

/// Checks from scratch that the board is a solved Sudoku: every cell is
/// filled, and no row, column or subgrid repeats a digit. Shares no state
/// with the solver: it rescans the board, so it can serve as an
/// independent oracle on a solver result.
pub fn check_puzzle(board: &Sudoku) -> (ok: bool)
    requires
        board.wf(),
    ensures
        ok == solved(board@),
{
    let mut i: usize = 0;
    while i < 81
        invariant
            board.wf(),
            i <= 81,
            forall|r2: int, c2: int| #![trigger at(board@, r2, c2)]
                in_range(r2, c2) && r2 * 9 + c2 < i ==> 1 <= at(board@, r2, c2) <= 9,
        decreases 81 - i,
    {
        let r = i / 9;
        let c = i % 9;
        proof {
            assert(r * 9 + c == i);
            assert(in_range(r as int, c as int));
        }
        if board.get(r, c) == 0 {
            proof {
                assert(!complete(board@));
            }
            return false;
        }
        proof {
            assert forall|r2: int, c2: int|
                in_range(r2, c2) && r2 * 9 + c2 < i + 1
                implies 1 <= at(board@, r2, c2) <= 9 by {
                if r2 * 9 + c2 == i {
                    assert(r2 == r as int && c2 == c as int);
                }
            }
        }
        i += 1;
    }
    let mut i: usize = 0;
    while i < 81
        invariant
            board.wf(),
            complete(board@),
            i <= 81,
            forall|r1: int, c1: int, r2: int, c2: int|
                #![trigger at(board@, r1, c1), at(board@, r2, c2)]
                in_range(r1, c1) && in_range(r2, c2) && !(r1 == r2 && c1 == c2)
                    && shares_unit(r1, c1, r2, c2) && r1 * 9 + c1 < i
                    ==> at(board@, r1, c1) != at(board@, r2, c2),
        decreases 81 - i,
    {
        let r1 = i / 9;
        let c1 = i % 9;
        proof {
            assert(r1 * 9 + c1 == i);
            assert(in_range(r1 as int, c1 as int));
        }
        let d1 = board.get(r1, c1);
        let mut j: usize = 0;
        while j < 81
            invariant
                board.wf(),
                complete(board@),
                i < 81,
                j <= 81,
                r1 == i / 9,
                c1 == i % 9,
                r1 < 9,
                c1 < 9,
                d1 == at(board@, r1 as int, c1 as int),
                forall|r1a: int, c1a: int, r2: int, c2: int|
                    #![trigger at(board@, r1a, c1a), at(board@, r2, c2)]
                    in_range(r1a, c1a) && in_range(r2, c2) && !(r1a == r2 && c1a == c2)
                        && shares_unit(r1a, c1a, r2, c2) && r1a * 9 + c1a < i
                        ==> at(board@, r1a, c1a) != at(board@, r2, c2),
                forall|r2: int, c2: int| #![trigger at(board@, r2, c2)]
                    in_range(r2, c2) && !(r2 == r1 as int && c2 == c1 as int)
                        && shares_unit(r1 as int, c1 as int, r2, c2) && r2 * 9 + c2 < j
                        ==> at(board@, r2, c2) != d1,
            decreases 81 - j,
        {
            let r2 = j / 9;
            let c2 = j % 9;
            proof {
                assert(r2 * 9 + c2 == j);
                assert(in_range(r2 as int, c2 as int));
            }
            if i != j {
                let shares = r1 == r2 || c1 == c2 || grid_num(r1, c1) == grid_num(r2, c2);
                if shares && board.get(r2, c2) == d1 {
                    proof {
                        assert(!(r2 as int == r1 as int && c2 as int == c1 as int));
                        if consistent(board@) {
                            assert(at(board@, r1 as int, c1 as int) != at(board@, r2 as int, c2 as int));
                        }
                    }
                    return false;
                }
            }
            proof {
                assert forall|r2a: int, c2a: int|
                    in_range(r2a, c2a) && !(r2a == r1 as int && c2a == c1 as int)
                        && shares_unit(r1 as int, c1 as int, r2a, c2a) && r2a * 9 + c2a < j + 1
                    implies at(board@, r2a, c2a) != d1 by {
                    if r2a * 9 + c2a == j {
                        assert(r2a == r2 as int && c2a == c2 as int);
                    }
                }
            }
            j += 1;
        }
        proof {
            assert forall|r1a: int, c1a: int, r2: int, c2: int|
                in_range(r1a, c1a) && in_range(r2, c2) && !(r1a == r2 && c1a == c2)
                    && shares_unit(r1a, c1a, r2, c2) && r1a * 9 + c1a < i + 1
                implies at(board@, r1a, c1a) != at(board@, r2, c2) by {
                if r1a * 9 + c1a == i {
                    assert(r1a == r1 as int && c1a == c1 as int);
                    assert(r2 * 9 + c2 < 81);
                }
            }
        }
        i += 1;
    }
    proof {
        assert(consistent(board@));
    }
    true
}

} // verus!
