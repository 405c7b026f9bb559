use vstd::prelude::*;

verus! {

// A board is modelled as a sequence of 81 cell values in row-major order.
// A cell value is 0 for an empty cell, or a digit 1..=9.

/// True when (r, c) is a coordinate of the 9x9 grid.
pub open spec fn in_range(r: int, c: int) -> bool {
    0 <= r < 9 && 0 <= c < 9
}

/// The value of cell (r, c) in a row-major board sequence.
pub open spec fn at(s: Seq<u8>, r: int, c: int) -> u8 {
    s[r * 9 + c]
}

/// The 3x3 block that cell (r, c) belongs to, in row-major block order:
/// block 0 is rows 0-2 / cols 0-2, block 1 is rows 0-2 / cols 3-5, ...,
/// block 8 is rows 6-8 / cols 6-8.
pub open spec fn subgrid(r: int, c: int) -> int {
    (r / 3) * 3 + c / 3
}

/// True when the two cells share a row, a column, or a subgrid.
pub open spec fn shares_unit(r1: int, c1: int, r2: int, c2: int) -> bool {
    r1 == r2 || c1 == c2 || subgrid(r1, c1) == subgrid(r2, c2)
}

/// A well-formed board sequence: 81 cells, each empty or a digit 1..=9.
pub open spec fn board_wf(s: Seq<u8>) -> bool {
    &&& s.len() == 81
    &&& forall|r: int, c: int| #![trigger at(s, r, c)] in_range(r, c) ==> at(s, r, c) <= 9
}

/// No two distinct filled cells that share a unit hold the same digit.
pub open spec fn consistent(s: Seq<u8>) -> bool {
    forall|r1: int, c1: int, r2: int, c2: int|
        #![trigger at(s, r1, c1), at(s, r2, c2)]
        in_range(r1, c1) && in_range(r2, c2) && !(r1 == r2 && c1 == c2)
            && shares_unit(r1, c1, r2, c2) && at(s, r1, c1) != 0
            ==> at(s, r1, c1) != at(s, r2, c2)
}

/// Every cell holds a digit 1..=9 (no cell is empty).
pub open spec fn complete(s: Seq<u8>) -> bool {
    forall|r: int, c: int| #![trigger at(s, r, c)] in_range(r, c) ==> 1 <= at(s, r, c) <= 9
}

/// A fully solved board: completely filled and free of duplicates in
/// every row, column and subgrid.
pub open spec fn solved(s: Seq<u8>) -> bool {
    s.len() == 81 && complete(s) && consistent(s)
}

/// Board t agrees with board s on every cell that is filled in s.
pub open spec fn extends(t: Seq<u8>, s: Seq<u8>) -> bool {
    forall|r: int, c: int|
        #![trigger at(s, r, c)]
        #![trigger at(t, r, c)]
        in_range(r, c) && at(s, r, c) != 0 ==> at(t, r, c) == at(s, r, c)
}

/// Board t is a solution of the puzzle s: solved, and keeping every clue of s.
pub open spec fn completion_of(t: Seq<u8>, s: Seq<u8>) -> bool {
    solved(t) && extends(t, s)
}

/// Digit d may be placed at (r, c): no other cell of the same row, column
/// or subgrid already holds d.
pub open spec fn placeable(s: Seq<u8>, r: int, c: int, d: u8) -> bool {
    forall|r2: int, c2: int|
        #![trigger at(s, r2, c2)]
        in_range(r2, c2) && !(r2 == r && c2 == c) && shares_unit(r, c, r2, c2)
            ==> at(s, r2, c2) != d
}

/// Two 81-cell sequences that agree cell by cell are equal.
pub proof fn lemma_cells_equal(s1: Seq<u8>, s2: Seq<u8>)
    requires
        s1.len() == 81,
        s2.len() == 81,
        forall|r: int, c: int| #![trigger at(s1, r, c)] in_range(r, c) ==> at(s1, r, c) == at(s2, r, c),
    ensures
        s1 == s2,
{
    assert forall|i: int| 0 <= i < 81 implies s1[i] == s2[i] by {
        let r = i / 9;
        let c = i % 9;
        assert(in_range(r, c));
        assert(r * 9 + c == i);
        assert(at(s1, r, c) == at(s2, r, c));
    }
    assert(s1 =~= s2);
}

/// The subgrid map lands in 0..9, and two cells get the same subgrid number
/// exactly when they lie in the same 3x3 block of rows and columns: the nine
/// subgrids partition the 81 cells into nine contiguous 3x3 blocks.
pub proof fn lemma_subgrid_partition(r1: int, c1: int, r2: int, c2: int)
    requires
        in_range(r1, c1),
        in_range(r2, c2),
    ensures
        0 <= subgrid(r1, c1) < 9,
        subgrid(r1, c1) == subgrid(r2, c2) <==> (r1 / 3 == r2 / 3 && c1 / 3 == c2 / 3),
{
}

/// Board t is at least board s in row-major digit order, comparing cell
/// values from flat position pos on: at the first position where they
/// differ, t holds the larger value. The solver's cell and digit order
/// make its result the least solution under this order from position 0.
pub open spec fn lex_ge_from(t: Seq<u8>, s: Seq<u8>, pos: int) -> bool
    decreases 81 - pos,
{
    if pos >= 81 {
        true
    } else if t[pos] > s[pos] {
        true
    } else if t[pos] == s[pos] {
        lex_ge_from(t, s, pos + 1)
    } else {
        false
    }
}

/// Row-major digit order is antisymmetric: two boards each at least the
/// other agree on every position from pos on.
proof fn lemma_lex_ge_antisymmetric(a: Seq<u8>, b: Seq<u8>, pos: int)
    requires
        0 <= pos,
        lex_ge_from(a, b, pos),
        lex_ge_from(b, a, pos),
    ensures
        forall|i: int| pos <= i < 81 ==> a[i] == b[i],
    decreases 81 - pos,
{
    if pos < 81 {
        assert(a[pos] == b[pos]);
        lemma_lex_ge_antisymmetric(a, b, pos + 1);
    }
}

/// A puzzle has at most one least solution in row-major digit order: the
/// solve contract, which names its result a completion below every other
/// completion, admits exactly one output board per solvable puzzle.
pub proof fn lemma_least_completion_unique(s: Seq<u8>, a: Seq<u8>, b: Seq<u8>)
    requires
        completion_of(a, s),
        completion_of(b, s),
        lex_ge_from(a, b, 0),
        lex_ge_from(b, a, 0),
    ensures
        a == b,
{
    lemma_lex_ge_antisymmetric(a, b, 0);
    assert(a =~= b);
}

/// Euclidean division by 3: a quotient-remainder decomposition is unique.
pub proof fn lemma_div3_decomp(x: int, q: int, rem: int)
    requires
        x == 3 * q + rem,
        0 <= rem < 3,
    ensures
        x / 3 == q,
        x % 3 == rem,
{
}

/// A cell's subgrid number is in 0..9 and locates the cell inside the
/// 3x3 block spanned by that subgrid.
pub proof fn lemma_subgrid_bounds(r: int, c: int)
    requires
        in_range(r, c),
    ensures
        0 <= subgrid(r, c) < 9,
        (subgrid(r, c) / 3) * 3 <= r < (subgrid(r, c) / 3) * 3 + 3,
        (subgrid(r, c) % 3) * 3 <= c < (subgrid(r, c) % 3) * 3 + 3,
{
    let g = subgrid(r, c);
    assert(0 <= r / 3 < 3);
    assert(0 <= c / 3 < 3);
    lemma_div3_decomp(g, r / 3, c / 3);
    assert(r == 3 * (r / 3) + r % 3);
    assert(c == 3 * (c / 3) + c % 3);
}

/// Each subgrid g holds exactly nine cells, enumerated by k in 0..9: the
/// map k |-> ((g/3)*3 + k/3, (g%3)*3 + k%3) lands in subgrid g, is
/// injective in k, and every cell of subgrid g is hit by the k this
/// lemma's last clause names. Together with lemma_subgrid_partition this
/// says the subgrid map partitions the 81 cells into 9 groups of 9.
pub proof fn lemma_subgrid_enumeration(g: int, k1: int, k2: int, r: int, c: int)
    requires
        0 <= g < 9,
        0 <= k1 < 9,
        0 <= k2 < 9,
        in_range(r, c),
    ensures
        in_range((g / 3) * 3 + k1 / 3, (g % 3) * 3 + k1 % 3),
        subgrid((g / 3) * 3 + k1 / 3, (g % 3) * 3 + k1 % 3) == g,
        k1 != k2 ==> ((g / 3) * 3 + k1 / 3 != (g / 3) * 3 + k2 / 3
            || (g % 3) * 3 + k1 % 3 != (g % 3) * 3 + k2 % 3),
        subgrid(r, c) == g ==> {
            let k = (r - (g / 3) * 3) * 3 + (c - (g % 3) * 3);
            0 <= k < 9 && r == (g / 3) * 3 + k / 3 && c == (g % 3) * 3 + k % 3
        },
{
    let r1 = (g / 3) * 3 + k1 / 3;
    let c1 = (g % 3) * 3 + k1 % 3;
    assert(0 <= g / 3 < 3 && 0 <= g % 3 < 3);
    assert(0 <= k1 / 3 < 3 && 0 <= k1 % 3 < 3);
    lemma_div3_decomp(r1, g / 3, k1 / 3);
    lemma_div3_decomp(c1, g % 3, k1 % 3);
    assert(subgrid(r1, c1) == g);
    if subgrid(r, c) == g {
        lemma_subgrid_bounds(r, c);
        let k = (r - (g / 3) * 3) * 3 + (c - (g % 3) * 3);
        lemma_div3_decomp(k, r - (g / 3) * 3, c - (g % 3) * 3);
    }
}

/// A 9x9 Sudoku board. Cell (r, c) holds 0 when empty, or a digit 1..=9.
pub struct Sudoku {
    cells: Vec<u8>,
}

impl View for Sudoku {
    type V = Seq<u8>;

    closed spec fn view(&self) -> Seq<u8> {
        self.cells@
    }
}

impl Sudoku {
    /// A well-formed board: 81 cells, each empty or a digit 1..=9.
    pub open spec fn wf(&self) -> bool {
        board_wf(self@)
    }

    /// An entirely empty board.
    pub fn new() -> (b: Sudoku)
        ensures
            b.wf(),
            forall|r: int, c: int| #![trigger at(b@, r, c)] in_range(r, c) ==> at(b@, r, c) == 0,
    {
        let mut cells: Vec<u8> = Vec::new();
        let mut i: usize = 0;
        while i < 81
            invariant
                i <= 81,
                cells@.len() == i,
                forall|k: int| 0 <= k < i ==> cells@[k] == 0,
            decreases 81 - i,
        {
            cells.push(0);
            i += 1;
        }
        Sudoku { cells }
    }

    /// Builds a board from 81 row-major cell values, 0 standing for an
    /// empty cell; rejects any other shape or value.
    pub fn from_cells(cells: Vec<u8>) -> (r: Option<Sudoku>)
        ensures
            r is Some <==> (cells@.len() == 81 && forall|i: int| 0 <= i < 81 ==> cells@[i] <= 9),
            r matches Some(b) ==> b.wf() && b@ == cells@,
    {
        if cells.len() != 81 {
            return None;
        }
        let mut i: usize = 0;
        while i < 81
            invariant
                cells@.len() == 81,
                i <= 81,
                forall|k: int| 0 <= k < i ==> cells@[k] <= 9,
            decreases 81 - i,
        {
            if cells[i] > 9 {
                return None;
            }
            i += 1;
        }
        Some(Sudoku { cells })
    }

    /// The value of cell (r, c): 0 when empty, else the digit there.
    pub fn get(&self, r: usize, c: usize) -> (d: u8)
        requires
            self.wf(),
            r < 9,
            c < 9,
        ensures
            d == at(self@, r as int, c as int),
            d <= 9,
    {
        let d = self.cells[r * 9 + c];
        proof {
            assert(in_range(r as int, c as int));
            assert(at(self@, r as int, c as int) <= 9);
        }
        d
    }

    /// Writes value d into cell (r, c), leaving every other cell as it was.
    pub fn set(&mut self, r: usize, c: usize, d: u8)
        requires
            old(self).wf(),
            r < 9,
            c < 9,
            d <= 9,
        ensures
            final(self).wf(),
            final(self)@.len() == 81,
            at(final(self)@, r as int, c as int) == d,
            forall|r2: int, c2: int|
                #![trigger at(final(self)@, r2, c2)]
                in_range(r2, c2) && !(r2 == r && c2 == c)
                    ==> at(final(self)@, r2, c2) == at(old(self)@, r2, c2),
    {
        self.cells.set(r * 9 + c, d);
        proof {
            assert forall|r2: int, c2: int|
                in_range(r2, c2) && !(r2 == r && c2 == c)
                implies at(self@, r2, c2) == at(old(self)@, r2, c2) by {
                assert(r2 * 9 + c2 != r * 9 + c);
            }
            assert forall|r2: int, c2: int| in_range(r2, c2) implies at(self@, r2, c2) <= 9 by {
                if !(r2 == r && c2 == c) {
                    assert(at(self@, r2, c2) == at(old(self)@, r2, c2));
                }
            }
        }
    }
}

/// The subgrid index of cell (r, c): which of the nine 3x3 blocks it lies in.
pub fn grid_num(r: usize, c: usize) -> (g: usize)
    requires
        r < 9,
        c < 9,
    ensures
        g == subgrid(r as int, c as int),
        g < 9,
{
    (r / 3) * 3 + c / 3
}

} // verus!


