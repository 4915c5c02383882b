//! A 9×9 Sudoku board.

use vstd::prelude::*;

verus! {

/// A Sudoku board; zero is an empty cell.
#[derive(Clone, Copy, Debug)]
pub struct Sudoku9x9 {
    pub grid: [[u8; 9]; 9],
}

/// Two different cells that may not hold the same digit: they share a row, a column or a box.
pub open spec fn same_unit(r1: int, c1: int, r2: int, c2: int) -> bool {
    r1 == r2 || c1 == c2 || (r1 / 3 == r2 / 3 && c1 / 3 == c2 / 3)
}

impl Sudoku9x9 {
    /// The digit at a cell.
    pub open spec fn at(&self, r: int, c: int) -> u8 {
        self.grid@[r]@[c]
    }

    /// True when no cell that shares a unit with (row, col) holds the digit, the cell itself
    /// included.
    pub open spec fn admits(&self, row: int, col: int, digit: int) -> bool {
        forall|r: int, c: int|
            0 <= r < 9 && 0 <= c < 9 && same_unit(row, col, r, c) ==> #[trigger] self.at(r, c)
                != digit
    }

    /// True when `digit` does not occur yet in the row, the column or the box of a cell.
    pub fn is_valid_move(&self, row: usize, col: usize, digit: u8) -> (b: bool)
        requires
            row < 9,
            col < 9,
        ensures
            b == self.admits(row as int, col as int, digit as int),
    {
        let mut r: usize = 0;
        while r < 9
            invariant
                r <= 9,
                row < 9,
                col < 9,
                forall|i: int, c: int|
                    0 <= i < r && 0 <= c < 9 && same_unit(row as int, col as int, i, c)
                        ==> #[trigger] self.at(i, c) != digit,
            decreases 9 - r,
        {
            let mut c: usize = 0;
            while c < 9
                invariant
                    c <= 9,
                    r < 9,
                    row < 9,
                    col < 9,
                    forall|i: int, j: int|
                        0 <= i < r && 0 <= j < 9 && same_unit(row as int, col as int, i, j)
                            ==> #[trigger] self.at(i, j) != digit,
                    forall|j: int|
                        0 <= j < c && same_unit(row as int, col as int, r as int, j)
                            ==> #[trigger] self.at(r as int, j) != digit,
                decreases 9 - c,
            {
                if (r == row || c == col || (r / 3 == row / 3 && c / 3 == col / 3))
                    && self.grid[r][c] == digit {
                    assert(self.at(r as int, c as int) == digit);
                    return false;
                }
                c = c + 1;
            }
            r = r + 1;
        }
        true
    }

    /// Arto Inkala's puzzle.
    pub fn arto_inkala() -> (s: Sudoku9x9)
        ensures
            s.grid@[0]@ == seq![8u8, 0, 0, 0, 0, 0, 0, 0, 0],
            s.grid@[1]@ == seq![0u8, 0, 3, 6, 0, 0, 0, 0, 0],
            s.grid@[2]@ == seq![0u8, 7, 0, 0, 9, 0, 2, 0, 0],
            s.grid@[3]@ == seq![0u8, 5, 0, 0, 0, 7, 0, 0, 0],
            s.grid@[4]@ == seq![0u8, 0, 0, 0, 4, 5, 7, 0, 0],
            s.grid@[5]@ == seq![0u8, 0, 0, 1, 0, 0, 0, 3, 0],
            s.grid@[6]@ == seq![0u8, 0, 1, 0, 0, 0, 0, 6, 8],
            s.grid@[7]@ == seq![0u8, 0, 8, 5, 0, 0, 0, 1, 0],
            s.grid@[8]@ == seq![0u8, 9, 0, 0, 0, 0, 4, 0, 0],
    {
        let s = Sudoku9x9 {
            grid: [
                [8, 0, 0, 0, 0, 0, 0, 0, 0],
                [0, 0, 3, 6, 0, 0, 0, 0, 0],
                [0, 7, 0, 0, 9, 0, 2, 0, 0],
                [0, 5, 0, 0, 0, 7, 0, 0, 0],
                [0, 0, 0, 0, 4, 5, 7, 0, 0],
                [0, 0, 0, 1, 0, 0, 0, 3, 0],
                [0, 0, 1, 0, 0, 0, 0, 6, 8],
                [0, 0, 8, 5, 0, 0, 0, 1, 0],
                [0, 9, 0, 0, 0, 0, 4, 0, 0],
            ],
        };
        assert(s.grid@[0]@ =~= seq![8u8, 0, 0, 0, 0, 0, 0, 0, 0]);
        assert(s.grid@[1]@ =~= seq![0u8, 0, 3, 6, 0, 0, 0, 0, 0]);
        assert(s.grid@[2]@ =~= seq![0u8, 7, 0, 0, 9, 0, 2, 0, 0]);
        assert(s.grid@[3]@ =~= seq![0u8, 5, 0, 0, 0, 7, 0, 0, 0]);
        assert(s.grid@[4]@ =~= seq![0u8, 0, 0, 0, 4, 5, 7, 0, 0]);
        assert(s.grid@[5]@ =~= seq![0u8, 0, 0, 1, 0, 0, 0, 3, 0]);
        assert(s.grid@[6]@ =~= seq![0u8, 0, 1, 0, 0, 0, 0, 6, 8]);
        assert(s.grid@[7]@ =~= seq![0u8, 0, 8, 5, 0, 0, 0, 1, 0]);
        assert(s.grid@[8]@ =~= seq![0u8, 9, 0, 0, 0, 0, 4, 0, 0]);
        s
    }
}

/// The nine boxes are squares of three by three cells: two cells that share neither row nor column
/// share a unit exactly when they lie in one box.
pub proof fn law_units(a: int, b: int, p: int, q: int, i: int, j: int, k: int, l: int)
    requires
        0 <= i < 3,
        0 <= j < 3,
        0 <= k < 3,
        0 <= l < 3,
    ensures
        same_unit(3 * a + i, 3 * b + j, 3 * p + k, 3 * q + l) == (3 * a + i == 3 * p + k || 3 * b + j
            == 3 * q + l || (a == p && b == q)),
{
    assert((3 * a + i) / 3 == a && (3 * b + j) / 3 == b);
    assert((3 * p + k) / 3 == p && (3 * q + l) / 3 == q);
}

impl Sudoku9x9 {
    /// A digit that stands somewhere is admitted in no cell of its row, its column or its box.
    pub proof fn law_placed_digits_are_not_admitted(&self, r: int, c: int, other: int)
        requires
            0 <= r < 9,
            0 <= c < 9,
            0 <= other < 9,
        ensures
            !self.admits(r, other, self.at(r, c) as int),
            !self.admits(other, c, self.at(r, c) as int),
            !self.admits(3 * (r / 3) + other / 3, 3 * (c / 3) + other % 3, self.at(r, c) as int),
    {
        let d = self.at(r, c) as int;
        assert(same_unit(r, other, r, c));
        assert(same_unit(other, c, r, c));
        law_units(r / 3, c / 3, r / 3, c / 3, other / 3, other % 3, r % 3, c % 3);
    }
}

} // verus!
