//! Pruning drafted tokens against deterministic constraints.

use vstd::prelude::*;

use crate::percepta::sudoku;
use crate::percepta::sudoku::Sudoku9x9;

verus! {

/// Prunes drafted tokens against deterministic constraints.
///
/// Before drafted branches are verified, a rules engine drops those that can never be
/// accepted.
pub trait ConstraintPruner {
    /// Which tokens may stand at a depth, given the tokens at the earlier depths.
    spec fn allows(&self, depth: int, token: int, parents: Seq<usize>) -> bool;

    /// Check if `token_idx` at the given `depth` is valid, given the tokens placed at earlier
    /// depths in this path.
    ///
    /// `parent_tokens[i]` = token placed at depth `i` in the current path.
    fn is_valid(&self, depth: usize, token_idx: usize, parent_tokens: &[usize]) -> (b: bool)
        ensures
            b == self.allows(depth as int, token_idx as int, parent_tokens@),
    ;
}

/// No-op pruner: allows all tokens.
#[derive(Clone, Copy, Debug)]
pub struct NoPruner;

impl ConstraintPruner for NoPruner {
    open spec fn allows(&self, depth: int, token: int, parents: Seq<usize>) -> bool {
        true
    }

    fn is_valid(&self, depth: usize, token_idx: usize, parent_tokens: &[usize]) -> (b: bool) {
        true
    }
}

/// The empty cells among the first `n`, row by row.
pub open spec fn empties(board: &Sudoku9x9, n: nat) -> Seq<(usize, usize)>
    decreases n,
{
    if n == 0 {
        seq![]
    } else {
        let rest = empties(board, (n - 1) as nat);
        let r = (n - 1) / 9;
        let c = (n - 1) % 9;
        if board.at(r, c) == 0 {
            rest.push((r as usize, c as usize))
        } else {
            rest
        }
    }
}

/// Two placements collide: the same digit in cells that share a unit.
pub open spec fn collide(p: (usize, usize), a: int, q: (usize, usize), b: int) -> bool {
    a == b && sudoku::same_unit(p.0 as int, p.1 as int, q.0 as int, q.1 as int)
}

/// Sudoku constraint pruner: maps a draft depth to an empty cell and validates each drafted
/// digit (token 1-9) against Sudoku rules.
///
/// Only digits that break no row, column or box enter the tree.
#[derive(Debug)]
pub struct SudokuPruner {
    /// The current board state (0 = empty).
    pub board: Sudoku9x9,
    /// Ordered list of (row, col) positions that map to draft depths.
    pub positions: Vec<(usize, usize)>,
}

impl SudokuPruner {
    /// The positions are the empty cells, row by row.
    pub open spec fn wf(&self) -> bool {
        self.positions@ == empties(&self.board, 81)
    }

    /// Create a pruner from a Sudoku board.
    ///
    /// Discovers empty cells in row-major order.
    pub fn new(board: Sudoku9x9) -> (p: SudokuPruner)
        ensures
            p.board == board,
            p.wf(),
    {
        let mut positions: Vec<(usize, usize)> = Vec::new();
        let mut n: usize = 0;
        while n < 81
            invariant
                n <= 81,
                positions@ == empties(&board, n as nat),
            decreases 81 - n,
        {
            let r: usize = n / 9;
            let c: usize = n % 9;
            if board.grid[r][c] == 0 {
                positions.push((r, c));
            }
            n = n + 1;
        }
        SudokuPruner { board, positions }
    }

    /// Number of empty cells (= maximum draft depth).
    pub fn empty_count(&self) -> (n: usize)
        ensures
            n == self.positions@.len(),
    {
        self.positions.len()
    }

    /// Get the (row, col) for a given depth.
    pub fn position_at(&self, depth: usize) -> (p: Option<(usize, usize)>)
        ensures
            p == (if depth < self.positions@.len() {
                Some(self.positions@[depth as int])
            } else {
                None::<(usize, usize)>
            }),
    {
        if depth < self.positions.len() {
            Some(self.positions[depth])
        } else {
            None
        }
    }

    /// Get the underlying board state.
    pub fn board(&self) -> (b: &Sudoku9x9)
        ensures
            *b == self.board,
    {
        &self.board
    }
}

impl ConstraintPruner for SudokuPruner {
    /// A digit from 1 to 9, in a cell that exists, that the board admits, and that no earlier
    /// placement on the path collides with.
    open spec fn allows(&self, depth: int, token: int, parents: Seq<usize>) -> bool {
        &&& 1 <= token <= 9
        &&& 0 <= depth < self.positions@.len()
        &&& self.positions@[depth].0 < 9
        &&& self.positions@[depth].1 < 9
        &&& self.board.admits(
            self.positions@[depth].0 as int,
            self.positions@[depth].1 as int,
            token,
        )
        &&& forall|k: int|
            0 <= k < parents.len() && k < self.positions@.len() ==> !collide(
                self.positions@[k],
                #[trigger] parents[k] as int,
                self.positions@[depth],
                token,
            )
    }

    fn is_valid(&self, depth: usize, token_idx: usize, parent_tokens: &[usize]) -> (b: bool) {
        if token_idx < 1 || token_idx > 9 {
            return false;
        }
        if depth >= self.positions.len() {
            return false;
        }
        let (row, col) = self.positions[depth];
        if row >= 9 || col >= 9 {
            return false;
        }
        if !self.board.is_valid_move(row, col, token_idx as u8) {
            return false;
        }
        let mut k: usize = 0;
        while k < parent_tokens.len() && k < self.positions.len()
            invariant
                k <= parent_tokens@.len(),
                k <= self.positions@.len(),
                depth < self.positions@.len(),
                self.positions@[depth as int] == (row, col),
                1 <= token_idx <= 9,
                forall|j: int|
                    0 <= j < k ==> !collide(
                        self.positions@[j],
                        #[trigger] parent_tokens@[j] as int,
                        (row, col),
                        token_idx as int,
                    ),
            decreases parent_tokens@.len() - k,
        {
            if parent_tokens[k] == token_idx {
                let (pr, pc) = self.positions[k];
                if pr == row || pc == col || (pr / 3 == row / 3 && pc / 3 == col / 3) {
                    assert(collide(
                        self.positions@[k as int],
                        parent_tokens@[k as int] as int,
                        (row, col),
                        token_idx as int,
                    ));
                    return false;
                }
            }
            k = k + 1;
        }
        true
    }
}

/// Pruner that checks the board alone and ignores the tokens placed earlier on the path.
#[derive(Debug)]
pub struct StaticOnlyPruner<'a>(pub &'a SudokuPruner);

impl<'a> ConstraintPruner for StaticOnlyPruner<'a> {
    open spec fn allows(&self, depth: int, token: int, parents: Seq<usize>) -> bool {
        self.0.allows(depth, token, seq![])
    }

    fn is_valid(&self, depth: usize, token_idx: usize, parent_tokens: &[usize]) -> (b: bool) {
        let none: Vec<usize> = Vec::new();
        assert(none@ =~= seq![]);
        self.0.is_valid(depth, token_idx, none.as_slice())
    }
}

/// Every token of a path was allowed at its depth, given the tokens before it.
pub open spec fn path_allowed<P: ConstraintPruner>(pruner: &P, path: Seq<usize>) -> bool {
    forall|d: int|
        0 <= d < path.len() ==> pruner.allows(d, #[trigger] path[d] as int, path.take(d))
}

/// A path that was pruned at every depth fills its cells without a conflict: each digit fits
/// the board, and no two placements collide.
pub proof fn law_allowed_path_is_conflict_free(pruner: &SudokuPruner, path: Seq<usize>, i: int, j: int)
    requires
        path_allowed(pruner, path),
        0 <= i < j < path.len(),
    ensures
        1 <= path[i] <= 9,
        pruner.board.admits(
            pruner.positions@[i].0 as int,
            pruner.positions@[i].1 as int,
            path[i] as int,
        ),
        !collide(pruner.positions@[i], path[i] as int, pruner.positions@[j], path[j] as int),
{
    assert(pruner.allows(i, path[i] as int, path.take(i)));
    assert(pruner.allows(j, path[j] as int, path.take(j)));
    assert(path.take(j)[i] == path[i]);
}

/// The positions of a pruner are empty cells of its board.
pub proof fn law_positions_are_empty(board: &Sudoku9x9, n: nat, i: int)
    requires
        n <= 81,
        0 <= i < empties(board, n).len(),
    ensures
        empties(board, n)[i].0 < 9,
        empties(board, n)[i].1 < 9,
        board.at(empties(board, n)[i].0 as int, empties(board, n)[i].1 as int) == 0,
    decreases n,
{
    let rest = empties(board, (n - 1) as nat);
    if i < rest.len() {
        law_positions_are_empty(board, (n - 1) as nat, i);
        assert(empties(board, n)[i] == rest[i]);
    }
}

/// Every empty cell of the board is a position, once, and the positions go row by row, each from
/// left to right.
pub proof fn law_positions_are_all_empty_cells(board: &Sudoku9x9, n: nat)
    requires
        n <= 81,
    ensures
        forall|r: int, c: int|
            0 <= r < 9 && 0 <= c < 9 && 9 * r + c < n && #[trigger] board.at(r, c) == 0
                ==> empties(board, n).contains((r as usize, c as usize)),
        forall|i: int| #![auto] 0 <= i < empties(board, n).len() ==> 9 * empties(board, n)[i].0
            + empties(board, n)[i].1 < n,
        forall|i: int, j: int|
            0 <= i < j < empties(board, n).len() ==> 9 * (#[trigger] empties(board, n)[i]).0
                + empties(board, n)[i].1 < 9 * (#[trigger] empties(board, n)[j]).0 + empties(
                board,
                n,
            )[j].1,
    decreases n,
{
    if n > 0 {
        let rest = empties(board, (n - 1) as nat);
        let all = empties(board, n);
        law_positions_are_all_empty_cells(board, (n - 1) as nat);
        let (r, c) = ((n - 1) / 9, (n - 1) % 9);
        assert forall|i: int| 0 <= i < rest.len() implies all[i] == #[trigger] rest[i] by {}
        assert forall|x: int, y: int|
            0 <= x < 9 && 0 <= y < 9 && 9 * x + y < n && #[trigger] board.at(x, y)
                == 0 implies all.contains((x as usize, y as usize)) by {
            if 9 * x + y == n - 1 {
                assert(x == r && y == c);
                assert(all.last() == (x as usize, y as usize));
            } else {
                let k = choose|k: int| 0 <= k < rest.len() && rest[k] == (x as usize, y as usize);
                assert(all[k] == rest[k]);
            }
        }
        assert forall|i: int, j: int| 0 <= i < j < all.len() implies 9 * (#[trigger] all[i]).0
            + all[i].1 < 9 * (#[trigger] all[j]).0 + all[j].1 by {
            assert(all[i] == rest[i]);
            if j < rest.len() {
                assert(all[j] == rest[j]);
            }
        }
    }
}

/// A digit is pruned where the board holds it in the row, the column or the box of its cell, and
/// where an earlier placement of the path does. Any other digit from 1 to 9 stays.
pub proof fn law_only_conflicts_are_pruned(
    pruner: &SudokuPruner,
    depth: int,
    token: int,
    parents: Seq<usize>,
    r: int,
    c: int,
    k: int,
)
    requires
        pruner.wf(),
        0 <= depth < pruner.positions@.len(),
        0 <= r < 9,
        0 <= c < 9,
    ensures
        ({
            let (row, col) = pruner.positions@[depth];
            &&& (r == row || c == col || (r / 3 == row as int / 3 && c / 3 == col as int / 3))
                && pruner.board.at(r, c) == token ==> !pruner.allows(depth, token, parents)
            &&& 0 <= k < parents.len() && k < pruner.positions@.len() && parents[k] == token
                && sudoku::same_unit(
                pruner.positions@[k].0 as int,
                pruner.positions@[k].1 as int,
                row as int,
                col as int,
            ) ==> !pruner.allows(depth, token, parents)
            &&& !(1 <= token <= 9) ==> !pruner.allows(depth, token, parents)
            &&& 1 <= token <= 9 && !pruner.allows(depth, token, parents) && pruner.board.admits(
                row as int,
                col as int,
                token,
            ) ==> exists|i: int|
                0 <= i < parents.len() && i < pruner.positions@.len() && #[trigger] parents[i]
                    == token && sudoku::same_unit(
                    pruner.positions@[i].0 as int,
                    pruner.positions@[i].1 as int,
                    row as int,
                    col as int,
                )
        }),
{
    law_positions_are_empty(&pruner.board, 81, depth);
}

/// A pruner of the board alone heeds no placement of the path, and lets through all that the full
/// one does.
pub proof fn law_static_pruner_ignores_the_path(
    pruner: &SudokuPruner,
    depth: int,
    token: int,
    a: Seq<usize>,
    b: Seq<usize>,
)
    ensures
        StaticOnlyPruner(pruner).allows(depth, token, a) == StaticOnlyPruner(pruner).allows(
            depth,
            token,
            b,
        ),
        pruner.allows(depth, token, a) ==> StaticOnlyPruner(pruner).allows(depth, token, b),
        NoPruner.allows(depth, token, a),
{
}

} // verus!
