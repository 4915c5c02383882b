//! Game state and the rules of play.

use vstd::prelude::*;

use crate::pruners::go::board;
use crate::pruners::go::board::{board_neighbors, flood_group, GoCell};

verus! {

/// What a player can do.
#[derive(Clone, Copy, Debug, PartialEq, Eq, Structural)]
pub enum GoAction {
    Place(usize, usize),
    Pass,
}

/// The board with a stone set and nothing taken off yet.
pub open spec fn with_stone(b: Seq<GoCell>, idx: int, me: GoCell) -> Seq<GoCell> {
    b.update(idx, me)
}

/// True when the stone at `n` is hostile and its group has no liberty.
pub open spec fn smothered(b: Seq<GoCell>, size: nat, me: GoCell, n: int) -> bool {
    &&& b[n] == me.other()
    &&& board::liberties_of(b, size, n) == Set::<int>::empty()
}

/// True when the stone set at `idx` takes the stone at `c` off the board.
pub open spec fn taken(b: Seq<GoCell>, size: nat, idx: int, me: GoCell, c: int) -> bool {
    exists|n: int| #[trigger]
        board::neighbors(idx, size).contains(n) && smothered(b, size, me, n) && board::in_group(
            b,
            size,
            n,
            c,
        )
}

/// The points that a move empties.
pub open spec fn captured_points(b: Seq<GoCell>, size: nat, idx: int, me: GoCell) -> Set<int> {
    Set::new(|c: int| 0 <= c < b.len() && taken(with_stone(b, idx, me), size, idx, me, c))
}

/// The board after a stone is set and the smothered neighbours are taken off.
pub open spec fn after_move(b: Seq<GoCell>, size: nat, idx: int, me: GoCell) -> Seq<GoCell> {
    Seq::new(
        b.len(),
        |c: int|
            if captured_points(b, size, idx, me).contains(c) {
                GoCell::Empty
            } else {
                with_stone(b, idx, me)[c]
            },
    )
}

/// True when the stone set at `idx` is alone, took exactly one stone, and could be taken back.
pub open spec fn makes_ko(b: Seq<GoCell>, size: nat, idx: int, me: GoCell) -> bool {
    let after = after_move(b, size, idx, me);
    &&& captured_points(b, size, idx, me).len() == 1
    &&& board::group_of(after, size, idx).len() == 1
    &&& board::liberties_of(after, size, idx).len() == 1
}

/// `a + b`, at most `u32::MAX`.
pub open spec fn capped_sum(a: u32, b: int) -> int {
    if a + b > u32::MAX {
        u32::MAX as int
    } else {
        a + b
    }
}

/// Sets a stone and takes off what it smothers. Returns the board and the points emptied.
fn place_stone(b: &Vec<GoCell>, size: usize, idx: usize, me: GoCell) -> (r: (
    Vec<GoCell>,
    Vec<usize>,
))
    requires
        board::is_board(b@, size as nat),
        idx < b@.len(),
        !(me is Empty),
    ensures
        r.0@ == after_move(b@, size as nat, idx as int, me),
        r.1@.no_duplicates(),
        board::points(r.1@) == captured_points(b@, size as nat, idx as int, me),
        r.1@.len() == captured_points(b@, size as nat, idx as int, me).len(),
        r.1@.len() <= b@.len(),
{
    let ghost s = size as nat;
    let total: usize = b.len();
    let mut placed: Vec<GoCell> = Vec::new();
    let mut i: usize = 0;
    while i < total
        invariant
            i <= total == b@.len(),
            placed@ == b@.take(i as int),
        decreases total - i,
    {
        placed.push(b[i]);
        assert(b@.take(i + 1) =~= b@.take(i as int).push(b@[i as int]));
        i = i + 1;
    }
    assert(b@.take(total as int) =~= b@);
    placed.set(idx, me);
    let opp = me.opponent();
    let around = board_neighbors(idx, size);
    let mut gone: Vec<bool> = vec![false; total];
    let ghost list = board::neighbors(idx as int, s);
    let mut i: usize = 0;
    while i < around.len()
        invariant
            i <= around.len(),
            s == size,
            idx < total,
            total == b@.len(),
            placed@ == with_stone(b@, idx as int, me),
            board::is_board(placed@, s),
            opp == me.other(),
            !(opp is Empty),
            around@.len() == list.len(),
            forall|j: int|
                0 <= j < around@.len() ==> #[trigger] around@[j] < total && around@[j] as int
                    == list[j],
            gone@.len() == total,
            forall|c: int|
                0 <= c < total ==> #[trigger] gone@[c] == (exists|j: int|
                    0 <= j < i && smothered(placed@, s, me, #[trigger] list[j]) && board::in_group(
                        placed@,
                        s,
                        list[j],
                        c,
                    )),
        decreases around.len() - i,
    {
        let n: usize = around[i];
        let ghost gone0 = gone@;
        assert(list[i as int] == n);
        let mut dead: Vec<usize> = Vec::new();
        if placed[n] == opp {
            let (group, libs) = flood_group(placed.as_slice(), n, size);
            if libs.len() == 0 {
                proof {
                    assert(board::points(libs@) =~= Set::<int>::empty());
                }
                dead = group;
            } else {
                proof {
                    assert(board::points(libs@).contains(libs@[0] as int));
                }
            }
        }
        assert(smothered(placed@, s, me, n as int) ==> board::points(dead@) == board::group_of(
            placed@,
            s,
            n as int,
        ));
        assert(!smothered(placed@, s, me, n as int) ==> dead@.len() == 0);
        assert forall|j: int| 0 <= j < dead@.len() implies #[trigger] dead@[j] < total by {
            assert(board::points(dead@).contains(dead@[j] as int));
        }
        let mut k: usize = 0;
        while k < dead.len()
            invariant
                k <= dead.len(),
                gone@.len() == total,
                forall|j: int| 0 <= j < dead@.len() ==> #[trigger] dead@[j] < total,
                forall|c: int|
                    0 <= c < total ==> #[trigger] gone@[c] == (gone0[c] || exists|j: int|
                        0 <= j < k && #[trigger] dead@[j] == c),
            decreases dead.len() - k,
        {
            let ghost before = gone@;
            gone.set(dead[k], true);
            assert forall|c: int| 0 <= c < total implies #[trigger] gone@[c] == (gone0[c]
                || exists|j: int| 0 <= j < k + 1 && #[trigger] dead@[j] == c) by {
                if c == dead@[k as int] {
                    assert(dead@[k as int] == c);
                } else {
                    assert(gone@[c] == before[c]);
                }
            }
            k = k + 1;
        }
        assert forall|c: int| 0 <= c < total implies #[trigger] gone@[c] == (exists|j: int|
            0 <= j < i + 1 && smothered(placed@, s, me, #[trigger] list[j]) && board::in_group(
                placed@,
                s,
                list[j],
                c,
            )) by {
            let hit = smothered(placed@, s, me, list[i as int]) && board::in_group(
                placed@,
                s,
                list[i as int],
                c,
            );
            let in_dead = exists|j: int| 0 <= j < dead@.len() && #[trigger] dead@[j] == c;
            assert(in_dead == board::points(dead@).contains(c));
            assert(in_dead == hit);
            if gone0[c] {
                let j = choose|j: int|
                    0 <= j < i && smothered(placed@, s, me, #[trigger] list[j]) && board::in_group(
                        placed@,
                        s,
                        list[j],
                        c,
                    );
                assert(0 <= j < i + 1);
            }
        }
        i = i + 1;
    }
    proof {
        assert forall|c: int| 0 <= c < total implies #[trigger] gone@[c] == taken(
            placed@,
            s,
            idx as int,
            me,
            c,
        ) by {
            if gone@[c] {
                let j = choose|j: int|
                    0 <= j < list.len() && smothered(placed@, s, me, #[trigger] list[j])
                        && board::in_group(placed@, s, list[j], c);
                assert(list.contains(list[j]));
            }
            if taken(placed@, s, idx as int, me, c) {
                let n = choose|n: int| #[trigger]
                    board::neighbors(idx as int, s).contains(n) && smothered(placed@, s, me, n)
                        && board::in_group(placed@, s, n, c);
                let j = choose|j: int| 0 <= j < list.len() && list[j] == n;
                assert(smothered(placed@, s, me, list[j]));
            }
        }
    }
    let mut after: Vec<GoCell> = Vec::new();
    let mut removed: Vec<usize> = Vec::new();
    let mut c: usize = 0;
    while c < total
        invariant
            c <= total == b@.len(),
            s == size,
            placed@ == with_stone(b@, idx as int, me),
            placed@.len() == total,
            gone@.len() == total,
            forall|c: int|
                0 <= c < total ==> #[trigger] gone@[c] == taken(placed@, s, idx as int, me, c),
            after@.len() == c,
            forall|j: int|
                0 <= j < c ==> #[trigger] after@[j] == after_move(b@, s, idx as int, me)[j],
            removed@.len() <= c,
            forall|j: int| 0 <= j < removed@.len() ==> #[trigger] removed@[j] < c,
            removed@.no_duplicates(),
            forall|p: int|
                #[trigger] board::points(removed@).contains(p) == (0 <= p < c && captured_points(
                    b@,
                    s,
                    idx as int,
                    me,
                ).contains(p)),
        decreases total - c,
    {
        if gone[c] {
            after.push(GoCell::Empty);
            proof {
                board::lemma_points_push(removed@, c);
            }
            removed.push(c);
        } else {
            after.push(placed[c]);
        }
        assert(removed@.no_duplicates());
        c = c + 1;
    }
    proof {
        assert(after@ =~= after_move(b@, s, idx as int, me));
        assert(board::points(removed@) =~= captured_points(b@, s, idx as int, me));
        board::lemma_points_len(removed@);
    }
    (after, removed)
}

/// A position with the side to move and what it takes to go on.
#[derive(Clone, Debug)]
pub struct GoState {
    /// Points row by row.
    pub board: Vec<GoCell>,
    pub size: usize,
    pub to_play: GoCell,
    /// Stones that Black has captured.
    pub captured_black: u32,
    /// Stones that White has captured.
    pub captured_white: u32,
    pub move_count: u32,
    /// Passes in a row.
    pub passes: u32,
    /// The point that may not be retaken at once.
    pub ko: Option<usize>,
}

impl GoState {
    /// A square board with a side to move.
    pub open spec fn wf(&self) -> bool {
        &&& board::is_board(self.board@, self.size as nat)
        &&& !(self.to_play is Empty)
    }

    /// The number of the side to move: black first.
    pub open spec fn mover(&self) -> u8 {
        if self.to_play is White {
            1u8
        } else {
            0u8
        }
    }

    /// True on the board.
    pub open spec fn on_board(&self, row: int, col: int) -> bool {
        0 <= row < self.size && 0 <= col < self.size
    }

    /// The index of a point.
    pub open spec fn index(&self, row: int, col: int) -> int {
        row * self.size + col
    }

    /// The board after a stone of the side to move at `idx`.
    pub open spec fn board_after(&self, idx: int) -> Seq<GoCell> {
        after_move(self.board@, self.size as nat, idx, self.to_play)
    }

    /// How many stones a stone of the side to move at `idx` captures.
    pub open spec fn captures_at(&self, idx: int) -> nat {
        captured_points(self.board@, self.size as nat, idx, self.to_play).len()
    }

    /// True when the side to move may set a stone at (row, col): the point is empty, is not
    /// closed by ko, and the stone has a liberty once the captured stones are gone.
    pub open spec fn legal(&self, row: int, col: int) -> bool {
        let idx = self.index(row, col);
        &&& self.on_board(row, col)
        &&& self.board@[idx] is Empty
        &&& self.ko != Some(idx as usize)
        &&& board::liberties_of(self.board_after(idx), self.size as nat, idx).len() > 0
    }

    /// True when `next` is this state after a stone at `idx`.
    pub open spec fn stone_leads_to(&self, idx: int, next: &GoState) -> bool {
        let count = self.captures_at(idx);
        &&& next.board@ == self.board_after(idx)
        &&& next.size == self.size
        &&& next.to_play == self.to_play.other()
        &&& next.captured_black == (if self.to_play is Black {
            capped_sum(self.captured_black, count as int)
        } else {
            self.captured_black as int
        })
        &&& next.captured_white == (if self.to_play is White {
            capped_sum(self.captured_white, count as int)
        } else {
            self.captured_white as int
        })
        &&& next.move_count == capped_sum(self.move_count, 1)
        &&& next.passes == 0
        &&& next.ko matches Some(k) ==> makes_ko(self.board@, self.size as nat, idx, self.to_play)
            && captured_points(self.board@, self.size as nat, idx, self.to_play).contains(k as int)
        &&& next.ko is None ==> !makes_ko(self.board@, self.size as nat, idx, self.to_play)
    }

    /// True when `next` is this state after a pass.
    pub open spec fn pass_leads_to(&self, next: &GoState) -> bool {
        &&& next.board@ == self.board@
        &&& next.size == self.size
        &&& next.to_play == self.to_play.other()
        &&& next.captured_black == self.captured_black
        &&& next.captured_white == self.captured_white
        &&& next.move_count == capped_sum(self.move_count, 1)
        &&& next.passes == capped_sum(self.passes, 1)
        &&& next.ko is None
    }

    /// An empty board with Black to move.
    pub fn new(size: usize) -> (s: GoState)
        requires
            0 < size,
            size * size <= isize::MAX,
        ensures
            s.wf(),
            s.size == size,
            s.to_play is Black,
            s.captured_black == 0,
            s.captured_white == 0,
            s.move_count == 0,
            s.passes == 0,
            s.ko is None,
            forall|i: int| 0 <= i < s.board@.len() ==> #[trigger] s.board@[i] is Empty,
    {
        GoState {
            board: vec![GoCell::Empty; size * size],
            size,
            to_play: GoCell::Black,
            captured_black: 0,
            captured_white: 0,
            move_count: 0,
            passes: 0,
            ko: None,
        }
    }

    /// True when the board is square and there is a side to move.
    pub fn is_well_formed(&self) -> (b: bool)
        ensures
            b == self.wf(),
    {
        self.size > 0 && self.size.checked_mul(self.size) == Some(self.board.len())
            && self.to_play != GoCell::Empty
    }

    /// The index of a point in the board.
    pub fn flat_index(&self, row: usize, col: usize) -> (idx: usize)
        requires
            self.wf(),
            row < self.size,
            col < self.size,
        ensures
            idx == self.index(row as int, col as int),
            idx < self.board@.len(),
    {
        proof {
            lemma_index(row as int, col as int, self.size as int);
            let s = self.size as int;
            assert(self.board.len() == s * s);
            assert(0 <= row * s) by (nonlinear_arith)
                requires
                    0 <= row,
                    0 <= s,
            ;
        }
        row * self.size + col
    }

    /// The state after an action of the side to move.
    pub fn advance(&self, action: &GoAction) -> (next: GoState)
        requires
            self.wf(),
            action matches GoAction::Place(r, c) ==> r < self.size && c < self.size,
        ensures
            next.wf(),
            action matches GoAction::Place(r, c) ==> self.stone_leads_to(
                self.index(r as int, c as int),
                &next,
            ),
            action is Pass ==> self.pass_leads_to(&next),
    {
        match action {
            GoAction::Pass => {
                let board = self.board.clone();
                assert(board@ =~= self.board@);
                GoState {
                    board,
                    size: self.size,
                    to_play: self.to_play.opponent(),
                    captured_black: self.captured_black,
                    captured_white: self.captured_white,
                    move_count: self.move_count.saturating_add(1),
                    passes: self.passes.saturating_add(1),
                    ko: None,
                }
            },
            GoAction::Place(row, col) => {
                let idx: usize = self.flat_index(*row, *col);
                let (board, removed) = place_stone(&self.board, self.size, idx, self.to_play);
                let count: u32 = if removed.len() > u32::MAX as usize {
                    u32::MAX
                } else {
                    removed.len() as u32
                };
                let mut ko: Option<usize> = None;
                proof {
                    lemma_stone_stays(self.board@, self.size as nat, idx as int, self.to_play);
                }
                if removed.len() == 1 {
                    let (group, libs) = flood_group(board.as_slice(), idx, self.size);
                    if group.len() == 1 && libs.len() == 1 {
                        proof {
                            assert(board::points(removed@).contains(removed@[0] as int));
                        }
                        ko = Some(removed[0]);
                    }
                }
                let captured_black: u32 = if self.to_play == GoCell::Black {
                    self.captured_black.saturating_add(count)
                } else {
                    self.captured_black
                };
                let captured_white: u32 = if self.to_play == GoCell::White {
                    self.captured_white.saturating_add(count)
                } else {
                    self.captured_white
                };
                GoState {
                    board,
                    size: self.size,
                    to_play: self.to_play.opponent(),
                    captured_black,
                    captured_white,
                    move_count: self.move_count.saturating_add(1),
                    passes: 0,
                    ko,
                }
            },
        }
    }

    /// True when the side to move may set a stone at (row, col).
    pub fn is_legal(&self, row: usize, col: usize) -> (b: bool)
        requires
            self.wf(),
        ensures
            b == self.legal(row as int, col as int),
    {
        if row >= self.size || col >= self.size {
            return false;
        }
        let idx: usize = self.flat_index(row, col);
        if self.board[idx] != GoCell::Empty {
            return false;
        }
        if let Some(k) = self.ko {
            if k == idx {
                return false;
            }
        }
        let (board, _removed) = place_stone(&self.board, self.size, idx, self.to_play);
        proof {
            lemma_stone_stays(self.board@, self.size as nat, idx as int, self.to_play);
        }
        let (_group, libs) = flood_group(board.as_slice(), idx, self.size);
        libs.len() > 0
    }

    /// The legal moves, row by row. Passing is always allowed and is not listed.
    pub fn legal_moves(&self) -> (moves: Vec<(usize, usize)>)
        requires
            self.wf(),
        ensures
            moves@ == legal_list(self, (self.size * self.size) as nat),
            forall|i: int|
                0 <= i < moves@.len() ==> self.legal(
                    (#[trigger] moves@[i]).0 as int,
                    moves@[i].1 as int,
                ),
    {
        let mut moves: Vec<(usize, usize)> = Vec::new();
        let total: usize = self.board.len();
        let mut i: usize = 0;
        while i < total
            invariant
                self.wf(),
                i <= total == self.size * self.size,
                moves@ == legal_list(self, i as nat),
                forall|j: int|
                    0 <= j < moves@.len() ==> self.legal(
                        (#[trigger] moves@[j]).0 as int,
                        moves@[j].1 as int,
                    ),
            decreases total - i,
        {
            let row: usize = i / self.size;
            let col: usize = i % self.size;
            if self.is_legal(row, col) {
                moves.push((row, col));
            }
            i = i + 1;
        }
        moves
    }

    /// Plays a stone if it is legal, and says whether it was.
    pub fn play_move(&mut self, row: usize, col: usize) -> (ok: bool)
        requires
            old(self).wf(),
        ensures
            final(self).wf(),
            ok == old(self).legal(row as int, col as int),
            ok ==> old(self).stone_leads_to(old(self).index(row as int, col as int), final(self)),
            !ok ==> *final(self) == *old(self),
    {
        if !self.is_legal(row, col) {
            return false;
        }
        *self = self.advance(&GoAction::Place(row, col));
        true
    }

    /// Passes.
    pub fn play_pass(&mut self)
        requires
            old(self).wf(),
        ensures
            final(self).wf(),
            old(self).pass_leads_to(final(self)),
    {
        *self = self.advance(&GoAction::Pass);
    }

    /// True after two passes in a row.
    pub fn is_terminal(&self) -> (b: bool)
        ensures
            b == (self.passes >= 2),
    {
        self.passes >= 2
    }
}

/// The legal moves among the first `n` points.
pub open spec fn legal_list(state: &GoState, n: nat) -> Seq<(usize, usize)>
    decreases n,
{
    if n == 0 {
        seq![]
    } else {
        let rest = legal_list(state, (n - 1) as nat);
        let row = (n - 1) / (state.size as int);
        let col = (n - 1) % (state.size as int);
        if state.legal(row, col) {
            rest.push((row as usize, col as usize))
        } else {
            rest
        }
    }
}

pub proof fn lemma_index(row: int, col: int, size: int)
    requires
        0 <= row < size,
        0 <= col < size,
    ensures
        0 <= row * size + col < size * size,
        row * size <= row * size + col,
{
    assert(0 <= row * size + col < size * size) by (nonlinear_arith)
        requires
            0 <= row < size,
            0 <= col < size,
    ;
}

/// A stone that is set is not taken off by its own move.
pub proof fn lemma_stone_stays(b: Seq<GoCell>, size: nat, idx: int, me: GoCell)
    requires
        board::is_board(b, size),
        0 <= idx < b.len(),
        !(me is Empty),
    ensures
        after_move(b, size, idx, me)[idx] == me,
        board::is_board(after_move(b, size, idx, me), size),
{
    let p = with_stone(b, idx, me);
    if taken(p, size, idx, me, idx) {
        let n = choose|n: int| #[trigger]
            board::neighbors(idx, size).contains(n) && smothered(p, size, me, n) && board::in_group(
                p,
                size,
                n,
                idx,
            );
        let k = choose|k: nat| board::joined(p, size, n, idx, k);
        board::lemma_group_color(p, size, n, idx, k);
    }
}

/// A move sets one stone of the mover's colour, empties points of the other colour only, and
/// changes nothing else.
pub proof fn law_move_changes(b: Seq<GoCell>, size: nat, idx: int, me: GoCell, c: int)
    requires
        board::is_board(b, size),
        0 <= idx < b.len(),
        0 <= c < b.len(),
        !(me is Empty),
    ensures
        after_move(b, size, idx, me)[idx] == me,
        c != idx && !captured_points(b, size, idx, me).contains(c) ==> after_move(
            b,
            size,
            idx,
            me,
        )[c] == b[c],
        captured_points(b, size, idx, me).contains(c) ==> b[c] == me.other() && after_move(
            b,
            size,
            idx,
            me,
        )[c] is Empty,
{
    lemma_stone_stays(b, size, idx, me);
    let p = with_stone(b, idx, me);
    if captured_points(b, size, idx, me).contains(c) {
        let n = choose|n: int| #[trigger]
            board::neighbors(idx, size).contains(n) && smothered(p, size, me, n) && board::in_group(
                p,
                size,
                n,
                c,
            );
        let k = choose|k: nat| board::joined(p, size, n, c, k);
        board::lemma_group_color(p, size, n, c, k);
        if c == idx {
            assert(p[c] == me);
        }
    }
}

/// A hostile group beside the point of a move comes off the board exactly when the point was its
/// only liberty, and it comes off whole.
pub proof fn law_capture_takes_the_last_liberty(
    b: Seq<GoCell>,
    size: nat,
    idx: int,
    me: GoCell,
    n: int,
    c: int,
)
    requires
        board::is_board(b, size),
        0 <= idx < b.len(),
        b[idx] is Empty,
        !(me is Empty),
        board::neighbors(idx, size).contains(n),
        b[n] == me.other(),
    ensures
        after_move(b, size, idx, me)[n] is Empty == (board::liberties_of(b, size, n) == set![idx]),
        board::group_of(b, size, n).contains(c) ==> after_move(b, size, idx, me)[c]
            == after_move(b, size, idx, me)[n],
{
    let p = with_stone(b, idx, me);
    lemma_beside(idx, size, n);
    board::law_neighbors_are_mutual(size, idx, n);
    assert(n != idx);
    lemma_same_groups(b, size, idx, me, n);
    assert(board::joined(b, size, n, n, 0));
    assert(board::in_group(b, size, n, n));
    board::law_liberties_are_empty_neighbors(b, size, n, n, idx);
    let before = board::liberties_of(b, size, n);
    let after = board::liberties_of(p, size, n);
    assert(after =~= before.remove(idx)) by {
        assert forall|x: int| after.contains(x) == before.remove(idx).contains(x) by {
            if after.contains(x) {
                let m = choose|m: int| #[trigger]
                    board::neighbors(m, size).contains(x) && board::in_group(p, size, n, m);
                assert(board::in_group(b, size, n, m));
            }
            if before.contains(x) && x != idx {
                let m = choose|m: int| #[trigger]
                    board::neighbors(m, size).contains(x) && board::in_group(b, size, n, m);
                assert(board::in_group(p, size, n, m));
            }
        }
    }
    assert((after == Set::<int>::empty()) == (before == set![idx])) by {
        if before == set![idx] {
            assert(after =~= Set::<int>::empty());
        }
        if after == Set::<int>::empty() {
            assert forall|x: int| before.contains(x) == set![idx].contains(x) by {
                if x != idx && before.contains(x) {
                    assert(after.contains(x));
                }
            }
            assert(before =~= set![idx]);
        }
    }
    lemma_taken_as_group(b, size, idx, me, n, n);
    if board::group_of(b, size, n).contains(c) {
        lemma_taken_as_group(b, size, idx, me, n, c);
        let k = choose|k: nat| board::joined(b, size, n, c, k);
        board::lemma_group_color(b, size, n, c, k);
    }
}

proof fn lemma_beside(idx: int, size: nat, n: int)
    requires
        0 < size,
        0 <= idx < size * size,
        board::neighbors(idx, size).contains(n),
    ensures
        0 <= n < size * size,
        n != idx,
{
    board::lemma_neighbors(idx, size);
    let i = choose|i: int|
        0 <= i < board::neighbors(idx, size).len() && board::neighbors(idx, size)[i] == n;
    assert(0 <= board::neighbors(idx, size)[i] < size * size);
}

/// Setting a stone of the other colour on an empty point leaves a group as it is.
proof fn lemma_same_groups(b: Seq<GoCell>, size: nat, idx: int, me: GoCell, n: int)
    requires
        board::is_board(b, size),
        0 <= idx < b.len(),
        0 <= n < b.len(),
        n != idx,
        b[idx] is Empty,
        !(me is Empty),
        b[n] == me.other(),
    ensures
        forall|c: int| #[trigger]
            board::in_group(with_stone(b, idx, me), size, n, c) == board::in_group(b, size, n, c),
{
    let p = with_stone(b, idx, me);
    assert forall|c: int| #[trigger]
        board::in_group(p, size, n, c) == board::in_group(b, size, n, c) by {
        assert forall|k: nat| board::joined(b, size, n, c, k) == board::joined(p, size, n, c, k) by {
            board::lemma_group_unchanged(b, p, size, n, idx, c, k);
        }
    }
}

/// A stone of a hostile group beside the move is taken when the group is smothered.
proof fn lemma_taken_as_group(b: Seq<GoCell>, size: nat, idx: int, me: GoCell, n: int, c: int)
    requires
        board::is_board(b, size),
        0 <= idx < b.len(),
        b[idx] is Empty,
        !(me is Empty),
        board::neighbors(idx, size).contains(n),
        b[n] == me.other(),
        0 <= c < b.len(),
        board::in_group(b, size, n, c),
    ensures
        captured_points(b, size, idx, me).contains(c) == (board::liberties_of(
            with_stone(b, idx, me),
            size,
            n,
        ) == Set::<int>::empty()),
{
    let p = with_stone(b, idx, me);
    lemma_beside(idx, size, n);
    lemma_same_groups(b, size, idx, me, n);
    assert(board::is_board(p, size));
    if taken(p, size, idx, me, c) {
        let x = choose|x: int| #[trigger]
            board::neighbors(idx, size).contains(x) && smothered(p, size, me, x)
                && board::in_group(p, size, x, c);
        lemma_beside(idx, size, x);
        assert(board::group_of(p, size, x).contains(c));
        board::law_group_is_shared(p, size, x, c);
        assert(board::in_group(p, size, n, c));
        assert(board::group_of(p, size, n).contains(c));
        board::law_group_is_shared(p, size, n, c);
    }
    if board::liberties_of(p, size, n) == Set::<int>::empty() {
        assert(smothered(p, size, me, n) && board::in_group(p, size, n, c));
    }
}

/// A stone on the board comes off only with a group that stands beside the move.
pub proof fn law_captured_stones_stood_beside(
    b: Seq<GoCell>,
    size: nat,
    idx: int,
    me: GoCell,
    c: int,
)
    requires
        board::is_board(b, size),
        0 <= idx < b.len(),
        b[idx] is Empty,
        !(me is Empty),
        0 <= c < b.len(),
        !(b[c] is Empty),
        after_move(b, size, idx, me)[c] is Empty,
    ensures
        b[c] == me.other(),
        exists|n: int| #[trigger]
            board::neighbors(idx, size).contains(n) && board::group_of(b, size, n).contains(c)
                && board::liberties_of(b, size, n) == set![idx],
{
    law_move_changes(b, size, idx, me, c);
    let p = with_stone(b, idx, me);
    let n = choose|n: int| #[trigger]
        board::neighbors(idx, size).contains(n) && smothered(p, size, me, n) && board::in_group(
            p,
            size,
            n,
            c,
        );
    lemma_beside(idx, size, n);
    lemma_same_groups(b, size, idx, me, n);
    assert(board::in_group(b, size, n, c));
    assert(board::joined(p, size, n, n, 0));
    assert(captured_points(b, size, idx, me).contains(n));
    law_capture_takes_the_last_liberty(b, size, idx, me, n, c);
    assert(board::neighbors(idx, size).contains(n) && board::group_of(b, size, n).contains(c)
        && board::liberties_of(b, size, n) == set![idx]);
}

/// A free point beside an empty one may be played, unless ko closes it. So may one whose stone
/// captures. An occupied point, a point off the board and a point closed by ko may not.
pub proof fn law_legal_moves(s: &GoState, row: int, col: int)
    requires
        s.wf(),
    ensures
        !s.on_board(row, col) ==> !s.legal(row, col),
        s.on_board(row, col) && !(s.board@[s.index(row, col)] is Empty) ==> !s.legal(row, col),
        s.on_board(row, col) && s.ko == Some(s.index(row, col) as usize) ==> !s.legal(row, col),
        s.on_board(row, col) && s.board@[s.index(row, col)] is Empty && s.ko != Some(
            s.index(row, col) as usize,
        ) && (exists|n: int| #[trigger]
            board::neighbors(s.index(row, col), s.size as nat).contains(n) && s.board_after(
                s.index(row, col),
            )[n] is Empty) ==> s.legal(row, col),
        s.legal(row, col) ==> s.board@[s.index(row, col)] is Empty && exists|c: int|
            0 <= c < s.board@.len() && #[trigger] board::is_liberty(
                s.board_after(s.index(row, col)),
                s.size as nat,
                s.index(row, col),
                c,
            ),
{
    let size = s.size as nat;
    let idx = s.index(row, col);
    if s.on_board(row, col) {
        lemma_index(row, col, s.size as int);
        let after = s.board_after(idx);
        lemma_stone_stays(s.board@, size, idx, s.to_play);
        let libs = board::liberties_of(after, size, idx);
        assert(libs.subset_of(vstd::set_lib::set_int_range(0, s.board@.len() as int)));
        vstd::set_lib::lemma_int_range(0, s.board@.len() as int);
        vstd::set_lib::lemma_len_subset(
            libs,
            vstd::set_lib::set_int_range(0, s.board@.len() as int),
        );
        if exists|n: int| #[trigger]
            board::neighbors(idx, size).contains(n) && after[n] is Empty {
            let n = choose|n: int| #[trigger]
                board::neighbors(idx, size).contains(n) && after[n] is Empty;
            lemma_beside(idx, size, n);
            assert(board::joined(after, size, idx, idx, 0));
            assert(board::in_group(after, size, idx, idx));
            assert(board::is_liberty(after, size, idx, n));
            assert(libs.contains(n));
            if libs.len() == 0 {
                assert(libs =~= Set::<int>::empty());
            }
        }
        if s.legal(row, col) {
            assert(libs.len() > 0);
            let c = libs.choose();
            assert(libs.contains(c));
            assert(board::is_liberty(after, size, idx, c));
        }
    }
}

/// Turns alternate. A stone ends a run of passes, a pass lengthens it, and a second pass in a row
/// ends the game. Only the mover's count of captures grows, by the stones taken off.
pub proof fn law_turns_alternate(s: &GoState, idx: int, placed: &GoState, passed: &GoState)
    requires
        s.wf(),
        s.stone_leads_to(idx, placed),
        s.pass_leads_to(passed),
    ensures
        placed.to_play != s.to_play && passed.to_play != s.to_play,
        !(placed.to_play is Empty) && !(passed.to_play is Empty),
        placed.passes == 0,
        s.passes == 0 ==> passed.passes == 1,
        s.passes == 1 ==> passed.passes == 2,
        s.move_count < u32::MAX ==> placed.move_count == s.move_count + 1 && passed.move_count
            == s.move_count + 1,
        passed.board@ == s.board@ && passed.ko is None,
        passed.captured_black == s.captured_black && passed.captured_white == s.captured_white,
        s.to_play is Black ==> placed.captured_white == s.captured_white && placed.captured_black
            >= s.captured_black,
        s.to_play is White ==> placed.captured_black == s.captured_black && placed.captured_white
            >= s.captured_white,
        s.to_play is Black && s.captured_black + s.captures_at(idx) <= u32::MAX
            ==> placed.captured_black - s.captured_black == s.captures_at(idx),
        s.to_play is White && s.captured_white + s.captures_at(idx) <= u32::MAX
            ==> placed.captured_white - s.captured_white == s.captures_at(idx),
{
}

/// A stone that stands alone with one liberty after taking a single stone may not be retaken at
/// once. Every other move leaves no ko.
pub proof fn law_ko_may_not_be_retaken(s: &GoState, idx: int, next: &GoState, row: int, col: int)
    requires
        s.wf(),
        s.stone_leads_to(idx, next),
        next.wf(),
    ensures
        s.captures_at(idx) != 1 ==> next.ko is None,
        board::group_of(next.board@, s.size as nat, idx).len() != 1 ==> next.ko is None,
        board::liberties_of(next.board@, s.size as nat, idx).len() != 1 ==> next.ko is None,
        s.captures_at(idx) == 1 && board::group_of(next.board@, s.size as nat, idx).len() == 1
            && board::liberties_of(next.board@, s.size as nat, idx).len() == 1 && next.on_board(
            row,
            col,
        ) && captured_points(s.board@, s.size as nat, idx, s.to_play).contains(
            next.index(row, col),
        ) ==> !next.legal(row, col),
{
    let taken = captured_points(s.board@, s.size as nat, idx, s.to_play);
    if s.captures_at(idx) == 1 && next.ko is Some {
        let k = next.ko->0 as int;
        assert forall|c: int| taken.contains(c) implies c == k by {
            if c != k {
                assert(taken.finite()) by {
                    vstd::set_lib::lemma_int_range(0, s.board@.len() as int);
                    assert(taken.subset_of(
                        vstd::set_lib::set_int_range(0, s.board@.len() as int),
                    ));
                    vstd::set_lib::lemma_len_subset(
                        taken,
                        vstd::set_lib::set_int_range(0, s.board@.len() as int),
                    );
                }
                assert(taken.remove(k).contains(c));
                assert(taken.remove(k).len() == 0);
                assert(taken.remove(k) =~= Set::<int>::empty());
            }
        }
    }
}

/// The listed moves are exactly the legal ones, each once.
pub proof fn law_listed_moves_are_the_legal_ones(s: &GoState, row: int, col: int)
    requires
        s.wf(),
        0 <= row <= usize::MAX,
        0 <= col <= usize::MAX,
    ensures
        legal_list(s, (s.size * s.size) as nat).contains((row as usize, col as usize))
            == s.legal(row, col),
        legal_list(s, (s.size * s.size) as nat).no_duplicates(),
{
    let n = (s.size * s.size) as nat;
    lemma_legal_list(s, n);
    let list = legal_list(s, n);
    if list.contains((row as usize, col as usize)) {
        let i = choose|i: int| 0 <= i < list.len() && list[i] == (row as usize, col as usize);
        assert(s.legal(list[i].0 as int, list[i].1 as int));
    }
    if s.legal(row, col) {
        lemma_index(row, col, s.size as int);
    }
}

proof fn lemma_legal_list(s: &GoState, n: nat)
    requires
        s.wf(),
        n <= s.size * s.size,
    ensures
        forall|i: int|
            0 <= i < legal_list(s, n).len() ==> s.legal(
                (#[trigger] legal_list(s, n)[i]).0 as int,
                legal_list(s, n)[i].1 as int,
            ) && s.index(legal_list(s, n)[i].0 as int, legal_list(s, n)[i].1 as int) < n,
        forall|row: int, col: int|
            #[trigger] s.legal(row, col) && s.index(row, col) < n ==> legal_list(s, n).contains(
                (row as usize, col as usize),
            ),
        legal_list(s, n).no_duplicates(),
    decreases n,
{
    if n > 0 {
        let rest = legal_list(s, (n - 1) as nat);
        let all = legal_list(s, n);
        lemma_legal_list(s, (n - 1) as nat);
        let size = s.size as int;
        let r = (n - 1) / size;
        let c = (n - 1) % size;
        vstd::arithmetic::div_mod::lemma_fundamental_div_mod(n - 1, size);
        assert(r * size == size * r) by (nonlinear_arith);
        assert(0 <= c < size && 0 <= r < size) by (nonlinear_arith)
            requires
                size > 0,
                c == (n - 1) % size,
                r == (n - 1) / size,
                0 <= n - 1 < size * size,
        ;
        assert(s.index(r, c) == n - 1);
        assert forall|i: int| 0 <= i < all.len() implies s.legal(
            (#[trigger] all[i]).0 as int,
            all[i].1 as int,
        ) && s.index(all[i].0 as int, all[i].1 as int) < n by {
            if i < rest.len() {
                assert(all[i] == rest[i]);
            }
        }
        assert forall|row: int, col: int|
            #[trigger] s.legal(row, col) && s.index(row, col) < n implies all.contains(
            (row as usize, col as usize),
        ) by {
            if s.index(row, col) < n - 1 {
                let i = choose|i: int|
                    0 <= i < rest.len() && rest[i] == (row as usize, col as usize);
                assert(all[i] == rest[i]);
            } else {
                vstd::arithmetic::div_mod::lemma_fundamental_div_mod_converse(
                    n - 1,
                    size,
                    row,
                    col,
                );
                assert(all.last() == (row as usize, col as usize));
            }
        }
        assert forall|i: int, j: int|
            0 <= i < all.len() && 0 <= j < all.len() && i != j implies all[i] != all[j] by {
            let lo = if i < j {
                i
            } else {
                j
            };
            let hi = if i < j {
                j
            } else {
                i
            };
            assert(all[lo] == rest[lo]);
            if hi < rest.len() {
                assert(all[hi] == rest[hi]);
            } else {
                assert(s.index(all[hi].0 as int, all[hi].1 as int) == n - 1);
                assert(s.index(rest[lo].0 as int, rest[lo].1 as int) < n - 1);
            }
        }
    }
}

/// The board has as many rows as columns, numbered from zero, and row after row its points are
/// numbered too. Neither a stone nor a pass changes its size.
pub proof fn law_board_extent(
    s: &GoState,
    idx: int,
    placed: &GoState,
    passed: &GoState,
    row: int,
    col: int,
)
    requires
        s.stone_leads_to(idx, placed),
        s.pass_leads_to(passed),
    ensures
        0 < s.size ==> s.on_board(0, 0) && s.on_board(s.size - 1, s.size - 1),
        !s.on_board(-1, col) && !s.on_board(row, -1),
        !s.on_board(s.size as int, col) && !s.on_board(row, s.size as int),
        s.on_board(row, col) == s.on_board(col, row),
        s.index(0, 0) == 0,
        s.index(row, col + 1) == s.index(row, col) + 1,
        s.index(row + 1, col) == s.index(row, col) + s.size,
        placed.size == s.size && passed.size == s.size,
{
    let n = s.size as int;
    assert((row + 1) * n == row * n + n) by (nonlinear_arith);
    assert(0 * n == 0);
}

} // verus!
