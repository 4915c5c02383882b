//! Board points, connected groups and their liberties.

use vstd::prelude::*;

verus! {

/// What stands on a point.
#[derive(Clone, Copy, Debug, PartialEq, Eq, Structural)]
pub enum GoCell {
    Empty,
    Black,
    White,
}

impl GoCell {
    /// The other colour; an empty point has none.
    pub open spec fn other(self) -> GoCell {
        match self {
            GoCell::Black => GoCell::White,
            GoCell::White => GoCell::Black,
            GoCell::Empty => GoCell::Empty,
        }
    }

    /// True for a stone of either colour.
    pub fn is_stone(&self) -> (b: bool)
        ensures
            b == !(*self is Empty),
    {
        match self {
            GoCell::Empty => false,
            _ => true,
        }
    }

    /// The other colour.
    pub fn opponent(&self) -> (c: GoCell)
        ensures
            c == self.other(),
    {
        match self {
            GoCell::Black => GoCell::White,
            GoCell::White => GoCell::Black,
            GoCell::Empty => GoCell::Empty,
        }
    }

    /// The player's number: black first.
    pub fn player_id(&self) -> (id: u8)
        ensures
            id == (if *self is White {
                1u8
            } else {
                0u8
            }),
    {
        match self {
            GoCell::White => 1,
            _ => 0,
        }
    }
}

/// A board of `size * size` points, row by row.
pub open spec fn is_board(board: Seq<GoCell>, size: nat) -> bool {
    &&& 0 < size
    &&& board.len() == size * size
}

/// The neighbours of a point, in the order up, down, left, right.
pub open spec fn neighbors(idx: int, size: nat) -> Seq<int> {
    let row = idx / (size as int);
    let col = idx % (size as int);
    (if row > 0 {
        seq![idx - size]
    } else {
        seq![]
    }) + (if row + 1 < size {
        seq![idx + size]
    } else {
        seq![]
    }) + (if col > 0 {
        seq![idx - 1]
    } else {
        seq![]
    }) + (if col + 1 < size {
        seq![idx + 1]
    } else {
        seq![]
    })
}

/// `c` is joined to `start` by at most `k` steps over points of one colour.
pub open spec fn joined(board: Seq<GoCell>, size: nat, start: int, c: int, k: nat) -> bool
    decreases k,
{
    if k == 0 {
        c == start
    } else {
        joined(board, size, start, c, (k - 1) as nat) || (0 <= c < board.len() && board[c]
            == board[start] && exists|m: int| #[trigger]
            neighbors(m, size).contains(c) && joined(board, size, start, m, (k - 1) as nat))
    }
}

/// `c` belongs to the group of the stone at `start`.
pub open spec fn in_group(board: Seq<GoCell>, size: nat, start: int, c: int) -> bool {
    &&& !(board[start] is Empty)
    &&& exists|k: nat| joined(board, size, start, c, k)
}

/// The group of the stone at `start`.
pub open spec fn group_of(board: Seq<GoCell>, size: nat, start: int) -> Set<int> {
    Set::new(|c: int| 0 <= c < board.len() && in_group(board, size, start, c))
}

/// `c` is an empty point beside the group of the stone at `start`.
pub open spec fn is_liberty(board: Seq<GoCell>, size: nat, start: int, c: int) -> bool {
    &&& board[c] is Empty
    &&& exists|m: int| #[trigger]
        neighbors(m, size).contains(c) && in_group(board, size, start, m)
}

/// The liberties of the stone at `start`.
pub open spec fn liberties_of(board: Seq<GoCell>, size: nat, start: int) -> Set<int> {
    Set::new(|c: int| 0 <= c < board.len() && is_liberty(board, size, start, c))
}

/// Neighbours are on the board and are not the point itself.
pub proof fn lemma_neighbors(idx: int, size: nat)
    requires
        0 < size,
        0 <= idx < size * size,
    ensures
        neighbors(idx, size).len() <= 4,
        forall|i: int|
            0 <= i < neighbors(idx, size).len() ==> 0 <= #[trigger] neighbors(idx, size)[i] < size
                * size && neighbors(idx, size)[i] != idx,
{
    let s = size as int;
    let row = idx / s;
    let col = idx % s;
    vstd::arithmetic::div_mod::lemma_fundamental_div_mod(idx, s);
    assert(idx == s * row + col);
    assert(0 <= col < s) by (nonlinear_arith)
        requires
            col == idx % s,
            s > 0,
    ;
    assert(0 <= row < s) by (nonlinear_arith)
        requires
            idx == s * row + col,
            0 <= idx < s * s,
            0 <= col < s,
            s > 0,
    ;
    if row > 0 {
        assert(idx - s >= 0) by (nonlinear_arith)
            requires
                idx == s * row + col,
                row >= 1,
                col >= 0,
                s > 0,
        ;
    }
    if row + 1 < s {
        assert(idx + s < s * s) by (nonlinear_arith)
            requires
                idx == s * row + col,
                row + 2 <= s,
                col < s,
                s > 0,
        ;
    }
    if col + 1 < s {
        assert(idx + 1 < s * s) by (nonlinear_arith)
            requires
                idx == s * row + col,
                row + 1 <= s,
                col + 2 <= s,
                s > 0,
        ;
    }
}

/// Compute 4-connected neighbor flat indices for a board position.
pub fn board_neighbors(idx: usize, size: usize) -> (r: Vec<usize>)
    requires
        0 < size,
        size * size <= usize::MAX,
        idx < size * size,
    ensures
        r@.map_values(|n: usize| n as int) == neighbors(idx as int, size as nat),
        forall|i: int|
            0 <= i < r@.len() ==> #[trigger] r@[i] < size * size && r@[i] as int == neighbors(
                idx as int,
                size as nat,
            )[i],
        r@.len() == neighbors(idx as int, size as nat).len(),
{
    proof {
        lemma_neighbors(idx as int, size as nat);
        let s = size as int;
        vstd::arithmetic::div_mod::lemma_fundamental_div_mod(idx as int, s);
        assert(0 <= idx as int / s < s) by (nonlinear_arith)
            requires
                0 <= idx < s * s,
                s > 0,
        ;
        assert(s <= s * s) by (nonlinear_arith)
            requires
                s > 0,
        ;
    }
    let row: usize = idx / size;
    let col: usize = idx % size;
    let ghost list = neighbors(idx as int, size as nat);
    let mut result: Vec<usize> = Vec::new();
    if row > 0 {
        proof {
            assert(list[0] == idx - size);
        }
        result.push(idx - size);
    }
    if row + 1 < size {
        proof {
            assert(list[result@.len() as int] == idx + size);
        }
        result.push(idx + size);
    }
    if col > 0 {
        proof {
            assert(list[result@.len() as int] == idx - 1);
        }
        result.push(idx - 1);
    }
    if col + 1 < size {
        proof {
            assert(list[result@.len() as int] == idx + 1);
        }
        result.push(idx + 1);
    }
    assert(result@.map_values(|n: usize| n as int) =~= list);
    result
}

proof fn lemma_joined_monotone(board: Seq<GoCell>, size: nat, start: int, c: int, k: nat, m: nat)
    requires
        joined(board, size, start, c, k),
        k <= m,
    ensures
        joined(board, size, start, c, m),
    decreases m,
{
    if k < m {
        lemma_joined_monotone(board, size, start, c, k, (m - 1) as nat);
    }
}

/// A neighbour of the same colour belongs to the group too.
proof fn lemma_group_grows(board: Seq<GoCell>, size: nat, start: int, m: int, c: int)
    requires
        in_group(board, size, start, m),
        neighbors(m, size).contains(c),
        0 <= c < board.len(),
        board[c] == board[start],
    ensures
        in_group(board, size, start, c),
{
    let k = choose|k: nat| joined(board, size, start, m, k);
    assert(joined(board, size, start, c, (k + 1) as nat));
}

/// The stones of a group have its colour.
pub proof fn lemma_group_color(board: Seq<GoCell>, size: nat, start: int, c: int, k: nat)
    requires
        joined(board, size, start, c, k),
    ensures
        board[c] == board[start],
    decreases k,
{
    if k > 0 && joined(board, size, start, c, (k - 1) as nat) {
        lemma_group_color(board, size, start, c, (k - 1) as nat);
    }
}

/// A set that holds the start and is closed under neighbours of its colour holds the group.
proof fn lemma_group_closed(
    board: Seq<GoCell>,
    size: nat,
    start: int,
    group: Set<int>,
    c: int,
    k: nat,
)
    requires
        is_board(board, size),
        0 <= start < board.len(),
        group.contains(start),
        forall|m: int| #[trigger] group.contains(m) ==> 0 <= m < board.len(),
        forall|m: int, n: int|
            group.contains(m) && #[trigger] neighbors(m, size).contains(n) && board[n]
                == board[start] ==> group.contains(n),
        joined(board, size, start, c, k),
    ensures
        group.contains(c),
    decreases k,
{
    if k > 0 {
        if joined(board, size, start, c, (k - 1) as nat) {
            lemma_group_closed(board, size, start, group, c, (k - 1) as nat);
        } else {
            let m = choose|m: int| #[trigger]
                neighbors(m, size).contains(c) && joined(board, size, start, m, (k - 1) as nat);
            lemma_group_closed(board, size, start, group, m, (k - 1) as nat);
        }
    }
}

/// Which points are neighbours, by row and column.
proof fn lemma_neighbor_places(idx: int, size: nat, c: int)
    requires
        0 < size,
    ensures
        neighbors(idx, size).contains(c) <==> {
            let row = idx / (size as int);
            let col = idx % (size as int);
            ||| row > 0 && c == idx - size
            ||| row + 1 < size && c == idx + size
            ||| col > 0 && c == idx - 1
            ||| col + 1 < size && c == idx + 1
        },
{
    let row = idx / (size as int);
    let col = idx % (size as int);
    let n = neighbors(idx, size);
    let up = if row > 0 {
        1int
    } else {
        0
    };
    let down = if row + 1 < size {
        up + 1
    } else {
        up
    };
    let left = if col > 0 {
        down + 1
    } else {
        down
    };
    if row > 0 {
        assert(n[0] == idx - size);
    }
    if row + 1 < size {
        assert(n[up] == idx + size);
    }
    if col > 0 {
        assert(n[down] == idx - 1);
    }
    if col + 1 < size {
        assert(n[left] == idx + 1);
    }
}

/// Neighbours are mutual.
proof fn lemma_neighbors_are_mutual(a: int, b: int, size: nat)
    requires
        0 < size,
        0 <= a < size * size,
        neighbors(a, size).contains(b),
    ensures
        neighbors(b, size).contains(a),
{
    let s = size as int;
    let row = a / s;
    let col = a % s;
    lemma_neighbor_places(a, size, b);
    lemma_neighbor_places(b, size, a);
    vstd::arithmetic::div_mod::lemma_fundamental_div_mod(a, s);
    assert(0 <= col < s) by (nonlinear_arith)
        requires
            col == a % s,
            s > 0,
    ;
    assert(0 <= row < s) by (nonlinear_arith)
        requires
            a == s * row + col,
            0 <= a < s * s,
            0 <= col < s,
            s > 0,
    ;
    if row > 0 && b == a - s {
        assert(b == (row - 1) * s + col) by (nonlinear_arith)
            requires
                a == s * row + col,
                b == a - s,
        ;
        vstd::arithmetic::div_mod::lemma_fundamental_div_mod_converse(b, s, row - 1, col);
    } else if row + 1 < s && b == a + s {
        assert(b == (row + 1) * s + col) by (nonlinear_arith)
            requires
                a == s * row + col,
                b == a + s,
        ;
        vstd::arithmetic::div_mod::lemma_fundamental_div_mod_converse(b, s, row + 1, col);
    } else if col > 0 && b == a - 1 {
        assert(b == row * s + (col - 1)) by (nonlinear_arith)
            requires
                a == s * row + col,
                b == a - 1,
        ;
        vstd::arithmetic::div_mod::lemma_fundamental_div_mod_converse(b, s, row, col - 1);
    } else {
        assert(b == row * s + (col + 1)) by (nonlinear_arith)
            requires
                a == s * row + col,
                b == a + 1,
        ;
        vstd::arithmetic::div_mod::lemma_fundamental_div_mod_converse(b, s, row, col + 1);
    }
}

/// Ways over points of one colour can be put together.
proof fn lemma_joined_chain(
    board: Seq<GoCell>,
    size: nat,
    a: int,
    b: int,
    c: int,
    k: nat,
    m: nat,
)
    requires
        joined(board, size, a, b, k),
        joined(board, size, b, c, m),
    ensures
        joined(board, size, a, c, k + m),
    decreases m,
{
    lemma_group_color(board, size, a, b, k);
    if m > 0 {
        if joined(board, size, b, c, (m - 1) as nat) {
            lemma_joined_chain(board, size, a, b, c, k, (m - 1) as nat);
            lemma_joined_monotone(board, size, a, c, (k + m - 1) as nat, k + m);
        } else {
            let n = choose|n: int| #[trigger]
                neighbors(n, size).contains(c) && joined(board, size, b, n, (m - 1) as nat);
            lemma_joined_chain(board, size, a, b, n, k, (m - 1) as nat);
            assert(joined(board, size, a, n, (k + m - 1) as nat));
        }
    }
}

/// A way over points of one colour can be gone back.
proof fn lemma_joined_back(board: Seq<GoCell>, size: nat, a: int, b: int, k: nat)
    requires
        is_board(board, size),
        0 <= a < board.len(),
        joined(board, size, a, b, k),
    ensures
        0 <= b < board.len(),
        joined(board, size, b, a, k),
    decreases k,
{
    lemma_group_color(board, size, a, b, k);
    if k > 0 {
        if joined(board, size, a, b, (k - 1) as nat) {
            lemma_joined_back(board, size, a, b, (k - 1) as nat);
        } else {
            let m = choose|m: int| #[trigger]
                neighbors(m, size).contains(b) && joined(board, size, a, m, (k - 1) as nat);
            lemma_joined_back(board, size, a, m, (k - 1) as nat);
            lemma_group_color(board, size, a, m, (k - 1) as nat);
            lemma_neighbors_are_mutual(m, b, size);
            assert(joined(board, size, b, b, 0));
            assert(joined(board, size, b, m, 1));
            lemma_joined_chain(board, size, b, m, a, 1, (k - 1) as nat);
        }
    }
}

/// The stones of a group have one group and one set of liberties.
pub proof fn law_group_is_shared(board: Seq<GoCell>, size: nat, start: int, c: int)
    requires
        is_board(board, size),
        0 <= start < board.len(),
        group_of(board, size, start).contains(c),
    ensures
        group_of(board, size, c) == group_of(board, size, start),
        liberties_of(board, size, c) == liberties_of(board, size, start),
{
    let k = choose|k: nat| joined(board, size, start, c, k);
    lemma_joined_back(board, size, start, c, k);
    lemma_group_color(board, size, start, c, k);
    assert forall|x: int| in_group(board, size, c, x) == in_group(board, size, start, x) by {
        if in_group(board, size, c, x) {
            let m = choose|m: nat| joined(board, size, c, x, m);
            lemma_joined_chain(board, size, start, c, x, k, m);
        }
        if in_group(board, size, start, x) {
            let m = choose|m: nat| joined(board, size, start, x, m);
            lemma_joined_chain(board, size, c, start, x, k, m);
        }
    }
    assert(group_of(board, size, c) =~= group_of(board, size, start));
    assert forall|x: int| is_liberty(board, size, c, x) == is_liberty(
        board,
        size,
        start,
        x,
    ) by {
        if is_liberty(board, size, c, x) {
            let m = choose|m: int| #[trigger]
                neighbors(m, size).contains(x) && in_group(board, size, c, m);
            assert(in_group(board, size, start, m));
        }
        if is_liberty(board, size, start, x) {
            let m = choose|m: int| #[trigger]
                neighbors(m, size).contains(x) && in_group(board, size, start, m);
            assert(in_group(board, size, c, m));
        }
    }
    assert(liberties_of(board, size, c) =~= liberties_of(board, size, start));
}

/// The points of a list.
pub open spec fn points(v: Seq<usize>) -> Set<int> {
    Set::new(|c: int| exists|i: int| 0 <= i < v.len() && #[trigger] v[i] == c)
}

/// A list without repetition has as many entries as points.
pub proof fn lemma_points_len(v: Seq<usize>)
    requires
        v.no_duplicates(),
    ensures
        points(v).finite(),
        points(v).len() == v.len(),
{
    let w = v.map_values(|n: usize| n as int);
    assert(w.no_duplicates()) by {
        assert forall|i: int, j: int| 0 <= i < w.len() && 0 <= j < w.len() && i != j implies w[i]
            != w[j] by {
            assert(v[i] != v[j]);
        }
    }
    w.unique_seq_to_set();
    assert(points(v) =~= w.to_set()) by {
        assert forall|c: int| points(v).contains(c) == w.to_set().contains(c) by {
            if points(v).contains(c) {
                let i = choose|i: int| 0 <= i < v.len() && #[trigger] v[i] == c;
                assert(w[i] == c);
            }
            if w.to_set().contains(c) {
                let i = choose|i: int| 0 <= i < w.len() && w[i] == c;
                assert(v[i] == c);
            }
        }
    }
}


/// `p` is the start or lies beside its group.
spec fn touches(board: Seq<GoCell>, size: nat, start: int, p: int) -> bool {
    p == start || exists|m: int| #[trigger]
        neighbors(m, size).contains(p) && in_group(board, size, start, m)
}

/// What the fill has found is right and sorted by kind.
spec fn found_sound(
    board: Seq<GoCell>,
    size: nat,
    start: int,
    visited: Seq<bool>,
    group: Seq<usize>,
    liberties: Seq<usize>,
) -> bool {
    &&& visited.len() == board.len()
    &&& group.no_duplicates()
    &&& liberties.no_duplicates()
    &&& forall|i: int|
        0 <= i < group.len() ==> #[trigger] group[i] < board.len() && visited[group[i] as int]
            && in_group(board, size, start, group[i] as int)
    &&& forall|i: int|
        0 <= i < liberties.len() ==> #[trigger] liberties[i] < board.len()
            && visited[liberties[i] as int] && is_liberty(board, size, start, liberties[i] as int)
    &&& forall|c: int|
        0 <= c < board.len() && #[trigger] visited[c] ==> {
            &&& board[c] == board[start] ==> points(group).contains(c)
            &&& board[c] is Empty ==> points(liberties).contains(c)
        }
}

/// Every way out of the group found so far has been followed or is waiting.
spec fn frontier_waits(
    size: nat,
    start: int,
    visited: Seq<bool>,
    group: Seq<usize>,
    stack: Seq<usize>,
) -> bool {
    &&& visited[start] || points(stack).contains(start)
    &&& forall|m: int, n: int|
        points(group).contains(m) && #[trigger] neighbors(m, size).contains(n) ==> visited[n]
            || points(stack).contains(n)
}

pub proof fn lemma_points_push(v: Seq<usize>, x: usize)
    ensures
        forall|c: int| #[trigger]
            points(v.push(x)).contains(c) == (points(v).contains(c) || c == x),
{
    let w = v.push(x);
    assert forall|c: int| #[trigger] points(w).contains(c) == (points(v).contains(c) || c == x) by {
        if points(v).contains(c) {
            let i = choose|i: int| 0 <= i < v.len() && #[trigger] v[i] == c;
            assert(w[i] == c);
        }
        if c == x {
            assert(w[v.len() as int] == c);
        }
        if points(w).contains(c) {
            let i = choose|i: int| 0 <= i < w.len() && #[trigger] w[i] == c;
            if i < v.len() {
                assert(v[i] == c);
            }
        }
    }
}

proof fn lemma_points_pop(v: Seq<usize>)
    requires
        v.len() > 0,
    ensures
        forall|c: int| #[trigger]
            points(v).contains(c) == (points(v.drop_last()).contains(c) || c == v.last()),
{
    lemma_points_push(v.drop_last(), v.last());
    assert(v.drop_last().push(v.last()) =~= v);
}

/// A visited stone of the colour joins the group.
proof fn lemma_take_stone(
    board: Seq<GoCell>,
    size: nat,
    start: int,
    visited: Seq<bool>,
    group: Seq<usize>,
    liberties: Seq<usize>,
    pos: usize,
)
    requires
        is_board(board, size),
        0 <= start < board.len(),
        !(board[start] is Empty),
        found_sound(board, size, start, visited, group, liberties),
        pos < board.len(),
        !visited[pos as int],
        board[pos as int] == board[start],
        touches(board, size, start, pos as int),
    ensures
        in_group(board, size, start, pos as int),
        found_sound(
            board,
            size,
            start,
            visited.update(pos as int, true),
            group.push(pos),
            liberties,
        ),
{
    if pos == start {
        assert(joined(board, size, start, start, 0));
    } else {
        let m = choose|m: int| #[trigger]
            neighbors(m, size).contains(pos as int) && in_group(board, size, start, m);
        lemma_group_grows(board, size, start, m, pos as int);
    }
    lemma_points_push(group, pos);
    let g = group.push(pos);
    assert(g.no_duplicates()) by {
        assert forall|i: int, j: int| 0 <= i < g.len() && 0 <= j < g.len() && i != j implies g[i]
            != g[j] by {
            if i < group.len() {
                assert(visited[group[i] as int]);
            }
            if j < group.len() {
                assert(visited[group[j] as int]);
            }
        }
    }
    let v = visited.update(pos as int, true);
    assert forall|i: int| 0 <= i < g.len() implies #[trigger] g[i] < board.len() && v[g[i] as int]
        && in_group(board, size, start, g[i] as int) by {
        if i < group.len() {
            assert(g[i] == group[i]);
        }
    }
    assert forall|c: int| 0 <= c < board.len() && #[trigger] v[c] implies {
        &&& board[c] == board[start] ==> points(g).contains(c)
        &&& board[c] is Empty ==> points(liberties).contains(c)
    } by {
        if c != pos {
            assert(visited[c]);
        }
    }
}

/// A visited empty point becomes a liberty.
proof fn lemma_take_liberty(
    board: Seq<GoCell>,
    size: nat,
    start: int,
    visited: Seq<bool>,
    group: Seq<usize>,
    liberties: Seq<usize>,
    pos: usize,
)
    requires
        found_sound(board, size, start, visited, group, liberties),
        0 <= start < board.len(),
        !(board[start] is Empty),
        pos < board.len(),
        !visited[pos as int],
        board[pos as int] is Empty,
        touches(board, size, start, pos as int),
    ensures
        found_sound(
            board,
            size,
            start,
            visited.update(pos as int, true),
            group,
            liberties.push(pos),
        ),
{
    lemma_points_push(liberties, pos);
    let l = liberties.push(pos);
    assert(l.no_duplicates()) by {
        assert forall|i: int, j: int| 0 <= i < l.len() && 0 <= j < l.len() && i != j implies l[i]
            != l[j] by {
            if i < liberties.len() {
                assert(visited[liberties[i] as int]);
            }
            if j < liberties.len() {
                assert(visited[liberties[j] as int]);
            }
        }
    }
    let v = visited.update(pos as int, true);
    assert forall|i: int| 0 <= i < l.len() implies #[trigger] l[i] < board.len() && v[l[i] as int]
        && is_liberty(board, size, start, l[i] as int) by {
        if i < liberties.len() {
            assert(l[i] == liberties[i]);
        }
    }
    assert forall|c: int| 0 <= c < board.len() && #[trigger] v[c] implies {
        &&& board[c] == board[start] ==> points(group).contains(c)
        &&& board[c] is Empty ==> points(l).contains(c)
    } by {
        if c != pos {
            assert(visited[c]);
        }
    }
}

/// With nothing waiting, what was found is the whole group and all its liberties.
proof fn lemma_fill_done(
    board: Seq<GoCell>,
    size: nat,
    start: int,
    visited: Seq<bool>,
    group: Seq<usize>,
    liberties: Seq<usize>,
    stack: Seq<usize>,
)
    requires
        is_board(board, size),
        0 <= start < board.len(),
        !(board[start] is Empty),
        found_sound(board, size, start, visited, group, liberties),
        frontier_waits(size, start, visited, group, stack),
        stack.len() == 0,
    ensures
        points(group) == group_of(board, size, start),
        points(liberties) == liberties_of(board, size, start),
        group_of(board, size, start).finite(),
        liberties_of(board, size, start).finite(),
        group.len() == group_of(board, size, start).len(),
        liberties.len() == liberties_of(board, size, start).len(),
{
    let g = points(group);
    assert(!points(stack).contains(start));
    assert(g.contains(start));
    assert forall|m: int| #[trigger] g.contains(m) implies 0 <= m < board.len() by {
        let i = choose|i: int| 0 <= i < group.len() && #[trigger] group[i] == m;
    }
    assert forall|m: int, n: int|
        g.contains(m) && #[trigger] neighbors(m, size).contains(n) && board[n]
            == board[start] implies g.contains(n) by {
        lemma_neighbors(m, size);
        assert(!points(stack).contains(n));
        assert(visited[n]);
    }
    assert forall|c: int| g.contains(c) == group_of(board, size, start).contains(c) by {
        if g.contains(c) {
            let i = choose|i: int| 0 <= i < group.len() && #[trigger] group[i] == c;
        }
        if group_of(board, size, start).contains(c) {
            let k = choose|k: nat| joined(board, size, start, c, k);
            lemma_group_closed(board, size, start, g, c, k);
        }
    }
    assert(g =~= group_of(board, size, start));
    let l = points(liberties);
    assert forall|c: int| l.contains(c) == liberties_of(board, size, start).contains(c) by {
        if l.contains(c) {
            let i = choose|i: int| 0 <= i < liberties.len() && #[trigger] liberties[i] == c;
        }
        if liberties_of(board, size, start).contains(c) {
            let m = choose|m: int| #[trigger]
                neighbors(m, size).contains(c) && in_group(board, size, start, m);
            let k = choose|k: nat| joined(board, size, start, m, k);
            lemma_group_closed(board, size, start, g, m, k);
            assert(!points(stack).contains(c));
            assert(visited[c]);
        }
    }
    assert(l =~= liberties_of(board, size, start));
    lemma_points_len(group);
    lemma_points_len(liberties);
}

/// Flood fill to find a connected group and its liberties.
///
/// Returns the indices of the group, the start first, and of its liberties, each once. Both
/// are empty if `board[start]` is not a stone.
pub fn flood_group(board: &[GoCell], start: usize, size: usize) -> (r: (Vec<usize>, Vec<usize>))
    requires
        is_board(board@, size as nat),
        start < board@.len(),
    ensures
        board@[start as int] is Empty ==> r.0@.len() == 0 && r.1@.len() == 0,
        !(board@[start as int] is Empty) ==> {
            &&& r.0@.len() >= 1 && r.0@[0] == start
            &&& r.0@.no_duplicates()
            &&& r.1@.no_duplicates()
            &&& points(r.0@) == group_of(board@, size as nat, start as int)
            &&& points(r.1@) == liberties_of(board@, size as nat, start as int)
            &&& r.0@.len() == group_of(board@, size as nat, start as int).len()
            &&& r.1@.len() == liberties_of(board@, size as nat, start as int).len()
        },
{
    let color = board[start];
    let mut group: Vec<usize> = Vec::new();
    let mut liberties: Vec<usize> = Vec::new();
    if !color.is_stone() {
        return (group, liberties);
    }
    let total: usize = board.len();
    let mut visited: Vec<bool> = vec![false; total];
    let mut stack: Vec<usize> = Vec::new();
    stack.push(start);
    let ghost s = size as nat;
    let ghost mut seen: Set<int> = Set::empty();
    proof {
        lemma_points_push(Seq::<usize>::empty(), start);
        assert(stack@ =~= Seq::<usize>::empty().push(start));
        assert(seen =~= Set::new(|c: int| 0 <= c < total && visited@[c]));
        vstd::set_lib::lemma_int_range(0, total as int);
    }
    while stack.len() > 0
        invariant
            s == size,
            is_board(board@, s),
            total == board@.len(),
            start < total,
            color == board@[start as int],
            !(color is Empty),
            found_sound(board@, s, start as int, visited@, group@, liberties@),
            frontier_waits(s, start as int, visited@, group@, stack@),
            forall|i: int|
                0 <= i < stack@.len() ==> #[trigger] stack@[i] < total && touches(
                    board@,
                    s,
                    start as int,
                    stack@[i] as int,
                ),
            group@.len() > 0 ==> group@[0] == start,
            group@.len() == 0 ==> stack@ == seq![start] && !visited@[start as int],
            seen.subset_of(vstd::set_lib::set_int_range(0, total as int)),
            seen =~= Set::new(|c: int| 0 <= c < total && visited@[c]),
            vstd::set_lib::set_int_range(0, total as int).finite(),
            vstd::set_lib::set_int_range(0, total as int).len() == total,
        decreases total - seen.len(), stack@.len(),
    {
        let ghost old_stack = stack@;
        proof {
            vstd::set_lib::lemma_len_subset(seen, vstd::set_lib::set_int_range(0, total as int));
            lemma_points_pop(old_stack);
        }
        let pos: usize = stack.pop().unwrap();
        assert(pos == old_stack.last());
        assert(stack@ == old_stack.drop_last());
        assert(touches(board@, s, start as int, pos as int));
        if visited[pos] {
            continue ;
        }
        let ghost visited0 = visited@;
        let ghost group0 = group@;
        let ghost seen0 = seen;
        visited.set(pos, true);
        proof {
            seen = seen.insert(pos as int);
            assert(seen =~= Set::new(|c: int| 0 <= c < total && visited@[c]));
            assert(!seen0.contains(pos as int));
            vstd::set_lib::lemma_len_subset(seen, vstd::set_lib::set_int_range(0, total as int));
        }
        let here = board[pos];
        if here == color {
            proof {
                lemma_take_stone(
                    board@,
                    s,
                    start as int,
                    visited0,
                    group@,
                    liberties@,
                    pos,
                );
                lemma_points_push(group@, pos);
            }
            group.push(pos);
            let around = board_neighbors(pos, size);
            let mut i: usize = 0;
            while i < around.len()
                invariant
                    i <= around.len(),
                    s == size,
                    total == board@.len(),
                    visited@.len() == total,
                    around@.len() == neighbors(pos as int, s).len(),
                    in_group(board@, s, start as int, pos as int),
                    forall|j: int|
                        0 <= j < around@.len() ==> #[trigger] around@[j] < total && around@[j] as int
                            == neighbors(pos as int, s)[j],
                    forall|j: int|
                        0 <= j < stack@.len() ==> #[trigger] stack@[j] < total && touches(
                            board@,
                            s,
                            start as int,
                            stack@[j] as int,
                        ),
                    forall|c: int|
                        points(old_stack.drop_last()).contains(c) ==> #[trigger] points(
                            stack@,
                        ).contains(c),
                    forall|j: int|
                        0 <= j < i ==> visited@[#[trigger] around@[j] as int] || points(
                            stack@,
                        ).contains(around@[j] as int),
                decreases around.len() - i,
            {
                let n: usize = around[i];
                if !visited[n] {
                    proof {
                        lemma_points_push(stack@, n);
                        assert(neighbors(pos as int, s)[i as int] == n);
                        assert(neighbors(pos as int, s).contains(n as int));
                        assert(touches(board@, s, start as int, n as int));
                    }
                    stack.push(n);
                }
                i = i + 1;
            }
            assert(frontier_waits(s, start as int, visited@, group@, stack@)) by {
                assert forall|m: int, n: int|
                    points(group@).contains(m) && #[trigger] neighbors(m, s).contains(
                        n,
                    ) implies visited@[n] || points(stack@).contains(n) by {
                    if m == pos {
                        let j = choose|j: int|
                            0 <= j < neighbors(m, s).len() && neighbors(m, s)[j] == n;
                        assert(around@[j] as int == n);
                    } else {
                        assert(points(group0).contains(m));
                        lemma_group_on_board(board@, s, start as int, visited0, group0, liberties@, m);
                        lemma_neighbors(m, s);
                        assert(visited0[n] || points(old_stack).contains(n));
                        if n != pos && !visited0[n] {
                            assert(points(old_stack.drop_last()).contains(n));
                        }
                    }
                }
            }
        } else {
            if here == GoCell::Empty {
                proof {
                    lemma_take_liberty(
                        board@,
                        s,
                        start as int,
                        visited0,
                        group@,
                        liberties@,
                        pos,
                    );
                }
                liberties.push(pos);
            } else {
                assert(found_sound(board@, s, start as int, visited@, group@, liberties@)) by {
                    assert forall|c: int| 0 <= c < board@.len() && #[trigger] visited@[c] implies {
                        &&& board@[c] == board@[start as int] ==> points(group@).contains(c)
                        &&& board@[c] is Empty ==> points(liberties@).contains(c)
                    } by {
                        if c != pos {
                            assert(visited0[c]);
                        }
                    }
                }
            }
            assert(pos != start);
            assert(frontier_waits(s, start as int, visited@, group@, stack@)) by {
                assert forall|m: int, n: int|
                    points(group@).contains(m) && #[trigger] neighbors(m, s).contains(
                        n,
                    ) implies visited@[n] || points(stack@).contains(n) by {
                    assert(visited0[n] || points(old_stack).contains(n));
                    lemma_group_on_board(board@, s, start as int, visited@, group@, liberties@, m);
                    lemma_neighbors(m, s);
                }
            }
        }
    }
    proof {
        lemma_fill_done(
            board@,
            s,
            start as int,
            visited@,
            group@,
            liberties@,
            stack@,
        );
    }
    (group, liberties)
}

proof fn lemma_group_on_board(
    board: Seq<GoCell>,
    size: nat,
    start: int,
    visited: Seq<bool>,
    group: Seq<usize>,
    liberties: Seq<usize>,
    m: int,
)
    requires
        found_sound(board, size, start, visited, group, liberties),
        points(group).contains(m),
    ensures
        0 <= m < board.len(),
{
    let i = choose|i: int| 0 <= i < group.len() && #[trigger] group[i] == m;
}

/// Two points are neighbours exactly when they are one step apart along a row or a column.
pub proof fn law_neighbors_are_one_step_apart(
    size: nat,
    row: int,
    col: int,
    other_row: int,
    other_col: int,
)
    requires
        0 <= row < size,
        0 <= col < size,
        0 <= other_row < size,
        0 <= other_col < size,
    ensures
        neighbors(row * size + col, size).contains(other_row * size + other_col) == (row
            == other_row && (col == other_col + 1 || other_col == col + 1) || col == other_col && (
        row == other_row + 1 || other_row == row + 1)),
{
    let s = size as int;
    let idx = row * s + col;
    let c = other_row * s + other_col;
    lemma_neighbor_places(idx, size, c);
    vstd::arithmetic::div_mod::lemma_fundamental_div_mod_converse(idx, s, row, col);
    assert((row - 1) * s == row * s - s) by (nonlinear_arith);
    assert((row + 1) * s == row * s + s) by (nonlinear_arith);
    if other_row >= row + 2 {
        assert(other_row * s >= (row + 2) * s) by (nonlinear_arith)
            requires
                other_row >= row + 2,
                s > 0,
        ;
        assert((row + 2) * s == row * s + 2 * s) by (nonlinear_arith);
    }
    if other_row <= row - 2 {
        assert(other_row * s <= (row - 2) * s) by (nonlinear_arith)
            requires
                other_row <= row - 2,
                s > 0,
        ;
        assert((row - 2) * s == row * s - 2 * s) by (nonlinear_arith);
    }
}

/// Neighbours are mutual, no point is its own, and none is counted twice.
pub proof fn law_neighbors_are_mutual(size: nat, a: int, b: int)
    requires
        0 < size,
        0 <= a < size * size,
        0 <= b < size * size,
    ensures
        neighbors(a, size).contains(b) == neighbors(b, size).contains(a),
        !neighbors(a, size).contains(a),
        neighbors(a, size).no_duplicates(),
{
    if neighbors(a, size).contains(b) {
        lemma_neighbors_are_mutual(a, b, size);
    }
    if neighbors(b, size).contains(a) {
        lemma_neighbors_are_mutual(b, a, size);
    }
    lemma_neighbor_places(a, size, a);
    vstd::arithmetic::div_mod::lemma_fundamental_div_mod(a, size as int);
    if size == 1 {
        assert(a == 0);
    }
}

/// A group holds the stone, every neighbour of its colour of a stone that it holds, and stones of
/// that colour only. A set of points with the first two properties holds the group.
pub proof fn law_group_is_connected(
    board: Seq<GoCell>,
    size: nat,
    start: int,
    m: int,
    n: int,
    closed: Set<int>,
)
    requires
        is_board(board, size),
        0 <= start < board.len(),
        !(board[start] is Empty),
    ensures
        group_of(board, size, start).contains(start),
        group_of(board, size, start).contains(m) ==> 0 <= m < board.len() && board[m]
            == board[start],
        group_of(board, size, start).contains(m) && neighbors(m, size).contains(n) && board[n]
            == board[start] ==> group_of(board, size, start).contains(n),
        closed.contains(start) && (forall|x: int| #[trigger]
            closed.contains(x) ==> 0 <= x < board.len()) && (forall|x: int, y: int|
            closed.contains(x) && #[trigger] neighbors(x, size).contains(y) && board[y]
                == board[start] ==> closed.contains(y)) ==> group_of(board, size, start).subset_of(
            closed,
        ),
{
    assert(joined(board, size, start, start, 0));
    if group_of(board, size, start).contains(m) {
        let k = choose|k: nat| joined(board, size, start, m, k);
        lemma_group_color(board, size, start, m, k);
        if neighbors(m, size).contains(n) && board[n] == board[start] {
            lemma_neighbors(m, size);
            let i = choose|i: int|
                0 <= i < neighbors(m, size).len() && neighbors(m, size)[i] == n;
            assert(0 <= neighbors(m, size)[i] < size * size);
            lemma_group_grows(board, size, start, m, n);
        }
    }
    if closed.contains(start) && (forall|x: int| #[trigger]
        closed.contains(x) ==> 0 <= x < board.len()) && (forall|x: int, y: int|
        closed.contains(x) && #[trigger] neighbors(x, size).contains(y) && board[y] == board[start]
            ==> closed.contains(y)) {
        assert forall|c: int| group_of(board, size, start).contains(c) implies closed.contains(
            c,
        ) by {
            let k = choose|k: nat| joined(board, size, start, c, k);
            lemma_group_closed(board, size, start, closed, c, k);
        }
    }
}

/// The liberties of a group are the empty points beside its stones.
pub proof fn law_liberties_are_empty_neighbors(
    board: Seq<GoCell>,
    size: nat,
    start: int,
    m: int,
    c: int,
)
    requires
        is_board(board, size),
        0 <= start < board.len(),
        0 <= c < board.len(),
    ensures
        group_of(board, size, start).contains(m) && neighbors(m, size).contains(c) && board[c] is Empty
            ==> liberties_of(board, size, start).contains(c),
        liberties_of(board, size, start).contains(c) ==> board[c] is Empty && exists|x: int|
            group_of(board, size, start).contains(x) && #[trigger] neighbors(x, size).contains(c),
{
    if group_of(board, size, start).contains(m) && neighbors(m, size).contains(c) && board[
        c
    ] is Empty {
        assert(in_group(board, size, start, m));
    }
    if liberties_of(board, size, start).contains(c) {
        let x = choose|x: int| #[trigger]
            neighbors(x, size).contains(c) && in_group(board, size, start, x);
        let k = choose|k: nat| joined(board, size, start, x, k);
        lemma_joined_back(board, size, start, x, k);
        assert(group_of(board, size, start).contains(x) && neighbors(x, size).contains(c));
    }
}

/// A change at a point that is neither of a colour before nor after leaves the groups of that
/// colour as they are.
pub proof fn lemma_group_unchanged(
    a: Seq<GoCell>,
    b: Seq<GoCell>,
    size: nat,
    start: int,
    idx: int,
    c: int,
    k: nat,
)
    requires
        is_board(a, size),
        0 <= start < a.len(),
        0 <= idx < a.len(),
        start != idx,
        b == a.update(idx, b[idx]),
        a[idx] != a[start],
        b[idx] != a[start],
    ensures
        joined(a, size, start, c, k) == joined(b, size, start, c, k),
    decreases k,
{
    if k > 0 {
        lemma_group_unchanged(a, b, size, start, idx, c, (k - 1) as nat);
        if 0 <= c < a.len() {
            if a[c] == a[start] {
                assert(b[c] == b[start]);
                assert forall|m: int|
                    #![trigger neighbors(m, size).contains(c)]
                    joined(a, size, start, m, (k - 1) as nat) == joined(
                    b,
                    size,
                    start,
                    m,
                    (k - 1) as nat,
                ) by {
                    lemma_group_unchanged(a, b, size, start, idx, m, (k - 1) as nat);
                }
            } else {
                assert(b[c] != b[start]);
            }
        }
    }
}

} // verus!
