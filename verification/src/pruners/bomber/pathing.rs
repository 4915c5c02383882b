//! Breadth-first search over the walkable cells of an arena.

use vstd::prelude::*;

use crate::pruners::bomber::arena::ArenaGrid;
use crate::pruners::bomber::GridPos;

verus! {

/// A cell found by the search: where it is, which visit it was first reached from, and how
/// many steps it lies from the start.
#[derive(Clone, Copy, Debug, PartialEq, Eq, Structural)]
pub struct Visit {
    pub pos: GridPos,
    pub parent: usize,
    pub depth: usize,
}

/// The neighbour of `c` in direction `d`: up, down, left, right.
pub open spec fn neighbor(c: GridPos, d: int) -> GridPos {
    if d == 0 {
        GridPos { x: c.x, y: (c.y - 1) as i32 }
    } else if d == 1 {
        GridPos { x: c.x, y: (c.y + 1) as i32 }
    } else if d == 2 {
        GridPos { x: (c.x - 1) as i32, y: c.y }
    } else {
        GridPos { x: (c.x + 1) as i32, y: c.y }
    }
}

/// True where a player can stand.
pub open spec fn open_cell(grid: &ArenaGrid, c: GridPos) -> bool {
    grid.walkable(c.x as int, c.y as int)
}

/// True when some visit is at `c`.
pub open spec fn visited(q: Seq<Visit>, c: GridPos) -> bool {
    exists|i: int| 0 <= i < q.len() && (#[trigger] q[i]).pos == c
}

/// The visits after the first `d` directions out of visit `i` have been tried.
pub open spec fn expand(grid: &ArenaGrid, q: Seq<Visit>, i: int, d: nat) -> Seq<Visit>
    decreases d,
{
    if d == 0 {
        q
    } else {
        let p = expand(grid, q, i, (d - 1) as nat);
        let n = neighbor(q[i].pos, d - 1);
        if open_cell(grid, n) && !visited(p, n) {
            p.push(Visit { pos: n, parent: i as usize, depth: (q[i].depth + 1) as usize })
        } else {
            p
        }
    }
}

/// The visits after `n` of them have been expanded, in order.
pub open spec fn flood(grid: &ArenaGrid, from: GridPos, n: nat) -> Seq<Visit>
    decreases n,
{
    if n == 0 {
        seq![Visit { pos: from, parent: 0, depth: 0 }]
    } else {
        let q = flood(grid, from, (n - 1) as nat);
        if n - 1 < q.len() {
            expand(grid, q, n - 1, 4)
        } else {
            q
        }
    }
}

/// The breadth-first order of everything that can be reached from `from`.
pub open spec fn bfs(grid: &ArenaGrid, from: GridPos) -> Seq<Visit> {
    flood(grid, from, (grid.width * grid.height + 1) as nat)
}

/// `c` can be reached from `from` in at most `k` steps over walkable cells.
pub open spec fn reach(grid: &ArenaGrid, from: GridPos, c: GridPos, k: nat) -> bool
    decreases k,
{
    if k == 0 {
        c == from
    } else {
        reach(grid, from, c, (k - 1) as nat) || (open_cell(grid, c) && (exists|d: int|
            0 <= d < 4 && reach(grid, from, #[trigger] neighbor(c, d), (k - 1) as nat)))
    }
}

/// The first visit from `i` on that satisfies `p`, or the number of visits.
pub open spec fn find_from(q: Seq<Visit>, p: spec_fn(GridPos) -> bool, i: int) -> int
    decreases q.len() - i,
{
    if i >= q.len() {
        q.len() as int
    } else if p(q[i].pos) {
        i
    } else {
        find_from(q, p, i + 1)
    }
}

/// The visit just after the start on the way to visit `i`.
pub open spec fn first_hop(q: Seq<Visit>, i: int) -> int
    decreases i,
{
    if 0 < q[i].parent < i {
        first_hop(q, q[i].parent as int)
    } else {
        i
    }
}

/// What every stage of the search keeps.
#[verifier::opaque]
spec fn tree(grid: &ArenaGrid, from: GridPos, q: Seq<Visit>) -> bool {
    &&& q.len() >= 1
    &&& q[0] == Visit { pos: from, parent: 0, depth: 0 }
    &&& forall|i: int|
        0 < i < q.len() ==> {
            let v = #[trigger] q[i];
            &&& v.parent < i
            &&& v.depth == q[v.parent as int].depth + 1
            &&& open_cell(grid, v.pos)
            &&& exists|d: int| 0 <= d < 4 && v.pos == #[trigger] neighbor(q[v.parent as int].pos, d)
        }
    &&& forall|i: int, j: int|
        0 <= i < j < q.len() ==> (#[trigger] q[i]).pos != (#[trigger] q[j]).pos && q[i].depth
            <= q[j].depth
}

/// Every way out of the first `n` visits has been followed.
spec fn closed_to(grid: &ArenaGrid, q: Seq<Visit>, n: int) -> bool {
    forall|i: int, d: int|
        0 <= i < n && 0 <= d < 4 && open_cell(grid, #[trigger] neighbor(q[i].pos, d)) ==> exists|j: int|
            0 <= j < q.len() && (#[trigger] q[j]).pos == neighbor(q[i].pos, d) && q[j].depth
                <= q[i].depth + 1
}

/// A finished search: each reachable cell once, nearest first, with its tree.
pub open spec fn search_order(grid: &ArenaGrid, from: GridPos, q: Seq<Visit>) -> bool {
    &&& q == bfs(grid, from)
    &&& q.len() >= 1
    &&& q[0] == Visit { pos: from, parent: 0, depth: 0 }
    &&& forall|i: int|
        0 < i < q.len() ==> {
            let v = #[trigger] q[i];
            &&& v.parent < i
            &&& v.depth == q[v.parent as int].depth + 1
            &&& open_cell(grid, v.pos)
            &&& exists|d: int| 0 <= d < 4 && v.pos == #[trigger] neighbor(q[v.parent as int].pos, d)
        }
    &&& forall|i: int, j: int|
        0 <= i < j < q.len() ==> (#[trigger] q[i]).pos != (#[trigger] q[j]).pos && q[i].depth
            <= q[j].depth
    &&& forall|c: GridPos, k: nat|
        #[trigger] reach(grid, from, c, k) <==> exists|i: int|
            0 <= i < q.len() && (#[trigger] q[i]).pos == c && q[i].depth <= k
}

proof fn lemma_row_major(w: int, x1: int, y1: int, x2: int, y2: int)
    requires
        0 <= x1 < w,
        0 <= x2 < w,
        y1 * w + x1 == y2 * w + x2,
    ensures
        x1 == x2,
        y1 == y2,
{
    vstd::arithmetic::div_mod::lemma_fundamental_div_mod_converse(y1 * w + x1, w, y1, x1);
    vstd::arithmetic::div_mod::lemma_fundamental_div_mod_converse(y2 * w + x2, w, y2, x2);
}

/// The place of a cell in the grid, row by row; the start outside the grid comes last.
spec fn place(grid: &ArenaGrid, c: GridPos) -> int {
    if grid.inside(c.x as int, c.y as int) {
        c.y * grid.width + c.x
    } else {
        grid.width * grid.height
    }
}

/// A search never holds more visits than the grid has cells, plus the start.
proof fn lemma_len_bound(grid: &ArenaGrid, from: GridPos, q: Seq<Visit>)
    requires
        grid.wf(),
        tree(grid, from, q),
    ensures
        q.len() <= grid.width * grid.height + 1,
{
    reveal(tree);
    let w = grid.width as int;
    let h = grid.height as int;
    let n = w * h + 1;
    assert(w * h >= 0) by (nonlinear_arith)
        requires
            w >= 0,
            h >= 0,
    ;
    let places = q.map_values(|v: Visit| place(grid, v.pos));
    assert forall|i: int| 0 <= i < q.len() implies 0 <= #[trigger] places[i] < n by {
        let c = q[i].pos;
        if grid.inside(c.x as int, c.y as int) {
            assert(0 <= c.y * w + c.x < w * h) by (nonlinear_arith)
                requires
                    0 <= c.x < w,
                    0 <= c.y < h,
            ;
        }
    }
    assert forall|i: int, j: int| 0 <= i < q.len() && 0 <= j < q.len() && i != j implies places[i]
        != places[j] by {
        let a = if i < j {
            i
        } else {
            j
        };
        let b = if i < j {
            j
        } else {
            i
        };
        let c1 = q[a].pos;
        let c2 = q[b].pos;
        assert(c1 != c2);
        assert(grid.inside(c2.x as int, c2.y as int));
        assert(0 <= c2.y * w + c2.x < w * h) by (nonlinear_arith)
            requires
                0 <= c2.x < w,
                0 <= c2.y < h,
        ;
        if grid.inside(c1.x as int, c1.y as int) && c1.y * w + c1.x == c2.y * w + c2.x {
            lemma_row_major(w, c1.x as int, c1.y as int, c2.x as int, c2.y as int);
        }
    }
    assert(places.no_duplicates());
    places.unique_seq_to_set();
    let all = vstd::set_lib::set_int_range(0, n);
    vstd::set_lib::lemma_int_range(0, n);
    assert(places.to_set().subset_of(all)) by {
        assert forall|p: int| places.to_set().contains(p) implies all.contains(p) by {
            let i = choose|i: int| 0 <= i < places.len() && places[i] == p;
            assert(0 <= places[i] < n);
        }
    }
    vstd::set_lib::lemma_len_subset(places.to_set(), all);
}

proof fn lemma_flood_stable(grid: &ArenaGrid, from: GridPos, n: nat, m: nat)
    requires
        n <= m,
        flood(grid, from, n).len() <= n,
    ensures
        flood(grid, from, m) == flood(grid, from, n),
    decreases m,
{
    if n < m {
        lemma_flood_stable(grid, from, n, (m - 1) as nat);
    }
}

/// A new cell beside an earlier visit extends the tree.
proof fn lemma_tree_push(grid: &ArenaGrid, from: GridPos, q: Seq<Visit>, v: Visit, d: int)
    requires
        tree(grid, from, q),
        v.parent < q.len(),
        0 <= d < 4,
        v.pos == neighbor(q[v.parent as int].pos, d),
        v.depth == q[v.parent as int].depth + 1,
        open_cell(grid, v.pos),
        !visited(q, v.pos),
        forall|i: int| 0 <= i < q.len() ==> (#[trigger] q[i]).depth <= v.depth,
    ensures
        tree(grid, from, q.push(v)),
{
    reveal(tree);
    let r = q.push(v);
    assert forall|i: int| 0 < i < r.len() implies {
        let u = #[trigger] r[i];
        &&& u.parent < i
        &&& u.depth == r[u.parent as int].depth + 1
        &&& open_cell(grid, u.pos)
        &&& exists|d: int| 0 <= d < 4 && u.pos == #[trigger] neighbor(r[u.parent as int].pos, d)
    } by {
        if i < q.len() {
            assert(r[i] == q[i]);
            assert(r[q[i].parent as int] == q[q[i].parent as int]);
        } else {
            assert(r[v.parent as int] == q[v.parent as int]);
            assert(v.pos == neighbor(r[v.parent as int].pos, d));
        }
    }
}

/// Following every way out of visit `n` closes the search up to it.
proof fn lemma_closed_step(grid: &ArenaGrid, q0: Seq<Visit>, q: Seq<Visit>, n: int)
    requires
        closed_to(grid, q0, n),
        0 <= n < q0.len() <= q.len(),
        forall|i: int| 0 <= i < q0.len() ==> q[i] == #[trigger] q0[i],
        forall|i: int| 0 <= i < q.len() ==> (#[trigger] q[i]).depth <= q0[n].depth + 1,
        forall|d: int|
            0 <= d < 4 && open_cell(grid, #[trigger] neighbor(q0[n].pos, d)) ==> visited(
                q,
                neighbor(q0[n].pos, d),
            ),
    ensures
        closed_to(grid, q, n + 1),
{
    assert forall|i: int, d: int|
        0 <= i < n + 1 && 0 <= d < 4 && open_cell(
            grid,
            #[trigger] neighbor(q[i].pos, d),
        ) implies exists|j: int|
        0 <= j < q.len() && (#[trigger] q[j]).pos == neighbor(q[i].pos, d) && q[j].depth
            <= q[i].depth + 1 by {
        assert(q[i] == q0[i]);
        if i < n {
            assert(open_cell(grid, neighbor(q0[i].pos, d)));
            let j = choose|j: int|
                0 <= j < q0.len() && (#[trigger] q0[j]).pos == neighbor(q0[i].pos, d)
                    && q0[j].depth <= q0[i].depth + 1;
            assert(q[j] == q0[j]);
        } else {
            assert(visited(q, neighbor(q0[n].pos, d)));
            let j = choose|j: int| 0 <= j < q.len() && (#[trigger] q[j]).pos == neighbor(q0[n].pos, d);
            assert(q[j].depth <= q0[n].depth + 1);
        }
    }
}

/// Going one way and back returns to the same cell.
proof fn lemma_back(c: GridPos, d: int) -> (b: int)
    requires
        c.movable(),
        0 <= d < 4,
    ensures
        0 <= b < 4,
        neighbor(neighbor(c, d), b) == c,
{
    if d == 0 {
        1
    } else if d == 1 {
        0
    } else if d == 2 {
        3
    } else {
        2
    }
}

pub proof fn lemma_reach_monotone(grid: &ArenaGrid, from: GridPos, c: GridPos, k: nat, m: nat)
    requires
        reach(grid, from, c, k),
        k <= m,
    ensures
        reach(grid, from, c, m),
    decreases m,
{
    if k < m {
        lemma_reach_monotone(grid, from, c, k, (m - 1) as nat);
    }
}

/// What the search holds is reachable in the steps it says.
proof fn lemma_tree_sound(grid: &ArenaGrid, from: GridPos, q: Seq<Visit>, i: int)
    requires
        grid.wf(),
        from.movable(),
        tree(grid, from, q),
        0 <= i < q.len(),
    ensures
        reach(grid, from, q[i].pos, q[i].depth as nat),
    decreases i,
{
    reveal(tree);
    if i > 0 {
        let v = q[i];
        let p = v.parent as int;
        lemma_tree_sound(grid, from, q, p);
        let d = choose|d: int| 0 <= d < 4 && v.pos == #[trigger] neighbor(q[p].pos, d);
        assert(q[p].pos.movable()) by {
            if p > 0 {
                assert(open_cell(grid, q[p].pos));
            }
        }
        let b = lemma_back(q[p].pos, d);
        assert(reach(grid, from, neighbor(v.pos, b), (v.depth - 1) as nat));
    }
}

/// What is reachable is held, at no more than that many steps.
proof fn lemma_tree_complete(grid: &ArenaGrid, from: GridPos, q: Seq<Visit>, c: GridPos, k: nat)
    requires
        grid.wf(),
        from.movable(),
        tree(grid, from, q),
        closed_to(grid, q, q.len() as int),
        reach(grid, from, c, k),
    ensures
        exists|i: int| 0 <= i < q.len() && (#[trigger] q[i]).pos == c && q[i].depth <= k,
    decreases k,
{
    reveal(tree);
    if k == 0 {
        assert(q[0].pos == c && q[0].depth <= k);
    } else if reach(grid, from, c, (k - 1) as nat) {
        lemma_tree_complete(grid, from, q, c, (k - 1) as nat);
    } else {
        let d = choose|d: int|
            0 <= d < 4 && reach(grid, from, #[trigger] neighbor(c, d), (k - 1) as nat);
        let n = neighbor(c, d);
        lemma_tree_complete(grid, from, q, n, (k - 1) as nat);
        let i = choose|i: int| 0 <= i < q.len() && (#[trigger] q[i]).pos == n && q[i].depth <= k - 1;
        assert(c.movable());
        let b = lemma_back(c, d);
        assert(open_cell(grid, neighbor(q[i].pos, b)));
        let j = choose|j: int|
            0 <= j < q.len() && (#[trigger] q[j]).pos == neighbor(q[i].pos, b) && q[j].depth
                <= q[i].depth + 1;
        assert(q[j].pos == c && q[j].depth <= k);
    }
}

/// The neighbour of a position in direction `d`.
pub fn step_from(c: GridPos, d: usize) -> (n: GridPos)
    requires
        c.movable(),
        d < 4,
    ensures
        n == neighbor(c, d as int),
{
    if d == 0 {
        GridPos { x: c.x, y: c.y - 1 }
    } else if d == 1 {
        GridPos { x: c.x, y: c.y + 1 }
    } else if d == 2 {
        GridPos { x: c.x - 1, y: c.y }
    } else {
        GridPos { x: c.x + 1, y: c.y }
    }
}

fn is_visited(q: &Vec<Visit>, c: GridPos) -> (b: bool)
    ensures
        b == visited(q@, c),
{
    let mut i: usize = 0;
    while i < q.len()
        invariant
            i <= q.len(),
            forall|j: int| 0 <= j < i ==> (#[trigger] q@[j]).pos != c,
        decreases q.len() - i,
    {
        if q[i].pos == c {
            return true;
        }
        i = i + 1;
    }
    false
}

/// Visits every cell that can be reached from `from`, nearest first.
///
/// The start is visited whether or not it is walkable.
pub fn search(grid: &ArenaGrid, from: GridPos) -> (q: Vec<Visit>)
    requires
        grid.wf(),
        from.movable(),
    ensures
        search_order(grid, from, q@),
{
    let mut q: Vec<Visit> = Vec::new();
    q.push(Visit { pos: from, parent: 0, depth: 0 });
    let mut head: usize = 0;
    assert(q@ =~= flood(grid, from, 0));
    assert(tree(grid, from, q@)) by {
        reveal(tree);
    }
    while head < q.len()
        invariant
            grid.wf(),
            from.movable(),
            head <= q.len(),
            q@ == flood(grid, from, head as nat),
            tree(grid, from, q@),
            closed_to(grid, q@, head as int),
            forall|i: int| 0 <= i < q.len() ==> (#[trigger] q@[i]).depth <= i,
            head < q.len() ==> forall|i: int|
                0 <= i < q.len() ==> (#[trigger] q@[i]).depth <= q@[head as int].depth + 1,
        decreases grid.width * grid.height + 1 - head,
    {
        proof {
            lemma_len_bound(grid, from, q@);
        }
        let here = q[head];
        let ghost q0 = q@;
        assert(here.pos.movable()) by {
            reveal(tree);
            if head > 0 {
                assert(open_cell(grid, here.pos));
            }
        }
        let mut d: usize = 0;
        while d < 4
            invariant
                grid.wf(),
                d <= 4,
                head < q0.len() <= q@.len(),
                head < q.len(),
                here == q0[head as int],
                here.pos.movable(),
                here.depth <= head,
                q@ == expand(grid, q0, head as int, d as nat),
                tree(grid, from, q@),
                forall|i: int| 0 <= i < q0.len() ==> q@[i] == #[trigger] q0[i],
                closed_to(grid, q0, head as int),
                forall|i: int| 0 <= i < q@.len() ==> (#[trigger] q@[i]).depth <= i,
                forall|i: int| 0 <= i < q@.len() ==> (#[trigger] q@[i]).depth <= here.depth + 1,
                forall|e: int|
                    0 <= e < d && open_cell(grid, #[trigger] neighbor(here.pos, e)) ==> visited(
                        q@,
                        neighbor(here.pos, e),
                    ),
            decreases 4 - d,
        {
            let n = step_from(here.pos, d);
            let ghost before = q@;
            if grid.is_walkable(n.x, n.y) {
                if !is_visited(&q, n) {
                    q.push(Visit { pos: n, parent: head, depth: here.depth + 1 });
                    proof {
                        lemma_tree_push(grid, from, before, q@.last(), d as int);
                    }
                }
            }
            assert forall|e: int|
                0 <= e < d + 1 && open_cell(grid, #[trigger] neighbor(here.pos, e)) implies visited(
                q@,
                neighbor(here.pos, e),
            ) by {
                if visited(before, neighbor(here.pos, e)) {
                    let i = choose|i: int|
                        0 <= i < before.len() && (#[trigger] before[i]).pos == neighbor(here.pos, e);
                    assert(q@[i] == before[i]);
                } else {
                    assert(e == d);
                    assert(q@[before.len() as int].pos == n);
                }
            }
            d = d + 1;
        }
        proof {
            lemma_closed_step(grid, q0, q@, head as int);
            assert(head + 1 < q@.len() ==> here.depth <= q@[head + 1].depth) by {
                reveal(tree);
                assert(q@[head as int] == here);
            }
        }
        head = head + 1;
    }
    proof {
        reveal(tree);
        lemma_len_bound(grid, from, q@);
        lemma_flood_stable(
            grid,
            from,
            head as nat,
            (grid.width * grid.height + 1) as nat,
        );
        assert forall|c: GridPos, k: nat| #[trigger] reach(grid, from, c, k) <==> exists|i: int|
            0 <= i < q@.len() && (#[trigger] q@[i]).pos == c && q@[i].depth <= k by {
            if reach(grid, from, c, k) {
                lemma_tree_complete(grid, from, q@, c, k);
            }
            if exists|i: int| 0 <= i < q@.len() && (#[trigger] q@[i]).pos == c && q@[i].depth <= k {
                let i = choose|i: int|
                    0 <= i < q@.len() && (#[trigger] q@[i]).pos == c && q@[i].depth <= k;
                lemma_tree_sound(grid, from, q@, i);
                lemma_reach_monotone(grid, from, c, q@[i].depth as nat, k);
            }
        }
    }
    q
}

/// The four neighbours of a cell are the cells one step away: up and down change the row, left and
/// right the column, and each is undone by its opposite.
pub proof fn law_neighbors_are_one_step_away(c: GridPos, n: GridPos)
    requires
        c.movable(),
    ensures
        neighbor(c, 0).y == c.y - 1 && neighbor(c, 0).x == c.x,
        neighbor(c, 1).y == c.y + 1 && neighbor(c, 1).x == c.x,
        neighbor(c, 2).x == c.x - 1 && neighbor(c, 2).y == c.y,
        neighbor(c, 3).x == c.x + 1 && neighbor(c, 3).y == c.y,
        neighbor(neighbor(c, 0), 1) == c,
        neighbor(neighbor(c, 1), 0) == c,
        neighbor(neighbor(c, 2), 3) == c,
        neighbor(neighbor(c, 3), 2) == c,
        (n.x == c.x && (n.y == c.y + 1 || n.y == c.y - 1) || n.y == c.y && (n.x == c.x + 1 || n.x
            == c.x - 1)) == (exists|d: int| 0 <= d < 4 && n == #[trigger] neighbor(c, d)),
{
    if n.x == c.x && n.y == c.y - 1 {
        assert(n == neighbor(c, 0));
    } else if n.x == c.x && n.y == c.y + 1 {
        assert(n == neighbor(c, 1));
    } else if n.y == c.y && n.x == c.x - 1 {
        assert(n == neighbor(c, 2));
    } else if n.y == c.y && n.x == c.x + 1 {
        assert(n == neighbor(c, 3));
    }
}

/// The start is reached without a step and nothing else is. Each further step leads to a walkable
/// neighbour, and no cell is reached in fewer steps than it is away.
pub proof fn law_reach_goes_step_by_step(grid: &ArenaGrid, from: GridPos, c: GridPos, k: nat)
    requires
        grid.wf(),
        from.movable(),
    ensures
        reach(grid, from, c, 0) == (c == from),
        reach(grid, from, c, k) ==> reach(grid, from, c, k + 1),
        reach(grid, from, c, k) && c != from ==> grid.walkable(c.x as int, c.y as int),
        reach(grid, from, c, k) ==> c.x - from.x <= k && from.x - c.x <= k && c.y - from.y <= k
            && from.y - c.y <= k,
        reach(grid, from, c, k) ==> (if c.x < from.x {
            from.x - c.x
        } else {
            c.x - from.x
        }) + (if c.y < from.y {
            from.y - c.y
        } else {
            c.y - from.y
        }) <= k,
        forall|d: int|
            0 <= d < 4 && reach(grid, from, c, k) && open_cell(grid, #[trigger] neighbor(c, d))
                ==> reach(grid, from, neighbor(c, d), k + 1),
    decreases k,
{
    if k > 0 {
        if reach(grid, from, c, k) {
            if reach(grid, from, c, (k - 1) as nat) {
                law_reach_goes_step_by_step(grid, from, c, (k - 1) as nat);
            } else {
                let d = choose|d: int|
                    0 <= d < 4 && reach(grid, from, #[trigger] neighbor(c, d), (k - 1) as nat);
                law_reach_goes_step_by_step(grid, from, neighbor(c, d), (k - 1) as nat);
            }
        }
    }
    if reach(grid, from, c, k) {
        assert(c.movable());
        assert forall|d: int|
            0 <= d < 4 && open_cell(grid, #[trigger] neighbor(c, d)) implies reach(
            grid,
            from,
            neighbor(c, d),
            k + 1,
        ) by {
            let b = lemma_back(c, d);
            assert(reach(grid, from, neighbor(neighbor(c, d), b), k));
        }
    }
}

} // verus!
