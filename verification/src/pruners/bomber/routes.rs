//! Where to go next: safe cells, walls to bomb, and the first step toward them.

use vstd::prelude::*;

use crate::pruners::bomber::arena::ArenaGrid;
use crate::pruners::bomber::danger::{
    has_escape_route, in_blast_zone, knows_bomb, manhattan, DEFAULT_BLAST_RANGE,
};
use crate::pruners::bomber::pathing::{search, step_from, Visit};
use crate::pruners::bomber::{BomberAction, Cell, GridPos};
use crate::pruners::bomber::danger;
use crate::pruners::bomber::pathing;

verus! {

/// The position after an action.
pub open spec fn target(action: BomberAction, pos: GridPos) -> GridPos {
    match action {
        BomberAction::Up => pathing::neighbor(pos, 0),
        BomberAction::Down => pathing::neighbor(pos, 1),
        BomberAction::Left => pathing::neighbor(pos, 2),
        BomberAction::Right => pathing::neighbor(pos, 3),
        BomberAction::Bomb => pos,
        BomberAction::Wait => pos,
    }
}

/// The action with the given index; everything past Bomb is Wait.
pub open spec fn action_at(idx: int) -> BomberAction {
    if idx == 0 {
        BomberAction::Up
    } else if idx == 1 {
        BomberAction::Down
    } else if idx == 2 {
        BomberAction::Left
    } else if idx == 3 {
        BomberAction::Right
    } else if idx == 4 {
        BomberAction::Bomb
    } else {
        BomberAction::Wait
    }
}

/// The move that leads from one cell to the cell beside it.
pub open spec fn heading(from: GridPos, to: GridPos) -> Option<BomberAction> {
    if to == target(BomberAction::Up, from) {
        Some(BomberAction::Up)
    } else if to == target(BomberAction::Down, from) {
        Some(BomberAction::Down)
    } else if to == target(BomberAction::Left, from) {
        Some(BomberAction::Left)
    } else if to == target(BomberAction::Right, from) {
        Some(BomberAction::Right)
    } else {
        None
    }
}

/// A wall that a bomb can open.
pub open spec fn breakable(grid: &ArenaGrid, c: GridPos) -> bool {
    grid.at(c.x as int, c.y as int) is DestructibleWall || grid.at(c.x as int, c.y as int)
        is PowerUpHidden
}

/// The test for cells outside every blast zone.
pub open spec fn safe_test(bombs: Seq<((i32, i32), u32)>) -> spec_fn(GridPos) -> bool {
    |c: GridPos| !danger::in_blast(c, bombs)
}

/// The test for one cell.
pub open spec fn here_test(to: GridPos) -> spec_fn(GridPos) -> bool {
    |c: GridPos| c == to
}

/// The test for cells beside `wall`.
pub open spec fn beside_test(wall: GridPos) -> spec_fn(GridPos) -> bool {
    |c: GridPos| danger::distance(c, wall) == 1
}

/// The first direction from `d` on in which the cell beside `c` hides a power-up (or, with
/// `powerup` off, is a plain destructible wall); 4 if there is none.
pub open spec fn first_wall_dir(grid: &ArenaGrid, c: GridPos, powerup: bool, d: int) -> int
    decreases 4 - d,
{
    if d >= 4 {
        4
    } else {
        let n = pathing::neighbor(c, d);
        let cell = grid.at(n.x as int, n.y as int);
        if (powerup && cell is PowerUpHidden) || (!powerup && cell is DestructibleWall) {
            d
        } else {
            first_wall_dir(grid, c, powerup, d + 1)
        }
    }
}

/// The wall to bomb from `c`: a hidden power-up before a plain wall, each in direction order.
pub open spec fn wall_beside(grid: &ArenaGrid, c: GridPos) -> Option<GridPos> {
    let p = first_wall_dir(grid, c, true, 0);
    let w = first_wall_dir(grid, c, false, 0);
    if p < 4 {
        Some(pathing::neighbor(c, p))
    } else if w < 4 {
        Some(pathing::neighbor(c, w))
    } else {
        None
    }
}

/// The test for cells with a wall to bomb beside them.
pub open spec fn wall_test(grid: &ArenaGrid) -> spec_fn(GridPos) -> bool {
    |c: GridPos| wall_beside(grid, c) is Some
}

/// `s` passes the test, can be reached from `pos`, and no cell that passes it is nearer.
pub open spec fn is_nearest(
    grid: &ArenaGrid,
    pos: GridPos,
    test: spec_fn(GridPos) -> bool,
    s: GridPos,
) -> bool {
    &&& test(s)
    &&& exists|k: nat| #[trigger] pathing::reach(grid, pos, s, k)
    &&& forall|c: GridPos, k: nat|
        #[trigger] pathing::reach(grid, pos, c, k) && test(c) ==> pathing::reach(grid, pos, s, k)
}

/// The move begins a shortest way to `to`: from where it leads, `to` is one step nearer.
pub open spec fn leads_toward(
    grid: &ArenaGrid,
    from: GridPos,
    a: BomberAction,
    to: GridPos,
) -> bool {
    &&& a.is_step()
    &&& pathing::open_cell(grid, target(a, from))
    &&& forall|k: nat| #[trigger]
        pathing::reach(grid, from, to, k) ==> k > 0 && pathing::reach(
            grid,
            target(a, from),
            to,
            (k - 1) as nat,
        )
}

/// No cell that can be reached from `pos` passes the test.
pub open spec fn none_in_reach(
    grid: &ArenaGrid,
    pos: GridPos,
    test: spec_fn(GridPos) -> bool,
) -> bool {
    forall|c: GridPos, k: nat| #[trigger] pathing::reach(grid, pos, c, k) ==> !test(c)
}

/// The nearest cell outside every blast zone, in search order.
pub open spec fn safe_cell(
    grid: &ArenaGrid,
    pos: GridPos,
    bombs: Seq<((i32, i32), u32)>,
) -> Option<GridPos> {
    let q = pathing::bfs(grid, pos);
    let i = pathing::find_from(q, safe_test(bombs), 0);
    if i < q.len() {
        Some(q[i].pos)
    } else {
        None
    }
}

/// The first move on the way from `from` to the first cell that passes the test.
pub open spec fn step_to(
    grid: &ArenaGrid,
    from: GridPos,
    test: spec_fn(GridPos) -> bool,
) -> Option<BomberAction> {
    let q = pathing::bfs(grid, from);
    let i = pathing::find_from(q, test, 0);
    if i < q.len() {
        heading(from, q[pathing::first_hop(q, i)].pos)
    } else {
        None
    }
}

/// The first move on the way to `to`; none from `to` itself or when it cannot be reached.
pub open spec fn step_toward(grid: &ArenaGrid, from: GridPos, to: GridPos) -> Option<BomberAction> {
    if from == to {
        None
    } else {
        step_to(grid, from, here_test(to))
    }
}

/// The first move on the way to a cell beside `wall`; none when already beside or on it.
pub open spec fn step_beside(grid: &ArenaGrid, from: GridPos, wall: GridPos) -> Option<BomberAction> {
    if danger::distance(from, wall) <= 1 {
        None
    } else {
        step_to(grid, from, beside_test(wall))
    }
}

/// The nearest wall to bomb, in search order.
pub open spec fn nearest_wall(grid: &ArenaGrid, pos: GridPos) -> Option<GridPos> {
    let q = pathing::bfs(grid, pos);
    let i = pathing::find_from(q, wall_test(grid), 0);
    if i < q.len() {
        wall_beside(grid, q[i].pos)
    } else {
        None
    }
}

/// True when a player who drops a bomb at `pos` can step aside and leave the blast in time.
pub open spec fn can_step_aside(grid: &ArenaGrid, pos: GridPos) -> bool {
    exists|d: int|
        0 <= d < 4 && pathing::open_cell(
            grid,
            #[trigger] pathing::neighbor(pos, d),
        ) && danger::escapes(
            grid,
            pathing::neighbor(pos, d),
            (pos.x, pos.y),
            DEFAULT_BLAST_RANGE,
        )
}

/// True when a bomb at `pos` opens something, is not there yet, and leaves a way out.
pub open spec fn worth_bombing(
    grid: &ArenaGrid,
    pos: GridPos,
    bombs: Seq<((i32, i32), u32)>,
) -> bool {
    &&& !danger::bomb_known(bombs, (pos.x, pos.y))
    &&& wall_beside(grid, pos) is Some
    &&& can_step_aside(grid, pos)
}

/// Compute target position after applying a move action.
pub fn move_target(action: &BomberAction, pos: GridPos) -> (t: GridPos)
    requires
        pos.movable(),
    ensures
        t == target(*action, pos),
{
    match action {
        BomberAction::Up => step_from(pos, 0),
        BomberAction::Down => step_from(pos, 1),
        BomberAction::Left => step_from(pos, 2),
        BomberAction::Right => step_from(pos, 3),
        BomberAction::Bomb => pos,
        BomberAction::Wait => pos,
    }
}

/// Convert index 0..6 to action.
pub fn index_to_action(idx: usize) -> (a: BomberAction)
    ensures
        a == action_at(idx as int),
{
    match idx {
        0 => BomberAction::Up,
        1 => BomberAction::Down,
        2 => BomberAction::Left,
        3 => BomberAction::Right,
        4 => BomberAction::Bomb,
        _ => BomberAction::Wait,
    }
}

/// An action and its index determine each other.
pub proof fn law_action_index_round_trip(a: BomberAction, i: int)
    requires
        0 <= i < 6,
    ensures
        action_at(a.index()) == a,
        action_at(i).index() == i,
{
}

proof fn lemma_find_from(q: Seq<Visit>, p: spec_fn(GridPos) -> bool, i: int)
    requires
        0 <= i <= q.len(),
    ensures
        ({
            let f = pathing::find_from(q, p, i);
            &&& i <= f <= q.len()
            &&& f < q.len() ==> p(q[f].pos)
            &&& forall|j: int| i <= j < f ==> !p((#[trigger] q[j]).pos)
        }),
    decreases q.len() - i,
{
    if i < q.len() && !p(q[i].pos) {
        lemma_find_from(q, p, i + 1);
    }
}

/// The first visit of a search that passes a test is a nearest such cell.
proof fn lemma_first_is_nearest(
    grid: &ArenaGrid,
    pos: GridPos,
    q: Seq<Visit>,
    test: spec_fn(GridPos) -> bool,
)
    requires
        pathing::search_order(grid, pos, q),
    ensures
        ({
            let f = pathing::find_from(q, test, 0);
            &&& 0 <= f <= q.len()
            &&& f < q.len() ==> is_nearest(grid, pos, test, q[f].pos)
            &&& f < q.len() ==> !none_in_reach(grid, pos, test)
            &&& f == q.len() ==> none_in_reach(grid, pos, test)
        }),
{
    lemma_find_from(q, test, 0);
    let f = pathing::find_from(q, test, 0);
    if f < q.len() {
        assert(pathing::reach(grid, pos, q[f].pos, q[f].depth as nat));
    }
    assert forall|c: GridPos, k: nat| #[trigger] pathing::reach(grid, pos, c, k) && test(
        c,
    ) implies f < q.len() && pathing::reach(grid, pos, q[f].pos, k) by {
        let i = choose|i: int| 0 <= i < q.len() && (#[trigger] q[i]).pos == c && q[i].depth <= k;
        assert(test(q[i].pos));
        assert(f <= i);
        assert(q[f].depth <= k);
    }
}

/// The first hop lies beside the start and is walkable.
proof fn lemma_first_hop(grid: &ArenaGrid, from: GridPos, q: Seq<Visit>, i: int)
    requires
        pathing::search_order(grid, from, q),
        0 < i < q.len(),
    ensures
        ({
            let h = pathing::first_hop(q, i);
            &&& 0 < h <= i
            &&& q[h].parent == 0
            &&& pathing::open_cell(grid, q[h].pos)
            &&& heading(from, q[h].pos) is Some
            &&& heading(from, q[h].pos)->0.is_step()
            &&& target(heading(from, q[h].pos)->0, from) == q[h].pos
        }),
    decreases i,
{
    let v = q[i];
    assert(v.parent < i);
    if v.parent > 0 {
        lemma_first_hop(grid, from, q, v.parent as int);
    } else {
        assert(q[0].pos == from);
    }
}

/// A walkable neighbour of a cell is one step farther.
proof fn lemma_reach_step(grid: &ArenaGrid, from: GridPos, c: GridPos, d: int, k: nat)
    requires
        c.movable(),
        0 <= d < 4,
        pathing::reach(grid, from, c, k),
        pathing::open_cell(grid, pathing::neighbor(c, d)),
    ensures
        pathing::reach(grid, from, pathing::neighbor(c, d), k + 1),
{
    let n = pathing::neighbor(c, d);
    let b = if d == 0 {
        1int
    } else if d == 1 {
        0
    } else if d == 2 {
        3
    } else {
        2
    };
    assert(pathing::neighbor(n, b) == c);
}

/// The tree path from the first hop to visit `i` is one step shorter than that from the start.
proof fn lemma_hop_path(grid: &ArenaGrid, from: GridPos, q: Seq<Visit>, i: int)
    requires
        grid.wf(),
        from.movable(),
        pathing::search_order(grid, from, q),
        0 < i < q.len(),
    ensures
        q[i].depth >= 1,
        pathing::reach(
            grid,
            q[pathing::first_hop(q, i)].pos,
            q[i].pos,
            (q[i].depth - 1) as nat,
        ),
    decreases i,
{
    let v = q[i];
    let p = v.parent as int;
    assert(v.parent < i);
    assert(v.depth == q[p].depth + 1);
    if p > 0 {
        lemma_hop_path(grid, from, q, p);
        let h = q[pathing::first_hop(q, i)].pos;
        assert(pathing::first_hop(q, i)
            == pathing::first_hop(q, p));
        let d = choose|d: int|
            0 <= d < 4 && v.pos == #[trigger] pathing::neighbor(q[p].pos, d);
        assert(pathing::open_cell(grid, q[p].pos));
        assert(pathing::open_cell(grid, v.pos));
        lemma_reach_step(grid, h, q[p].pos, d, (v.depth - 2) as nat);
    } else {
        assert(q[0].depth == 0);
    }
}

/// The first hop toward a visit leads toward its cell.
proof fn lemma_hop_leads(grid: &ArenaGrid, from: GridPos, q: Seq<Visit>, i: int)
    requires
        grid.wf(),
        from.movable(),
        pathing::search_order(grid, from, q),
        0 < i < q.len(),
    ensures
        ({
            let a = heading(from, q[pathing::first_hop(q, i)].pos);
            a is Some && leads_toward(grid, from, a->0, q[i].pos)
        }),
{
    lemma_first_hop(grid, from, q, i);
    lemma_hop_path(grid, from, q, i);
    let h = pathing::first_hop(q, i);
    let to = q[i].pos;
    assert forall|k: nat| #[trigger] pathing::reach(grid, from, to, k) implies k > 0
        && pathing::reach(grid, q[h].pos, to, (k - 1) as nat) by {
        let j = choose|j: int| 0 <= j < q.len() && (#[trigger] q[j]).pos == to && q[j].depth <= k;
        assert(j == i);
        pathing::lemma_reach_monotone(
            grid,
            q[h].pos,
            to,
            (q[i].depth - 1) as nat,
            (k - 1) as nat,
        );
    }
}

/// BFS: find nearest cell outside any bomb blast zone.
pub fn find_safe_cell(grid: &ArenaGrid, pos: GridPos, bombs: &[((i32, i32), u32)]) -> (r: Option<
    GridPos,
>)
    requires
        grid.wf(),
        pos.movable(),
    ensures
        r == safe_cell(grid, pos, bombs@),
        r is None == none_in_reach(grid, pos, safe_test(bombs@)),
        r matches Some(s) ==> is_nearest(grid, pos, safe_test(bombs@), s),
{
    let q = search(grid, pos);
    let ghost test = safe_test(bombs@);
    proof {
        lemma_first_is_nearest(grid, pos, q@, test);
    }
    let mut i: usize = 0;
    while i < q.len()
        invariant
            i <= q.len(),
            pathing::search_order(grid, pos, q@),
            test == safe_test(bombs@),
            pathing::find_from(q@, test, 0)
                == pathing::find_from(q@, test, i as int),
        decreases q.len() - i,
    {
        if !in_blast_zone(q[i].pos, bombs) {
            assert(test(q@[i as int].pos));
            proof {
                lemma_first_is_nearest(grid, pos, q@, test);
            }
            return Some(q[i].pos);
        }
        assert(!test(q@[i as int].pos));
        i = i + 1;
    }
    None
}

/// The move from the start of a search toward one of its visits.
fn first_move(grid: &ArenaGrid, from: GridPos, q: &Vec<Visit>, i: usize) -> (r: Option<BomberAction>)
    requires
        pathing::search_order(grid, from, q@),
        from.movable(),
        0 < i < q.len(),
    ensures
        r == heading(from, q@[pathing::first_hop(q@, i as int)].pos),
{
    let mut j: usize = i;
    assert(q@[i as int].parent < i);
    while q[j].parent != 0
        invariant
            0 < j < q.len(),
            q@[j as int].parent < j,
            pathing::search_order(grid, from, q@),
            pathing::first_hop(q@, i as int)
                == pathing::first_hop(q@, j as int),
        decreases j,
    {
        j = q[j].parent;
        assert(q@[j as int].parent < j);
    }
    let hop = q[j].pos;
    if hop == step_from(from, 0) {
        Some(BomberAction::Up)
    } else if hop == step_from(from, 1) {
        Some(BomberAction::Down)
    } else if hop == step_from(from, 2) {
        Some(BomberAction::Left)
    } else if hop == step_from(from, 3) {
        Some(BomberAction::Right)
    } else {
        None
    }
}

/// BFS: find first step from `from` toward `to`.
///
/// The step goes to a walkable cell and shortens every way to `to`.
pub fn next_step_toward(grid: &ArenaGrid, from: GridPos, to: GridPos) -> (r: Option<BomberAction>)
    requires
        grid.wf(),
        from.movable(),
    ensures
        r == step_toward(grid, from, to),
        r is None == (from == to || none_in_reach(grid, from, here_test(to))),
        r matches Some(a) ==> leads_toward(grid, from, a, to),
{
    if from == to {
        return None;
    }
    let q = search(grid, from);
    let ghost test = here_test(to);
    proof {
        lemma_first_is_nearest(grid, from, q@, test);
    }
    let mut i: usize = 0;
    while i < q.len()
        invariant
            i <= q.len(),
            grid.wf(),
            from.movable(),
            from != to,
            pathing::search_order(grid, from, q@),
            test == here_test(to),
            pathing::find_from(q@, test, 0)
                == pathing::find_from(q@, test, i as int),
        decreases q.len() - i,
    {
        if q[i].pos == to {
            assert(test(q@[i as int].pos));
            proof {
                assert(i > 0);
                lemma_first_is_nearest(grid, from, q@, test);
                lemma_hop_leads(grid, from, q@, i as int);
            }
            return first_move(grid, from, &q, i);
        }
        assert(!test(q@[i as int].pos));
        i = i + 1;
    }
    None
}

/// The wall to bomb from a cell.
fn wall_near(grid: &ArenaGrid, c: GridPos, powerup: bool) -> (r: Option<GridPos>)
    requires
        grid.wf(),
        c.movable(),
    ensures
        ({
            let f = first_wall_dir(grid, c, powerup, 0);
            r == (if f < 4 {
                Some(pathing::neighbor(c, f))
            } else {
                None::<GridPos>
            })
        }),
{
    let mut d: usize = 0;
    while d < 4
        invariant
            d <= 4,
            grid.wf(),
            c.movable(),
            first_wall_dir(grid, c, powerup, 0) == first_wall_dir(grid, c, powerup, d as int),
        decreases 4 - d,
    {
        let n = step_from(c, d);
        let found: bool = match grid.get(n.x, n.y) {
            Cell::PowerUpHidden(_) => powerup,
            Cell::DestructibleWall => !powerup,
            _ => false,
        };
        if found {
            return Some(n);
        }
        d = d + 1;
    }
    None
}

fn find_wall_beside(grid: &ArenaGrid, c: GridPos) -> (r: Option<GridPos>)
    requires
        grid.wf(),
        c.movable(),
    ensures
        r == wall_beside(grid, c),
{
    let p = wall_near(grid, c, true);
    if p.is_some() {
        return p;
    }
    wall_near(grid, c, false)
}

/// BFS: find nearest destructible wall reachable from `pos`.
///
/// Prefers `PowerUpHidden` walls over plain `DestructibleWall`.
pub fn find_nearest_wall(grid: &ArenaGrid, pos: GridPos) -> (r: Option<GridPos>)
    requires
        grid.wf(),
        pos.movable(),
    ensures
        r == nearest_wall(grid, pos),
        r is None == none_in_reach(grid, pos, wall_test(grid)),
        r matches Some(w) ==> exists|c: GridPos| #[trigger]
            is_nearest(grid, pos, wall_test(grid), c) && wall_beside(grid, c) == Some(w),
{
    let q = search(grid, pos);
    let ghost test = wall_test(grid);
    proof {
        lemma_first_is_nearest(grid, pos, q@, test);
    }
    let mut i: usize = 0;
    while i < q.len()
        invariant
            i <= q.len(),
            grid.wf(),
            pos.movable(),
            pathing::search_order(grid, pos, q@),
            test == wall_test(grid),
            pathing::find_from(q@, test, 0)
                == pathing::find_from(q@, test, i as int),
        decreases q.len() - i,
    {
        assert(q@[i as int].pos.movable()) by {
            if i > 0 {
                assert(pathing::open_cell(grid, q@[i as int].pos));
            }
        }
        let wall = find_wall_beside(grid, q[i].pos);
        if wall.is_some() {
            assert(test(q@[i as int].pos));
            proof {
                lemma_first_is_nearest(grid, pos, q@, test);
            }
            return wall;
        }
        assert(!test(q@[i as int].pos));
        i = i + 1;
    }
    None
}

/// BFS: find first step toward any walkable cell adjacent to `wall`.
pub fn step_toward_wall(grid: &ArenaGrid, from: GridPos, wall: GridPos) -> (r: Option<BomberAction>)
    requires
        grid.wf(),
        from.movable(),
    ensures
        r == step_beside(grid, from, wall),
        r is None == (danger::distance(from, wall) <= 1 || none_in_reach(
            grid,
            from,
            beside_test(wall),
        )),
        r matches Some(a) ==> exists|c: GridPos| #[trigger]
            is_nearest(grid, from, beside_test(wall), c) && leads_toward(grid, from, a, c),
        r matches Some(a) ==> a.is_step() && pathing::open_cell(grid, target(a, from)),
{
    if manhattan(from, wall) <= 1 {
        return None;
    }
    let q = search(grid, from);
    let ghost test = beside_test(wall);
    proof {
        lemma_first_is_nearest(grid, from, q@, test);
    }
    let mut i: usize = 0;
    while i < q.len()
        invariant
            i <= q.len(),
            grid.wf(),
            from.movable(),
            danger::distance(from, wall) > 1,
            pathing::search_order(grid, from, q@),
            test == beside_test(wall),
            pathing::find_from(q@, test, 0)
                == pathing::find_from(q@, test, i as int),
        decreases q.len() - i,
    {
        if manhattan(q[i].pos, wall) == 1 {
            assert(test(q@[i as int].pos));
            proof {
                assert(i > 0);
                lemma_first_is_nearest(grid, from, q@, test);
                lemma_hop_leads(grid, from, q@, i as int);
            }
            return first_move(grid, from, &q, i);
        }
        assert(!test(q@[i as int].pos));
        i = i + 1;
    }
    None
}

/// True when some neighbour of `pos` is walkable and leads out of the blast of a bomb there.
pub fn can_escape_own_bomb(grid: &ArenaGrid, pos: GridPos) -> (b: bool)
    requires
        grid.wf(),
        pos.movable(),
    ensures
        b == can_step_aside(grid, pos),
{
    let mut d: usize = 0;
    while d < 4
        invariant
            d <= 4,
            grid.wf(),
            pos.movable(),
            forall|e: int|
                0 <= e < d ==> !(pathing::open_cell(
                    grid,
                    #[trigger] pathing::neighbor(pos, e),
                ) && danger::escapes(
                    grid,
                    pathing::neighbor(pos, e),
                    (pos.x, pos.y),
                    DEFAULT_BLAST_RANGE,
                )),
        decreases 4 - d,
    {
        let n = step_from(pos, d);
        if grid.is_walkable(n.x, n.y) {
            if has_escape_route(grid, n, (pos.x, pos.y), DEFAULT_BLAST_RANGE) {
                assert(n == pathing::neighbor(pos, d as int));
                return true;
            }
        }
        d = d + 1;
    }
    false
}

proof fn lemma_first_wall_dir(grid: &ArenaGrid, c: GridPos, powerup: bool, d: int)
    requires
        0 <= d <= 4,
    ensures
        ({
            let f = first_wall_dir(grid, c, powerup, d);
            &&& d <= f <= 4
            &&& f < 4 ==> {
                let n = pathing::neighbor(c, f);
                if powerup {
                    grid.at(n.x as int, n.y as int) is PowerUpHidden
                } else {
                    grid.at(n.x as int, n.y as int) is DestructibleWall
                }
            }
            &&& forall|e: int|
                d <= e < f ==> {
                    let n = #[trigger] pathing::neighbor(c, e);
                    if powerup {
                        !(grid.at(n.x as int, n.y as int) is PowerUpHidden)
                    } else {
                        !(grid.at(n.x as int, n.y as int) is DestructibleWall)
                    }
                }
        }),
    decreases 4 - d,
{
    if d < 4 {
        lemma_first_wall_dir(grid, c, powerup, d + 1);
    }
}

/// There is a wall to bomb beside a cell exactly when one of its neighbours is breakable, and
/// the one chosen is.
pub proof fn law_wall_beside(grid: &ArenaGrid, c: GridPos)
    ensures
        wall_beside(grid, c) is Some <==> exists|d: int|
            0 <= d < 4 && breakable(grid, #[trigger] pathing::neighbor(c, d)),
        wall_beside(grid, c) matches Some(w) ==> breakable(grid, w),
{
    lemma_first_wall_dir(grid, c, true, 0);
    lemma_first_wall_dir(grid, c, false, 0);
    let p = first_wall_dir(grid, c, true, 0);
    let w = first_wall_dir(grid, c, false, 0);
    if p < 4 {
        assert(breakable(grid, pathing::neighbor(c, p)));
    } else if w < 4 {
        assert(breakable(grid, pathing::neighbor(c, w)));
    }
}

/// Check if player should place a bomb at current position.
///
/// The player stands ON the bomb but moves away next tick, so escape is checked from
/// adjacent cells — not from the bomb position itself.
pub fn should_place_bomb(grid: &ArenaGrid, pos: GridPos, bombs: &[((i32, i32), u32)]) -> (b: bool)
    requires
        grid.wf(),
        pos.movable(),
    ensures
        b == worth_bombing(grid, pos, bombs@),
{
    if knows_bomb(bombs, (pos.x, pos.y)) {
        return false;
    }
    if find_wall_beside(grid, pos).is_none() {
        return false;
    }
    can_escape_own_bomb(grid, pos)
}

/// A move leads one cell on in its direction, opposite moves undo each other, and the other
/// actions stay where they are.
pub proof fn law_moves_lead_one_cell_on(pos: GridPos)
    requires
        pos.movable(),
    ensures
        target(BomberAction::Up, pos).y == pos.y - 1,
        target(BomberAction::Down, pos).y == pos.y + 1,
        target(BomberAction::Left, pos).x == pos.x - 1,
        target(BomberAction::Right, pos).x == pos.x + 1,
        target(BomberAction::Down, target(BomberAction::Up, pos)) == pos,
        target(BomberAction::Up, target(BomberAction::Down, pos)) == pos,
        target(BomberAction::Right, target(BomberAction::Left, pos)) == pos,
        target(BomberAction::Left, target(BomberAction::Right, pos)) == pos,
        target(BomberAction::Bomb, pos) == pos,
        target(BomberAction::Wait, pos) == pos,
        forall|a: BomberAction| #[trigger]
            a.is_step() ==> danger::distance(target(a, pos), pos) == 1,
{
}

/// The heading from a cell to another is the move that leads there, and there is one exactly for
/// the cells beside it.
pub proof fn law_heading_leads_there(from: GridPos, to: GridPos)
    requires
        from.movable(),
    ensures
        heading(from, to) matches Some(a) ==> a.is_step() && target(a, from) == to,
        heading(from, to) is Some == (danger::distance(from, to) == 1),
{
    pathing::law_neighbors_are_one_step_away(from, to);
    if danger::distance(from, to) == 1 {
        let d = choose|d: int| 0 <= d < 4 && to == #[trigger] pathing::neighbor(from, d);
    }
}

/// The nearest safe cell lies outside every blast, can be reached, and no cell outside every blast
/// is nearer. There is none only where nothing in reach is outside.
pub proof fn law_safe_cell_is_nearest(
    grid: &ArenaGrid,
    pos: GridPos,
    bombs: Seq<((i32, i32), u32)>,
    q: Seq<Visit>,
    c: GridPos,
    k: nat,
)
    requires
        pathing::search_order(grid, pos, q),
        pathing::reach(grid, pos, c, k),
        !danger::in_blast(c, bombs),
    ensures
        safe_cell(grid, pos, bombs) matches Some(s) && !danger::in_blast(s, bombs)
            && pathing::reach(grid, pos, s, k),
{
    lemma_first_is_nearest(grid, pos, q, safe_test(bombs));
    assert(safe_test(bombs)(c));
    lemma_find_from(q, safe_test(bombs), 0);
}

/// The step toward a cell in reach begins a shortest way to it: it leads to a walkable cell from
/// which the way is one step shorter. There is no step to a cell out of reach, nor from the cell
/// itself.
pub proof fn law_step_toward_is_shorter(
    grid: &ArenaGrid,
    from: GridPos,
    to: GridPos,
    q: Seq<Visit>,
    k: nat,
)
    requires
        grid.wf(),
        from.movable(),
        pathing::search_order(grid, from, q),
    ensures
        step_toward(grid, from, from) is None,
        pathing::reach(grid, from, to, k) && from != to ==> (step_toward(grid, from, to) matches
            Some(a) && a.is_step() && grid.walkable(
            target(a, from).x as int,
            target(a, from).y as int,
        ) && k > 0 && pathing::reach(grid, target(a, from), to, (k - 1) as nat)),
        (forall|m: nat| !#[trigger] pathing::reach(grid, from, to, m)) ==> step_toward(
            grid,
            from,
            to,
        ) is None,
{
    let test = here_test(to);
    lemma_first_is_nearest(grid, from, q, test);
    lemma_find_from(q, test, 0);
    let f = pathing::find_from(q, test, 0);
    if f < q.len() && from != to {
        assert(q[f].pos == to);
        assert(pathing::reach(grid, from, to, q[f].depth as nat));
        assert(f > 0);
        lemma_hop_leads(grid, from, q, f);
    }
    if pathing::reach(grid, from, to, k) {
        assert(test(to));
        assert(f < q.len());
    }
}

/// The step beside a wall begins a shortest way to a cell beside it. There is none from a cell
/// beside it or on it.
pub proof fn law_step_beside_is_shorter(
    grid: &ArenaGrid,
    from: GridPos,
    wall: GridPos,
    q: Seq<Visit>,
    c: GridPos,
    k: nat,
)
    requires
        grid.wf(),
        from.movable(),
        pathing::search_order(grid, from, q),
    ensures
        danger::distance(from, wall) <= 1 ==> step_beside(grid, from, wall) is None,
        danger::distance(from, wall) > 1 && pathing::reach(grid, from, c, k) && danger::distance(
            c,
            wall,
        ) == 1 ==> (step_beside(grid, from, wall) matches Some(a) && a.is_step() && grid.walkable(
            target(a, from).x as int,
            target(a, from).y as int,
        ) && k > 0 && exists|e: GridPos|
            danger::distance(e, wall) == 1 && #[trigger] pathing::reach(
                grid,
                target(a, from),
                e,
                (k - 1) as nat,
            )),
{
    let test = beside_test(wall);
    lemma_first_is_nearest(grid, from, q, test);
    lemma_find_from(q, test, 0);
    let f = pathing::find_from(q, test, 0);
    if danger::distance(from, wall) > 1 && pathing::reach(grid, from, c, k) && danger::distance(
        c,
        wall,
    ) == 1 {
        assert(test(c));
        assert(f < q.len());
        assert(q[0].pos == from);
        assert(f > 0);
        lemma_hop_leads(grid, from, q, f);
        assert(pathing::reach(grid, from, q[f].pos, k));
        let a = step_beside(grid, from, wall)->0;
        assert(pathing::reach(grid, target(a, from), q[f].pos, (k - 1) as nat));
    }
}

/// The nearest wall can be bombed from a cell in reach, and no cell beside such a wall is nearer.
/// A hidden power-up comes before a plain wall.
pub proof fn law_nearest_wall(
    grid: &ArenaGrid,
    pos: GridPos,
    q: Seq<Visit>,
    c: GridPos,
    k: nat,
    d: int,
)
    requires
        pathing::search_order(grid, pos, q),
        pathing::reach(grid, pos, c, k),
        0 <= d < 4,
    ensures
        breakable(grid, pathing::neighbor(c, d)) ==> (nearest_wall(grid, pos) matches Some(w)
            && breakable(grid, w) && exists|s: GridPos, e: int| #[trigger]
            pathing::reach(grid, pos, s, k) && 0 <= e < 4 && w == #[trigger] pathing::neighbor(s, e)),
        grid.at(
            pathing::neighbor(c, d).x as int,
            pathing::neighbor(c, d).y as int,
        ) is PowerUpHidden ==> (wall_beside(grid, c) matches Some(w) && grid.at(
            w.x as int,
            w.y as int,
        ) is PowerUpHidden),
{
    let test = wall_test(grid);
    lemma_first_is_nearest(grid, pos, q, test);
    lemma_find_from(q, test, 0);
    lemma_first_wall_dir(grid, c, true, 0);
    law_wall_beside(grid, c);
    if breakable(grid, pathing::neighbor(c, d)) {
        assert(test(c));
        let f = pathing::find_from(q, test, 0);
        assert(f < q.len());
        let s = q[f].pos;
        assert(pathing::reach(grid, pos, s, k));
        law_wall_beside(grid, s);
        lemma_first_wall_dir(grid, s, true, 0);
        lemma_first_wall_dir(grid, s, false, 0);
        let p = first_wall_dir(grid, s, true, 0);
        let w = first_wall_dir(grid, s, false, 0);
        if p < 4 {
            assert(nearest_wall(grid, pos) == Some(pathing::neighbor(s, p)));
        } else {
            assert(nearest_wall(grid, pos) == Some(pathing::neighbor(s, w)));
        }
    }
}

/// A bomb is worth dropping only where there is none yet, beside a wall that it opens, and where a
/// step aside leads to a way out of its blast; and there it is.
pub proof fn law_bombs_leave_a_way_out(
    grid: &ArenaGrid,
    pos: GridPos,
    bombs: Seq<((i32, i32), u32)>,
    c: GridPos,
    wall: int,
    d: int,
    k: nat,
)
    requires
        0 <= wall < 4,
        0 <= d < 4,
    ensures
        danger::bomb_known(bombs, (pos.x, pos.y)) ==> !worth_bombing(grid, pos, bombs),
        worth_bombing(grid, pos, bombs) ==> exists|e: int|
            0 <= e < 4 && breakable(grid, #[trigger] pathing::neighbor(pos, e)),
        worth_bombing(grid, pos, bombs) ==> can_step_aside(grid, pos),
        can_step_aside(grid, pos) ==> exists|e: int, f: GridPos, m: nat|
            0 <= e < 4 && m <= 3 && #[trigger] pathing::reach(
                grid,
                #[trigger] pathing::neighbor(pos, e),
                f,
                m,
            ) && pathing::open_cell(grid, pathing::neighbor(pos, e)) && !danger::blast_hits(
                (pos.x, pos.y),
                2,
                f,
            ),
        pos.movable() && pathing::open_cell(grid, pathing::neighbor(pos, d)) && pathing::reach(
            grid,
            pathing::neighbor(pos, d),
            c,
            k,
        ) && k <= 3 && !danger::blast_hits((pos.x, pos.y), 2, c) ==> can_step_aside(grid, pos),
        can_step_aside(grid, pos) && breakable(grid, pathing::neighbor(pos, wall))
            && !danger::bomb_known(bombs, (pos.x, pos.y)) ==> worth_bombing(grid, pos, bombs),
{
    law_wall_beside(grid, pos);
    if can_step_aside(grid, pos) {
        let e = choose|e: int|
            0 <= e < 4 && pathing::open_cell(grid, #[trigger] pathing::neighbor(pos, e))
                && danger::escapes(
                grid,
                pathing::neighbor(pos, e),
                (pos.x, pos.y),
                DEFAULT_BLAST_RANGE,
            );
        let (f, m) = choose|f: GridPos, m: nat| #[trigger]
            pathing::reach(grid, pathing::neighbor(pos, e), f, m) && m <= DEFAULT_BLAST_RANGE as i32
                + 1 && !danger::blast_hits((pos.x, pos.y), DEFAULT_BLAST_RANGE, f);
        assert(pathing::reach(grid, pathing::neighbor(pos, e), f, m) && m <= 3);
    }
    if pos.movable() && pathing::open_cell(grid, pathing::neighbor(pos, d)) && pathing::reach(
        grid,
        pathing::neighbor(pos, d),
        c,
        k,
    ) && k <= 3 && !danger::blast_hits((pos.x, pos.y), 2, c) {
        assert(pathing::neighbor(pos, d) != pos);
        assert(danger::escapes(
            grid,
            pathing::neighbor(pos, d),
            (pos.x, pos.y),
            DEFAULT_BLAST_RANGE,
        ));
    }
}

} // verus!
