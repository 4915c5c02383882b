//! Known bombs, their blast zones, and the ways out of them.

use vstd::prelude::*;

use crate::pruners::bomber::arena::ArenaGrid;
use crate::pruners::bomber::pathing::search;
use crate::pruners::bomber::{GameEvent, GridPos};
use crate::pruners::bomber::pathing;

verus! {

/// The range that a bomb is taken to have.
pub const DEFAULT_BLAST_RANGE: u32 = 2;

/// The distance of two coordinates.
pub open spec fn gap(a: int, b: int) -> int {
    if a < b {
        b - a
    } else {
        a - b
    }
}

/// Manhattan distance between two grid positions.
pub open spec fn distance(a: GridPos, b: GridPos) -> int {
    gap(a.x as int, b.x as int) + gap(a.y as int, b.y as int)
}

/// True when a bomb at `bomb` with the given range hits `p`: same row or column, within range.
pub open spec fn blast_hits(bomb: (i32, i32), range: u32, p: GridPos) -> bool {
    let dx = gap(p.x as int, bomb.0 as int);
    let dy = gap(p.y as int, bomb.1 as int);
    (dx == 0 && dy <= range as i32) || (dy == 0 && dx <= range as i32)
}

/// True when some known bomb hits `p`.
pub open spec fn in_blast(p: GridPos, bombs: Seq<((i32, i32), u32)>) -> bool {
    exists|i: int| 0 <= i < bombs.len() && blast_hits((#[trigger] bombs[i]).0, bombs[i].1, p)
}

/// True when a bomb is known at `at`.
pub open spec fn bomb_known(bombs: Seq<((i32, i32), u32)>, at: (i32, i32)) -> bool {
    exists|i: int| 0 <= i < bombs.len() && (#[trigger] bombs[i]).0 == at
}

/// The bombs that are not at `at`, in order.
pub open spec fn without(bombs: Seq<((i32, i32), u32)>, at: (i32, i32)) -> Seq<((i32, i32), u32)>
    decreases bombs.len(),
{
    if bombs.len() == 0 {
        bombs
    } else {
        let rest = without(bombs.drop_last(), at);
        if bombs.last().0 == at {
            rest
        } else {
            rest.push(bombs.last())
        }
    }
}

/// The known bombs after one event.
pub open spec fn bombs_after_event(
    bombs: Seq<((i32, i32), u32)>,
    event: GameEvent,
) -> Seq<((i32, i32), u32)> {
    match event {
        GameEvent::BombPlaced { player, pos } => if bomb_known(bombs, pos) {
            bombs
        } else {
            bombs.push((pos, DEFAULT_BLAST_RANGE))
        },
        GameEvent::BombExploded { pos } => without(bombs, pos),
        _ => bombs,
    }
}

/// The known bombs after a list of events.
pub open spec fn bombs_after(
    bombs: Seq<((i32, i32), u32)>,
    events: Seq<GameEvent>,
) -> Seq<((i32, i32), u32)>
    decreases events.len(),
{
    if events.len() == 0 {
        bombs
    } else {
        bombs_after_event(bombs_after(bombs, events.drop_last()), events.last())
    }
}

/// No position holds two known bombs.
pub open spec fn distinct_bombs(bombs: Seq<((i32, i32), u32)>) -> bool {
    forall|i: int, j: int|
        0 <= i < j < bombs.len() ==> (#[trigger] bombs[i]).0 != (#[trigger] bombs[j]).0
}

/// True when a player at `from` can leave the blast zone of a bomb at `bomb` in time.
///
/// Standing on the bomb counts as too late.
pub open spec fn escapes(grid: &ArenaGrid, from: GridPos, bomb: (i32, i32), range: u32) -> bool {
    &&& (from.x, from.y) != bomb
    &&& exists|c: GridPos, k: nat|
        #[trigger] pathing::reach(grid, from, c, k) && k <= range as i32 + 1
            && !blast_hits(bomb, range, c)
}

fn gap_of(a: i32, b: i32) -> (g: i64)
    ensures
        g == gap(a as int, b as int),
{
    if a < b {
        b as i64 - a as i64
    } else {
        a as i64 - b as i64
    }
}

/// Manhattan distance between two grid positions.
pub fn manhattan(a: GridPos, b: GridPos) -> (d: i64)
    ensures
        d == distance(a, b),
{
    gap_of(a.x, b.x) + gap_of(a.y, b.y)
}

fn hits(bomb: (i32, i32), range: u32, p: GridPos) -> (b: bool)
    ensures
        b == blast_hits(bomb, range, p),
{
    let dx: i64 = gap_of(p.x, bomb.0);
    let dy: i64 = gap_of(p.y, bomb.1);
    let r: i32 = range as i32;
    (dx == 0 && dy <= r as i64) || (dy == 0 && dx <= r as i64)
}

/// Check if position is in the blast zone of any known bomb.
pub fn in_blast_zone(pos: GridPos, bombs: &[((i32, i32), u32)]) -> (b: bool)
    ensures
        b == in_blast(pos, bombs@),
{
    let mut i: usize = 0;
    while i < bombs.len()
        invariant
            i <= bombs.len(),
            forall|j: int| 0 <= j < i ==> !blast_hits((#[trigger] bombs@[j]).0, bombs@[j].1, pos),
        decreases bombs.len() - i,
    {
        if hits(bombs[i].0, bombs[i].1, pos) {
            assert(blast_hits(bombs@[i as int].0, bombs@[i as int].1, pos));
            return true;
        }
        i = i + 1;
    }
    false
}

/// True when a bomb is known at `at`.
pub fn knows_bomb(bombs: &[((i32, i32), u32)], at: (i32, i32)) -> (b: bool)
    ensures
        b == bomb_known(bombs@, at),
{
    let mut i: usize = 0;
    while i < bombs.len()
        invariant
            i <= bombs.len(),
            forall|j: int| 0 <= j < i ==> (#[trigger] bombs@[j]).0 != at,
        decreases bombs.len() - i,
    {
        let known = bombs[i].0;
        if known.0 == at.0 && known.1 == at.1 {
            assert(bombs@[i as int].0 == at);
            return true;
        }
        i = i + 1;
    }
    false
}

fn forget_bomb(bombs: &Vec<((i32, i32), u32)>, at: (i32, i32)) -> (kept: Vec<((i32, i32), u32)>)
    ensures
        kept@ == without(bombs@, at),
{
    let mut kept: Vec<((i32, i32), u32)> = Vec::new();
    let mut i: usize = 0;
    while i < bombs.len()
        invariant
            i <= bombs.len(),
            kept@ == without(bombs@.take(i as int), at),
        decreases bombs.len() - i,
    {
        let bomb = bombs[i];
        assert(bombs@.take(i + 1).drop_last() =~= bombs@.take(i as int));
        assert(bombs@.take(i + 1).last() == bomb);
        if bomb.0.0 != at.0 || bomb.0.1 != at.1 {
            kept.push(bomb);
        }
        i = i + 1;
    }
    assert(bombs@.take(bombs@.len() as int) =~= bombs@);
    kept
}

/// Update known bomb list from events.
pub fn update_bombs(bombs: &mut Vec<((i32, i32), u32)>, events: &[GameEvent])
    ensures
        final(bombs)@ == bombs_after(old(bombs)@, events@),
{
    let mut i: usize = 0;
    assert(events@.take(0) =~= Seq::<GameEvent>::empty());
    while i < events.len()
        invariant
            i <= events.len(),
            bombs@ == bombs_after(old(bombs)@, events@.take(i as int)),
        decreases events.len() - i,
    {
        assert(events@.take(i + 1).drop_last() =~= events@.take(i as int));
        assert(events@.take(i + 1).last() == events@[i as int]);
        match &events[i] {
            GameEvent::BombPlaced { player: _, pos } => {
                if !knows_bomb(bombs.as_slice(), *pos) {
                    bombs.push((*pos, DEFAULT_BLAST_RANGE));
                }
            },
            GameEvent::BombExploded { pos } => {
                let kept = forget_bomb(bombs, *pos);
                *bombs = kept;
            },
            _ => {},
        }
        i = i + 1;
    }
    assert(events@.take(events@.len() as int) =~= events@);
}

proof fn lemma_without(bombs: Seq<((i32, i32), u32)>, at: (i32, i32))
    ensures
        forall|i: int|
            0 <= i < without(bombs, at).len() ==> (#[trigger] without(bombs, at)[i]).0 != at
                && bombs.contains(without(bombs, at)[i]),
        forall|i: int|
            0 <= i < bombs.len() && (#[trigger] bombs[i]).0 != at ==> without(bombs, at).contains(
                bombs[i],
            ),
        distinct_bombs(bombs) ==> distinct_bombs(without(bombs, at)),
    decreases bombs.len(),
{
    if bombs.len() > 0 {
        let init = bombs.drop_last();
        lemma_without(init, at);
        let rest = without(init, at);
        let all = without(bombs, at);
        assert forall|i: int| 0 <= i < all.len() implies (#[trigger] all[i]).0 != at
            && bombs.contains(all[i]) by {
            if i < rest.len() {
                assert(all[i] == rest[i]);
                let j = choose|j: int| 0 <= j < init.len() && init[j] == rest[i];
                assert(bombs[j] == all[i]);
            } else {
                assert(bombs[bombs.len() - 1] == all[i]);
            }
        }
        assert forall|i: int| 0 <= i < bombs.len() && (#[trigger] bombs[i]).0 != at implies all.contains(
            bombs[i],
        ) by {
            if i < init.len() {
                assert(init[i] == bombs[i]);
                let j = choose|j: int| 0 <= j < rest.len() && rest[j] == bombs[i];
                assert(all[j] == bombs[i]);
            } else {
                assert(all[all.len() - 1] == bombs[i]);
            }
        }
        if distinct_bombs(bombs) {
            assert(distinct_bombs(init));
            assert forall|i: int, j: int| 0 <= i < j < all.len() implies (#[trigger] all[i]).0 != (
            #[trigger] all[j]).0 by {
                assert(all[i] == rest[i]);
                if j < rest.len() {
                    assert(all[j] == rest[j]);
                } else {
                    let m = choose|m: int| 0 <= m < init.len() && init[m] == rest[i];
                    assert(bombs[m] == all[i]);
                    assert(all[j] == bombs[bombs.len() - 1]);
                }
            }
        }
    }
}

/// Events never make two known bombs share a position.
pub proof fn law_known_bombs_stay_distinct(bombs: Seq<((i32, i32), u32)>, events: Seq<GameEvent>)
    requires
        distinct_bombs(bombs),
    ensures
        distinct_bombs(bombs_after(bombs, events)),
    decreases events.len(),
{
    if events.len() > 0 {
        law_known_bombs_stay_distinct(bombs, events.drop_last());
        let before = bombs_after(bombs, events.drop_last());
        match events.last() {
            GameEvent::BombExploded { pos } => {
                lemma_without(before, pos);
            },
            _ => {},
        }
    }
}

/// A bomb that exploded is forgotten, and no other bomb is.
pub proof fn law_exploded_bombs_are_forgotten(
    bombs: Seq<((i32, i32), u32)>,
    at: (i32, i32),
    other: (i32, i32),
)
    requires
        other != at,
    ensures
        !bomb_known(bombs_after_event(bombs, GameEvent::BombExploded { pos: at }), at),
        bomb_known(bombs_after_event(bombs, GameEvent::BombExploded { pos: at }), other)
            == bomb_known(bombs, other),
{
    lemma_without(bombs, at);
    let kept = without(bombs, at);
    if bomb_known(bombs, other) {
        let i = choose|i: int| 0 <= i < bombs.len() && (#[trigger] bombs[i]).0 == other;
        assert(kept.contains(bombs[i]));
        let j = choose|j: int| 0 <= j < kept.len() && kept[j] == bombs[i];
        assert(kept[j].0 == other);
    }
    if bomb_known(kept, other) {
        let i = choose|i: int| 0 <= i < kept.len() && (#[trigger] kept[i]).0 == other;
        assert(bombs.contains(kept[i]));
        let j = choose|j: int| 0 <= j < bombs.len() && bombs[j] == kept[i];
        assert(bombs[j].0 == other);
    }
}

/// A bomb reaches the cell itself and, in all four directions alike, every cell up to and
/// including its range, and nothing else.
pub proof fn law_blast_is_a_cross(x: i32, y: i32, range: u32, d: i32)
    requires
        range <= i32::MAX,
        0 <= d,
        i32::MIN <= x - d,
        x + d <= i32::MAX,
        i32::MIN <= y - d,
        y + d <= i32::MAX,
    ensures
        blast_hits((x, y), range, GridPos { x: (x + d) as i32, y }) == (d <= range),
        blast_hits((x, y), range, GridPos { x: (x - d) as i32, y }) == (d <= range),
        blast_hits((x, y), range, GridPos { x, y: (y + d) as i32 }) == (d <= range),
        blast_hits((x, y), range, GridPos { x, y: (y - d) as i32 }) == (d <= range),
{
}

/// A bomb hits no cell off its row and its column.
pub proof fn law_blast_keeps_to_row_and_column(bomb: (i32, i32), range: u32, p: GridPos)
    requires
        p.x != bomb.0,
        p.y != bomb.1,
    ensures
        !blast_hits(bomb, range, p),
{
}

/// Rows and columns are alike: swapping them changes nothing, nor does turning the blast round.
pub proof fn law_blast_is_symmetric(bomb: (i32, i32), range: u32, p: GridPos)
    ensures
        blast_hits(bomb, range, p) == blast_hits(
            (bomb.1, bomb.0),
            range,
            GridPos { x: p.y, y: p.x },
        ),
        blast_hits(bomb, range, p) == blast_hits(
            (p.x, p.y),
            range,
            GridPos { x: bomb.0, y: bomb.1 },
        ),
{
}

/// A cell is in the blast zone as soon as one bomb in its row or column is within range of it,
/// and each further bomb can only add to the zone.
pub proof fn law_bombs_add_to_the_blast_zone(
    bombs: Seq<((i32, i32), u32)>,
    more: ((i32, i32), u32),
    p: GridPos,
)
    ensures
        !in_blast(p, Seq::empty()),
        in_blast(p, bombs.push(more)) == (in_blast(p, bombs) || in_blast(p, seq![more])),
        more.1 <= i32::MAX && (p.x == more.0.0 && distance(
            p,
            GridPos { x: more.0.0, y: more.0.1 },
        ) <= more.1 || p.y == more.0.1 && distance(p, GridPos { x: more.0.0, y: more.0.1 })
            <= more.1) ==> in_blast(p, bombs.push(more)),
{
    let all = bombs.push(more);
    let one = seq![more];
    assert(one[0] == more && all[bombs.len() as int] == more);
    if in_blast(p, bombs) {
        let i = choose|i: int|
            0 <= i < bombs.len() && blast_hits((#[trigger] bombs[i]).0, bombs[i].1, p);
        assert(all[i] == bombs[i]);
    }
    if in_blast(p, all) {
        let i = choose|i: int| 0 <= i < all.len() && blast_hits((#[trigger] all[i]).0, all[i].1, p);
        if i < bombs.len() {
            assert(bombs[i] == all[i]);
        }
    }
}

/// A distance is the same both ways, is zero only from a position to itself, and grows by one
/// with each step away.
pub proof fn law_distance_counts_steps(a: GridPos, b: GridPos)
    ensures
        distance(a, b) == distance(b, a),
        distance(a, b) >= 0,
        (distance(a, b) == 0) == (a == b),
        a.x >= b.x && a.x < i32::MAX ==> distance(GridPos { x: (a.x + 1) as i32, y: a.y }, b)
            == distance(a, b) + 1,
        a.x <= b.x && a.x > i32::MIN ==> distance(GridPos { x: (a.x - 1) as i32, y: a.y }, b)
            == distance(a, b) + 1,
        a.y >= b.y && a.y < i32::MAX ==> distance(GridPos { x: a.x, y: (a.y + 1) as i32 }, b)
            == distance(a, b) + 1,
        a.y <= b.y && a.y > i32::MIN ==> distance(GridPos { x: a.x, y: (a.y - 1) as i32 }, b)
            == distance(a, b) + 1,
{
}

/// A bomb that was placed is known from then on, where it lies and with the default range, and no
/// other bomb comes or goes.
pub proof fn law_placed_bombs_are_known(
    bombs: Seq<((i32, i32), u32)>,
    player: u8,
    at: (i32, i32),
    other: (i32, i32),
)
    requires
        other != at,
    ensures
        ({
            let after = bombs_after_event(bombs, GameEvent::BombPlaced { player, pos: at });
            &&& bomb_known(after, at)
            &&& bomb_known(after, other) == bomb_known(bombs, other)
            &&& bomb_known(bombs, at) ==> after == bombs
            &&& !bomb_known(bombs, at) ==> after.last() == (at, 2u32) && after.drop_last() == bombs
        }),
{
    let after = bombs_after_event(bombs, GameEvent::BombPlaced { player, pos: at });
    if !bomb_known(bombs, at) {
        assert(after[bombs.len() as int].0 == at);
        assert(after.drop_last() =~= bombs);
        if bomb_known(bombs, other) {
            let i = choose|i: int| 0 <= i < bombs.len() && (#[trigger] bombs[i]).0 == other;
            assert(after[i].0 == other);
        }
        if bomb_known(after, other) {
            let i = choose|i: int| 0 <= i < after.len() && (#[trigger] after[i]).0 == other;
            assert(bombs[i].0 == other);
        }
    }
}

/// Events are taken in one after another: two lists have the effect of the two joined.
pub proof fn law_events_are_taken_in_order(
    bombs: Seq<((i32, i32), u32)>,
    first: Seq<GameEvent>,
    second: Seq<GameEvent>,
)
    ensures
        bombs_after(bombs, first + second) == bombs_after(bombs_after(bombs, first), second),
        bombs_after(bombs, Seq::empty()) == bombs,
    decreases second.len(),
{
    if second.len() == 0 {
        assert(first + second =~= first);
    } else {
        law_events_are_taken_in_order(bombs, first, second.drop_last());
        assert((first + second).drop_last() =~= first + second.drop_last());
        assert((first + second).last() == second.last());
    }
}

/// There is a way out exactly where a walk of at most one step more than the range ends on a cell
/// that the blast leaves alone. From the bomb itself there is none.
pub proof fn law_escape_ends_outside_the_blast(
    grid: &ArenaGrid,
    from: GridPos,
    bomb: (i32, i32),
    range: u32,
    to: GridPos,
    steps: nat,
)
    requires
        range < i32::MAX,
    ensures
        !escapes(grid, GridPos { x: bomb.0, y: bomb.1 }, bomb, range),
        (from.x, from.y) != bomb && pathing::reach(grid, from, to, steps) && steps <= range + 1
            && !in_blast(to, seq![(bomb, range)]) ==> escapes(grid, from, bomb, range),
        escapes(grid, from, bomb, range) ==> exists|c: GridPos, k: nat| #[trigger]
            pathing::reach(grid, from, c, k) && k <= range + 1 && !in_blast(
                c,
                seq![(bomb, range)],
            ),
{
    let one = seq![(bomb, range)];
    assert(one[0] == (bomb, range));
    if escapes(grid, from, bomb, range) {
        let (c, k) = choose|c: GridPos, k: nat| #[trigger]
            pathing::reach(grid, from, c, k) && k <= range as i32 + 1 && !blast_hits(bomb, range, c);
        assert(pathing::reach(grid, from, c, k) && k <= range + 1 && !in_blast(c, one));
    }
    if (from.x, from.y) != bomb && pathing::reach(grid, from, to, steps) && steps <= range + 1
        && !in_blast(to, one) {
        if blast_hits(bomb, range, to) {
            assert(blast_hits(one[0].0, one[0].1, to));
        }
        assert(pathing::reach(grid, from, to, steps) && steps <= range as i32 + 1 && !blast_hits(
            bomb,
            range,
            to,
        ));
    }
}

/// Check if player has an escape route after placing a bomb at `bomb_pos`.
///
/// Some cell outside the blast zone must lie within `blast_range + 1` steps of `player_pos`.
pub fn has_escape_route(
    grid: &ArenaGrid,
    player_pos: GridPos,
    bomb_pos: (i32, i32),
    blast_range: u32,
) -> (b: bool)
    requires
        grid.wf(),
        player_pos.movable(),
    ensures
        b == escapes(grid, player_pos, bomb_pos, blast_range),
{
    if player_pos.x == bomb_pos.0 && player_pos.y == bomb_pos.1 {
        return false;
    }
    let r: i32 = blast_range as i32;
    let max_steps: i64 = r as i64 + 1;
    let q = search(grid, player_pos);
    let mut i: usize = 0;
    while i < q.len()
        invariant
            i <= q.len(),
            r == blast_range as i32,
            max_steps == r + 1,
            (player_pos.x, player_pos.y) != bomb_pos,
            pathing::search_order(grid, player_pos, q@),
            forall|j: int|
                0 <= j < i && (#[trigger] q@[j]).depth <= max_steps ==> blast_hits(
                    bomb_pos,
                    blast_range,
                    q@[j].pos,
                ),
        decreases q.len() - i,
    {
        if q[i].depth as i128 <= max_steps as i128 && !hits(bomb_pos, blast_range, q[i].pos) {
            proof {
                let c = q@[i as int].pos;
                let k = q@[i as int].depth as nat;
                assert(pathing::reach(grid, player_pos, c, k));
            }
            return true;
        }
        i = i + 1;
    }
    false
}

} // verus!
