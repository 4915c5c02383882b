//! The 13×13 arena grid.

use vstd::prelude::*;

use crate::float_bits;
use crate::pruners::bomber::{
    Cell, PowerUpKind, ARENA_H, ARENA_W, DESTRUCTIBLE_FILL, POWERUP_FILL,
    SPAWN_POSITIONS,
};
use crate::random::{GameRng, REDRAWS};
use crate::random;

verus! {

/// The arena grid.
///
/// Grid coordinates: `cells[y][x]` where (0,0) is top-left. Fixed walls stand on the border and
/// at the even intersections, destructible walls are placed at random, and the 3×3 corners
/// are kept clear for spawns.
#[derive(Clone, Debug)]
pub struct ArenaGrid {
    /// Grid cells: `cells[y][x]`
    pub cells: Vec<Vec<Cell>>,
    pub width: usize,
    pub height: usize,
}

/// True on the border of the arena.
pub open spec fn on_border(x: int, y: int) -> bool {
    x == 0 || x == ARENA_W - 1 || y == 0 || y == ARENA_H - 1
}

/// True at the interior pillars.
pub open spec fn on_pillar(x: int, y: int) -> bool {
    2 <= x < ARENA_W - 1 && 2 <= y < ARENA_H - 1 && x % 2 == 0 && y % 2 == 0
}

/// True within one cell, in both directions, of the position `s`.
pub open spec fn near(s: (i32, i32), x: int, y: int) -> bool {
    s.0 - 1 <= x <= s.0 + 1 && s.1 - 1 <= y <= s.1 + 1
}

/// True in the 3×3 zone of some spawn position.
pub open spec fn in_spawn_zone(x: int, y: int) -> bool {
    exists|i: int| 0 <= i < 4 && near(#[trigger] SPAWN_POSITIONS@[i], x, y)
}

/// The wall that a random destructible cell becomes, and the seed after it is drawn.
pub open spec fn destructible_spec(seed: u64) -> (Cell, u64) {
    let (roll, s1) = random::unit_roll_spec(seed, REDRAWS as nat);
    if roll < POWERUP_FILL {
        let (kind, s2) = random::fastrand_u8(s1, 2);
        (
            Cell::PowerUpHidden(
                if kind == 0 {
                    PowerUpKind::BombUp
                } else if kind == 1 {
                    PowerUpKind::FireUp
                } else {
                    PowerUpKind::SpeedUp
                },
            ),
            s2,
        )
    } else {
        (Cell::DestructibleWall, s1)
    }
}

/// The interior cell at (x, y) when the generator holds `seed`, and the seed after it.
pub open spec fn site(seed: u64, x: int, y: int) -> (Cell, u64) {
    if on_pillar(x, y) {
        (Cell::FixedWall, seed)
    } else if in_spawn_zone(x, y) {
        (Cell::Floor, seed)
    } else {
        let (roll, s1) = random::unit_roll_spec(seed, REDRAWS as nat);
        if roll < DESTRUCTIBLE_FILL {
            destructible_spec(s1)
        } else {
            (Cell::Floor, s1)
        }
    }
}

/// The seed after the first `k` interior cells, in row order.
pub open spec fn seed_after(seed: u64, k: nat) -> u64
    decreases k,
{
    if k == 0 {
        seed
    } else {
        let j = k - 1;
        site(seed_after(seed, j as nat), 1 + j % 11, 1 + j / 11).1
    }
}

/// The cell at (x, y) of the arena generated from `seed`.
pub open spec fn generated(seed: u64, x: int, y: int) -> Cell {
    if on_border(x, y) {
        Cell::FixedWall
    } else {
        site(seed_after(seed, ((y - 1) * 11 + (x - 1)) as nat), x, y).0
    }
}

impl ArenaGrid {
    /// The grid is a full rectangle of the stated size, and its coordinates fit in `i32`.
    pub open spec fn wf(&self) -> bool {
        &&& self.width < i32::MAX
        &&& self.height < i32::MAX
        &&& self.cells@.len() == self.height
        &&& forall|y: int| 0 <= y < self.height ==> (#[trigger] self.cells@[y])@.len() == self.width
    }

    /// True inside the grid.
    pub open spec fn inside(&self, x: int, y: int) -> bool {
        0 <= x < self.width && 0 <= y < self.height
    }

    /// The cell at (x, y); outside the grid a fixed wall.
    pub open spec fn at(&self, x: int, y: int) -> Cell {
        if self.inside(x, y) {
            self.cells@[y]@[x]
        } else {
            Cell::FixedWall
        }
    }

    /// True where a player can stand.
    pub open spec fn walkable(&self, x: int, y: int) -> bool {
        self.at(x, y) is Floor || self.at(x, y) is PowerUpHidden
    }

    /// Generate a 13×13 arena grid from the given seed.
    pub fn generate(seed: u64) -> (grid: ArenaGrid)
        ensures
            grid.wf(),
            grid.width == ARENA_W,
            grid.height == ARENA_H,
            forall|x: int, y: int|
                0 <= x < ARENA_W && 0 <= y < ARENA_H ==> #[trigger] grid.at(x, y) == generated(
                    seed,
                    x,
                    y,
                ),
    {
        let mut rng = GameRng::with_seed(seed);
        let mut cells: Vec<Vec<Cell>> = Vec::new();
        let mut y: usize = 0;
        while y < ARENA_H
            invariant
                y <= ARENA_H,
                cells@.len() == y,
                rng.seed == seed_after(
                    seed,
                    if y == 0 {
                        0
                    } else if y <= 12 {
                        ((y - 1) * 11) as nat
                    } else {
                        121
                    },
                ),
                forall|j: int| 0 <= j < y ==> (#[trigger] cells@[j])@.len() == ARENA_W,
                forall|j: int, x: int|
                    0 <= j < y && 0 <= x < ARENA_W ==> #[trigger] cells@[j]@[x] == generated(
                        seed,
                        x,
                        j,
                    ),
            decreases ARENA_H - y,
        {
            let mut row: Vec<Cell> = Vec::new();
            let mut x: usize = 0;
            let interior: bool = y != 0 && y != ARENA_H - 1;
            while x < ARENA_W
                invariant
                    x <= ARENA_W,
                    y < ARENA_H,
                    row@.len() == x,
                    interior == (y != 0 && y != ARENA_H - 1),
                    !interior ==> rng.seed == seed_after(
                        seed,
                        if y == 0 {
                            0
                        } else {
                            121
                        },
                    ),
                    interior ==> rng.seed == seed_after(
                        seed,
                        ((y - 1) * 11 + (if x == 0 {
                            0
                        } else if x <= 12 {
                            x - 1
                        } else {
                            11
                        })) as nat,
                    ),
                    forall|i: int| 0 <= i < x ==> #[trigger] row@[i] == generated(seed, i, y as int),
                decreases ARENA_W - x,
            {
                let border: bool = x == 0 || x == ARENA_W - 1 || !interior;
                let cell: Cell;
                if border {
                    cell = Cell::FixedWall;
                } else {
                    let ghost before = rng.seed;
                    cell = Self::interior_cell(&mut rng, x, y);
                    proof {
                        let k = (y - 1) * 11 + (x - 1);
                        assert(k >= 0 && k % 11 == x - 1 && k / 11 == y - 1);
                        assert(before == seed_after(seed, k as nat));
                        assert(seed_after(seed, (k + 1) as nat) == site(before, x as int, y as int).1);
                    }
                }
                row.push(cell);
                x = x + 1;
            }
            cells.push(row);
            y = y + 1;
        }
        ArenaGrid { cells, width: ARENA_W, height: ARENA_H }
    }

    /// Decides one cell inside the border.
    fn interior_cell(rng: &mut GameRng, x: usize, y: usize) -> (cell: Cell)
        requires
            1 <= x < ARENA_W - 1,
            1 <= y < ARENA_H - 1,
        ensures
            (cell, final(rng).seed) == site(old(rng).seed, x as int, y as int),
    {
        if x % 2 == 0 && y % 2 == 0 {
            return Cell::FixedWall;
        }
        if Self::is_in_spawn_zone(x, y) {
            return Cell::Floor;
        }
        if rng.chance(DESTRUCTIBLE_FILL) {
            Self::random_destructible(rng)
        } else {
            Cell::Floor
        }
    }

    /// Pick `DestructibleWall` or `PowerUpHidden` (20% power-up chance).
    pub fn random_destructible(rng: &mut GameRng) -> (cell: Cell)
        ensures
            (cell, final(rng).seed) == destructible_spec(old(rng).seed),
            cell is DestructibleWall || cell is PowerUpHidden,
    {
        if rng.chance(POWERUP_FILL) {
            let kind: u8 = rng.byte_below(3);
            if kind == 0 {
                Cell::PowerUpHidden(PowerUpKind::BombUp)
            } else if kind == 1 {
                Cell::PowerUpHidden(PowerUpKind::FireUp)
            } else {
                Cell::PowerUpHidden(PowerUpKind::SpeedUp)
            }
        } else {
            Cell::DestructibleWall
        }
    }

    /// Check if (x, y) is within any player's 3×3 spawn safe zone.
    pub fn is_in_spawn_zone(x: usize, y: usize) -> (b: bool)
        ensures
            b == in_spawn_zone(x as int, y as int),
    {
        let mut i: usize = 0;
        while i < 4
            invariant
                i <= 4,
                forall|j: int|
                    0 <= j < i ==> !near(#[trigger] SPAWN_POSITIONS@[j], x as int, y as int),
            decreases 4 - i,
        {
            let (sx, sy) = SPAWN_POSITIONS[i];
            let (sx, sy) = (sx as i128, sy as i128);
            if sx - 1 <= x as i128 && x as i128 <= sx + 1 && sy - 1 <= y as i128 && y as i128 <= sy
                + 1 {
                assert(near(SPAWN_POSITIONS@[i as int], x as int, y as int));
                return true;
            }
            i = i + 1;
        }
        false
    }

    /// Safe cell access. Returns `FixedWall` for out-of-bounds.
    pub fn get(&self, x: i32, y: i32) -> (cell: Cell)
        requires
            self.wf(),
        ensures
            cell == self.at(x as int, y as int),
    {
        if self.is_in_bounds(x, y) {
            self.cells[y as usize][x as usize]
        } else {
            Cell::FixedWall
        }
    }

    /// Set cell at (x, y). No-op for out-of-bounds.
    pub fn set(&mut self, x: i32, y: i32, cell: Cell)
        requires
            old(self).wf(),
        ensures
            final(self).wf(),
            final(self).width == old(self).width,
            final(self).height == old(self).height,
            forall|i: int, j: int|
                #[trigger] final(self).at(i, j) == (if i == x && j == y && old(self).inside(i, j) {
                    cell
                } else {
                    old(self).at(i, j)
                }),
    {
        if !self.is_in_bounds(x, y) {
            return;
        }
        let mut row = self.cells[y as usize].clone();
        row.set(x as usize, cell);
        self.cells.set(y as usize, row);
    }

    /// True if the cell is walkable (`Floor` or `PowerUpHidden`).
    pub fn is_walkable(&self, x: i32, y: i32) -> (b: bool)
        requires
            self.wf(),
        ensures
            b == self.walkable(x as int, y as int),
    {
        match self.get(x, y) {
            Cell::Floor => true,
            Cell::PowerUpHidden(_) => true,
            _ => false,
        }
    }

    /// True if (x, y) is within grid bounds.
    pub fn is_in_bounds(&self, x: i32, y: i32) -> (b: bool)
        ensures
            b == self.inside(x as int, y as int),
    {
        x >= 0 && (x as usize) < self.width && y >= 0 && (y as usize) < self.height
    }

    /// Returns the spawn position for the given player (0..3).
    pub fn spawn_pos(&self, player_id: u8) -> (pos: (i32, i32))
        requires
            player_id < 4,
        ensures
            pos == SPAWN_POSITIONS@[player_id as int],
    {
        SPAWN_POSITIONS[player_id as usize]
    }

    /// Clear spawn zones of destructible walls and power-ups for safe respawning.
    pub fn clear_for_respawn(&mut self)
        requires
            old(self).wf(),
        ensures
            final(self).wf(),
            final(self).width == old(self).width,
            final(self).height == old(self).height,
            forall|x: int, y: int|
                #[trigger] final(self).at(x, y) == (if in_spawn_zone(x, y) && (old(self).at(x, y)
                    is DestructibleWall || old(self).at(x, y) is PowerUpHidden) {
                    Cell::Floor
                } else {
                    old(self).at(x, y)
                }),
    {
        let mut k: usize = 0;
        while k < 36
            invariant
                k <= 36,
                self.wf(),
                self.width == old(self).width,
                self.height == old(self).height,
                forall|x: int, y: int|
                    #[trigger] self.at(x, y) == (if zone_covers(k as int, x, y) && (old(self).at(x, y)
                        is DestructibleWall || old(self).at(x, y) is PowerUpHidden) {
                        Cell::Floor
                    } else {
                        old(self).at(x, y)
                    }),
            decreases 36 - k,
        {
            let (sx, sy) = SPAWN_POSITIONS[k / 9];
            let x: i32 = sx + (k % 3) as i32 - 1;
            let y: i32 = sy + (k % 9 / 3) as i32 - 1;
            assert(zone_cell(k as int) == (x as int, y as int));
            match self.get(x, y) {
                Cell::DestructibleWall => {
                    self.set(x, y, Cell::Floor);
                },
                Cell::PowerUpHidden(_) => {
                    self.set(x, y, Cell::Floor);
                },
                _ => {},
            }
            assert forall|i: int, j: int| true implies zone_covers(k + 1, i, j) == (zone_covers(
                k as int,
                i,
                j,
            ) || (i == x && j == y)) by {
                if zone_covers(k as int, i, j) {
                    let m = choose|m: int| 0 <= m < k && #[trigger] zone_cell(m) == (i, j);
                    assert(zone_cell(m) == (i, j));
                }
            }
            k = k + 1;
        }
        proof {
            assert forall|x: int, y: int| true implies zone_covers(36, x, y) == in_spawn_zone(
                x,
                y,
            ) by {
                lemma_zone(x, y);
            }
        }
    }
}

/// The cells of the four spawn zones, nine for each.
spec fn zone_cell(m: int) -> (int, int) {
    let s = SPAWN_POSITIONS@[m / 9];
    (s.0 + m % 3 - 1, s.1 + m % 9 / 3 - 1)
}

/// True for the first `k` zone cells.
spec fn zone_covers(k: int, x: int, y: int) -> bool {
    exists|m: int| 0 <= m < k && #[trigger] zone_cell(m) == (x, y)
}

proof fn lemma_zone(x: int, y: int)
    ensures
        zone_covers(36, x, y) == in_spawn_zone(x, y),
{
    if zone_covers(36, x, y) {
        let m = choose|m: int| 0 <= m < 36 && #[trigger] zone_cell(m) == (x, y);
        assert(near(SPAWN_POSITIONS@[m / 9], x, y));
    }
    if in_spawn_zone(x, y) {
        let i = choose|i: int| 0 <= i < 4 && near(#[trigger] SPAWN_POSITIONS@[i], x, y);
        let s = SPAWN_POSITIONS@[i];
        let m = 9 * i + 3 * (y - s.1 + 1) + (x - s.0 + 1);
        assert(zone_cell(m) == (x, y));
    }
}

/// The border of a generated arena is solid.
pub proof fn law_border_is_solid(seed: u64, x: int, y: int)
    requires
        on_border(x, y),
    ensures
        generated(seed, x, y) is FixedWall,
{
}

/// The pillars of a generated arena are solid.
pub proof fn law_pillars_are_solid(seed: u64, x: int, y: int)
    requires
        on_pillar(x, y),
    ensures
        generated(seed, x, y) is FixedWall,
{
}

/// A generated arena keeps its spawn zones clear of destructible walls and power-ups.
pub proof fn law_spawn_zones_are_clear(seed: u64, x: int, y: int)
    requires
        in_spawn_zone(x, y),
    ensures
        generated(seed, x, y) is Floor || generated(seed, x, y) is FixedWall,
{
}

/// Every player of a generated arena starts on a free cell.
pub proof fn law_spawns_are_free(seed: u64, i: int)
    requires
        0 <= i < 4,
    ensures
        generated(seed, SPAWN_POSITIONS@[i].0 as int, SPAWN_POSITIONS@[i].1 as int) is Floor,
{
    let s = SPAWN_POSITIONS@[i];
    assert(near(s, s.0 as int, s.1 as int));
}

/// Two arenas generated from one seed hold the same cells.
pub proof fn law_same_seed_same_arena(seed: u64, a: ArenaGrid, b: ArenaGrid, x: int, y: int)
    requires
        0 <= x < ARENA_W,
        0 <= y < ARENA_H,
        forall|i: int, j: int|
            0 <= i < ARENA_W && 0 <= j < ARENA_H ==> #[trigger] a.at(i, j) == generated(seed, i, j),
        forall|i: int, j: int|
            0 <= i < ARENA_W && 0 <= j < ARENA_H ==> #[trigger] b.at(i, j) == generated(seed, i, j),
    ensures
        a.at(x, y) == b.at(x, y),
{
}

/// A cell outside the border, the pillars and the spawn zones is destructible when its roll falls
/// below two fifths, and one destructible wall in five hides a power-up, of any of three kinds.
pub proof fn law_fill_rates(seed: u64, x: int, y: int)
    requires
        !on_pillar(x, y),
        !in_spawn_zone(x, y),
    ensures
        ({
            let (roll, s1) = random::unit_roll_spec(seed, REDRAWS as nat);
            let (hidden, s2) = random::unit_roll_spec(s1, REDRAWS as nat);
            let (cell, after) = site(seed, x, y);
            &&& (roll >= DESTRUCTIBLE_FILL) == (cell is Floor)
            &&& roll >= DESTRUCTIBLE_FILL ==> after == s1
            &&& roll < DESTRUCTIBLE_FILL ==> (hidden < POWERUP_FILL) == (cell is PowerUpHidden)
            &&& roll < DESTRUCTIBLE_FILL ==> (hidden >= POWERUP_FILL) == (cell is DestructibleWall)
            &&& cell is PowerUpHidden ==> (random::fastrand_u8(s2, 2).0 == 0) == (cell
                == Cell::PowerUpHidden(PowerUpKind::BombUp)) && (random::fastrand_u8(s2, 2).0 == 1)
                == (cell == Cell::PowerUpHidden(PowerUpKind::FireUp)) && after
                == random::fastrand_u8(s2, 2).1
        }),
        float_bits::is_nearest_to(DESTRUCTIBLE_FILL, 2, 5),
        float_bits::is_nearest_to(POWERUP_FILL, 1, 5),
{
    vstd::arithmetic::power2::lemma2_to64();
}

/// The pillars stand on every second row and column inside the border, the spawn zones are the
/// cells at most one step, straight or diagonal, from a corner of the inside, and the border is
/// the outermost ring.
pub proof fn law_arena_layout(x: int, y: int)
    requires
        0 <= x < ARENA_W,
        0 <= y < ARENA_H,
    ensures
        on_border(x, y) == (x == 0 || y == 0 || x == 12 || y == 12),
        on_border(x, y) == on_border(y, x),
        on_border(x, y) == on_border(12 - x, y),
        !on_border(x, y) ==> on_pillar(x, y) == (x % 2 == 0 && y % 2 == 0),
        on_pillar(x, y) ==> !on_border(x, y),
        on_pillar(x, y) == on_pillar(y, x),
        on_pillar(x, y) == on_pillar(12 - x, y),
        in_spawn_zone(x, y) == ((x <= 2 || x >= 10) && (y <= 2 || y >= 10)),
{
    assert(SPAWN_POSITIONS@[0] == (1i32, 1i32));
    assert(SPAWN_POSITIONS@[1] == (11i32, 1i32));
    assert(SPAWN_POSITIONS@[2] == (1i32, 11i32));
    assert(SPAWN_POSITIONS@[3] == (11i32, 11i32));
    assert(near(SPAWN_POSITIONS@[0], x, y) == (x <= 2 && y <= 2));
    assert(near(SPAWN_POSITIONS@[1], x, y) == (x >= 10 && y <= 2));
    assert(near(SPAWN_POSITIONS@[2], x, y) == (x <= 2 && y >= 10));
    assert(near(SPAWN_POSITIONS@[3], x, y) == (x >= 10 && y >= 10));
    if in_spawn_zone(x, y) {
        let i = choose|i: int| 0 <= i < 4 && near(#[trigger] SPAWN_POSITIONS@[i], x, y);
        assert(i == 0 || i == 1 || i == 2 || i == 3);
    }
}

/// The interior is filled row by row: each cell is drawn with what the cell before it left.
pub proof fn law_cells_are_drawn_in_row_order(seed: u64, x: int, y: int)
    requires
        1 <= x <= 11,
        1 <= y <= 11,
    ensures
        ({
            let place = ((y - 1) * 11 + (x - 1)) as nat;
            &&& generated(seed, x, y) == site(seed_after(seed, place), x, y).0
            &&& seed_after(seed, place + 1) == site(seed_after(seed, place), x, y).1
            &&& seed_after(seed, 0) == seed
        }),
{
    let j = (y - 1) * 11 + (x - 1);
    assert(j % 11 == x - 1 && j / 11 == y - 1);
}

/// A player can stand on floor and on a hidden power-up, and nowhere else; outside the grid all is
/// wall.
pub proof fn law_walkable_cells(grid: &ArenaGrid, x: int, y: int)
    ensures
        grid.walkable(x, y) ==> grid.inside(x, y),
        !grid.inside(x, y) ==> grid.at(x, y) is FixedWall,
        grid.at(x, y) is FixedWall || grid.at(x, y) is DestructibleWall ==> !grid.walkable(x, y),
        grid.at(x, y) is Floor || grid.at(x, y) is PowerUpHidden ==> grid.walkable(x, y),
{
}

/// The grid begins at (0, 0) and ends before its width and its height. A cell is where its column
/// and its row say.
pub proof fn law_grid_extent(grid: &ArenaGrid, x: int, y: int)
    ensures
        !grid.inside(-1, y) && !grid.inside(x, -1),
        !grid.inside(grid.width as int, y) && !grid.inside(x, grid.height as int),
        grid.width > 0 && grid.height > 0 ==> grid.inside(0, 0) && grid.inside(
            grid.width - 1,
            grid.height - 1,
        ),
        0 <= x < grid.width && 0 <= y < grid.height ==> grid.at(x, y) == grid.cells@[y]@[x],
{
}

} // verus!
