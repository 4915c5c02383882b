//! Replay samples: outcome quality and the flat board encoding.

use vstd::prelude::*;

use crate::pruners::bomber::arena::ArenaGrid;
use crate::pruners::bomber::wasm_state;
use crate::pruners::bomber::wasm_state::cell_to_token;
use crate::pruners::bomber::{GridPos, ARENA_H, ARENA_W};

verus! {

/// One recorded decision.
#[derive(Debug)]
pub struct ReplaySample {
    pub board: Vec<u8>,
    pub player_pos: [u8; 2],
    pub player_id: u8,
    pub bombs: Vec<[u8; 4]>,
    pub powerups: Vec<[u8; 2]>,
    pub action: u8,
    /// Quality in hundredths.
    pub quality: u32,
    pub tick: u32,
    pub round: u32,
    pub player_type: String,
}

/// The smaller of two numbers.
pub open spec fn least(a: int, b: int) -> int {
    if a < b {
        a
    } else {
        b
    }
}

/// Quality of an outcome in hundredths.
pub open spec fn quality_spec(survived: bool, winner: bool, powerups: int, kills: int) -> int {
    let base = if winner {
        100int
    } else if survived {
        50
    } else {
        0
    };
    least(base + least(5 * powerups, 20) + least(10 * kills, 30), 100)
}

impl ReplaySample {
    /// Compute quality score from game outcome, in hundredths.
    ///
    /// - Death → 0, Survived → 50, Winner → 100
    /// - +5 per powerup (capped at +20)
    /// - +10 per kill (capped at +30)
    pub fn quality(survived: bool, winner: bool, powerups: u32, kills: u32) -> (q: u32)
        ensures
            q == quality_spec(survived, winner, powerups as int, kills as int),
            q <= 100,
    {
        let base: u32 = if winner {
            100
        } else if survived {
            50
        } else {
            0
        };
        let pu_bonus: u32 = if powerups < 4 {
            5 * powerups
        } else {
            20
        };
        let kill_bonus: u32 = if kills < 3 {
            10 * kills
        } else {
            30
        };
        let sum: u32 = base + pu_bonus + kill_bonus;
        if sum < 100 {
            sum
        } else {
            100
        }
    }
}

/// Convert `ArenaGrid` cells into a flat `Vec<u8>` (169 bytes for 13×13).
///
/// Encoding: Floor=0, FixedWall=1, DestructibleWall=2, PowerUpHidden=3
pub fn serialize_board(grid: &ArenaGrid) -> (board: Vec<u8>)
    requires
        grid.cells@.len() >= ARENA_H,
        forall|y: int| 0 <= y < ARENA_H ==> (#[trigger] grid.cells@[y])@.len() >= ARENA_W,
    ensures
        board@ == wasm_state::grid_values(grid),
{
    let mut board: Vec<u8> = Vec::new();
    let mut y: usize = 0;
    while y < ARENA_H
        invariant
            y <= ARENA_H,
            grid.cells@.len() >= ARENA_H,
            forall|y: int| 0 <= y < ARENA_H ==> (#[trigger] grid.cells@[y])@.len() >= ARENA_W,
            board@.len() == y * ARENA_W,
            board@ =~= wasm_state::grid_values(grid).take(y * ARENA_W),
        decreases ARENA_H - y,
    {
        let mut x: usize = 0;
        while x < ARENA_W
            invariant
                x <= ARENA_W,
                y < ARENA_H,
                grid.cells@.len() >= ARENA_H,
                forall|y: int| 0 <= y < ARENA_H ==> (#[trigger] grid.cells@[y])@.len() >= ARENA_W,
                board@.len() == y * ARENA_W + x,
                board@ =~= wasm_state::grid_values(grid).take(y * ARENA_W + x),
            decreases ARENA_W - x,
        {
            let value: u8 = cell_to_token(&grid.cells[y][x]);
            board.push(value);
            proof {
                let i = y * ARENA_W + x;
                assert(i / (ARENA_W as int) == y && i % (ARENA_W as int) == x);
                assert(wasm_state::grid_values(grid)[i] == value);
            }
            x = x + 1;
        }
        y = y + 1;
    }
    assert(board@ =~= wasm_state::grid_values(grid));
    board
}

/// The low eight bits of a number.
pub open spec fn low_byte(n: int) -> u8 {
    (n % 256) as u8
}

/// The low eight bits of a coordinate.
fn coordinate_byte(n: i32) -> (b: u8)
    ensures
        b == low_byte(n as int),
{
    let b: u8 = (n & 255) as u8;
    assert(b == n % 256) by (bit_vector)
        requires
            b == (n & 255) as u8,
    ;
    b
}

/// The low eight bits of a count.
fn count_byte(n: u32) -> (b: u8)
    ensures
        b == low_byte(n as int),
{
    let b: u8 = (n % 256) as u8;
    b
}

/// A bomb on the grid.
#[derive(Clone, Copy, Debug)]
pub struct BombRecord {
    pub pos: GridPos,
    /// Blast range in cells.
    pub range: u32,
    /// Ticks left until it explodes.
    pub fuse: u32,
}

/// All bombs as `(x, y, blast_range, fuse_ticks)`, each number cut to its low eight bits.
pub fn serialize_bombs(bombs: &Vec<BombRecord>) -> (r: Vec<[u8; 4]>)
    ensures
        r@.len() == bombs@.len(),
        forall|i: int|
            0 <= i < bombs@.len() ==> (#[trigger] r@[i])@ == seq![
                low_byte(bombs@[i].pos.x as int),
                low_byte(bombs@[i].pos.y as int),
                low_byte(bombs@[i].range as int),
                low_byte(bombs@[i].fuse as int),
            ],
{
    let mut r: Vec<[u8; 4]> = Vec::new();
    let mut k: usize = 0;
    while k < bombs.len()
        invariant
            k <= bombs@.len(),
            r@.len() == k,
            forall|i: int|
                0 <= i < k ==> (#[trigger] r@[i])@ == seq![
                    low_byte(bombs@[i].pos.x as int),
                    low_byte(bombs@[i].pos.y as int),
                    low_byte(bombs@[i].range as int),
                    low_byte(bombs@[i].fuse as int),
                ],
        decreases bombs@.len() - k,
    {
        let bomb = bombs[k];
        let bytes: [u8; 4] = [
            coordinate_byte(bomb.pos.x),
            coordinate_byte(bomb.pos.y),
            count_byte(bomb.range),
            count_byte(bomb.fuse),
        ];
        assert(bytes@ =~= seq![
            low_byte(bomb.pos.x as int),
            low_byte(bomb.pos.y as int),
            low_byte(bomb.range as int),
            low_byte(bomb.fuse as int),
        ]);
        r.push(bytes);
        k = k + 1;
    }
    r
}

/// All power-ups as `(x, y)`, each number cut to its low eight bits.
pub fn serialize_powerups(powerups: &Vec<GridPos>) -> (r: Vec<[u8; 2]>)
    ensures
        r@.len() == powerups@.len(),
        forall|i: int|
            0 <= i < powerups@.len() ==> (#[trigger] r@[i])@ == seq![
                low_byte(powerups@[i].x as int),
                low_byte(powerups@[i].y as int),
            ],
{
    let mut r: Vec<[u8; 2]> = Vec::new();
    let mut k: usize = 0;
    while k < powerups.len()
        invariant
            k <= powerups@.len(),
            r@.len() == k,
            forall|i: int|
                0 <= i < k ==> (#[trigger] r@[i])@ == seq![
                    low_byte(powerups@[i].x as int),
                    low_byte(powerups@[i].y as int),
                ],
        decreases powerups@.len() - k,
    {
        let pos = powerups[k];
        let bytes: [u8; 2] = [coordinate_byte(pos.x), coordinate_byte(pos.y)];
        assert(bytes@ =~= seq![low_byte(pos.x as int), low_byte(pos.y as int)]);
        r.push(bytes);
        k = k + 1;
    }
    r
}

/// The board encoding is the grid part of the validator's tokens.
pub proof fn law_board_is_token_prefix(
    grid: &ArenaGrid,
    x: i32,
    y: i32,
    id: u8,
    bombs: Seq<((i32, i32), u32, u32)>,
)
    ensures
        wasm_state::state_values(grid, x, y, id, bombs).take(wasm_state::GRID_TOKENS as int)
            == wasm_state::grid_values(grid),
{
    assert(wasm_state::state_values(grid, x, y, id, bombs).take(wasm_state::GRID_TOKENS as int)
        =~= wasm_state::grid_values(grid));
}

/// A win is worth everything and survival half of it. Each power-up adds a twentieth, four at
/// most, and each kill a tenth, three at most.
pub proof fn law_quality(survived: bool, powerups: int, kills: int, more: int)
    requires
        0 <= powerups,
        0 <= kills,
        0 <= more,
    ensures
        quality_spec(survived, true, powerups, kills) == 100,
        quality_spec(true, false, 0, 0) == 50,
        quality_spec(false, false, 0, 0) == 0,
        powerups <= 4 && kills <= 3 ==> quality_spec(true, false, powerups, kills) == 50
            + quality_spec(false, false, powerups, kills),
        powerups < 4 ==> quality_spec(false, false, powerups + 1, kills) == quality_spec(
            false,
            false,
            powerups,
            kills,
        ) + 5,
        kills < 3 ==> quality_spec(false, false, powerups, kills + 1) == quality_spec(
            false,
            false,
            powerups,
            kills,
        ) + 10,
        quality_spec(survived, false, 4 + more, kills) == quality_spec(survived, false, 4, kills),
        quality_spec(survived, false, powerups, 3 + more) == quality_spec(
            survived,
            false,
            powerups,
            3,
        ),
{
}

/// A byte of a sample is what it stands for, but for multiples of 256.
pub proof fn law_low_byte_is_a_remainder(n: int)
    ensures
        (n - low_byte(n)) % 256 == 0,
        0 <= n < 256 ==> low_byte(n) == n,
{
}

} // verus!
