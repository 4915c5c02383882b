//! Game state as a token buffer for a WASM bomber validator.
//!
//! Each value is stored as a 4-byte little-endian token, and the length handed to the
//! validator is the number of tokens, not of bytes.
//!
//! | Token Index | Value      | Description                                        |
//! |-------------|------------|----------------------------------------------------|
//! | 0..168      | cell byte  | grid: 13×13 cells, 1 token each (row-major)        |
//! | 169         | player_x   | player X coordinate (u8)                           |
//! | 170         | player_y   | player Y coordinate (u8)                           |
//! | 171         | player_id  | player ID (u8)                                     |
//! | 172         | bomb_count | number of bombs N (u8, max 16)                     |
//! | 173..       | N×4 tokens | bombs: N × (x, y, range, fuse)                     |

use vstd::prelude::*;

use crate::pruners::bomber::arena::ArenaGrid;
use crate::pruners::bomber::{Cell, ARENA_H, ARENA_W};

verus! {

/// Maximum number of bombs that can be serialized.
pub const MAX_BOMBS: usize = 16;

/// Number of grid tokens (13×13 = 169).
pub const GRID_TOKENS: usize = 169;

/// Token index: player_x.
pub const OFF_PLAYER_X: usize = 169;

/// Token index: player_y.
pub const OFF_PLAYER_Y: usize = 170;

/// Token index: player_id.
pub const OFF_PLAYER_ID: usize = 171;

/// Token index: bomb_count.
pub const OFF_BOMB_COUNT: usize = 172;

/// Token index: first bomb (x, y, range, fuse × N).
pub const OFF_BOMBS: usize = 173;

/// Bytes per token.
pub const BYTES_PER_TOKEN: usize = 4;

/// The token of a cell.
pub open spec fn cell_token(cell: Cell) -> u8 {
    match cell {
        Cell::Floor => 0,
        Cell::FixedWall => 1,
        Cell::DestructibleWall => 2,
        Cell::PowerUpHidden(_) => 3,
    }
}

/// A coordinate clamped to 0..=255.
pub open spec fn clamped(val: int) -> u8 {
    if val < 0 {
        0
    } else if val > 255 {
        255
    } else {
        val as u8
    }
}

/// A value as the four bytes of a little-endian token.
pub open spec fn token_bytes(value: u8) -> Seq<u8> {
    seq![value, 0u8, 0u8, 0u8]
}

/// A list of values as tokens.
pub open spec fn tokens_bytes(values: Seq<u8>) -> Seq<u8>
    decreases values.len(),
{
    if values.len() == 0 {
        seq![]
    } else {
        tokens_bytes(values.drop_last()) + token_bytes(values.last())
    }
}

/// The values of the grid cells, row by row.
pub open spec fn grid_values(grid: &ArenaGrid) -> Seq<u8> {
    Seq::new(
        GRID_TOKENS as nat,
        |i: int| cell_token(grid.cells@[i / (ARENA_W as int)]@[i % (ARENA_W as int)]),
    )
}

/// The four values of one bomb.
pub open spec fn bomb_values(bomb: ((i32, i32), u32, u32)) -> Seq<u8> {
    seq![
        clamped(bomb.0.0 as int),
        clamped(bomb.0.1 as int),
        (bomb.1 % 256) as u8,
        (bomb.2 % 256) as u8,
    ]
}

/// The values of the first `n` bombs.
pub open spec fn bombs_values(bombs: Seq<((i32, i32), u32, u32)>, n: nat) -> Seq<u8>
    decreases n,
{
    if n == 0 {
        seq![]
    } else {
        bombs_values(bombs, (n - 1) as nat) + bomb_values(bombs[n - 1])
    }
}

/// How many bombs are serialized.
pub open spec fn bombs_kept(bombs: Seq<((i32, i32), u32, u32)>) -> nat {
    if bombs.len() < MAX_BOMBS {
        bombs.len()
    } else {
        MAX_BOMBS as nat
    }
}

/// All values of a game state, in token order.
pub open spec fn state_values(
    grid: &ArenaGrid,
    player_x: i32,
    player_y: i32,
    player_id: u8,
    bombs: Seq<((i32, i32), u32, u32)>,
) -> Seq<u8> {
    grid_values(grid) + seq![
        clamped(player_x as int),
        clamped(player_y as int),
        player_id,
        bombs_kept(bombs) as u8,
    ] + bombs_values(bombs, bombs_kept(bombs))
}

/// Convert a [`Cell`] to its token value for the WASM ABI.
pub fn cell_to_token(cell: &Cell) -> (t: u8)
    ensures
        t == cell_token(*cell),
{
    match cell {
        Cell::Floor => 0,
        Cell::FixedWall => 1,
        Cell::DestructibleWall => 2,
        Cell::PowerUpHidden(_) => 3,
    }
}

/// Clamp an `i32` coordinate to `u8` range [0, 255].
pub fn clamp_to_u8(val: i32) -> (c: u8)
    ensures
        c == clamped(val as int),
{
    if val < 0 {
        0
    } else if val > 255 {
        255
    } else {
        val as u8
    }
}

/// Append a u8 value as a little-endian token (4 bytes) to the buffer.
pub fn push_token(buf: &mut Vec<u8>, value: u8)
    ensures
        final(buf)@ == old(buf)@ + token_bytes(value),
{
    buf.push(value);
    buf.push(0);
    buf.push(0);
    buf.push(0);
    assert(buf@ =~= old(buf)@ + token_bytes(value));
}

proof fn lemma_tokens_push(values: Seq<u8>, v: u8)
    ensures
        tokens_bytes(values.push(v)) == tokens_bytes(values) + token_bytes(v),
{
    assert(values.push(v).drop_last() =~= values);
}

/// Every value takes four bytes: the value first, then zeros.
pub proof fn law_token_layout(values: Seq<u8>)
    ensures
        tokens_bytes(values).len() == BYTES_PER_TOKEN * values.len(),
        forall|i: int|
            0 <= i < values.len() ==> {
                &&& tokens_bytes(values)[BYTES_PER_TOKEN * i] == #[trigger] values[i]
                &&& tokens_bytes(values)[BYTES_PER_TOKEN * i + 1] == 0
                &&& tokens_bytes(values)[BYTES_PER_TOKEN * i + 2] == 0
                &&& tokens_bytes(values)[BYTES_PER_TOKEN * i + 3] == 0
            },
    decreases values.len(),
{
    if values.len() > 0 {
        let init = values.drop_last();
        law_token_layout(init);
        assert forall|i: int| 0 <= i < values.len() implies {
            &&& tokens_bytes(values)[BYTES_PER_TOKEN * i] == #[trigger] values[i]
            &&& tokens_bytes(values)[BYTES_PER_TOKEN * i + 1] == 0
            &&& tokens_bytes(values)[BYTES_PER_TOKEN * i + 2] == 0
            &&& tokens_bytes(values)[BYTES_PER_TOKEN * i + 3] == 0
        } by {
            if i < init.len() {
                assert(init[i] == values[i]);
            }
        }
    }
}

proof fn lemma_bombs_len(bombs: Seq<((i32, i32), u32, u32)>, n: nat)
    ensures
        bombs_values(bombs, n).len() == 4 * n,
    decreases n,
{
    if n > 0 {
        lemma_bombs_len(bombs, (n - 1) as nat);
    }
}

/// Serialize game state as a token buffer for the WASM bomber validator.
///
/// Returns the bytes and the number of tokens, which is what the validator takes as length.
/// Player coordinates are clamped to `u8` range. Bomb count is capped at 16.
pub fn serialize_game_state(
    grid: &ArenaGrid,
    player_x: i32,
    player_y: i32,
    player_id: u8,
    bombs: &[((i32, i32), u32, u32)],
) -> (r: (Vec<u8>, u32))
    requires
        grid.cells@.len() >= ARENA_H,
        forall|y: int| 0 <= y < ARENA_H ==> (#[trigger] grid.cells@[y])@.len() >= ARENA_W,
    ensures
        r.0@ == tokens_bytes(state_values(grid, player_x, player_y, player_id, bombs@)),
        r.1 == OFF_BOMBS + 4 * bombs_kept(bombs@),
        r.0@.len() == r.1 * BYTES_PER_TOKEN,
{
    let bomb_count: usize = if bombs.len() < MAX_BOMBS {
        bombs.len()
    } else {
        MAX_BOMBS
    };
    let mut buf: Vec<u8> = Vec::new();
    let ghost mut values: Seq<u8> = seq![];
    let mut y: usize = 0;
    while y < ARENA_H
        invariant
            y <= ARENA_H,
            grid.cells@.len() >= ARENA_H,
            forall|y: int| 0 <= y < ARENA_H ==> (#[trigger] grid.cells@[y])@.len() >= ARENA_W,
            values.len() == y * ARENA_W,
            values =~= grid_values(grid).take(y * ARENA_W),
            buf@ == tokens_bytes(values),
        decreases ARENA_H - y,
    {
        let mut x: usize = 0;
        while x < ARENA_W
            invariant
                x <= ARENA_W,
                y < ARENA_H,
                grid.cells@.len() >= ARENA_H,
                forall|y: int| 0 <= y < ARENA_H ==> (#[trigger] grid.cells@[y])@.len() >= ARENA_W,
                values.len() == y * ARENA_W + x,
                values =~= grid_values(grid).take(y * ARENA_W + x),
                buf@ == tokens_bytes(values),
            decreases ARENA_W - x,
        {
            let value: u8 = cell_to_token(&grid.cells[y][x]);
            push_token(&mut buf, value);
            proof {
                let i = y * ARENA_W + x;
                assert(i / (ARENA_W as int) == y && i % (ARENA_W as int) == x);
                lemma_tokens_push(values, value);
                assert(grid_values(grid)[i] == value);
                values = values.push(value);
            }
            x = x + 1;
        }
        y = y + 1;
    }
    assert(values =~= grid_values(grid));
    let px: u8 = clamp_to_u8(player_x);
    let py: u8 = clamp_to_u8(player_y);
    push_token(&mut buf, px);
    push_token(&mut buf, py);
    push_token(&mut buf, player_id);
    push_token(&mut buf, bomb_count as u8);
    let ghost head = values.push(px).push(py).push(player_id).push(bomb_count as u8);
    proof {
        lemma_tokens_push(values, px);
        lemma_tokens_push(values.push(px), py);
        lemma_tokens_push(values.push(px).push(py), player_id);
        lemma_tokens_push(values.push(px).push(py).push(player_id), bomb_count as u8);
        values = head;
    }
    let mut i: usize = 0;
    while i < bomb_count
        invariant
            i <= bomb_count <= bombs.len(),
            values =~= head + bombs_values(bombs@, i as nat),
            buf@ == tokens_bytes(values),
        decreases bomb_count - i,
    {
        let (at, range, fuse) = bombs[i];
        let bx: u8 = clamp_to_u8(at.0);
        let by: u8 = clamp_to_u8(at.1);
        push_token(&mut buf, bx);
        push_token(&mut buf, by);
        let low_range: u8 = (range % 256) as u8;
        let low_fuse: u8 = (fuse % 256) as u8;
        push_token(&mut buf, low_range);
        push_token(&mut buf, low_fuse);
        proof {
            lemma_tokens_push(values, bx);
            lemma_tokens_push(values.push(bx), by);
            lemma_tokens_push(values.push(bx).push(by), low_range);
            lemma_tokens_push(values.push(bx).push(by).push(low_range), low_fuse);
            values = values.push(bx).push(by).push(low_range).push(low_fuse);
        }
        i = i + 1;
    }
    proof {
        assert(values =~= state_values(grid, player_x, player_y, player_id, bombs@));
        law_token_layout(values);
        lemma_bombs_len(bombs@, bomb_count as nat);
    }
    (buf, (OFF_BOMBS + bomb_count * 4) as u32)
}

/// Cells of different kinds have different tokens, in the order floor, fixed wall, destructible
/// wall, hidden power-up.
pub proof fn law_cell_tokens_are_told_apart(a: Cell, b: Cell)
    ensures
        cell_token(a) == cell_token(b) ==> (a is Floor == b is Floor && a is FixedWall
            == b is FixedWall && a is DestructibleWall == b is DestructibleWall && a is PowerUpHidden
            == b is PowerUpHidden),
        a is Floor && b is FixedWall ==> cell_token(a) + 1 == cell_token(b),
        a is FixedWall && b is DestructibleWall ==> cell_token(a) + 1 == cell_token(b),
        a is DestructibleWall && b is PowerUpHidden ==> cell_token(a) + 1 == cell_token(b),
        a is Floor ==> cell_token(a) == 0,
{
}

/// A coordinate that fits in a byte is kept, and any other is the nearest that does.
pub proof fn law_clamping_is_to_the_nearest_byte(val: int, other: int)
    ensures
        0 <= val <= 255 ==> clamped(val) == val,
        0 <= other <= 255 && val <= other ==> clamped(val) <= other,
        0 <= other <= 255 && other <= val ==> other <= clamped(val),
{
}

proof fn lemma_bombs_values(bombs: Seq<((i32, i32), u32, u32)>, n: nat)
    requires
        n <= bombs.len(),
    ensures
        bombs_values(bombs, n).len() == 4 * n,
        forall|i: int, k: int| #![trigger bomb_values(bombs[i])[k]]
            0 <= i < n && 0 <= k < 4 ==> bombs_values(bombs, n)[4 * i + k] == bomb_values(
                bombs[i],
            )[k],
    decreases n,
{
    if n > 0 {
        lemma_bombs_values(bombs, (n - 1) as nat);
    }
}

/// Where a module finds what: the cell of column `x` and row `y`, the player, how many bombs there
/// are, and of each bomb its column, its row, its range and its fuse. Of more than sixteen bombs
/// the first sixteen are given.
pub proof fn law_state_layout(
    grid: &ArenaGrid,
    player_x: i32,
    player_y: i32,
    player_id: u8,
    bombs: Seq<((i32, i32), u32, u32)>,
    x: int,
    y: int,
    i: int,
)
    requires
        0 <= x < 13,
        0 <= y < 13,
    ensures
        ({
            let v = state_values(grid, player_x, player_y, player_id, bombs);
            let kept = if bombs.len() <= 16 {
                bombs.len() as int
            } else {
                16
            };
            &&& v.len() == 173 + 4 * kept
            &&& v[13 * y + x] == cell_token(grid.cells@[y]@[x])
            &&& 0 <= player_x <= 255 ==> v[169] == player_x
            &&& 0 <= player_y <= 255 ==> v[170] == player_y
            &&& v[171] == player_id
            &&& v[172] == kept
            &&& 0 <= i < kept ==> {
                &&& 0 <= bombs[i].0.0 <= 255 ==> v[173 + 4 * i] == bombs[i].0.0
                &&& 0 <= bombs[i].0.1 <= 255 ==> v[174 + 4 * i] == bombs[i].0.1
                &&& bombs[i].1 <= 255 ==> v[175 + 4 * i] == bombs[i].1
                &&& bombs[i].2 <= 255 ==> v[176 + 4 * i] == bombs[i].2
            }
        }),
{
    let v = state_values(grid, player_x, player_y, player_id, bombs);
    let n = bombs_kept(bombs);
    lemma_bombs_values(bombs, n);
    let p = 13 * y + x;
    assert(p / 13 == y && p % 13 == x);
    assert(v[p] == grid_values(grid)[p]);
    if 0 <= i < n {
        let b = bomb_values(bombs[i]);
        let all = bombs_values(bombs, n);
        assert(all[4 * i] == b[0] && all[4 * i + 1] == b[1] && all[4 * i + 2] == b[2] && all[4 * i
            + 3] == b[3]);
        assert(v[173 + 4 * i] == all[4 * i] && v[174 + 4 * i] == all[4 * i + 1]);
        assert(v[175 + 4 * i] == all[4 * i + 2] && v[176 + 4 * i] == all[4 * i + 3]);
    }
}

} // verus!
