//! The Bomberman arena: its cells, actions and events.

use vstd::prelude::*;

pub mod arena;
pub mod danger;
pub mod hl;
pub mod pathing;
pub mod players;
pub mod replay;
pub mod routes;
pub mod sandbox;
pub mod wasm_pruner;
pub mod wasm_state;

verus! {

/// Arena width in cells.
pub const ARENA_W: usize = 13;

/// Arena height in cells.
pub const ARENA_H: usize = 13;

/// Where the four players start.
pub const SPAWN_POSITIONS: [(i32, i32); 4] = [(1, 1), (11, 1), (1, 11), (11, 11)];

/// Share of the free interior cells that receive a destructible wall (0.4), as the bit pattern
/// of a single-precision number.
pub const DESTRUCTIBLE_FILL: u32 = 0x3ECC_CCCD;

/// Share of the destructible walls that hide a power-up (0.2), as the bit pattern of a
/// single-precision number.
pub const POWERUP_FILL: u32 = 0x3E4C_CCCD;

/// What a power-up improves.
#[derive(Clone, Copy, Debug, PartialEq, Eq, Structural)]
pub enum PowerUpKind {
    BombUp,
    FireUp,
    SpeedUp,
}

/// One arena cell.
#[derive(Clone, Copy, Debug, PartialEq, Eq, Structural)]
pub enum Cell {
    Floor,
    FixedWall,
    DestructibleWall,
    PowerUpHidden(PowerUpKind),
}

/// A grid position.
#[derive(Clone, Copy, Debug, PartialEq, Eq, Structural)]
pub struct GridPos {
    pub x: i32,
    pub y: i32,
}

/// What a player can do in one tick.
#[derive(Clone, Copy, Debug, PartialEq, Eq, Structural)]
pub enum BomberAction {
    Up,
    Down,
    Left,
    Right,
    Bomb,
    Wait,
}

/// What happened in the arena.
#[derive(Debug)]
pub enum GameEvent {
    BombPlaced { player: u8, pos: (i32, i32) },
    BombExploded { pos: (i32, i32) },
    PlayerKilled { victim: u8, killer: Option<u8> },
    PowerUpCollected { player: u8, kind: PowerUpKind },
    RoundEnd { survivors: Vec<u8> },
}

impl GridPos {
    /// The four neighbouring coordinates fit in `i32`.
    pub open spec fn movable(self) -> bool {
        i32::MIN < self.x < i32::MAX && i32::MIN < self.y < i32::MAX
    }
}

impl BomberAction {
    /// The action's place in the order Up, Down, Left, Right, Bomb, Wait.
    pub open spec fn index(self) -> int {
        match self {
            BomberAction::Up => 0,
            BomberAction::Down => 1,
            BomberAction::Left => 2,
            BomberAction::Right => 3,
            BomberAction::Bomb => 4,
            BomberAction::Wait => 5,
        }
    }

    /// True for the four moves.
    pub open spec fn is_step(self) -> bool {
        self is Up || self is Down || self is Left || self is Right
    }

    /// Convert action to index 0..6.
    pub fn as_usize(&self) -> (i: usize)
        ensures
            i == self.index(),
    {
        match self {
            BomberAction::Up => 0,
            BomberAction::Down => 1,
            BomberAction::Left => 2,
            BomberAction::Right => 3,
            BomberAction::Bomb => 4,
            BomberAction::Wait => 5,
        }
    }
}

} // verus!
