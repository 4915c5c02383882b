//! Players for the Bomberman arena.
//!
//! - Random: no model, no learning — pure baseline
//! - Greedy: a state machine that explores, hunts walls and flees blasts
//! - Validator: the same state machine under hard safety rules

use vstd::prelude::*;

use crate::float_bits;
use crate::pruners::bomber::arena::ArenaGrid;
use crate::pruners::bomber::danger;
use crate::pruners::bomber::danger::{in_blast_zone, manhattan, update_bombs, DEFAULT_BLAST_RANGE};
use crate::pruners::bomber::pathing;
use crate::pruners::bomber::routes;
use crate::pruners::bomber::routes::{
    can_escape_own_bomb, find_nearest_wall, find_safe_cell, index_to_action, move_target,
    next_step_toward, should_place_bomb, step_toward_wall,
};
use crate::pruners::bomber::{BomberAction, Cell, GameEvent, GridPos};
use crate::random;
use crate::random::{GameRng, REDRAWS};

verus! {

/// Number of actions.
pub const ACTION_COUNT: usize = 6;

/// How often the greedy player tries a random action (0.2), as the bit pattern of a
/// single-precision number.
pub const GREEDY_EXPLORE: u32 = 0x3E4C_CCCD;

/// How often the random player rolls before it waits.
pub const RANDOM_ATTEMPTS: u32 = 3;

/// A player of the arena.
pub trait BomberPlayer {
    /// Select an action given the current game state.
    fn select_action(
        &mut self,
        grid: &ArenaGrid,
        pos: GridPos,
        events: &[GameEvent],
        rng: &mut GameRng,
    ) -> (action: BomberAction)
        requires
            grid.wf(),
            pos.movable(),
    ;

    /// Player display name.
    fn name(&self) -> (s: &'static str);

    /// Emoji for TUI rendering.
    fn emoji(&self) -> (s: &'static str);

    /// Reset internal state for a new round.
    fn reset(&mut self);
}

/// What a player is about.
#[derive(Clone, Copy, Debug, PartialEq, Eq, Structural)]
pub enum AiState {
    /// Walking in a direction. Pick new direction when blocked.
    Explore { dir: BomberAction },
    /// Actively pathfinding toward a destructible wall to bomb it.
    Hunt { target: GridPos },
    /// Escaping blast zone toward nearest safe cell.
    Flee,
}

impl Default for AiState {
    fn default() -> (s: AiState)
        ensures
            s == (AiState::Explore { dir: BomberAction::Wait }),
    {
        AiState::Explore { dir: BomberAction::Wait }
    }
}

/// True when `action` would undo a move `prev`.
pub open spec fn reverses(action: BomberAction, prev: Option<BomberAction>) -> bool {
    match prev {
        Some(BomberAction::Down) => action is Up,
        Some(BomberAction::Up) => action is Down,
        Some(BomberAction::Right) => action is Left,
        Some(BomberAction::Left) => action is Right,
        _ => false,
    }
}

/// True when an action breaks no safety rule: it walks into no wall and no blast, waits in no
/// blast, and drops no bomb without a way out.
pub open spec fn is_safe(
    action: BomberAction,
    grid: &ArenaGrid,
    pos: GridPos,
    bombs: Seq<((i32, i32), u32)>,
) -> bool {
    match action {
        BomberAction::Bomb => routes::can_step_aside(grid, pos),
        BomberAction::Wait => !danger::in_blast(pos, bombs),
        _ => pathing::open_cell(grid, routes::target(action, pos)) && !danger::in_blast(
            routes::target(action, pos),
            bombs,
        ),
    }
}

/// The terms of an action's heuristic score, in hundredths.
pub open spec fn score_terms(
    action: BomberAction,
    grid: &ArenaGrid,
    pos: GridPos,
    bombs: Seq<((i32, i32), u32)>,
    last_dir: Option<BomberAction>,
) -> Seq<i32> {
    let to = routes::target(action, pos);
    let center = GridPos { x: 6, y: 6 };
    match action {
        BomberAction::Bomb => seq![-90i32],
        BomberAction::Wait => if danger::in_blast(pos, bombs) {
            seq![-50i32]
        } else {
            seq![-10i32]
        },
        _ => if !pathing::open_cell(grid, to) {
            seq![-100i32]
        } else if danger::in_blast(to, bombs) {
            seq![-80i32]
        } else {
            seq![10i32] + (if reverses(action, last_dir) {
                seq![-30i32]
            } else {
                seq![]
            }) + (if danger::in_blast(pos, bombs) {
                seq![80i32]
            } else {
                seq![]
            }) + (if grid.at(to.x as int, to.y as int) is PowerUpHidden {
                seq![60i32]
            } else {
                seq![]
            }) + (if danger::distance(to, center) < danger::distance(pos, center) {
                seq![20i32]
            } else {
                seq![]
            })
        },
    }
}

/// The sum of score terms.
pub open spec fn total(terms: Seq<i32>) -> int
    decreases terms.len(),
{
    if terms.len() == 0 {
        0
    } else {
        total(terms.drop_last()) + terms.last()
    }
}

/// How demanding the choice of an exploration step is: any walkable cell, no blast zone, and
/// no turning back.
pub open spec fn admits(
    grid: &ArenaGrid,
    pos: GridPos,
    prev: Option<BomberAction>,
    bombs: Seq<((i32, i32), u32)>,
    level: nat,
    dir: BomberAction,
) -> bool {
    let to = routes::target(dir, pos);
    &&& pathing::open_cell(grid, to)
    &&& level >= 1 ==> !danger::in_blast(to, bombs)
    &&& level >= 2 ==> !reverses(dir, prev)
}

/// The admitted steps among the first `n` of up, down, left, right.
pub open spec fn admitted(
    grid: &ArenaGrid,
    pos: GridPos,
    prev: Option<BomberAction>,
    bombs: Seq<((i32, i32), u32)>,
    level: nat,
    n: nat,
) -> Seq<BomberAction>
    decreases n,
{
    if n == 0 {
        seq![]
    } else {
        let rest = admitted(grid, pos, prev, bombs, level, (n - 1) as nat);
        let dir = routes::action_at(n - 1);
        if admits(grid, pos, prev, bombs, level, dir) {
            rest.push(dir)
        } else {
            rest
        }
    }
}

/// The steps to choose from: the most demanding level that leaves any.
pub open spec fn explore_choices(
    grid: &ArenaGrid,
    pos: GridPos,
    prev: Option<BomberAction>,
    bombs: Seq<((i32, i32), u32)>,
) -> Seq<BomberAction> {
    let preferred = admitted(grid, pos, prev, bombs, 2, 4);
    let safe = admitted(grid, pos, prev, bombs, 1, 4);
    if preferred.len() > 0 {
        preferred
    } else if safe.len() > 0 {
        safe
    } else {
        admitted(grid, pos, prev, bombs, 0, 4)
    }
}

/// The exploration step drawn from `seed`, and the seed after it. Without a choice it is Wait.
pub open spec fn explore_pick(
    grid: &ArenaGrid,
    pos: GridPos,
    prev: Option<BomberAction>,
    bombs: Seq<((i32, i32), u32)>,
    seed: u64,
) -> (BomberAction, u64) {
    let choices = explore_choices(grid, pos, prev, bombs);
    if choices.len() == 0 {
        (BomberAction::Wait, seed)
    } else {
        let (k, next) = random::fastrand_u64(seed, (choices.len() - 1) as u64);
        (choices[k as int], next)
    }
}

/// A new aim for a player without one: the nearest wall, or else a direction.
pub open spec fn new_aim(
    grid: &ArenaGrid,
    pos: GridPos,
    bombs: Seq<((i32, i32), u32)>,
    seed: u64,
) -> (AiState, u64) {
    match routes::nearest_wall(grid, pos) {
        Some(wall) => (AiState::Hunt { target: wall }, seed),
        None => {
            let (dir, next) = explore_pick(grid, pos, None, bombs, seed);
            (AiState::Explore { dir }, next)
        },
    }
}

/// The state in which a tick is played: flee from danger, and drop an aim that is gone.
pub open spec fn settled(
    grid: &ArenaGrid,
    pos: GridPos,
    state: AiState,
    bombs: Seq<((i32, i32), u32)>,
    seed: u64,
) -> (AiState, u64) {
    if danger::in_blast(pos, bombs) {
        (AiState::Flee, seed)
    } else {
        match state {
            AiState::Flee => new_aim(grid, pos, bombs, seed),
            AiState::Hunt { target } => if routes::breakable(grid, target) {
                (state, seed)
            } else {
                new_aim(grid, pos, bombs, seed)
            },
            AiState::Explore { dir } => (state, seed),
        }
    }
}

/// What a fleeing player does: the first step toward the nearest safe cell.
pub open spec fn flight(grid: &ArenaGrid, pos: GridPos, bombs: Seq<((i32, i32), u32)>) -> BomberAction {
    match routes::safe_cell(grid, pos, bombs) {
        Some(cell) => match routes::step_toward(grid, pos, cell) {
            Some(step) => step,
            None => BomberAction::Wait,
        },
        None => BomberAction::Wait,
    }
}

/// What the state machine proposes, with the state it leaves and the seed after it.
pub open spec fn proposal(
    grid: &ArenaGrid,
    pos: GridPos,
    state: AiState,
    bombs: Seq<((i32, i32), u32)>,
    seed: u64,
) -> (BomberAction, AiState, u64) {
    match state {
        AiState::Flee => (flight(grid, pos, bombs), state, seed),
        AiState::Hunt { target } => if danger::distance(pos, target) == 1 && routes::worth_bombing(
            grid,
            pos,
            bombs,
        ) {
            (BomberAction::Bomb, state, seed)
        } else {
            let step = routes::step_beside(grid, pos, target);
            if step is Some && !danger::in_blast(routes::target(step->0, pos), bombs) {
                (step->0, state, seed)
            } else {
                let (dir, next) = explore_pick(grid, pos, None, bombs, seed);
                (dir, AiState::Explore { dir }, next)
            }
        },
        AiState::Explore { dir } => if routes::worth_bombing(grid, pos, bombs) {
            (BomberAction::Bomb, state, seed)
        } else if dir.is_step() && pathing::open_cell(grid, routes::target(dir, pos))
            && !danger::in_blast(routes::target(dir, pos), bombs) {
            (dir, state, seed)
        } else {
            match routes::nearest_wall(grid, pos) {
                Some(wall) => (
                    match routes::step_beside(grid, pos, wall) {
                        Some(step) => step,
                        None => BomberAction::Wait,
                    },
                    AiState::Hunt { target: wall },
                    seed,
                ),
                None => {
                    let (new_dir, next) = explore_pick(grid, pos, Some(dir), bombs, seed);
                    (new_dir, AiState::Explore { dir: new_dir }, next)
                },
            }
        },
    }
}

/// Check if `action` would reverse `prev` direction.
pub fn is_reverse(action: BomberAction, prev: Option<BomberAction>) -> (b: bool)
    ensures
        b == reverses(action, prev),
{
    match (action, prev) {
        (BomberAction::Up, Some(BomberAction::Down)) => true,
        (BomberAction::Down, Some(BomberAction::Up)) => true,
        (BomberAction::Left, Some(BomberAction::Right)) => true,
        (BomberAction::Right, Some(BomberAction::Left)) => true,
        _ => false,
    }
}

/// Check if an action is safe given the current state.
pub fn is_safe_action(
    action: &BomberAction,
    grid: &ArenaGrid,
    pos: GridPos,
    bombs: &[((i32, i32), u32)],
) -> (b: bool)
    requires
        grid.wf(),
        pos.movable(),
    ensures
        b == is_safe(*action, grid, pos, bombs@),
{
    match action {
        BomberAction::Bomb => can_escape_own_bomb(grid, pos),
        BomberAction::Wait => !in_blast_zone(pos, bombs),
        _ => {
            let to = move_target(action, pos);
            grid.is_walkable(to.x, to.y) && !in_blast_zone(to, bombs)
        },
    }
}

/// The terms of an action's heuristic score, in hundredths.
///
/// A player who drops a bomb stands on it, so no route counts as an escape at that moment,
/// and the score of a bomb is always the penalty for lacking one.
pub fn heuristic_terms(
    action: &BomberAction,
    grid: &ArenaGrid,
    pos: GridPos,
    bombs: &[((i32, i32), u32)],
    last_dir: Option<BomberAction>,
) -> (terms: Vec<i32>)
    requires
        grid.wf(),
        pos.movable(),
    ensures
        terms@ == score_terms(*action, grid, pos, bombs@, last_dir),
{
    let mut terms: Vec<i32> = Vec::new();
    match action {
        BomberAction::Bomb => {
            terms.push(-90);
            assert(terms@ =~= seq![-90i32]);
        },
        BomberAction::Wait => {
            if in_blast_zone(pos, bombs) {
                terms.push(-50);
                assert(terms@ =~= seq![-50i32]);
            } else {
                terms.push(-10);
                assert(terms@ =~= seq![-10i32]);
            }
        },
        _ => {
            let to = move_target(action, pos);
            if !grid.is_walkable(to.x, to.y) {
                terms.push(-100);
                assert(terms@ =~= seq![-100i32]);
                return terms;
            }
            if in_blast_zone(to, bombs) {
                terms.push(-80);
                assert(terms@ =~= seq![-80i32]);
                return terms;
            }
            terms.push(10);
            if is_reverse(*action, last_dir) {
                terms.push(-30);
            }
            if in_blast_zone(pos, bombs) {
                terms.push(80);
            }
            let powerup: bool = match grid.get(to.x, to.y) {
                Cell::PowerUpHidden(_) => true,
                _ => false,
            };
            if powerup {
                terms.push(60);
            }
            let center = GridPos { x: 6, y: 6 };
            if manhattan(to, center) < manhattan(pos, center) {
                terms.push(20);
            }
            assert(terms@ =~= score_terms(*action, grid, pos, bombs@, last_dir));
        },
    }
    terms
}

/// Heuristic score for an action, in hundredths.
pub fn heuristic_score(
    action: &BomberAction,
    grid: &ArenaGrid,
    pos: GridPos,
    bombs: &[((i32, i32), u32)],
    last_dir: Option<BomberAction>,
) -> (score: i32)
    requires
        grid.wf(),
        pos.movable(),
    ensures
        score == total(score_terms(*action, grid, pos, bombs@, last_dir)),
        -100 <= score <= 170,
{
    let terms = heuristic_terms(action, grid, pos, bombs, last_dir);
    proof {
        lemma_terms_total(*action, grid, pos, bombs@, last_dir);
    }
    let mut sum: i32 = 0;
    let mut i: usize = 0;
    while i < terms.len()
        invariant
            i <= terms.len() <= 5,
            sum == total(terms@.take(i as int)),
            -100 * i <= sum <= 100 * i,
            forall|i: int| 0 <= i < terms@.len() ==> -100 <= #[trigger] terms@[i] <= 100,
        decreases terms.len() - i,
    {
        assert(terms@.take(i + 1).drop_last() =~= terms@.take(i as int));
        sum = sum + terms[i];
        i = i + 1;
    }
    assert(terms@.take(terms@.len() as int) =~= terms@);
    sum
}

/// The score as one sum.
proof fn lemma_terms_total(
    action: BomberAction,
    grid: &ArenaGrid,
    pos: GridPos,
    bombs: Seq<((i32, i32), u32)>,
    last_dir: Option<BomberAction>,
)
    ensures
        -100 <= total(score_terms(action, grid, pos, bombs, last_dir)) <= 170,
        score_terms(action, grid, pos, bombs, last_dir).len() <= 5,
        forall|i: int|
            0 <= i < score_terms(action, grid, pos, bombs, last_dir).len() ==> -100
                <= #[trigger] score_terms(action, grid, pos, bombs, last_dir)[i] <= 100,
{
    reveal_with_fuel(total, 6);
    let t = score_terms(action, grid, pos, bombs, last_dir);
    if t.len() == 2 {
        assert(t.drop_last() =~= seq![t[0]]);
    }
    let a = t.drop_last();
    let b = a.drop_last();
    let c = b.drop_last();
    let d = c.drop_last();
    if t.len() >= 2 {
        assert(a.last() == t[t.len() - 2]);
    }
    if t.len() >= 3 {
        assert(b.last() == t[t.len() - 3]);
    }
    if t.len() >= 4 {
        assert(c.last() == t[t.len() - 4]);
    }
    if t.len() >= 5 {
        assert(d.last() == t[t.len() - 5]);
    }
}


proof fn lemma_admitted(
    grid: &ArenaGrid,
    pos: GridPos,
    prev: Option<BomberAction>,
    bombs: Seq<((i32, i32), u32)>,
    level: nat,
    n: nat,
)
    requires
        n <= 4,
    ensures
        admitted(grid, pos, prev, bombs, level, n).len() <= n,
        forall|i: int|
            0 <= i < admitted(grid, pos, prev, bombs, level, n).len() ==> {
                let a = #[trigger] admitted(grid, pos, prev, bombs, level, n)[i];
                a.is_step() && admits(grid, pos, prev, bombs, level, a)
            },
    decreases n,
{
    if n > 0 {
        lemma_admitted(grid, pos, prev, bombs, level, (n - 1) as nat);
    }
}

/// The admitted steps, in the order up, down, left, right.
fn step_options(
    grid: &ArenaGrid,
    pos: GridPos,
    prev: Option<BomberAction>,
    bombs: &[((i32, i32), u32)],
    level: u8,
) -> (options: Vec<BomberAction>)
    requires
        grid.wf(),
        pos.movable(),
    ensures
        options@ == admitted(grid, pos, prev, bombs@, level as nat, 4),
{
    let mut options: Vec<BomberAction> = Vec::new();
    let mut n: usize = 0;
    while n < 4
        invariant
            n <= 4,
            grid.wf(),
            pos.movable(),
            options@ == admitted(grid, pos, prev, bombs@, level as nat, n as nat),
        decreases 4 - n,
    {
        let dir = index_to_action(n);
        let to = move_target(&dir, pos);
        if grid.is_walkable(to.x, to.y) && (level < 1 || !in_blast_zone(to, bombs)) && (level < 2
            || !is_reverse(dir, prev)) {
            options.push(dir);
        }
        n = n + 1;
    }
    options
}

/// Pick a new exploration direction. Avoids blast zones and reversing when possible.
pub fn pick_explore_dir(
    grid: &ArenaGrid,
    pos: GridPos,
    prev_dir: Option<BomberAction>,
    bombs: &[((i32, i32), u32)],
    rng: &mut GameRng,
) -> (dir: BomberAction)
    requires
        grid.wf(),
        pos.movable(),
    ensures
        (dir, final(rng).seed) == explore_pick(grid, pos, prev_dir, bombs@, old(rng).seed),
        dir is Wait || (dir.is_step() && pathing::open_cell(grid, routes::target(dir, pos))),
{
    let mut choices = step_options(grid, pos, prev_dir, bombs, 2);
    if choices.len() == 0 {
        choices = step_options(grid, pos, prev_dir, bombs, 1);
    }
    if choices.len() == 0 {
        choices = step_options(grid, pos, prev_dir, bombs, 0);
    }
    proof {
        lemma_admitted(grid, pos, prev_dir, bombs@, 2, 4);
        lemma_admitted(grid, pos, prev_dir, bombs@, 1, 4);
        lemma_admitted(grid, pos, prev_dir, bombs@, 0, 4);
        assert(choices@ == explore_choices(grid, pos, prev_dir, bombs@));
    }
    if choices.len() == 0 {
        return BomberAction::Wait;
    }
    let k: usize = rng.below(choices.len());
    choices[k]
}

fn find_new_aim(
    grid: &ArenaGrid,
    pos: GridPos,
    bombs: &[((i32, i32), u32)],
    rng: &mut GameRng,
) -> (state: AiState)
    requires
        grid.wf(),
        pos.movable(),
    ensures
        (state, final(rng).seed) == new_aim(grid, pos, bombs@, old(rng).seed),
{
    match find_nearest_wall(grid, pos) {
        Some(wall) => AiState::Hunt { target: wall },
        None => AiState::Explore { dir: pick_explore_dir(grid, pos, None, bombs, rng) },
    }
}

/// Transition the state if needed.
fn settle(
    grid: &ArenaGrid,
    pos: GridPos,
    state: AiState,
    bombs: &[((i32, i32), u32)],
    rng: &mut GameRng,
) -> (next: AiState)
    requires
        grid.wf(),
        pos.movable(),
    ensures
        (next, final(rng).seed) == settled(grid, pos, state, bombs@, old(rng).seed),
{
    if in_blast_zone(pos, bombs) {
        return AiState::Flee;
    }
    match state {
        AiState::Flee => find_new_aim(grid, pos, bombs, rng),
        AiState::Hunt { target } => {
            let standing: bool = match grid.get(target.x, target.y) {
                Cell::DestructibleWall => true,
                Cell::PowerUpHidden(_) => true,
                _ => false,
            };
            if standing {
                state
            } else {
                find_new_aim(grid, pos, bombs, rng)
            }
        },
        AiState::Explore { dir: _ } => state,
    }
}

fn flee_step(grid: &ArenaGrid, pos: GridPos, bombs: &[((i32, i32), u32)]) -> (a: BomberAction)
    requires
        grid.wf(),
        pos.movable(),
    ensures
        a == flight(grid, pos, bombs@),
        a is Wait || (a.is_step() && pathing::open_cell(grid, routes::target(a, pos))),
{
    match find_safe_cell(grid, pos, bombs) {
        Some(cell) => match next_step_toward(grid, pos, cell) {
            Some(step) => step,
            None => BomberAction::Wait,
        },
        None => BomberAction::Wait,
    }
}

/// The state machine's action for this tick, and the state it leaves.
fn propose(
    grid: &ArenaGrid,
    pos: GridPos,
    state: AiState,
    bombs: &[((i32, i32), u32)],
    rng: &mut GameRng,
) -> (r: (BomberAction, AiState))
    requires
        grid.wf(),
        pos.movable(),
    ensures
        (r.0, r.1, final(rng).seed) == proposal(grid, pos, state, bombs@, old(rng).seed),
        r.0.is_step() ==> pathing::open_cell(grid, routes::target(r.0, pos)),
        r.0 is Bomb ==> routes::worth_bombing(grid, pos, bombs@),
{
    match state {
        AiState::Flee => (flee_step(grid, pos, bombs), state),
        AiState::Hunt { target } => {
            if manhattan(pos, target) == 1 && should_place_bomb(grid, pos, bombs) {
                return (BomberAction::Bomb, state);
            }
            if let Some(step) = step_toward_wall(grid, pos, target) {
                if !in_blast_zone(move_target(&step, pos), bombs) {
                    return (step, state);
                }
            }
            let dir = pick_explore_dir(grid, pos, None, bombs, rng);
            (dir, AiState::Explore { dir })
        },
        AiState::Explore { dir } => {
            if should_place_bomb(grid, pos, bombs) {
                return (BomberAction::Bomb, state);
            }
            if is_step_action(dir) {
                let to = move_target(&dir, pos);
                if grid.is_walkable(to.x, to.y) && !in_blast_zone(to, bombs) {
                    return (dir, state);
                }
            }
            match find_nearest_wall(grid, pos) {
                Some(wall) => {
                    let step = match step_toward_wall(grid, pos, wall) {
                        Some(step) => step,
                        None => BomberAction::Wait,
                    };
                    (step, AiState::Hunt { target: wall })
                },
                None => {
                    let new_dir = pick_explore_dir(grid, pos, Some(dir), bombs, rng);
                    (new_dir, AiState::Explore { dir: new_dir })
                },
            }
        },
    }
}

/// True for the four moves.
pub fn is_step_action(action: BomberAction) -> (b: bool)
    ensures
        b == action.is_step(),
{
    match action {
        BomberAction::Bomb => false,
        BomberAction::Wait => false,
        _ => true,
    }
}

/// What the random player does with `tries` rolls left, and the seed after it.
pub open spec fn random_turn(grid: &ArenaGrid, pos: GridPos, seed: u64, tries: nat) -> (
    BomberAction,
    u64,
)
    decreases tries,
{
    if tries == 0 {
        (BomberAction::Wait, seed)
    } else {
        let (k, next) = random::fastrand_u64(seed, (ACTION_COUNT - 1) as u64);
        let action = routes::action_at(k as int);
        if !action.is_step() || pathing::open_cell(grid, routes::target(action, pos)) {
            (action, next)
        } else {
            random_turn(grid, pos, next, (tries - 1) as nat)
        }
    }
}

/// Modelless baseline — uniform random action selection.
///
/// No learning. No memory. No model. Pure baseline.
/// Avoids walking into walls (up to 3 re-rolls, then Wait).
#[derive(Clone, Debug)]
pub struct RandomPlayer {
    pub id: u8,
}

impl RandomPlayer {
    pub fn new(id: u8) -> (p: RandomPlayer)
        ensures
            p.id == id,
    {
        RandomPlayer { id }
    }
}

impl BomberPlayer for RandomPlayer {
    fn select_action(
        &mut self,
        grid: &ArenaGrid,
        pos: GridPos,
        events: &[GameEvent],
        rng: &mut GameRng,
    ) -> (action: BomberAction)
        ensures
            *final(self) == *old(self),
            (action, final(rng).seed) == random_turn(
                grid,
                pos,
                old(rng).seed,
                RANDOM_ATTEMPTS as nat,
            ),
            action.is_step() ==> pathing::open_cell(grid, routes::target(action, pos)),
    {
        let mut tries: u32 = RANDOM_ATTEMPTS;
        while tries > 0
            invariant
                grid.wf(),
                pos.movable(),
                *self == *old(self),
                random_turn(grid, pos, old(rng).seed, RANDOM_ATTEMPTS as nat) == random_turn(
                    grid,
                    pos,
                    rng.seed,
                    tries as nat,
                ),
            decreases tries,
        {
            let action = index_to_action(rng.below(ACTION_COUNT));
            if !is_step_action(action) {
                return action;
            }
            let to = move_target(&action, pos);
            if grid.is_walkable(to.x, to.y) {
                return action;
            }
            tries = tries - 1;
        }
        BomberAction::Wait
    }

    fn name(&self) -> (s: &'static str)
        ensures
            s@ == "Random"@,
    {
        "Random"
    }

    fn emoji(&self) -> (s: &'static str)
        ensures
            s@ == "🐰"@,
    {
        "🐰"
    }

    fn reset(&mut self)
        ensures
            *final(self) == *old(self),
    {
    }
}

/// What a player remembers: its state, the known bombs, and the generator's seed.
pub struct Recall {
    pub state: AiState,
    pub bombs: Seq<((i32, i32), u32)>,
    pub seed: u64,
}

/// Dropping a bomb makes it known and makes the player flee from it.
pub open spec fn committed(action: BomberAction, pos: GridPos, m: Recall) -> Recall {
    if action is Bomb {
        Recall {
            state: AiState::Flee,
            bombs: m.bombs.push(((pos.x, pos.y), DEFAULT_BLAST_RANGE)),
            seed: m.seed,
        }
    } else {
        m
    }
}

/// The greedy player's turn: the action and what is remembered after it.
pub open spec fn greedy_turn(
    grid: &ArenaGrid,
    pos: GridPos,
    events: Seq<GameEvent>,
    m: Recall,
) -> (BomberAction, Recall) {
    let bombs = danger::bombs_after(m.bombs, events);
    let (state, s1) = settled(grid, pos, m.state, bombs, m.seed);
    if danger::in_blast(pos, bombs) {
        greedy_plan(grid, pos, Recall { state, bombs, seed: s1 })
    } else {
        let (roll, s2) = random::unit_roll_spec(s1, REDRAWS as nat);
        if roll < GREEDY_EXPLORE && !(state is Hunt) {
            let (k, s3) = random::fastrand_u64(s2, (ACTION_COUNT - 1) as u64);
            let action = routes::action_at(k as int);
            if !action.is_step() {
                (action, Recall { state, bombs, seed: s3 })
            } else if pathing::open_cell(grid, routes::target(action, pos)) {
                (action, Recall { state: AiState::Explore { dir: action }, bombs, seed: s3 })
            } else {
                greedy_plan(grid, pos, Recall { state, bombs, seed: s3 })
            }
        } else {
            greedy_plan(grid, pos, Recall { state, bombs, seed: s2 })
        }
    }
}

/// The state machine's part of a greedy turn.
pub open spec fn greedy_plan(grid: &ArenaGrid, pos: GridPos, m: Recall) -> (BomberAction, Recall) {
    let (action, state, seed) = proposal(grid, pos, m.state, m.bombs, m.seed);
    (action, committed(action, pos, Recall { state, bombs: m.bombs, seed }))
}

/// Model-based player — state machine for purposeful movement.
///
/// Uses a state machine for committed, non-oscillating movement:
/// - Explore: walk in a direction until blocked, bomb near destructible walls
/// - Hunt: walk to the nearest destructible wall and bomb it
/// - Flee: BFS pathfind to nearest safe cell when in blast zone
///
/// 20% random exploration to avoid predictability.
#[derive(Debug)]
pub struct GreedyPlayer {
    pub id: u8,
    pub state: AiState,
    pub known_bombs: Vec<((i32, i32), u32)>,
}

impl GreedyPlayer {
    pub fn new(id: u8) -> (p: GreedyPlayer)
        ensures
            p.id == id,
            p.state == (AiState::Explore { dir: BomberAction::Wait }),
            p.known_bombs@.len() == 0,
    {
        GreedyPlayer { id, state: AiState::default(), known_bombs: Vec::new() }
    }

    /// What the player remembers, next to a generator's seed.
    pub open spec fn memory(&self, seed: u64) -> Recall {
        Recall { state: self.state, bombs: self.known_bombs@, seed }
    }

    fn commit(&mut self, action: BomberAction, state: AiState, pos: GridPos)
        ensures
            final(self).id == old(self).id,
            forall|seed: u64|
                #![auto]
                final(self).memory(seed) == committed(
                    action,
                    pos,
                    Recall { state, bombs: old(self).known_bombs@, seed },
                ),
    {
        self.state = state;
        if action == BomberAction::Bomb {
            self.known_bombs.push(((pos.x, pos.y), DEFAULT_BLAST_RANGE));
            self.state = AiState::Flee;
        }
    }
}

impl BomberPlayer for GreedyPlayer {
    fn select_action(
        &mut self,
        grid: &ArenaGrid,
        pos: GridPos,
        events: &[GameEvent],
        rng: &mut GameRng,
    ) -> (action: BomberAction)
        ensures
            final(self).id == old(self).id,
            (action, final(self).memory(final(rng).seed)) == greedy_turn(
                grid,
                pos,
                events@,
                old(self).memory(old(rng).seed),
            ),
            action.is_step() ==> pathing::open_cell(grid, routes::target(action, pos)),
    {
        update_bombs(&mut self.known_bombs, events);
        let in_danger: bool = in_blast_zone(pos, self.known_bombs.as_slice());
        self.state = settle(grid, pos, self.state, self.known_bombs.as_slice(), rng);
        if !in_danger {
            let lucky: bool = rng.chance(GREEDY_EXPLORE);
            let hunting: bool = match self.state {
                AiState::Hunt { target: _ } => true,
                _ => false,
            };
            if lucky && !hunting {
                let action = index_to_action(rng.below(ACTION_COUNT));
                if !is_step_action(action) {
                    return action;
                }
                let to = move_target(&action, pos);
                if grid.is_walkable(to.x, to.y) {
                    self.state = AiState::Explore { dir: action };
                    return action;
                }
            }
        }
        let (action, state) = propose(grid, pos, self.state, self.known_bombs.as_slice(), rng);
        self.commit(action, state, pos);
        action
    }

    fn name(&self) -> (s: &'static str)
        ensures
            s@ == "Greedy"@,
    {
        "Greedy"
    }

    fn emoji(&self) -> (s: &'static str)
        ensures
            s@ == "🐱"@,
    {
        "🐱"
    }

    fn reset(&mut self)
        ensures
            final(self).id == old(self).id,
            final(self).state == (AiState::Explore { dir: BomberAction::Wait }),
            final(self).known_bombs@.len() == 0,
    {
        self.state = AiState::default();
        self.known_bombs.clear();
    }
}

/// The best of the first `n` actions that are safe: the highest score, the earlier of equals.
pub open spec fn best_safe(
    grid: &ArenaGrid,
    pos: GridPos,
    bombs: Seq<((i32, i32), u32)>,
    n: nat,
) -> Option<BomberAction>
    decreases n,
{
    if n == 0 {
        None
    } else {
        let best = best_safe(grid, pos, bombs, (n - 1) as nat);
        let action = routes::action_at(n - 1);
        if !is_safe(action, grid, pos, bombs) {
            best
        } else if best is Some && total(score_terms(action, grid, pos, bombs, None)) <= total(
            score_terms(best->0, grid, pos, bombs, None),
        ) {
            best
        } else {
            Some(action)
        }
    }
}

/// The validator's turn: the state machine's action if it is safe, else the best safe one.
pub open spec fn validator_turn(
    grid: &ArenaGrid,
    pos: GridPos,
    events: Seq<GameEvent>,
    m: Recall,
) -> (BomberAction, Recall) {
    let bombs = danger::bombs_after(m.bombs, events);
    let (s0, seed0) = settled(grid, pos, m.state, bombs, m.seed);
    let (action, state, seed) = proposal(grid, pos, s0, bombs, seed0);
    let after = Recall { state, bombs, seed };
    if is_safe(action, grid, pos, bombs) {
        if action.is_step() && !(state is Hunt) {
            (action, Recall { state: AiState::Explore { dir: action }, bombs, seed })
        } else {
            (action, committed(action, pos, after))
        }
    } else {
        match best_safe(grid, pos, bombs, ACTION_COUNT as nat) {
            Some(chosen) => if chosen.is_step() {
                (chosen, Recall { state: AiState::Explore { dir: chosen }, bombs, seed })
            } else {
                (chosen, after)
            },
            None => (BomberAction::Wait, after),
        }
    }
}

proof fn lemma_best_safe(
    grid: &ArenaGrid,
    pos: GridPos,
    bombs: Seq<((i32, i32), u32)>,
    n: nat,
)
    ensures
        ({
            let best = best_safe(grid, pos, bombs, n);
            &&& best is Some ==> is_safe(best->0, grid, pos, bombs)
            &&& best is None ==> forall|i: int|
                0 <= i < n ==> !is_safe(#[trigger] routes::action_at(i), grid, pos, bombs)
        }),
    decreases n,
{
    if n > 0 {
        lemma_best_safe(grid, pos, bombs, (n - 1) as nat);
    }
}

/// Model + Validator — state machine with safety validation.
///
/// Same state machine as the greedy player but adds a safety validation layer:
/// - State machine picks action, then validates against hard safety rules
/// - Falls back to heuristic scoring if state machine action is unsafe
/// - Never walk into active blast zones, walls, or place bomb without escape route
#[derive(Debug)]
pub struct ValidatorPlayer {
    pub id: u8,
    pub known_bombs: Vec<((i32, i32), u32)>,
    pub state: AiState,
}

impl ValidatorPlayer {
    pub fn new(id: u8) -> (p: ValidatorPlayer)
        ensures
            p.id == id,
            p.state == (AiState::Explore { dir: BomberAction::Wait }),
            p.known_bombs@.len() == 0,
    {
        ValidatorPlayer { id, known_bombs: Vec::new(), state: AiState::default() }
    }

    /// What the player remembers, next to a generator's seed.
    pub open spec fn memory(&self, seed: u64) -> Recall {
        Recall { state: self.state, bombs: self.known_bombs@, seed }
    }

    fn best_safe_action(&self, grid: &ArenaGrid, pos: GridPos) -> (r: Option<BomberAction>)
        requires
            grid.wf(),
            pos.movable(),
        ensures
            r == best_safe(grid, pos, self.known_bombs@, ACTION_COUNT as nat),
    {
        let mut best: Option<BomberAction> = None;
        let mut best_score: i32 = 0;
        let mut n: usize = 0;
        while n < ACTION_COUNT
            invariant
                n <= ACTION_COUNT,
                grid.wf(),
                pos.movable(),
                best == best_safe(grid, pos, self.known_bombs@, n as nat),
                best is Some ==> best_score == total(
                    score_terms(best->0, grid, pos, self.known_bombs@, None),
                ),
            decreases ACTION_COUNT - n,
        {
            let action = index_to_action(n);
            if is_safe_action(&action, grid, pos, self.known_bombs.as_slice()) {
                let score: i32 = heuristic_score(
                    &action,
                    grid,
                    pos,
                    self.known_bombs.as_slice(),
                    None,
                );
                if best.is_none() || score > best_score {
                    best = Some(action);
                    best_score = score;
                }
            }
            n = n + 1;
        }
        best
    }
}

impl BomberPlayer for ValidatorPlayer {
    fn select_action(
        &mut self,
        grid: &ArenaGrid,
        pos: GridPos,
        events: &[GameEvent],
        rng: &mut GameRng,
    ) -> (action: BomberAction)
        ensures
            final(self).id == old(self).id,
            (action, final(self).memory(final(rng).seed)) == validator_turn(
                grid,
                pos,
                events@,
                old(self).memory(old(rng).seed),
            ),
            ({
                let bombs = danger::bombs_after(old(self).known_bombs@, events@);
                is_safe(action, grid, pos, bombs) || (action is Wait && forall|a: BomberAction|
                    !is_safe(a, grid, pos, bombs))
            }),
    {
        update_bombs(&mut self.known_bombs, events);
        let ghost bombs = self.known_bombs@;
        let settled_state = settle(grid, pos, self.state, self.known_bombs.as_slice(), rng);
        let (action, state) = propose(grid, pos, settled_state, self.known_bombs.as_slice(), rng);
        self.state = state;
        if is_safe_action(&action, grid, pos, self.known_bombs.as_slice()) {
            match action {
                BomberAction::Bomb => {
                    self.known_bombs.push(((pos.x, pos.y), DEFAULT_BLAST_RANGE));
                    self.state = AiState::Flee;
                },
                BomberAction::Wait => {},
                _ => {
                    let hunting: bool = match self.state {
                        AiState::Hunt { target: _ } => true,
                        _ => false,
                    };
                    if !hunting {
                        self.state = AiState::Explore { dir: action };
                    }
                },
            }
            return action;
        }
        proof {
            lemma_best_safe(grid, pos, bombs, ACTION_COUNT as nat);
        }
        match self.best_safe_action(grid, pos) {
            Some(chosen) => {
                if is_step_action(chosen) {
                    self.state = AiState::Explore { dir: chosen };
                }
                chosen
            },
            None => {
                proof {
                    assert forall|a: BomberAction| !is_safe(a, grid, pos, bombs) by {
                        routes::law_action_index_round_trip(a, 0);
                        let i = a.index();
                        assert(!is_safe(routes::action_at(i), grid, pos, bombs));
                    }
                }
                BomberAction::Wait
            },
        }
    }

    fn name(&self) -> (s: &'static str)
        ensures
            s@ == "Validator"@,
    {
        "Validator"
    }

    fn emoji(&self) -> (s: &'static str)
        ensures
            s@ == "🐶"@,
    {
        "🐶"
    }

    fn reset(&mut self)
        ensures
            final(self).id == old(self).id,
            final(self).state == (AiState::Explore { dir: BomberAction::Wait }),
            final(self).known_bombs@.len() == 0,
    {
        self.known_bombs.clear();
        self.state = AiState::default();
    }
}

/// A move reverses another exactly when it leads back to where the other came from.
pub proof fn law_reversal_leads_back(action: BomberAction, prev: BomberAction, pos: GridPos)
    requires
        pos.movable(),
        routes::target(prev, pos).movable(),
        action.is_step(),
        prev.is_step(),
    ensures
        reverses(action, Some(prev)) == (routes::target(action, routes::target(prev, pos)) == pos),
        !reverses(action, None),
        !reverses(action, Some(BomberAction::Wait)),
        !reverses(action, Some(BomberAction::Bomb)),
{
}

/// No safe action walks into a wall or a blast, waits in a blast or drops a bomb without a way
/// out. A further bomb never makes an action safe.
pub proof fn law_safe_actions(
    action: BomberAction,
    grid: &ArenaGrid,
    pos: GridPos,
    bombs: Seq<((i32, i32), u32)>,
    more: ((i32, i32), u32),
)
    ensures
        action.is_step() && is_safe(action, grid, pos, bombs) ==> grid.walkable(
            routes::target(action, pos).x as int,
            routes::target(action, pos).y as int,
        ) && !danger::in_blast(routes::target(action, pos), bombs),
        is_safe(BomberAction::Wait, grid, pos, bombs) == !danger::in_blast(pos, bombs),
        action.is_step() && pathing::open_cell(grid, routes::target(action, pos))
            && !danger::in_blast(routes::target(action, pos), bombs) ==> is_safe(
            action,
            grid,
            pos,
            bombs,
        ),
        is_safe(BomberAction::Bomb, grid, pos, bombs) == routes::can_step_aside(grid, pos),
        is_safe(action, grid, pos, bombs.push(more)) ==> is_safe(action, grid, pos, bombs),
{
    danger::law_bombs_add_to_the_blast_zone(bombs, more, pos);
    danger::law_bombs_add_to_the_blast_zone(bombs, more, routes::target(action, pos));
}

proof fn lemma_total_parts(a: Seq<i32>, b: Seq<i32>)
    ensures
        total(a + b) == total(a) + total(b),
    decreases b.len(),
{
    if b.len() == 0 {
        assert(a + b =~= a);
    } else {
        lemma_total_parts(a, b.drop_last());
        assert((a + b).drop_last() =~= a + b.drop_last());
    }
}

proof fn lemma_total_one(a: i32)
    ensures
        total(seq![a]) == a,
{
    reveal_with_fuel(total, 2);
    assert(seq![a].drop_last() =~= Seq::<i32>::empty());
}

/// What a move scores: a wall the least, then a blast; any other step a little, less for turning
/// back, and more for leaving a blast, for a power-up and for coming nearer to the center.
pub proof fn law_move_scores(
    action: BomberAction,
    grid: &ArenaGrid,
    pos: GridPos,
    bombs: Seq<((i32, i32), u32)>,
    last_dir: Option<BomberAction>,
)
    requires
        action.is_step(),
    ensures
        ({
            let to = routes::target(action, pos);
            let score = total(score_terms(action, grid, pos, bombs, last_dir));
            let center = GridPos { x: 6, y: 6 };
            &&& !grid.walkable(to.x as int, to.y as int) ==> score == -100
            &&& grid.walkable(to.x as int, to.y as int) && danger::in_blast(to, bombs) ==> score
                == -80
            &&& grid.walkable(to.x as int, to.y as int) && !danger::in_blast(to, bombs) ==> score
                == 10 + (if reverses(action, last_dir) {
                -30int
            } else {
                0
            }) + (if danger::in_blast(pos, bombs) {
                80int
            } else {
                0
            }) + (if grid.at(to.x as int, to.y as int) is PowerUpHidden {
                60int
            } else {
                0
            }) + (if danger::distance(to, center) < danger::distance(pos, center) {
                20int
            } else {
                0
            })
        }),
{
    let to = routes::target(action, pos);
    let center = GridPos { x: 6, y: 6 };
    lemma_total_one(-100i32);
    lemma_total_one(-80i32);
    lemma_total_one(10);
    lemma_total_one(-30i32);
    lemma_total_one(80);
    lemma_total_one(60);
    lemma_total_one(20);
    let a = seq![10i32];
    let b = if reverses(action, last_dir) {
        seq![-30i32]
    } else {
        seq![]
    };
    let c = if danger::in_blast(pos, bombs) {
        seq![80i32]
    } else {
        seq![]
    };
    let d = if grid.at(to.x as int, to.y as int) is PowerUpHidden {
        seq![60i32]
    } else {
        seq![]
    };
    let e = if danger::distance(to, center) < danger::distance(pos, center) {
        seq![20i32]
    } else {
        seq![]
    };
    lemma_total_parts(a, b);
    lemma_total_parts(a + b, c);
    lemma_total_parts(a + b + c, d);
    lemma_total_parts(a + b + c + d, e);
}

/// Waiting scores less in a blast than out of it, a bomb less than waiting, and walking into a
/// wall the least. A step onto safe ground beats them all unless it turns back for nothing.
pub proof fn law_score_ranks(
    step: BomberAction,
    grid: &ArenaGrid,
    pos: GridPos,
    bombs: Seq<((i32, i32), u32)>,
    last_dir: Option<BomberAction>,
)
    requires
        step.is_step(),
    ensures
        ({
            let wait = total(score_terms(BomberAction::Wait, grid, pos, bombs, last_dir));
            let bomb = total(score_terms(BomberAction::Bomb, grid, pos, bombs, last_dir));
            let walk = total(score_terms(step, grid, pos, bombs, last_dir));
            &&& wait == (if danger::in_blast(pos, bombs) {
                -50int
            } else {
                -10
            })
            &&& bomb == -90
            &&& is_safe(step, grid, pos, bombs) && !reverses(step, last_dir) ==> walk > wait && walk
                > bomb
            &&& !is_safe(step, grid, pos, bombs) ==> walk < wait
            &&& danger::in_blast(pos, bombs) && is_safe(step, grid, pos, bombs) ==> walk > wait
        }),
{
    lemma_total_one(-90i32);
    lemma_total_one(-50i32);
    lemma_total_one(-10i32);
    law_move_scores(step, grid, pos, bombs, last_dir);
}

proof fn lemma_admitted_members(
    grid: &ArenaGrid,
    pos: GridPos,
    prev: Option<BomberAction>,
    bombs: Seq<((i32, i32), u32)>,
    level: nat,
    n: nat,
)
    requires
        n <= 4,
    ensures
        forall|i: int|
            0 <= i < admitted(grid, pos, prev, bombs, level, n).len() ==> admits(
                grid,
                pos,
                prev,
                bombs,
                level,
                #[trigger] admitted(grid, pos, prev, bombs, level, n)[i],
            ) && admitted(grid, pos, prev, bombs, level, n)[i].is_step(),
        forall|d: int|
            0 <= d < n && admits(grid, pos, prev, bombs, level, #[trigger] routes::action_at(d))
                ==> admitted(grid, pos, prev, bombs, level, n).contains(routes::action_at(d)),
    decreases n,
{
    if n > 0 {
        lemma_admitted_members(grid, pos, prev, bombs, level, (n - 1) as nat);
        let rest = admitted(grid, pos, prev, bombs, level, (n - 1) as nat);
        let all = admitted(grid, pos, prev, bombs, level, n);
        assert forall|i: int| 0 <= i < all.len() implies admits(
            grid,
            pos,
            prev,
            bombs,
            level,
            #[trigger] all[i],
        ) && all[i].is_step() by {
            if i < rest.len() {
                assert(all[i] == rest[i]);
            }
        }
        assert forall|d: int|
            0 <= d < n && admits(
                grid,
                pos,
                prev,
                bombs,
                level,
                #[trigger] routes::action_at(d),
            ) implies all.contains(routes::action_at(d)) by {
            if d < n - 1 {
                let i = choose|i: int| 0 <= i < rest.len() && rest[i] == routes::action_at(d);
                assert(all[i] == routes::action_at(d));
            } else {
                assert(all[rest.len() as int] == routes::action_at(d));
            }
        }
    }
}

/// Exploring chooses among steps onto walkable cells. Where one of them stays out of every blast,
/// all that are chosen from do; where one of those does not turn back either, none that is chosen
/// from does. There is no choice only where every way is blocked.
pub proof fn law_exploration_prefers_safe_steps(
    grid: &ArenaGrid,
    pos: GridPos,
    prev: Option<BomberAction>,
    bombs: Seq<((i32, i32), u32)>,
    step: BomberAction,
    i: int,
)
    requires
        step.is_step(),
        pathing::open_cell(grid, routes::target(step, pos)),
    ensures
        ({
            let choices = explore_choices(grid, pos, prev, bombs);
            let onto = routes::target(step, pos);
            &&& choices.len() > 0
            &&& 0 <= i < choices.len() ==> choices[i].is_step() && pathing::open_cell(
                grid,
                routes::target(choices[i], pos),
            )
            &&& !danger::in_blast(onto, bombs) && 0 <= i < choices.len() ==> !danger::in_blast(
                routes::target(choices[i], pos),
                bombs,
            )
            &&& !danger::in_blast(onto, bombs) && !reverses(step, prev) && 0 <= i < choices.len()
                ==> !reverses(choices[i], prev) && choices.contains(step)
        }),
{
    lemma_admitted_members(grid, pos, prev, bombs, 0, 4);
    lemma_admitted_members(grid, pos, prev, bombs, 1, 4);
    lemma_admitted_members(grid, pos, prev, bombs, 2, 4);
    routes::law_action_index_round_trip(step, 0);
    let d = step.index();
    assert(routes::action_at(d) == step);
    assert(admitted(grid, pos, prev, bombs, 0, 4).contains(step));
    if !danger::in_blast(routes::target(step, pos), bombs) {
        assert(admitted(grid, pos, prev, bombs, 1, 4).contains(step));
        if !reverses(step, prev) {
            assert(admitted(grid, pos, prev, bombs, 2, 4).contains(step));
        }
    }
}

/// A player in a blast flees. One that fled, or whose wall is gone, takes a new aim: a wall that
/// can be bombed, or a direction where there is none. Any other aim is kept.
pub proof fn law_players_flee_from_blasts(
    grid: &ArenaGrid,
    pos: GridPos,
    state: AiState,
    bombs: Seq<((i32, i32), u32)>,
    seed: u64,
)
    ensures
        danger::in_blast(pos, bombs) == (settled(grid, pos, state, bombs, seed).0 is Flee),
        danger::in_blast(pos, bombs) ==> settled(grid, pos, state, bombs, seed).1 == seed,
        !danger::in_blast(pos, bombs) ==> (state matches AiState::Hunt { target }
            && routes::breakable(grid, target) ==> settled(grid, pos, state, bombs, seed) == (
            state,
            seed,
        )),
        !danger::in_blast(pos, bombs) && state is Explore ==> settled(grid, pos, state, bombs, seed)
            == (state, seed),
        !danger::in_blast(pos, bombs) && (state is Flee || (state is Hunt && !routes::breakable(
            grid,
            state->target,
        ))) ==> match routes::nearest_wall(grid, pos) {
            Some(wall) => settled(grid, pos, state, bombs, seed) == (
                (AiState::Hunt { target: wall }),
                seed,
            ),
            None => settled(grid, pos, state, bombs, seed).0 is Explore,
        },
{
}

/// A fleeing player takes the first step of a shortest way to a nearest cell outside every blast.
/// Where no such cell is in reach it waits.
pub proof fn law_flight_leads_out_of_the_blast(
    grid: &ArenaGrid,
    pos: GridPos,
    bombs: Seq<((i32, i32), u32)>,
    q: Seq<pathing::Visit>,
    c: GridPos,
    k: nat,
)
    requires
        grid.wf(),
        pos.movable(),
        pathing::search_order(grid, pos, q),
        danger::in_blast(pos, bombs),
    ensures
        pathing::reach(grid, pos, c, k) && !danger::in_blast(c, bombs) ==> flight(
            grid,
            pos,
            bombs,
        ).is_step() && grid.walkable(
            routes::target(flight(grid, pos, bombs), pos).x as int,
            routes::target(flight(grid, pos, bombs), pos).y as int,
        ) && k > 0 && exists|s: GridPos|
            !danger::in_blast(s, bombs) && #[trigger] pathing::reach(
                grid,
                routes::target(flight(grid, pos, bombs), pos),
                s,
                (k - 1) as nat,
            ),
        !(flight(grid, pos, bombs) is Bomb),
{
    if pathing::reach(grid, pos, c, k) && !danger::in_blast(c, bombs) {
        routes::law_safe_cell_is_nearest(grid, pos, bombs, q, c, k);
        let s = routes::safe_cell(grid, pos, bombs)->0;
        routes::law_step_toward_is_shorter(grid, pos, s, q, k);
        assert(pathing::reach(
            grid,
            routes::target(flight(grid, pos, bombs), pos),
            s,
            (k - 1) as nat,
        ));
    }
}

/// What the state machine proposes: a bomb only where one is worth dropping, beside the wall that
/// is hunted; and a step into a blast only in flight or where every other way is blocked.
pub proof fn law_proposals(
    grid: &ArenaGrid,
    pos: GridPos,
    state: AiState,
    bombs: Seq<((i32, i32), u32)>,
    seed: u64,
)
    ensures
        ({
            let (action, after, next) = proposal(grid, pos, state, bombs, seed);
            &&& state is Explore && routes::worth_bombing(grid, pos, bombs) ==> action is Bomb
            &&& state matches AiState::Hunt { target } ==> (danger::distance(pos, target) == 1
                && routes::worth_bombing(grid, pos, bombs) ==> action is Bomb)
            &&& state matches AiState::Explore { dir } ==> (!routes::worth_bombing(grid, pos, bombs)
                && dir.is_step() && pathing::open_cell(grid, routes::target(dir, pos))
                && !danger::in_blast(routes::target(dir, pos), bombs) ==> action == dir && after
                == state)
            &&& state is Flee ==> action == flight(grid, pos, bombs) && after is Flee
            &&& state matches AiState::Hunt { target } ==> (routes::step_beside(
                grid,
                pos,
                target,
            ) matches Some(step) && !danger::in_blast(routes::target(step, pos), bombs) && !(
            danger::distance(pos, target) == 1 && routes::worth_bombing(grid, pos, bombs)) ==> action
                == routes::step_beside(grid, pos, target)->0 && after == state)
        }),
{
}

/// A random step is never into a wall.
pub proof fn law_random_steps_are_open(grid: &ArenaGrid, pos: GridPos, seed: u64, tries: nat)
    ensures
        random_turn(grid, pos, seed, tries).0.is_step() ==> grid.walkable(
            routes::target(random_turn(grid, pos, seed, tries).0, pos).x as int,
            routes::target(random_turn(grid, pos, seed, tries).0, pos).y as int,
        ),
        random_turn(grid, pos, seed, 0).0 is Wait,
    decreases tries,
{
    if tries > 0 {
        let (k, next) = random::fastrand_u64(seed, (ACTION_COUNT - 1) as u64);
        law_random_steps_are_open(grid, pos, next, (tries - 1) as nat);
    }
}

/// Whoever drops a bomb knows of it, with the range that bombs have, and flees.
pub proof fn law_own_bombs_are_known(pos: GridPos, m: Recall)
    ensures
        danger::bomb_known(committed(BomberAction::Bomb, pos, m).bombs, (pos.x, pos.y)),
        danger::in_blast(pos, committed(BomberAction::Bomb, pos, m).bombs),
        committed(BomberAction::Bomb, pos, m).state is Flee,
        committed(BomberAction::Bomb, pos, m).bombs.drop_last() == m.bombs,
        forall|a: BomberAction| #![trigger a.is_step()] !(a is Bomb) ==> committed(a, pos, m) == m,
{
    let after = committed(BomberAction::Bomb, pos, m).bombs;
    assert(after[m.bombs.len() as int] == ((pos.x, pos.y), 2u32));
    assert(after.drop_last() =~= m.bombs);
    danger::law_bombs_add_to_the_blast_zone(m.bombs, ((pos.x, pos.y), 2u32), pos);
}

/// The greedy player in a blast flees, whatever was rolled; one time in five, out of a blast and
/// without a wall in view, it does something random; otherwise it follows its plan.
pub proof fn law_greedy_turns(
    grid: &ArenaGrid,
    pos: GridPos,
    events: Seq<GameEvent>,
    m: Recall,
)
    ensures
        ({
            let bombs = danger::bombs_after(m.bombs, events);
            let (action, after) = greedy_turn(grid, pos, events, m);
            let (state, s1) = settled(grid, pos, m.state, bombs, m.seed);
            &&& danger::in_blast(pos, bombs) ==> action == flight(grid, pos, bombs) && after.state
                is Flee && after.seed == m.seed
            &&& action is Bomb && state is Hunt && !danger::in_blast(pos, bombs)
                ==> danger::in_blast(pos, after.bombs) && after.state is Flee
            &&& !danger::in_blast(pos, bombs) && random::unit_roll_spec(s1, REDRAWS as nat).0
                >= GREEDY_EXPLORE ==> action == proposal(
                grid,
                pos,
                state,
                bombs,
                random::unit_roll_spec(s1, REDRAWS as nat).1,
            ).0
        }),
        float_bits::is_nearest_to(GREEDY_EXPLORE, 1, 5),
{
    vstd::arithmetic::power2::lemma2_to64();
    let bombs = danger::bombs_after(m.bombs, events);
    let (state, s1) = settled(grid, pos, m.state, bombs, m.seed);
    let (roll, s2) = random::unit_roll_spec(s1, REDRAWS as nat);
    if state is Hunt {
        let p = proposal(grid, pos, state, bombs, s2);
        law_own_bombs_are_known(pos, Recall { state: p.1, bombs, seed: p.2 });
    }
    if danger::in_blast(pos, bombs) {
        match routes::safe_cell(grid, pos, bombs) {
            Some(cell) => {
                match routes::step_toward(grid, pos, cell) {
                    Some(step) => {
                        lemma_heading_is_step(grid, pos, cell);
                    },
                    None => {},
                }
            },
            None => {},
        }
    }
}

proof fn lemma_heading_is_step(grid: &ArenaGrid, from: GridPos, to: GridPos)
    ensures
        routes::step_toward(grid, from, to) matches Some(a) ==> a.is_step(),
{
}

/// Among the safe actions the validator falls back on one with the highest score, the first of
/// equals, and finds none only where none is safe.
pub proof fn law_fallback_is_the_best_safe_action(
    grid: &ArenaGrid,
    pos: GridPos,
    bombs: Seq<((i32, i32), u32)>,
    other: BomberAction,
)
    requires
        is_safe(other, grid, pos, bombs),
    ensures
        best_safe(grid, pos, bombs, 6) matches Some(best) && is_safe(best, grid, pos, bombs)
            && total(score_terms(other, grid, pos, bombs, None)) <= total(
            score_terms(best, grid, pos, bombs, None),
        ) && (other.index() < best.index() ==> total(score_terms(other, grid, pos, bombs, None))
            < total(score_terms(best, grid, pos, bombs, None))),
{
    routes::law_action_index_round_trip(other, 0);
    lemma_best_safe_beats(grid, pos, bombs, 6, other.index());
}

proof fn lemma_best_safe_beats(
    grid: &ArenaGrid,
    pos: GridPos,
    bombs: Seq<((i32, i32), u32)>,
    n: nat,
    i: int,
)
    requires
        0 <= i < n <= 6,
        is_safe(routes::action_at(i), grid, pos, bombs),
    ensures
        ({
            let best = best_safe(grid, pos, bombs, n);
            let other = total(score_terms(routes::action_at(i), grid, pos, bombs, None));
            &&& best is Some
            &&& best->0.index() < n
            &&& is_safe(best->0, grid, pos, bombs)
            &&& other <= total(score_terms(best->0, grid, pos, bombs, None))
            &&& i < best->0.index() ==> other < total(score_terms(best->0, grid, pos, bombs, None))
        }),
    decreases n,
{
    lemma_best_safe(grid, pos, bombs, n);
    lemma_best_safe(grid, pos, bombs, (n - 1) as nat);
    lemma_best_index(grid, pos, bombs, n);
    lemma_best_index(grid, pos, bombs, (n - 1) as nat);
    routes::law_action_index_round_trip(routes::action_at(n - 1), n - 1);
    if i < n - 1 {
        lemma_best_safe_beats(grid, pos, bombs, (n - 1) as nat, i);
    }
}

proof fn lemma_best_index(grid: &ArenaGrid, pos: GridPos, bombs: Seq<((i32, i32), u32)>, n: nat)
    requires
        n <= 6,
    ensures
        best_safe(grid, pos, bombs, n) matches Some(b) ==> b.index() < n,
    decreases n,
{
    if n > 0 {
        lemma_best_index(grid, pos, bombs, (n - 1) as nat);
        routes::law_action_index_round_trip(routes::action_at(n - 1), n - 1);
    }
}

/// The validator does nothing unsafe: where any action is safe, the one it takes is, and where none
/// is, it waits. What the state machine proposes is done if it is safe.
pub proof fn law_validator_is_safe(
    grid: &ArenaGrid,
    pos: GridPos,
    events: Seq<GameEvent>,
    m: Recall,
    other: BomberAction,
)
    ensures
        ({
            let bombs = danger::bombs_after(m.bombs, events);
            let (action, after) = validator_turn(grid, pos, events, m);
            let (state, seed) = settled(grid, pos, m.state, bombs, m.seed);
            let wanted = proposal(grid, pos, state, bombs, seed).0;
            &&& is_safe(other, grid, pos, bombs) ==> is_safe(action, grid, pos, bombs)
            &&& !is_safe(action, grid, pos, bombs) ==> action is Wait
            &&& is_safe(wanted, grid, pos, bombs) ==> action == wanted
            &&& is_safe(wanted, grid, pos, bombs) && action is Bomb ==> after.state is Flee
                && danger::bomb_known(after.bombs, (pos.x, pos.y))
            &&& !(action is Bomb) ==> after.bombs == bombs
        }),
{
    let bombs = danger::bombs_after(m.bombs, events);
    lemma_best_safe(grid, pos, bombs, 6);
    if is_safe(other, grid, pos, bombs) {
        law_fallback_is_the_best_safe_action(grid, pos, bombs, other);
    }
    let (s0, seed0) = settled(grid, pos, m.state, bombs, m.seed);
    let (action, state, seed) = proposal(grid, pos, s0, bombs, seed0);
    law_own_bombs_are_known(pos, Recall { state, bombs, seed });
}

/// An exploration step is drawn among all choices, each of which the draw can reach. Where there is
/// none the player waits, and nothing is drawn.
pub proof fn law_exploration_is_drawn_among_all(
    grid: &ArenaGrid,
    pos: GridPos,
    prev: Option<BomberAction>,
    bombs: Seq<((i32, i32), u32)>,
    seed: u64,
    last: u64,
)
    requires
        last + 1 == explore_choices(grid, pos, prev, bombs).len() || explore_choices(
            grid,
            pos,
            prev,
            bombs,
        ).len() == 0,
    ensures
        ({
            let choices = explore_choices(grid, pos, prev, bombs);
            let (picked, after) = explore_pick(grid, pos, prev, bombs, seed);
            let (k, next) = random::fastrand_u64(seed, last);
            &&& choices.len() == 0 ==> picked is Wait && after == seed
            &&& choices.len() > 0 ==> after == next && (k <= last ==> choices.contains(picked)
                && picked == choices[k as int])
        }),
{
}

/// An explorer whose way is not clear turns to hunt the nearest wall, and without a wall takes a new
/// direction; a hunter whose way is not clear explores. A way is clear where it leads onto floor
/// that no known bomb reaches.
pub proof fn law_players_turn_where_the_way_is_not_clear(
    grid: &ArenaGrid,
    pos: GridPos,
    state: AiState,
    bombs: Seq<((i32, i32), u32)>,
    seed: u64,
)
    requires
        !routes::worth_bombing(grid, pos, bombs),
    ensures
        ({
            let (action, after, next) = proposal(grid, pos, state, bombs, seed);
            &&& state matches AiState::Explore { dir } ==> ({
                let to = routes::target(dir, pos);
                let clear = dir.is_step() && pathing::open_cell(grid, to) && !danger::in_blast(
                    to,
                    bombs,
                );
                &&& clear ==> action == dir && after == state && next == seed
                &&& !clear ==> (routes::nearest_wall(grid, pos) matches Some(wall) ==> after == (
                AiState::Hunt { target: wall }) && next == seed && (routes::step_beside(
                    grid,
                    pos,
                    wall,
                ) matches Some(step) ==> action == step) && (routes::step_beside(grid, pos, wall)
                    is None ==> action is Wait))
                &&& !clear && routes::nearest_wall(grid, pos) is None ==> (action, next)
                    == explore_pick(grid, pos, Some(dir), bombs, seed) && after == (
                AiState::Explore { dir: action })
            })
            &&& state matches AiState::Hunt { target } ==> ({
                let step = routes::step_beside(grid, pos, target);
                let clear = step matches Some(s) && !danger::in_blast(routes::target(s, pos), bombs);
                &&& clear ==> step == Some(action) && after == state && next == seed
                &&& !clear ==> (action, next) == explore_pick(grid, pos, None, bombs, seed)
                    && after == (AiState::Explore { dir: action })
            })
        }),
{
}

} // verus!
