//! The Bomberman arena, its players, replays and validator modules.

use microgpt::pruners::bomber::arena::ArenaGrid;
use microgpt::pruners::bomber::danger::{has_escape_route, in_blast_zone, manhattan, update_bombs};
use microgpt::pruners::bomber::hl::{create_players, Arm, HLPlayer};
use microgpt::pruners::bomber::players::{
    heuristic_score, is_safe_action, AiState, BomberPlayer, GreedyPlayer, RandomPlayer,
    ValidatorPlayer,
};
use microgpt::pruners::bomber::replay::{
    serialize_board, serialize_bombs, serialize_powerups, BombRecord, ReplaySample,
};
use microgpt::pruners::bomber::routes::{
    find_nearest_wall, index_to_action, move_target, next_step_toward, should_place_bomb,
};
use microgpt::pruners::bomber::wasm_pruner::{
    check_request, extra_pages, name_window, read_cstring, relevance_of, unpack_version, verdict,
    BomberWasmPruner, LoadAnswers, LoadStage, FUEL_PER_CALL, MEMORY_PAGES, Q16_ONE,
};
use microgpt::pruners::bomber::wasm_state::{
    serialize_game_state, BYTES_PER_TOKEN, GRID_TOKENS, OFF_BOMBS, OFF_BOMB_COUNT, OFF_PLAYER_ID,
    OFF_PLAYER_X, OFF_PLAYER_Y,
};
use microgpt::pruners::bomber::{
    BomberAction, Cell, GameEvent, GridPos, PowerUpKind, ARENA_H, ARENA_W, SPAWN_POSITIONS,
};
use microgpt::random::{unit_bits, GameRng};

fn floor_grid() -> ArenaGrid {
    ArenaGrid {
        cells: vec![vec![Cell::Floor; ARENA_W]; ARENA_H],
        width: ARENA_W,
        height: ARENA_H,
    }
}

fn full_wall_grid() -> ArenaGrid {
    ArenaGrid {
        cells: vec![vec![Cell::FixedWall; ARENA_W]; ARENA_H],
        width: ARENA_W,
        height: ARENA_H,
    }
}

fn read_token(buf: &[u8], i: usize) -> u32 {
    let at = i * BYTES_PER_TOKEN;
    u32::from_le_bytes([buf[at], buf[at + 1], buf[at + 2], buf[at + 3]])
}

// Random draws.

#[test]
fn draws_are_those_of_fastrand() {
    for seed in 0..300u64 {
        let mut ours = GameRng::with_seed(seed);
        let mut theirs = fastrand::Rng::with_seed(seed);
        for n in 1..20usize {
            assert_eq!(ours.below(n), theirs.usize(0..n));
            assert_eq!(ours.byte_below(n as u8), theirs.u8(0..n as u8));
            assert_eq!(ours.unit_roll(), theirs.f32().to_bits());
            assert_eq!(ours.seed, theirs.get_seed());
        }
        let p = 0.4f32;
        assert_eq!(ours.chance(p.to_bits()), theirs.f32() < p);
        assert_eq!(ours.seed, theirs.get_seed());
    }
}

#[test]
fn unit_bits_round_to_nearest() {
    for u in [0u64, 1, 2, 3, 0xFF_FFFF, 0x100_0000, 0x1FF_FFFF, 0x7FFF_FFFF_FFFF_FFFF, 12345678901234567] {
        let expected = (u as f64 / 9223372036854775808.0) as f32;
        if u < (1 << 53) {
            assert_eq!(unit_bits(u), expected.to_bits(), "u = {u}");
        }
    }
    assert_eq!(unit_bits(0x7FFF_FFFF_FFFF_FFFF), 1.0f32.to_bits());
    assert_eq!(unit_bits(1 << 62), 0.5f32.to_bits());
}

// Arena.

#[test]
fn test_grid_dimensions() {
    let grid = ArenaGrid::generate(42);
    assert_eq!(grid.width, 13);
    assert_eq!(grid.height, 13);
    assert_eq!(grid.cells.len(), 13);
    assert!(grid.cells.iter().all(|row| row.len() == 13));
}

#[test]
fn test_border_walls() {
    let grid = ArenaGrid::generate(42);
    for y in 0..13 {
        for x in 0..13 {
            if x == 0 || x == 12 || y == 0 || y == 12 {
                assert_eq!(grid.cells[y][x], Cell::FixedWall, "border ({x},{y})");
            }
        }
    }
}

#[test]
fn test_fixed_walls_pattern() {
    let grid = ArenaGrid::generate(42);
    for y in 2..11 {
        for x in 2..11 {
            if x % 2 == 0 && y % 2 == 0 {
                assert_eq!(grid.cells[y][x], Cell::FixedWall, "pillar ({x},{y})");
            }
        }
    }
}

#[test]
fn test_corners_clear() {
    let grid = ArenaGrid::generate(123);
    for &(sx, sy) in &SPAWN_POSITIONS {
        for dy in -1_i32..=1 {
            for dx in -1_i32..=1 {
                let (x, y) = (sx + dx, sy + dy);
                if x < 1 || x > 11 || y < 1 || y > 11 {
                    continue;
                }
                match grid.cells[y as usize][x as usize] {
                    Cell::Floor | Cell::FixedWall => {}
                    other => panic!("spawn ({x},{y}) has {other:?}"),
                }
            }
        }
    }
}

#[test]
fn test_seed_reproducibility() {
    let a = ArenaGrid::generate(999);
    let b = ArenaGrid::generate(999);
    assert_eq!(a.cells, b.cells);
}

#[test]
fn different_seeds_give_different_arenas() {
    let a = ArenaGrid::generate(1);
    let b = ArenaGrid::generate(2);
    assert_ne!(a.cells, b.cells);
    let walls = a.cells.iter().flatten().filter(|c| matches!(c, Cell::DestructibleWall)).count();
    assert!(walls > 0);
}

#[test]
fn cells_outside_are_walls() {
    let mut grid = floor_grid();
    assert_eq!(grid.get(-1, 0), Cell::FixedWall);
    assert_eq!(grid.get(13, 0), Cell::FixedWall);
    assert!(!grid.is_in_bounds(0, 13));
    grid.set(5, 6, Cell::DestructibleWall);
    assert_eq!(grid.cells[6][5], Cell::DestructibleWall);
    assert!(!grid.is_walkable(5, 6));
    assert_eq!(grid.spawn_pos(3), (11, 11));
}

// Dangers and routes.

#[test]
fn bombs_come_and_go() {
    let mut bombs = vec![];
    update_bombs(&mut bombs, &[GameEvent::BombPlaced { player: 0, pos: (3, 1) }]);
    assert_eq!(bombs, vec![((3, 1), 2)]);
    update_bombs(&mut bombs, &[GameEvent::BombPlaced { player: 1, pos: (3, 1) }]);
    assert_eq!(bombs.len(), 1);
    assert!(in_blast_zone(GridPos { x: 3, y: 3 }, &bombs));
    assert!(!in_blast_zone(GridPos { x: 3, y: 4 }, &bombs));
    assert!(!in_blast_zone(GridPos { x: 4, y: 2 }, &bombs));
    update_bombs(&mut bombs, &[GameEvent::BombExploded { pos: (3, 1) }]);
    assert!(bombs.is_empty());
    assert_eq!(manhattan(GridPos { x: -1, y: 2 }, GridPos { x: 3, y: 0 }), 6);
}

#[test]
fn routes_lead_over_floor() {
    let grid = floor_grid();
    let from = GridPos { x: 1, y: 1 };
    assert_eq!(next_step_toward(&grid, from, GridPos { x: 1, y: 3 }), Some(BomberAction::Down));
    assert!(!has_escape_route(&grid, from, (1, 1), 2));
    assert!(has_escape_route(&grid, GridPos { x: 2, y: 1 }, (1, 1), 2));
    assert_eq!(find_nearest_wall(&grid, from), None);
    let mut walled = floor_grid();
    walled.cells[1][2] = Cell::DestructibleWall;
    assert_eq!(find_nearest_wall(&walled, from), Some(GridPos { x: 2, y: 1 }));
    assert!(should_place_bomb(&walled, from, &[]));
    let closed = full_wall_grid();
    assert_eq!(next_step_toward(&closed, from, GridPos { x: 1, y: 3 }), None);
    assert!(!has_escape_route(&closed, GridPos { x: 2, y: 1 }, (1, 1), 2));
}

#[test]
fn action_indices_round_trip() {
    for i in 0..6 {
        assert_eq!(index_to_action(i).as_usize(), i);
    }
    assert_eq!(index_to_action(6), BomberAction::Wait);
    let t = move_target(&BomberAction::Left, GridPos { x: 3, y: 4 });
    assert_eq!((t.x, t.y), (2, 4));
}

#[test]
fn walking_into_a_wall_scores_lowest() {
    let grid = ArenaGrid::generate(42);
    let pos = GridPos { x: 1, y: 1 };
    assert!(heuristic_score(&BomberAction::Up, &grid, pos, &[], None) <= -100);
    assert!(!is_safe_action(&BomberAction::Up, &grid, pos, &[]));
}

// Players.

#[test]
fn test_random_player_valid_actions() {
    let mut player = RandomPlayer::new(0);
    let grid = ArenaGrid::generate(42);
    let mut rng = GameRng::with_seed(42);
    let pos = GridPos { x: 1, y: 1 };
    for _ in 0..50 {
        let action = player.select_action(&grid, pos, &[], &mut rng);
        if action != BomberAction::Bomb && action != BomberAction::Wait {
            let target = move_target(&action, pos);
            assert!(
                grid.is_walkable(target.x, target.y),
                "RandomPlayer walked into wall at ({},{})",
                target.x,
                target.y,
            );
        }
    }
}

#[test]
fn test_greedy_player_prefers_safety() {
    let mut player = GreedyPlayer::new(1);
    let grid = ArenaGrid::generate(42);
    let mut rng = GameRng::with_seed(42);
    let pos = GridPos { x: 3, y: 3 };
    let action = player.select_action(&grid, pos, &[], &mut rng);
    if action != BomberAction::Bomb && action != BomberAction::Wait {
        let target = move_target(&action, pos);
        assert!(grid.is_walkable(target.x, target.y));
    }
}

#[test]
fn test_validator_player_rejects_unsafe() {
    let mut player = ValidatorPlayer::new(2);
    let grid = ArenaGrid::generate(42);
    let mut rng = GameRng::with_seed(42);
    let pos = GridPos { x: 3, y: 3 };
    let events = vec![GameEvent::BombPlaced { player: 0, pos: (3, 1) }];
    player.known_bombs = vec![((3, 1), 2)];
    let action = player.select_action(&grid, pos, &events, &mut rng);
    if action != BomberAction::Bomb && action != BomberAction::Wait {
        let target = move_target(&action, pos);
        assert!(
            target.x != 3 || target.y < 1 || target.y > 3,
            "Validator should escape blast zone, moved to ({},{})",
            target.x,
            target.y,
        );
    }
}

fn outcome(player: &mut HLPlayer, survived: bool, killed: bool, powerups: u32) {
    let base = if survived { 1.0 } else { -1.0 }
        + if killed { 0.5 } else { 0.0 }
        + powerups as f32 * 0.2;
    for share in player.update_outcome() {
        let reward = base * (share.count as f32 / share.pulls as f32);
        let q = f32::from_bits(player.q_values[share.arm]);
        player.learn(share.arm, (q + (reward - q) / share.visits as f32).to_bits());
    }
}

#[test]
fn test_hl_player_adapts() {
    let mut player = HLPlayer::new(3);
    for _ in 0..25 {
        player.round_actions.clear();
        player.round_actions.push(BomberAction::Up);
        outcome(&mut player, true, false, 0);
    }
    let up = BomberAction::Up.as_usize();
    let q = f32::from_bits(player.q_values[up]);
    assert!(q > 0.0, "HL should learn Up is good, Q={q}");
    assert_eq!(player.visits[up], 25);
    assert_eq!(player.total_pulls, 25);
}

#[test]
fn hl_player_compresses_bad_arms() {
    let mut player = HLPlayer::new(3);
    for _ in 0..20 {
        player.round_actions.clear();
        player.round_actions.push(BomberAction::Down);
        outcome(&mut player, false, false, 0);
    }
    assert_eq!(player.compress_cycle(), vec![1]);
    assert_eq!(player.compress_cycle(), Vec::<usize>::new());
    let grid = ArenaGrid::generate(42);
    let arms = player.assess(&grid, GridPos { x: 1, y: 1 }, &[]);
    assert!(matches!(arms[1], Arm::Compressed));
    assert!(matches!(arms[0], Arm::Blocked));
    let names: Vec<String> = ["up", "down", "left", "right", "bomb", "wait"]
        .iter()
        .map(|s| s.to_string())
        .collect();
    let values: Vec<String> =
        player.q_values.iter().map(|&q| format!("{:.2}", f32::from_bits(q))).collect();
    assert_eq!(
        player.compress_report(&names, &values),
        "Pulls=20 Compressed=1/6 [down(-1.00)] Q=[up:0.00 down:-1.00 left:0.00 right:0.00 bomb:0.00 wait:0.00]"
    );
    player.reset();
    assert_eq!(player.visits[1], 20);
    assert!(player.round_actions.is_empty());
}

#[test]
fn hl_player_pulls_the_best_arm() {
    for seed in 0..40u64 {
        let mut player = HLPlayer::new(3);
        let scores: Vec<u32> =
            [0.0f32, -1.0, 2.0, 0.5, 2.0, f32::NEG_INFINITY].iter().map(|s| s.to_bits()).collect();
        let mut rng = GameRng::with_seed(seed);
        let mut twin = fastrand::Rng::with_seed(seed);
        let action = player.pull(&scores, &mut rng);
        let expected = if twin.f32() < 0.1 {
            [0, 1, 2, 3, 4][twin.usize(0..5)]
        } else {
            4
        };
        assert_eq!(action.as_usize(), expected, "seed {seed}");
        assert_eq!(player.round_actions, vec![action]);
    }
}

#[test]
fn hl_player_passes_over_compressed_arms() {
    for seed in 0..60u64 {
        let mut player = HLPlayer::new(3);
        for arm in [1, 2, 4, 5] {
            player.compressed[arm] = true;
        }
        let scores: Vec<u32> =
            [-0.5f32, 3.0, 2.0, f32::NEG_INFINITY, 9.0, 9.0].iter().map(|s| s.to_bits()).collect();
        assert_eq!(player.pull(&scores, &mut GameRng::with_seed(seed)), BomberAction::Up);
        let lost = vec![f32::NEG_INFINITY.to_bits(); 6];
        assert_eq!(player.pull(&lost, &mut GameRng::with_seed(seed)), BomberAction::Right);
        player.compressed = vec![true; 6];
        assert_eq!(player.pull(&scores, &mut GameRng::with_seed(seed)), BomberAction::Wait);
    }
}

#[test]
fn four_players_of_a_tournament() {
    let (p0, p1, p2, p3) = create_players();
    assert_eq!((p0.id, p1.id, p2.id, p3.id), (0, 1, 2, 3));
    let waiting = AiState::Explore { dir: BomberAction::Wait };
    assert_eq!((p1.state, p2.state), (waiting, waiting));
    assert!(p1.known_bombs.is_empty() && p2.known_bombs.is_empty() && p3.known_bombs.is_empty());
    assert_eq!((p3.q_values.as_slice(), p3.visits.as_slice()), (&[0u32; 6][..], &[0u32; 6][..]));
    assert_eq!(p3.compressed, vec![false; 6]);
    assert_eq!(p3.total_pulls, 0);
    assert!(p3.round_actions.is_empty() && p3.last_dir.is_none());
    assert_eq!(p0.name(), "Random");
    assert_eq!(p3.name(), "HL");
    assert_eq!(p3.emoji(), "🐵");
}

// Replays.

fn quality(survived: bool, winner: bool, powerups: u32, kills: u32) -> f32 {
    ReplaySample::quality(survived, winner, powerups, kills) as f32 / 100.0
}

#[test]
fn quality_death_is_zero() {
    let q = quality(false, false, 0, 0);
    assert!((q - 0.0).abs() < f32::EPSILON);
}

#[test]
fn quality_survived_is_half() {
    let q = quality(true, false, 0, 0);
    assert!((q - 0.5).abs() < f32::EPSILON);
}

#[test]
fn quality_winner_is_one() {
    let q = quality(true, true, 0, 0);
    assert!((q - 1.0).abs() < f32::EPSILON);
}

#[test]
fn quality_powerup_bonus_capped() {
    let q = quality(true, false, 5, 0);
    assert!((q - 0.7).abs() < 1e-6);
}

#[test]
fn quality_kill_bonus_capped() {
    let q = quality(true, false, 0, 5);
    assert!((q - 0.8).abs() < 1e-6);
}

#[test]
fn quality_winner_does_not_exceed_one() {
    let q = quality(true, true, 10, 10);
    assert!(q <= 1.0);
}

#[test]
fn quality_single_powerup_and_kill() {
    let q = quality(true, false, 1, 1);
    assert!((q - 0.65).abs() < 1e-6);
}

#[test]
fn serialize_board_known_grid() {
    let board = serialize_board(&floor_grid());
    assert_eq!(board, vec![0u8; 169]);
}

#[test]
fn serialize_board_mixed_cells() {
    let mut grid = floor_grid();
    grid.cells[0][0] = Cell::FixedWall;
    grid.cells[1][1] = Cell::DestructibleWall;
    grid.cells[2][3] = Cell::PowerUpHidden(PowerUpKind::BombUp);
    let board = serialize_board(&grid);
    assert_eq!(board[0], 1);
    assert_eq!(board[ARENA_W + 1], 2);
    assert_eq!(board[2 * ARENA_W + 3], 3);
}

#[test]
fn bombs_and_powerups_as_bytes() {
    let bomb = BombRecord { pos: GridPos { x: 3, y: 4 }, range: 2, fuse: 300 };
    assert_eq!(serialize_bombs(&vec![bomb, bomb]), vec![[3, 4, 2, 44], [3, 4, 2, 44]]);
    assert_eq!(serialize_powerups(&vec![GridPos { x: -1, y: 257 }]), vec![[255, 1]]);
    assert!(serialize_bombs(&vec![]).is_empty());
}

// Game states.

#[test]
fn empty_grid_no_bombs_player_at_1_1() {
    let (buf, token_count) = serialize_game_state(&floor_grid(), 1, 1, 0, &[]);
    assert_eq!(token_count, 173);
    assert_eq!(buf.len(), 173 * BYTES_PER_TOKEN);
    for i in 0..GRID_TOKENS {
        assert_eq!(read_token(&buf, i), 0, "grid token {i} should be Floor(0)");
    }
    assert_eq!(read_token(&buf, OFF_PLAYER_X), 1);
    assert_eq!(read_token(&buf, OFF_PLAYER_Y), 1);
    assert_eq!(read_token(&buf, OFF_PLAYER_ID), 0);
    assert_eq!(read_token(&buf, OFF_BOMB_COUNT), 0);
}

#[test]
fn test_full_wall_grid() {
    let (buf, token_count) = serialize_game_state(&full_wall_grid(), 5, 5, 2, &[]);
    assert_eq!(token_count, 173);
    assert_eq!(buf.len(), 173 * BYTES_PER_TOKEN);
    for i in 0..GRID_TOKENS {
        assert_eq!(read_token(&buf, i), 1, "grid token {i} should be FixedWall(1)");
    }
    assert_eq!(read_token(&buf, OFF_PLAYER_X), 5);
    assert_eq!(read_token(&buf, OFF_PLAYER_Y), 5);
    assert_eq!(read_token(&buf, OFF_PLAYER_ID), 2);
    assert_eq!(read_token(&buf, OFF_BOMB_COUNT), 0);
}

#[test]
fn grid_with_all_cell_types() {
    let mut grid = floor_grid();
    grid.cells[0][0] = Cell::Floor;
    grid.cells[1][0] = Cell::FixedWall;
    grid.cells[2][0] = Cell::DestructibleWall;
    grid.cells[3][0] = Cell::PowerUpHidden(PowerUpKind::BombUp);
    grid.cells[4][0] = Cell::PowerUpHidden(PowerUpKind::FireUp);
    grid.cells[5][0] = Cell::PowerUpHidden(PowerUpKind::SpeedUp);
    let (buf, _) = serialize_game_state(&grid, 0, 0, 0, &[]);
    assert_eq!(read_token(&buf, 0), 0);
    assert_eq!(read_token(&buf, ARENA_W), 1);
    assert_eq!(read_token(&buf, 2 * ARENA_W), 2);
    assert_eq!(read_token(&buf, 3 * ARENA_W), 3);
    assert_eq!(read_token(&buf, 4 * ARENA_W), 3);
    assert_eq!(read_token(&buf, 5 * ARENA_W), 3);
}

#[test]
fn multiple_bombs() {
    let bombs: [((i32, i32), u32, u32); 3] = [((3, 4), 2, 3), ((5, 6), 3, 1), ((7, 8), 1, 4)];
    let (buf, token_count) = serialize_game_state(&floor_grid(), 1, 1, 0, &bombs);
    assert_eq!(token_count, 185);
    assert_eq!(buf.len(), 185 * BYTES_PER_TOKEN);
    assert_eq!(read_token(&buf, OFF_BOMB_COUNT), 3);
    let expected = [3, 4, 2, 3, 5, 6, 3, 1, 7, 8, 1, 4];
    for (i, &v) in expected.iter().enumerate() {
        assert_eq!(read_token(&buf, OFF_BOMBS + i), v);
    }
}

#[test]
fn max_bombs_16() {
    let bombs: Vec<((i32, i32), u32, u32)> = (0..20).map(|i| ((i, i), 2, 4)).collect();
    let (buf, token_count) = serialize_game_state(&floor_grid(), 0, 0, 0, &bombs);
    assert_eq!(token_count, 237);
    assert_eq!(buf.len(), 237 * BYTES_PER_TOKEN);
    assert_eq!(read_token(&buf, OFF_BOMB_COUNT), 16);
    assert_eq!(read_token(&buf, OFF_BOMBS), 0);
    assert_eq!(read_token(&buf, OFF_BOMBS + 1), 0);
    assert_eq!(read_token(&buf, OFF_BOMBS + 2), 2);
    assert_eq!(read_token(&buf, OFF_BOMBS + 3), 4);
    let last_base = OFF_BOMBS + 15 * 4;
    assert_eq!(read_token(&buf, last_base), 15);
    assert_eq!(read_token(&buf, last_base + 1), 15);
    assert_eq!(read_token(&buf, last_base + 2), 2);
    assert_eq!(read_token(&buf, last_base + 3), 4);
}

#[test]
fn out_of_bounds_player_coordinates_clamped() {
    let grid = floor_grid();
    let (buf, _) = serialize_game_state(&grid, -5, -10, 0, &[]);
    assert_eq!(read_token(&buf, OFF_PLAYER_X), 0);
    assert_eq!(read_token(&buf, OFF_PLAYER_Y), 0);
    let (buf, _) = serialize_game_state(&grid, 300, 500, 0, &[]);
    assert_eq!(read_token(&buf, OFF_PLAYER_X), 255);
    assert_eq!(read_token(&buf, OFF_PLAYER_Y), 255);
    let (buf, _) = serialize_game_state(&grid, 0, 0, 0, &[]);
    assert_eq!(read_token(&buf, OFF_PLAYER_X), 0);
    assert_eq!(read_token(&buf, OFF_PLAYER_Y), 0);
    let (buf, _) = serialize_game_state(&grid, 255, 255, 0, &[]);
    assert_eq!(read_token(&buf, OFF_PLAYER_X), 255);
    assert_eq!(read_token(&buf, OFF_PLAYER_Y), 255);
}

#[test]
fn token_count_matches_buffer_size() {
    let grid = floor_grid();
    let (buf, token_count) = serialize_game_state(&grid, 0, 0, 0, &[]);
    assert_eq!(buf.len(), token_count as usize * BYTES_PER_TOKEN);
    let (buf, token_count) = serialize_game_state(&grid, 0, 0, 0, &[((1, 1), 2, 3)]);
    assert_eq!(buf.len(), token_count as usize * BYTES_PER_TOKEN);
    let bombs: Vec<((i32, i32), u32, u32)> = (0..16).map(|i| ((i, i), 2, 4)).collect();
    let (buf, token_count) = serialize_game_state(&grid, 0, 0, 0, &bombs);
    assert_eq!(buf.len(), token_count as usize * BYTES_PER_TOKEN);
}

#[test]
fn serialize_game_state_integration() {
    let bombs: [((i32, i32), u32, u32); 2] = [((3, 4), 2, 3), ((5, 6), 1, 1)];
    let (state, token_count) = serialize_game_state(&floor_grid(), 1, 1, 0, &bombs);
    assert_eq!(token_count, 181);
    assert_eq!(state.len(), 181 * 4);
}

// Validator modules.

const VALIDATOR: &str = r#"(module
  (memory (export "memory") 1)
  (data (i32.const 2000) "tester\00")
  (func (export "is_valid") (param i32 i32 i32 i32) (result i32)
    (i32.eq (i32.load (i32.add (local.get 2) (i32.const 676))) (local.get 1)))
  (func (export "relevance") (param i32 i32 i32 i32) (result i32)
    (i32.mul (local.get 1) (i32.const 32768)))
  (func (export "name") (result i32) (i32.const 2000))
  (func (export "version") (result i32) (i32.const 66051)))"#;

#[test]
fn load_invalid_wasm_bytes_fails() {
    match BomberWasmPruner::load(b"not valid wasm") {
        Err(e) => assert!(
            e.contains("failed to compile WASM module"),
            "unexpected error message: {e}"
        ),
        Ok(_) => panic!("expected error for invalid WASM bytes"),
    }
}

#[test]
fn validator_reads_the_state_it_is_given() {
    let mut p = BomberWasmPruner::load(VALIDATOR.as_bytes()).expect("load");
    assert_eq!(p.name(), "tester");
    assert_eq!(p.version(), (1, 2, 3));
    let grid = floor_grid();
    for x in 0..6 {
        for action in 0..6usize {
            assert_eq!(p.is_safe_action(action, &grid, x, 1, 0, &[]), action as i32 == x);
        }
    }
    assert_eq!(p.action_relevance(1, &grid, 1, 1, 0, &[]), 32768);
    assert_eq!(p.action_relevance(2, &grid, 1, 1, 0, &[]), Q16_ONE);
    assert_eq!(p.action_relevance(5, &grid, 1, 1, 0, &[]), Q16_ONE);
}

#[test]
fn relevance_falls_back_to_validity() {
    let text = VALIDATOR.replace("\"relevance\"", "\"other\"");
    let mut p = BomberWasmPruner::load(text.as_bytes()).expect("load");
    let grid = floor_grid();
    assert_eq!(p.action_relevance(1, &grid, 1, 1, 0, &[]), Q16_ONE);
    assert_eq!(p.action_relevance(2, &grid, 1, 1, 0, &[]), 0);
}

#[test]
fn endless_validators_run_out_of_fuel() {
    let text = r#"(module
      (memory (export "memory") 0)
      (func (export "is_valid") (param i32 i32 i32 i32) (result i32) (loop (br 0)) (i32.const 1))
      (func (export "name") (result i32) (i32.const 0))
      (func (export "version") (result i32) (i32.const 0)))"#;
    let error = BomberWasmPruner::load(text.as_bytes()).err().expect("no name");
    assert_eq!(error, "failed to read validator name: name pointer 0 out of memory bounds");
    let text = text.replace("\"memory\") 0)", "\"memory\") 1)");
    let mut p = BomberWasmPruner::load(text.as_bytes()).expect("load");
    assert_eq!(p.name(), "");
    assert_eq!(p.version(), (0, 0, 0));
    assert!(!p.is_safe_action(0, &floor_grid(), 1, 1, 0, &[]));
}

#[test]
fn missing_exports_are_named() {
    let load = |from: &str, to: &str| {
        BomberWasmPruner::load(VALIDATOR.replace(from, to).as_bytes()).err().expect("refused")
    };
    assert_eq!(load("\"memory\"", "\"m\""), "missing required export: 'memory'");
    assert!(load("\"is_valid\"", "\"v\"").starts_with("missing required export 'is_valid': "));
    assert!(load("\"name\"", "\"n\"").starts_with("missing required export 'name': "));
    assert!(load("\"version\"", "\"x\"").starts_with("missing required export 'version': "));
    assert!(load("(result i32) (i32.const 2000)", "(result i32) unreachable")
        .starts_with("failed to call name(): "));
    assert!(load("(i32.const 66051)", "unreachable").starts_with("failed to call version(): "));
    assert!(load("\"name\") (result i32) (i32.const 2000)", "\"name\") (result i32) (i32.const 70000)")
        .ends_with("name pointer 70000 out of memory bounds"));
}

fn all_passed() -> LoadAnswers {
    LoadAnswers {
        engine: Ok(()),
        compile: Ok(()),
        instantiate: Ok(()),
        memory: Ok(()),
        is_valid: Ok(()),
        name_export: Ok(()),
        name_fuel: Ok(()),
        name_call: Ok(2000),
        name_read: Ok("tester".to_string()),
        version_export: Ok(()),
        version_fuel: Ok(()),
        version_call: Ok(66051),
    }
}

#[test]
fn the_first_failed_stage_decides() {
    let known = all_passed().settle().ok().expect("all stages passed");
    assert_eq!(known.name, "tester");
    assert_eq!(known.version, (1, 2, 3));
    let first = |a: LoadAnswers| a.settle().err().expect("a stage failed");
    let fail = || "why".to_string();
    let named = |stage: LoadStage| (stage, "why".to_string());
    assert_eq!(
        first(LoadAnswers { engine: Err(fail()), ..all_passed() }),
        named(LoadStage::Engine)
    );
    assert_eq!(
        first(LoadAnswers { compile: Err(fail()), ..all_passed() }),
        named(LoadStage::Compile)
    );
    assert_eq!(
        first(LoadAnswers { instantiate: Err(fail()), ..all_passed() }),
        named(LoadStage::Instantiate)
    );
    assert_eq!(
        first(LoadAnswers { memory: Err(fail()), ..all_passed() }),
        named(LoadStage::Memory)
    );
    assert_eq!(
        first(LoadAnswers { is_valid: Err(fail()), ..all_passed() }),
        named(LoadStage::IsValid)
    );
    assert_eq!(
        first(LoadAnswers { name_export: Err(fail()), ..all_passed() }),
        named(LoadStage::NameExport)
    );
    assert_eq!(
        first(LoadAnswers { name_fuel: Err(fail()), ..all_passed() }),
        named(LoadStage::NameFuel)
    );
    assert_eq!(
        first(LoadAnswers { name_call: Err(fail()), ..all_passed() }),
        named(LoadStage::NameCall)
    );
    assert_eq!(
        first(LoadAnswers { name_read: Err(fail()), ..all_passed() }),
        named(LoadStage::NameRead)
    );
    assert_eq!(
        first(LoadAnswers { version_export: Err(fail()), ..all_passed() }),
        named(LoadStage::VersionExport)
    );
    assert_eq!(
        first(LoadAnswers { version_fuel: Err(fail()), ..all_passed() }),
        named(LoadStage::VersionFuel)
    );
    assert_eq!(
        first(LoadAnswers { version_call: Err(fail()), ..all_passed() }),
        named(LoadStage::VersionCall)
    );
    let two = LoadAnswers {
        version_call: Err("later".to_string()),
        name_read: Err(fail()),
        ..all_passed()
    };
    assert_eq!(first(two), named(LoadStage::NameRead));
    assert_eq!(first(LoadAnswers::unasked()).0, LoadStage::Engine);
}

#[test]
fn imports_cannot_be_satisfied() {
    let text = VALIDATOR.replace("(module", "(module (import \"env\" \"f\" (func))");
    let error = BomberWasmPruner::load(text.as_bytes()).err().expect("refused");
    assert!(error.starts_with("failed to instantiate WASM module: "), "{error}");
}

#[test]
fn read_cstring_valid() {
    assert_eq!(read_cstring(b"sudoku\0rest", 0), Ok("sudoku".to_string()));
    assert_eq!(read_cstring(b"\0", 0), Ok(String::new()));
    assert_eq!(
        read_cstring(b"abc", 7),
        Err("no null terminator found within 256 bytes from 7".to_string())
    );
    let bad = read_cstring(b"\xff\0", 0).err().expect("refused");
    assert!(bad.starts_with("validator name is not valid UTF-8: "), "{bad}");
    assert_eq!(read_cstring("größe\0".as_bytes(), 0), Ok("größe".to_string()));
}

#[test]
fn names_are_looked_for_in_a_window() {
    assert_eq!(name_window(10, 1000), Ok((10, 256)));
    assert_eq!(name_window(990, 1000), Ok((990, 10)));
    assert_eq!(
        name_window(1000, 1000),
        Err("name pointer 1000 out of memory bounds".to_string())
    );
}

#[test]
fn replies_and_requests() {
    assert!(verdict(&Ok(1)));
    assert!(!verdict(&Ok(2)));
    assert!(!verdict(&Err("trap".to_string())));
    assert_eq!(relevance_of(&Ok(40000)), 40000);
    assert_eq!(relevance_of(&Ok(70000)), Q16_ONE);
    assert_eq!(relevance_of(&Err("trap".to_string())), 0);
    assert_eq!(unpack_version(0xAB_01_02_03), (1, 2, 3));
    assert_eq!(extra_pages(100, 100), 0);
    assert_eq!(extra_pages(101, 100), 1);
    assert_eq!(extra_pages(65_636, 100), 2);
    let r = check_request(4, &floor_grid(), 1, 1, 0, &[]);
    assert_eq!(r.args, (0, 4, 0, 173));
    assert_eq!(r.state.len(), 692);
}

#[test]
fn memory_pages_constant() {
    assert_eq!(MEMORY_PAGES, 64);
    assert_eq!(MEMORY_PAGES * 65536, 4 * 1024 * 1024);
}

#[test]
fn fuel_per_call_constant() {
    assert_eq!(FUEL_PER_CALL, 10_000);
}

#[test]
fn respawn_clears_the_zones_alone() {
    let mut grid = ArenaGrid {
        cells: vec![vec![Cell::DestructibleWall; ARENA_W]; ARENA_H],
        width: ARENA_W,
        height: ARENA_H,
    };
    grid.cells[1][1] = Cell::FixedWall;
    let before = grid.clone();
    grid.clear_for_respawn();
    for y in 0..13 {
        for x in 0..13 {
            let at = |g: &ArenaGrid| g.get(x, y);
            let breakable =
                matches!(at(&before), Cell::DestructibleWall | Cell::PowerUpHidden(_));
            if breakable && ArenaGrid::is_in_spawn_zone(x as usize, y as usize) {
                assert_eq!(at(&grid), Cell::Floor);
            } else {
                assert_eq!(at(&grid), at(&before));
            }
        }
    }
}
