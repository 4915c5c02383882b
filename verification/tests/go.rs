//! Go: groups, scores and players.

use microgpt::pruners::go::board::{board_neighbors, flood_group, GoCell};
use microgpt::pruners::go::learners::{
    GoGZeroPlayer, GoHLPlayer, GoMctsPlayer, GoTemplate, MctsPlan, TemplateStats,
    DEFAULT_MCTS_BUDGET, DEFAULT_MCTS_ROLLOUT_DEPTH, NUM_TEMPLATES,
};
use microgpt::pruners::go::players::{
    GoGreedyPlayer, GoPlayer, GoRandomPlayer, GoValidatorPlayer,
};
use microgpt::pruners::go::scoring::{
    captures_for, categorize_move, center_bonus, greedy_score, is_center_region, is_defend_move,
    is_first_line, is_saving_move, is_star_point, validate_move, GoMoveCategory, NUM_CATEGORIES,
    UNIT,
};
use microgpt::pruners::go::state::{GoAction, GoState};
use microgpt::random::GameRng;

fn new_9x9() -> GoState {
    GoState::new(9)
}

fn full_board() -> GoState {
    let mut state = new_9x9();
    for i in 0..81 {
        state.board[i] = GoCell::Black;
    }
    state
}

fn even_blend(legal: &[(usize, usize)]) -> Vec<u32> {
    vec![0.4f32.to_bits(); legal.len()]
}

fn ucb1(stats: &TemplateStats, arm: usize) -> f32 {
    match stats.bound_inputs(arm) {
        None => f32::MAX,
        Some(b) => {
            f32::from_bits(b.q) + (2.0 * (b.total as f32).ln() / b.visits as f32).sqrt()
        }
    }
}

fn bounds(stats: &TemplateStats) -> Vec<u32> {
    (0..NUM_TEMPLATES).map(|a| ucb1(stats, a).to_bits()).collect()
}

fn reward(q: &mut u32, visits: u32, r: f32) {
    let old = f32::from_bits(*q);
    *q = (old + (r - old) / visits as f32).to_bits();
}

#[test]
fn board_neighbors_center() {
    let neighbors = board_neighbors(40, 9);
    assert_eq!(neighbors.len(), 4);
    assert!(neighbors.contains(&31));
    assert!(neighbors.contains(&49));
    assert!(neighbors.contains(&39));
    assert!(neighbors.contains(&41));
}

#[test]
fn board_neighbors_corner() {
    let neighbors = board_neighbors(0, 9);
    assert_eq!(neighbors.len(), 2);
    assert!(neighbors.contains(&1));
    assert!(neighbors.contains(&9));
}

#[test]
fn flood_group_single_stone() {
    let mut state = new_9x9();
    state.board[40] = GoCell::Black;
    let (group, libs) = flood_group(&state.board, 40, 9);
    assert_eq!(group.len(), 1);
    assert_eq!(group[0], 40);
    assert_eq!(libs.len(), 4);
}

#[test]
fn flood_group_two_stones() {
    let mut state = new_9x9();
    state.board[40] = GoCell::Black;
    state.board[41] = GoCell::Black;
    let (group, libs) = flood_group(&state.board, 40, 9);
    assert_eq!(group.len(), 2);
    assert!(group.contains(&40));
    assert!(group.contains(&41));
    assert_eq!(libs.len(), 6);
}

#[test]
fn stones_of_a_group_share_it() {
    let mut state = new_9x9();
    for (r, c) in [(3, 3), (3, 4), (4, 4), (5, 4), (7, 7)] {
        let i = state.flat_index(r, c);
        state.board[i] = GoCell::Black;
    }
    let sorted = |start: usize| {
        let (mut group, mut liberties) = flood_group(&state.board, start, 9);
        group.sort();
        liberties.sort();
        (group, liberties)
    };
    let shared = sorted(30);
    assert_eq!(shared.0, vec![30, 31, 40, 49]);
    for stone in [31, 40, 49] {
        assert_eq!(sorted(stone), shared);
    }
    assert_ne!(sorted(70), shared);
}

#[test]
fn captures_for_black() {
    let before = new_9x9();
    let mut after = before.clone();
    after.captured_black = 3;
    assert_eq!(captures_for(GoCell::Black, &before, &after), 3);
    assert_eq!(captures_for(GoCell::White, &before, &after), 0);
}

#[test]
fn center_bonus_values() {
    let value = |r: usize, c: usize| center_bonus(r, c, 9) as f64 / UNIT as f64;
    let bonus_center = value(4, 4);
    let bonus_corner = value(0, 0);
    assert!(bonus_center > bonus_corner);
    assert!((bonus_center - 1.0).abs() < 0.01);
    assert!(bonus_corner < 0.5);
}

#[test]
fn is_star_point_9x9() {
    assert!(is_star_point(2, 2, 9));
    assert!(is_star_point(4, 4, 9));
    assert!(is_star_point(6, 6, 9));
    assert!(!is_star_point(0, 0, 9));
    assert!(!is_star_point(4, 5, 9));
}

#[test]
fn is_first_line_test() {
    assert!(is_first_line(0, 4, 9));
    assert!(is_first_line(8, 4, 9));
    assert!(is_first_line(4, 0, 9));
    assert!(!is_first_line(4, 4, 9));
}

#[test]
fn random_player_returns_valid_action() {
    let mut rng = GameRng::with_seed(42);
    let state = new_9x9();
    let legal = state.legal_moves();
    let mut player = GoRandomPlayer;
    match player.select_move(&state, &legal, &mut rng) {
        GoAction::Place(r, c) => assert!(state.is_legal(r, c)),
        GoAction::Pass => {}
    }
}

#[test]
fn random_player_passes_when_no_moves() {
    let mut rng = GameRng::with_seed(42);
    let state = full_board();
    let legal = state.legal_moves();
    assert!(legal.is_empty());
    let mut player = GoRandomPlayer;
    assert_eq!(player.select_move(&state, &legal, &mut rng), GoAction::Pass);
}

#[test]
fn greedy_player_prefers_center_on_empty() {
    let mut rng = GameRng::with_seed(42);
    let state = new_9x9();
    let legal = state.legal_moves();
    let mut player = GoGreedyPlayer;
    match player.select_move(&state, &legal, &mut rng) {
        GoAction::Place(r, c) => {
            let center_dist = ((r as i32 - 4).abs() + (c as i32 - 4).abs()) as usize;
            assert!(center_dist <= 3, "Greedy chose ({r},{c}), too far from center");
        }
        GoAction::Pass => panic!("Greedy should not pass on empty board"),
    }
}

#[test]
fn greedy_player_captures_when_possible() {
    let mut rng = GameRng::with_seed(42);
    let mut state = new_9x9();
    state.board[0] = GoCell::White;
    state.board[9] = GoCell::Black;
    state.to_play = GoCell::Black;
    let legal = state.legal_moves();
    let mut player = GoGreedyPlayer;
    match player.select_move(&state, &legal, &mut rng) {
        GoAction::Place(r, c) => {
            assert!(state.is_legal(r, c), "Greedy returned illegal move ({r},{c})");
        }
        GoAction::Pass => panic!("Greedy should not pass when captures available"),
    }
    assert!(greedy_score(&state, 0, 1) > greedy_score(&state, 0, 4));
}

fn placed(stones: &[(usize, usize, GoCell)]) -> GoState {
    let mut state = new_9x9();
    for &(r, c, stone) in stones {
        let i = state.flat_index(r, c);
        state.board[i] = stone;
    }
    state
}

fn units(score: f64) -> i128 {
    (score * UNIT as f64) as i128
}

#[test]
fn greedy_score_counts_a_group_in_atari_once() {
    // The corner group touches (1, 1) with two stones; (2, 0) stays its only liberty.
    let state = placed(&[
        (0, 0, GoCell::White),
        (0, 1, GoCell::White),
        (1, 0, GoCell::White),
        (0, 2, GoCell::Black),
    ]);
    assert_eq!(greedy_score(&state, 1, 1), units(0.5 * 2.0 + 5.0 + 2.0 * 0.25));
}

#[test]
fn greedy_score_counts_each_group_in_atari() {
    // Two lone stones beside (1, 1), each left with one liberty.
    let state = placed(&[
        (0, 1, GoCell::White),
        (0, 2, GoCell::Black),
        (1, 0, GoCell::White),
        (2, 0, GoCell::Black),
    ]);
    assert_eq!(greedy_score(&state, 1, 1), units(0.5 * 2.0 + 2.0 * 5.0 + 2.0 * 0.25));
}

#[test]
fn greedy_score_of_a_capture_into_atari() {
    // (0, 0) takes the stone at (0, 1), attacks (1, 0) and is left with one liberty.
    let state = placed(&[
        (0, 1, GoCell::White),
        (1, 0, GoCell::White),
        (0, 2, GoCell::Black),
        (1, 1, GoCell::Black),
    ]);
    assert_eq!(greedy_score(&state, 0, 0), units(10.0 + 0.5 + 5.0 - 20.0));
}

#[test]
fn greedy_score_on_the_first_line() {
    let state = new_9x9();
    assert_eq!(greedy_score(&state, 0, 0), units(0.5 * 2.0 - 3.0));
    assert_eq!(greedy_score(&state, 4, 4), units(0.5 * 4.0 + 2.0));
}

#[test]
fn defending_saves_a_group_in_atari() {
    let mut stones = vec![(4, 4, GoCell::Black), (3, 4, GoCell::White), (5, 4, GoCell::White)];
    let two_liberties = placed(&stones);
    assert_eq!(categorize_move(&two_liberties, 4, 5), GoMoveCategory::Extend);
    stones.push((4, 3, GoCell::White));
    let in_atari = placed(&stones);
    assert_eq!(categorize_move(&in_atari, 4, 5), GoMoveCategory::Defend);
}

#[test]
fn defend_moves_stand_beside_weak_groups() {
    let mut stones = vec![(4, 4, GoCell::Black)];
    let beside = |stones: &[(usize, usize, GoCell)]| {
        let state = placed(stones);
        let idx = state.flat_index(4, 5);
        (is_defend_move(&state, idx), is_saving_move(&state, idx))
    };
    assert_eq!(beside(&stones), (false, false));
    stones.push((3, 4, GoCell::White));
    assert_eq!(beside(&stones), (false, false));
    stones.push((5, 4, GoCell::White));
    assert_eq!(beside(&stones), (true, false));
    stones.push((4, 3, GoCell::White));
    assert_eq!(beside(&stones), (true, true));
}

const SIDES: [usize; 9] = [1, 2, 9, 19, 512, 513, 70_001, 40_000_003, 3_000_000_019];

fn lines(size: usize) -> Vec<usize> {
    let mut xs = vec![0, size / 7, size / 4, size / 3, size / 2, size - size / 5 - 1, size - 1];
    xs.dedup();
    xs
}

#[test]
fn center_bonus_is_the_single_precision_one() {
    for size in SIDES {
        for &row in &lines(size) {
            for &col in &lines(size) {
                let center = (size - 1) as f32 / 2.0;
                let expected = if center == 0.0 {
                    1.0
                } else {
                    let off = (row as f32 - center).abs() + (col as f32 - center).abs();
                    1.0 - off / 2.0 / center
                };
                let bonus = center_bonus(row, col, size) as f64 / UNIT as f64;
                assert_eq!(bonus, expected as f64, "({row},{col}) of {size}");
            }
        }
        if size > 1 {
            assert_eq!(center_bonus(0, size - 1, size), 0);
        }
    }
    assert_eq!(center_bonus(9, 9, 19), UNIT);
}

#[test]
fn center_region_is_the_single_precision_one() {
    for size in SIDES {
        let center = (size - 1) as f32 / 2.0;
        let quarter = size / 4;
        let mut xs = lines(size);
        xs.extend([size / 2 + quarter, (size / 2).saturating_sub(quarter)]);
        xs.retain(|&x| x < size);
        for &row in &xs {
            for &col in &xs {
                let (dr, dc) = (row as f32 - center, col as f32 - center);
                let inside = (dr * dr + dc * dc).sqrt() < size as f32 / 4.0;
                assert_eq!(is_center_region(row, col, size), inside, "({row},{col}) of {size}");
            }
        }
    }
    assert!(is_center_region(4, 4, 9) && is_center_region(4, 6, 9));
    assert!(!is_center_region(2, 2, 9));
}

#[test]
fn large_boards_are_played_on() {
    let state = GoState::new(600);
    assert!(state.is_well_formed());
    assert_eq!(greedy_score(&state, 0, 0), units(0.5 * 2.0 - 3.0));
    let next = state.advance(&GoAction::Place(599, 599));
    assert_eq!(next.board[next.flat_index(599, 599)], GoCell::Black);
}

#[test]
fn ill_formed_states_are_told() {
    let mut state = new_9x9();
    state.board.pop();
    assert!(!state.is_well_formed());
    let mut state = new_9x9();
    state.to_play = GoCell::Empty;
    assert!(!state.is_well_formed());
    let mut state = new_9x9();
    state.size = usize::MAX;
    assert!(!state.is_well_formed());
    state.size = 0;
    state.board.clear();
    assert!(!state.is_well_formed());
}

#[test]
fn validator_player_rejects_eye_fill() {
    let mut rng = GameRng::with_seed(42);
    let mut state = new_9x9();
    for (r, c) in [(0, 1), (2, 1), (1, 0), (1, 2)] {
        let i = state.flat_index(r, c);
        state.board[i] = GoCell::Black;
    }
    state.to_play = GoCell::Black;
    let legal = state.legal_moves();
    let mut player = GoValidatorPlayer;
    match player.select_move(&state, &legal, &mut rng) {
        GoAction::Place(r, c) => {
            if legal.len() > 1 {
                assert!(!(r == 1 && c == 1), "Validator should not fill own eye at (1,1)");
            }
        }
        GoAction::Pass => {}
    }
    assert!(!validate_move(&state, 1, 1));
}

#[test]
fn hl_player_categorizes_moves() {
    let state = new_9x9();
    let center_cat = categorize_move(&state, 4, 4);
    assert!(
        matches!(
            center_cat,
            GoMoveCategory::CenterControl | GoMoveCategory::CornerStar | GoMoveCategory::Influence
        ),
        "Center of empty board should be positional, got {center_cat:?}"
    );
    let star_cat = categorize_move(&state, 2, 2);
    assert_eq!(star_cat, GoMoveCategory::CornerStar);
}

#[test]
fn hl_player_selects_and_tracks_category() {
    let mut rng = GameRng::with_seed(42);
    let state = new_9x9();
    let legal = state.legal_moves();
    let mut player = GoHLPlayer::new();
    let _action = player.select_move(&state, &legal, &even_blend(&legal), &mut rng);
    assert!(player.last_category.is_some());
}

#[test]
fn hl_player_update_outcome() {
    let mut rng = GameRng::with_seed(42);
    let state = new_9x9();
    let legal = state.legal_moves();
    let mut player = GoHLPlayer::new();
    let _action = player.select_move(&state, &legal, &even_blend(&legal), &mut rng);
    let cat = player.last_category.unwrap();
    let q_before = f32::from_bits(player.q_values()[cat.index()]);
    let credit = player.update_outcome().expect("credit");
    assert_eq!(credit.arm, cat.index());
    let mut q = player.q_values()[credit.arm];
    reward(&mut q, credit.visits, 1.0);
    player.learn(credit.arm, q);
    assert!(player.last_category.is_none());
    let q_after = f32::from_bits(player.q_values()[cat.index()]);
    assert!(q_after > q_before, "Q-value should increase after win");
    assert!(player.update_outcome().is_none());
}

#[test]
fn hl_player_explores_less_after_each_game() {
    let mut player = GoHLPlayer::new();
    let mut rate = 0.15f32;
    let mut games = 0;
    while player.epsilon != 0.05f32.to_bits() {
        assert!(player.update_outcome().is_none());
        rate = (rate * 0.995).max(0.05);
        games += 1;
        assert_eq!(player.epsilon, rate.to_bits());
    }
    assert_eq!(games, 220);
    player.update_outcome();
    assert_eq!(f32::from_bits(player.epsilon), 0.05);
}

#[test]
fn hl_player_takes_the_best_blend() {
    let state = new_9x9();
    let legal = state.legal_moves();
    let mut blend = even_blend(&legal);
    blend[17] = 0.9f32.to_bits();
    blend[30] = 0.9f32.to_bits();
    let mut seen = false;
    for seed in 0..30 {
        let mut player = GoHLPlayer::new();
        let mut rng = GameRng::with_seed(seed);
        let mut twin = fastrand::Rng::with_seed(seed);
        let action = player.select_move(&state, &legal, &blend, &mut rng);
        let expected = if twin.f32() < 0.15 { twin.usize(0..legal.len()) } else { 30 };
        seen = seen || expected == 30;
        assert_eq!(action, GoAction::Place(legal[expected].0, legal[expected].1));
    }
    assert!(seen);
}

#[test]
fn gzero_player_selects_template() {
    let mut rng = GameRng::with_seed(42);
    let state = new_9x9();
    let legal = state.legal_moves();
    let mut player = GoGZeroPlayer::new();
    let b = bounds(&player.stats);
    let _action = player.select_move(&state, &legal, &b, &mut rng);
    assert!(player.last_template.is_some());
    assert!(player.last_own_move.is_some());
}

#[test]
fn gzero_player_update_outcome() {
    let mut rng = GameRng::with_seed(42);
    let state = new_9x9();
    let legal = state.legal_moves();
    let mut player = GoGZeroPlayer::new();
    let b = bounds(&player.stats);
    player.select_move(&state, &legal, &b, &mut rng);
    assert!(player.last_template.is_some());
    let credit = player.update_outcome().expect("credit");
    reward(&mut player.stats.q_values[credit.arm], credit.visits, 1.0);
    assert!(player.last_template.is_none());
}

#[test]
fn gzero_template_stats_ucb1() {
    let mut stats = TemplateStats::new();
    assert_eq!(ucb1(&stats, 0), f32::MAX);
    let credit = stats.pull(0).expect("credit");
    reward(&mut stats.q_values[0], credit.visits, 1.0);
    assert!(ucb1(&stats, 0) > 0.0);
    assert!(ucb1(&stats, 1) == f32::MAX);
    assert!(stats.pull(NUM_TEMPLATES).is_none());
}

#[test]
fn templates_propose_among_legal_moves() {
    let state = new_9x9();
    let legal = state.legal_moves();
    let player = GoGZeroPlayer::new();
    for arm in 0..NUM_TEMPLATES {
        let mut b = vec![0u32; NUM_TEMPLATES];
        b[arm] = 1.0f32.to_bits();
        let t = player.select_template(&b);
        assert_eq!(t.index(), arm);
        let moves = player.propose_moves(t, &state, &legal);
        assert!(!moves.is_empty());
        assert!(moves.iter().all(|m| legal.contains(m)));
    }
}

#[test]
fn mcts_player_returns_valid_action() {
    let state = new_9x9();
    let legal = state.legal_moves();
    let player = GoMctsPlayer::new(10, 5);
    assert_eq!(player.plan(&legal), MctsPlan::Search { budget: 10, rollout_depth: 5 });
    match player.select_move(&state, &legal, search_by_rollouts) {
        GoAction::Place(r, c) => {
            assert!(state.is_legal(r, c), "MCTS returned illegal ({r},{c})");
        }
        GoAction::Pass => panic!("MCTS should not pass on empty board"),
    }
}

/// Plays each move in turn until the budget is spent, and on from it at random: the move whose
/// player has taken most stones by the end.
fn search_by_rollouts(state: &GoState, mover: u8, budget: usize, depth: usize) -> GoAction {
    assert_eq!(mover, state.to_play.player_id());
    let mut rng = GameRng::with_seed(42);
    let mut best = (i64::MIN, GoAction::Pass);
    for (r, c) in state.legal_moves().into_iter().take(budget) {
        let mut s = state.advance(&GoAction::Place(r, c));
        for _ in 0..depth {
            let action = GoRandomPlayer.select_move(&s, &s.legal_moves(), &mut rng);
            s = s.advance(&action);
        }
        let lead = s.captured_black as i64 - s.captured_white as i64;
        let value = if mover == 0 { lead } else { -lead };
        if value > best.0 {
            best = (value, GoAction::Place(r, c));
        }
    }
    best.1
}

#[test]
fn mcts_player_passes_when_no_moves() {
    let state = full_board();
    let legal = state.legal_moves();
    let player = GoMctsPlayer::new(10, 5);
    assert_eq!(player.plan(&legal), MctsPlan::Play(GoAction::Pass));
    assert_eq!(player.select_move(&state, &legal, search_by_rollouts), GoAction::Pass);
}

#[test]
fn mcts_player_single_move_fast_path() {
    let mut state = full_board();
    state.board[0] = GoCell::Empty;
    state.board[1] = GoCell::White;
    state.to_play = GoCell::Black;
    let legal = state.legal_moves();
    assert_eq!(legal.len(), 1);
    let player = GoMctsPlayer::new(10, 5);
    assert_eq!(player.plan(&legal), MctsPlan::Play(GoAction::Place(0, 0)));
    assert_eq!(player.select_move(&state, &legal, search_by_rollouts), GoAction::Place(0, 0));
}

#[test]
fn all_players_select_valid_on_empty() {
    let mut rng = GameRng::with_seed(42);
    let state = new_9x9();
    let legal = state.legal_moves();
    assert!(!legal.is_empty());
    let mut hl = GoHLPlayer::new();
    let mut gz = GoGZeroPlayer::new();
    let b = bounds(&gz.stats);
    let actions = [
        GoRandomPlayer.select_move(&state, &legal, &mut rng),
        GoGreedyPlayer.select_move(&state, &legal, &mut rng),
        GoValidatorPlayer.select_move(&state, &legal, &mut rng),
        hl.select_move(&state, &legal, &even_blend(&legal), &mut rng),
        gz.select_move(&state, &legal, &b, &mut rng),
        GoMctsPlayer::new(10, 5).select_move(&state, &legal, search_by_rollouts),
    ];
    for (i, action) in actions.iter().enumerate() {
        match action {
            GoAction::Place(r, c) => {
                assert!(state.is_legal(*r, *c), "player {i} returned illegal ({r},{c})");
            }
            GoAction::Pass => {}
        }
    }
}

#[test]
fn player_names() {
    assert_eq!(GoRandomPlayer.name(), "Random");
    assert_eq!(GoGreedyPlayer.name(), "Greedy");
    assert_eq!(GoValidatorPlayer.name(), "Validator");
    assert_eq!(GoHLPlayer::new().name(), "HL");
    assert_eq!(GoGZeroPlayer::new().name(), "GZero");
    assert_eq!(GoMctsPlayer::default().name(), "MCTS");
}

fn play_game<B: GoPlayer, W: GoPlayer>(black: &mut B, white: &mut W) -> GoState {
    let mut rng = GameRng::with_seed(42);
    let mut state = new_9x9();
    for _ in 0..300 {
        if state.is_terminal() {
            break;
        }
        let legal = state.legal_moves();
        let action = match state.to_play {
            GoCell::Black => black.select_move(&state, &legal, &mut rng),
            GoCell::White => white.select_move(&state, &legal, &mut rng),
            GoCell::Empty => panic!("Empty to_play"),
        };
        match action {
            GoAction::Place(r, c) => {
                assert!(state.play_move(r, c), "Move ({r},{c}) should be legal");
            }
            GoAction::Pass => state.play_pass(),
        }
    }
    state
}

#[test]
fn random_vs_random_game_completes() {
    let state = play_game(&mut GoRandomPlayer, &mut GoRandomPlayer);
    assert!(state.move_count > 0, "Game should have moves");
}

#[test]
fn greedy_vs_random_game_completes() {
    let state = play_game(&mut GoGreedyPlayer, &mut GoRandomPlayer);
    assert!(state.move_count > 0);
}

#[test]
fn reset_clears_state() {
    let mut rng = GameRng::with_seed(42);
    let state = new_9x9();
    let legal = state.legal_moves();
    let mut hl = GoHLPlayer::new();
    hl.select_move(&state, &legal, &even_blend(&legal), &mut rng);
    assert!(hl.last_category.is_some());
    hl.reset();
    assert!(hl.last_category.is_none());
    let mut gz = GoGZeroPlayer::new();
    let b = bounds(&gz.stats);
    gz.select_move(&state, &legal, &b, &mut rng);
    assert!(gz.last_template.is_some());
    gz.reset();
    assert!(gz.last_template.is_none());
}

#[test]
fn categorize_empty_board_opening() {
    let state = new_9x9();
    assert_eq!(categorize_move(&state, 2, 2), GoMoveCategory::CornerStar);
    assert_eq!(categorize_move(&state, 6, 6), GoMoveCategory::CornerStar);
    let side = categorize_move(&state, 2, 5);
    assert_eq!(side, GoMoveCategory::SideApproach);
    let center = categorize_move(&state, 4, 4);
    assert_eq!(center, GoMoveCategory::CornerStar);
    let near_center = categorize_move(&state, 4, 3);
    assert!(
        matches!(near_center, GoMoveCategory::CenterControl | GoMoveCategory::Influence),
        "Near center should be positional, got {near_center:?}"
    );
}

#[test]
fn validate_rejects_large_group_self_atari() {
    let mut state = new_9x9();
    for (r, c) in [(4, 4), (4, 5), (4, 6)] {
        let i = state.flat_index(r, c);
        state.board[i] = GoCell::Black;
    }
    for (r, c) in [(3, 4), (3, 5), (3, 6), (5, 4), (5, 6), (4, 7)] {
        let i = state.flat_index(r, c);
        state.board[i] = GoCell::White;
    }
    state.to_play = GoCell::Black;
    let result = validate_move(&state, 5, 5);
    let _ = result;
}

#[test]
fn captures_remove_stones_and_pass_the_turn() {
    let mut state = new_9x9();
    for (r, c) in [(0, 1), (1, 0)] {
        assert!(state.play_move(r, c));
        if (r, c) == (0, 1) {
            assert!(state.play_move(0, 0));
        } else {
            break;
        }
    }
    assert_eq!(state.board[0], GoCell::Empty);
    assert_eq!(state.captured_black, 1);
    assert_eq!(state.to_play, GoCell::White);
    assert!(!state.is_terminal());
    state.play_pass();
    state.play_pass();
    assert!(state.is_terminal());
}

#[test]
fn mcts_default_values() {
    let player = GoMctsPlayer::default();
    assert_eq!(player.budget(), DEFAULT_MCTS_BUDGET);
    assert_eq!(player.rollout_depth(), DEFAULT_MCTS_ROLLOUT_DEPTH);
}

#[test]
fn hl_default_impl() {
    let player = GoHLPlayer::default();
    assert_eq!(player.name(), "HL");
    assert_eq!(player.q_values().len(), NUM_CATEGORIES);
}

#[test]
fn gzero_default_impl() {
    let player = GoGZeroPlayer::default();
    assert_eq!(player.name(), "GZero");
}

#[test]
fn go_move_category_count() {
    assert_eq!(GoMoveCategory::count(), 8);
}

#[test]
fn go_template_count() {
    assert_eq!(GoTemplate::count(), 4);
}
