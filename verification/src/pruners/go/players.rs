//! Go players.
//!
//! - **GoRandomPlayer** — random legal move with occasional pass
//! - **GoGreedyPlayer** — immediate capture + liberty + positional scoring
//! - **GoValidatorPlayer** — safety-first rules layered on greedy

use vstd::prelude::*;

use crate::float_bits;
use crate::pruners::go::scoring;
use crate::pruners::go::scoring::{greedy_score, validate_move};
use crate::pruners::go::state::{GoAction, GoState};
use crate::random;
use crate::random::{GameRng, REDRAWS};

verus! {

/// How often the random player passes (0.02), as the bit pattern of a single-precision number.
pub const PASS_PROBABILITY: u32 = 0x3CA3_D70A;

/// Every listed move is on the board.
pub open spec fn moves_on_board(s: &GoState, moves: Seq<(usize, usize)>) -> bool {
    forall|i: int|
        0 <= i < moves.len() ==> (#[trigger] moves[i]).0 < s.size && moves[i].1 < s.size
}

/// Go player strategy.
///
/// Each player receives the board state and legal moves, returns an action.
pub trait GoPlayer {
    /// Select a move given the current board state and legal moves.
    ///
    /// `legal_moves` does NOT include pass — players may still return `GoAction::Pass`.
    fn select_move(
        &mut self,
        state: &GoState,
        legal_moves: &[(usize, usize)],
        rng: &mut GameRng,
    ) -> (action: GoAction)
        requires
            state.wf(),
            moves_on_board(state, legal_moves@),
        ensures
            legal_moves@.len() == 0 ==> action is Pass,
            action matches GoAction::Place(r, c) ==> legal_moves@.contains((r, c)),
    ;

    /// Human-readable player name.
    fn name(&self) -> (s: &'static str);

    /// Reset internal state between games.
    fn reset(&mut self);
}

/// The random player's move and the seed after it.
pub open spec fn random_move(moves: Seq<(usize, usize)>, seed: u64) -> (GoAction, u64) {
    if moves.len() == 0 {
        (GoAction::Pass, seed)
    } else {
        let (roll, s1) = random::unit_roll_spec(seed, REDRAWS as nat);
        if roll < PASS_PROBABILITY {
            (GoAction::Pass, s1)
        } else {
            let (k, s2) = random::fastrand_u64(s1, (moves.len() - 1) as u64);
            (GoAction::Place(moves[k as int].0, moves[k as int].1), s2)
        }
    }
}

/// The score of the move at a place in the list.
pub open spec fn score_of(s: &GoState, moves: Seq<(usize, usize)>, i: int) -> int {
    scoring::score(s, moves[i].0 as int, moves[i].1 as int)
}

/// The place of the best of the first `n` moves, the later of equals.
pub open spec fn best_late(s: &GoState, moves: Seq<(usize, usize)>, n: nat) -> int
    decreases n,
{
    if n <= 1 {
        0
    } else {
        let best = best_late(s, moves, (n - 1) as nat);
        if score_of(s, moves, n - 1) >= score_of(s, moves, best) {
            n - 1
        } else {
            best
        }
    }
}

/// The place of the best of the first `n` moves, the earlier of equals; with `sound_only`, of
/// those that pass validation.
pub open spec fn best_early(
    s: &GoState,
    moves: Seq<(usize, usize)>,
    sound_only: bool,
    n: nat,
) -> Option<int>
    decreases n,
{
    if n == 0 {
        None
    } else {
        let best = best_early(s, moves, sound_only, (n - 1) as nat);
        let m = moves[n - 1];
        if sound_only && !scoring::sound_move(s, m.0 as int, m.1 as int) {
            best
        } else if best is Some && score_of(s, moves, n - 1) <= score_of(s, moves, best->0) {
            best
        } else {
            Some(n - 1)
        }
    }
}

proof fn lemma_best_late(s: &GoState, moves: Seq<(usize, usize)>, n: nat)
    requires
        0 < n <= moves.len(),
    ensures
        0 <= best_late(s, moves, n) < n,
        forall|i: int|
            #![trigger moves[i]]
            0 <= i < n ==> score_of(s, moves, i) <= score_of(s, moves, best_late(s, moves, n)),
    decreases n,
{
    if n > 1 {
        lemma_best_late(s, moves, (n - 1) as nat);
    }
}

proof fn lemma_best_early(s: &GoState, moves: Seq<(usize, usize)>, sound_only: bool, n: nat)
    requires
        n <= moves.len(),
    ensures
        ({
            let best = best_early(s, moves, sound_only, n);
            &&& best matches Some(b) ==> {
                &&& 0 <= b < n
                &&& sound_only ==> scoring::sound_move(s, moves[b].0 as int, moves[b].1 as int)
                &&& forall|i: int|
                    #![trigger moves[i]]
                    0 <= i < n && (!sound_only || scoring::sound_move(
                        s,
                        moves[i].0 as int,
                        moves[i].1 as int,
                    )) ==> score_of(s, moves, i) <= score_of(s, moves, b)
            }
            &&& best is None ==> forall|i: int|
                0 <= i < n ==> sound_only && !scoring::sound_move(
                    s,
                    (#[trigger] moves[i]).0 as int,
                    moves[i].1 as int,
                )
        }),
    decreases n,
{
    if n > 0 {
        lemma_best_early(s, moves, sound_only, (n - 1) as nat);
    }
}

/// The place of the best-scored move, the later of equals.
pub fn pick_best_late(s: &GoState, moves: &[(usize, usize)]) -> (best: usize)
    requires
        s.wf(),
        moves_on_board(s, moves@),
        moves@.len() > 0,
    ensures
        best == best_late(s, moves@, moves@.len()),
        best < moves@.len(),
{
    let mut best: usize = 0;
    assert(moves@[0].0 < s.size);
    let mut best_score: i128 = greedy_score(s, moves[0].0, moves[0].1);
    let mut n: usize = 1;
    while n < moves.len()
        invariant
            1 <= n <= moves@.len(),
            s.wf(),
            moves_on_board(s, moves@),
            best < n,
            best == best_late(s, moves@, n as nat),
            best_score == score_of(s, moves@, best as int),
        decreases moves@.len() - n,
    {
        assert(moves@[n as int].0 < s.size);
        let score: i128 = greedy_score(s, moves[n].0, moves[n].1);
        if score >= best_score {
            best = n;
            best_score = score;
        }
        n = n + 1;
    }
    best
}

fn pick_best_early(s: &GoState, moves: &[(usize, usize)], sound_only: bool) -> (best: Option<usize>)
    requires
        s.wf(),
        moves_on_board(s, moves@),
    ensures
        best is Some == best_early(s, moves@, sound_only, moves@.len()) is Some,
        best matches Some(b) ==> best_early(s, moves@, sound_only, moves@.len()) == Some(b as int)
            && b < moves@.len(),
{
    let mut best: Option<usize> = None;
    let mut best_score: i128 = 0;
    let mut n: usize = 0;
    while n < moves.len()
        invariant
            n <= moves@.len(),
            s.wf(),
            moves_on_board(s, moves@),
            best is Some == best_early(s, moves@, sound_only, n as nat) is Some,
            best matches Some(b) ==> best_early(s, moves@, sound_only, n as nat) == Some(b as int)
                && b < n && best_score == score_of(s, moves@, b as int),
        decreases moves@.len() - n,
    {
        assert(moves@[n as int].0 < s.size);
        let (row, col) = moves[n];
        if !sound_only || validate_move(s, row, col) {
            let score: i128 = greedy_score(s, row, col);
            if best.is_none() || score > best_score {
                best = Some(n);
                best_score = score;
            }
        }
        n = n + 1;
    }
    best
}

/// Random player: picks a random legal move with 2% pass probability.
///
/// Occasional pass prevents infinite games in endgame positions.
#[derive(Clone, Copy, Debug)]
pub struct GoRandomPlayer;

impl GoPlayer for GoRandomPlayer {
    fn select_move(
        &mut self,
        state: &GoState,
        legal_moves: &[(usize, usize)],
        rng: &mut GameRng,
    ) -> (action: GoAction)
        ensures
            (action, final(rng).seed) == random_move(legal_moves@, old(rng).seed),
    {
        if legal_moves.len() == 0 {
            return GoAction::Pass;
        }
        if rng.chance(PASS_PROBABILITY) {
            return GoAction::Pass;
        }
        let k: usize = rng.below(legal_moves.len());
        let (r, c) = legal_moves[k];
        assert(legal_moves@[k as int] == (r, c));
        GoAction::Place(r, c)
    }

    fn name(&self) -> (s: &'static str)
        ensures
            s@ == "Random"@,
    {
        "Random"
    }

    fn reset(&mut self)
        ensures
            *final(self) == *old(self),
    {
    }
}

/// Greedy player: scores each move by captures, liberties, threats, position.
///
/// Scoring formula (additive):
/// 1. Capture priority: +10 per captured stone
/// 2. Liberty gain: +0.5 per liberty of resulting group
/// 3. Atari threat: +5 per opponent group put in atari
/// 4. Center bonus: 0–2 based on distance from center
/// 5. Edge penalty: -3 for first-line moves (unless capturing)
/// 6. Self-atari penalty: -20 if move puts own group in atari
#[derive(Clone, Copy, Debug)]
pub struct GoGreedyPlayer;

impl GoPlayer for GoGreedyPlayer {
    fn select_move(
        &mut self,
        state: &GoState,
        legal_moves: &[(usize, usize)],
        rng: &mut GameRng,
    ) -> (action: GoAction)
        ensures
            *final(rng) == *old(rng),
            legal_moves@.len() > 0 ==> {
                let best = best_late(state, legal_moves@, legal_moves@.len());
                &&& action == GoAction::Place(legal_moves@[best].0, legal_moves@[best].1)
                &&& forall|i: int|
                    #![trigger legal_moves@[i]]
                    0 <= i < legal_moves@.len() ==> score_of(state, legal_moves@, i) <= score_of(
                        state,
                        legal_moves@,
                        best,
                    )
            },
    {
        if legal_moves.len() == 0 {
            return GoAction::Pass;
        }
        proof {
            lemma_best_late(state, legal_moves@, legal_moves@.len());
        }
        let best: usize = pick_best_late(state, legal_moves);
        let (r, c) = legal_moves[best];
        assert(legal_moves@[best as int] == (r, c));
        GoAction::Place(r, c)
    }

    fn name(&self) -> (s: &'static str)
        ensures
            s@ == "Greedy"@,
    {
        "Greedy"
    }

    fn reset(&mut self)
        ensures
            *final(self) == *old(self),
    {
    }
}

/// Safety-first player: validation rules layered on top of greedy scoring.
///
/// Rejects moves that:
/// 1. Put own groups with 3+ stones in atari
/// 2. Fill own potential eyes (all neighbors are own stones)
///
/// Falls back to best greedy-scored move if all moves fail validation.
#[derive(Clone, Copy, Debug)]
pub struct GoValidatorPlayer;

impl GoPlayer for GoValidatorPlayer {
    fn select_move(
        &mut self,
        state: &GoState,
        legal_moves: &[(usize, usize)],
        rng: &mut GameRng,
    ) -> (action: GoAction)
        ensures
            *final(rng) == *old(rng),
            legal_moves@.len() > 0 ==> {
                let sound = best_early(state, legal_moves@, true, legal_moves@.len());
                let any = best_early(state, legal_moves@, false, legal_moves@.len());
                let best = if sound is Some {
                    sound->0
                } else {
                    any->0
                };
                action == GoAction::Place(legal_moves@[best].0, legal_moves@[best].1)
            },
            action matches GoAction::Place(r, c) ==> scoring::sound_move(state, r as int, c as int)
                || forall|i: int|
                0 <= i < legal_moves@.len() ==> !scoring::sound_move(
                    state,
                    (#[trigger] legal_moves@[i]).0 as int,
                    legal_moves@[i].1 as int,
                ),
    {
        if legal_moves.len() == 0 {
            return GoAction::Pass;
        }
        proof {
            lemma_best_early(state, legal_moves@, true, legal_moves@.len());
            lemma_best_early(state, legal_moves@, false, legal_moves@.len());
            assert(legal_moves@[0] == legal_moves@[0]);
        }
        let best: usize = match pick_best_early(state, legal_moves, true) {
            Some(b) => b,
            None => match pick_best_early(state, legal_moves, false) {
                Some(b) => b,
                None => 0,
            },
        };
        let (r, c) = legal_moves[best];
        assert(legal_moves@[best as int] == (r, c));
        GoAction::Place(r, c)
    }

    fn name(&self) -> (s: &'static str)
        ensures
            s@ == "Validator"@,
    {
        "Validator"
    }

    fn reset(&mut self)
        ensures
            *final(self) == *old(self),
    {
    }
}

/// The greedy player takes the last of the moves with the best score.
pub proof fn law_late_pick(s: &GoState, moves: Seq<(usize, usize)>, i: int)
    requires
        0 <= i < moves.len(),
    ensures
        0 <= best_late(s, moves, moves.len()) < moves.len(),
        score_of(s, moves, i) <= score_of(s, moves, best_late(s, moves, moves.len())),
        i > best_late(s, moves, moves.len()) ==> score_of(s, moves, i) < score_of(
            s,
            moves,
            best_late(s, moves, moves.len()),
        ),
{
    lemma_best_late(s, moves, moves.len());
    assert(moves[i] == moves[i]);
    lemma_late_is_last(s, moves, moves.len(), i);
}

proof fn lemma_late_is_last(s: &GoState, moves: Seq<(usize, usize)>, n: nat, i: int)
    requires
        0 < n <= moves.len(),
    ensures
        best_late(s, moves, n) < i < n ==> score_of(s, moves, i) < score_of(
            s,
            moves,
            best_late(s, moves, n),
        ),
    decreases n,
{
    if n > 1 {
        lemma_late_is_last(s, moves, (n - 1) as nat, i);
    }
}

/// The validator player takes the first of the sound moves with the best score; where no move is
/// sound, the first of all moves with the best score.
pub proof fn law_early_pick(s: &GoState, moves: Seq<(usize, usize)>, sound_only: bool, i: int)
    requires
        0 <= i < moves.len(),
        !sound_only || scoring::sound_move(s, moves[i].0 as int, moves[i].1 as int),
    ensures
        best_early(s, moves, sound_only, moves.len()) matches Some(b) && 0 <= b < moves.len() && (
        sound_only ==> scoring::sound_move(s, moves[b].0 as int, moves[b].1 as int)) && score_of(
            s,
            moves,
            i,
        ) <= score_of(s, moves, b) && (i < b ==> score_of(s, moves, i) < score_of(s, moves, b)),
{
    lemma_best_early(s, moves, sound_only, moves.len());
    assert(moves[i] == moves[i]);
    lemma_early_is_first(s, moves, sound_only, moves.len(), i);
}

proof fn lemma_early_is_first(
    s: &GoState,
    moves: Seq<(usize, usize)>,
    sound_only: bool,
    n: nat,
    i: int,
)
    requires
        n <= moves.len(),
        0 <= i < moves.len(),
        !sound_only || scoring::sound_move(s, moves[i].0 as int, moves[i].1 as int),
    ensures
        best_early(s, moves, sound_only, n) matches Some(b) && i < b ==> score_of(s, moves, i)
            < score_of(s, moves, best_early(s, moves, sound_only, n)->0),
    decreases n,
{
    if n > 0 {
        lemma_early_is_first(s, moves, sound_only, (n - 1) as nat, i);
        lemma_best_early(s, moves, sound_only, (n - 1) as nat);
        if i < n - 1 {
            assert(moves[i] == moves[i]);
        }
    }
}

/// The random player passes without a move and on one roll in fifty; otherwise it plays one of
/// the moves.
pub proof fn law_random_player(moves: Seq<(usize, usize)>, seed: u64)
    ensures
        moves.len() == 0 ==> random_move(moves, seed) == (GoAction::Pass, seed),
        moves.len() > 0 && random::unit_roll_spec(seed, REDRAWS as nat).0 < PASS_PROBABILITY
            ==> random_move(moves, seed).0 is Pass,
        moves.len() > 0 && random::unit_roll_spec(seed, REDRAWS as nat).0 >= PASS_PROBABILITY
            ==> random_move(moves, seed).0 is Place,
        float_bits::is_nearest_to(PASS_PROBABILITY, 1, 50),
{
    vstd::arithmetic::power2::lemma2_to64();
}

} // verus!
