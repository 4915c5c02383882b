//! Players that learn or search.
//!
//! - **GoHLPlayer** — bandit over 8 move categories
//! - **GoGZeroPlayer** — template proposer
//! - **GoMctsPlayer** — tree search with fast paths
//!
//! Learned values, exploration rates and blended scores are single-precision numbers, carried
//! as bit patterns.

use vstd::prelude::*;

use crate::float_bits;
use crate::float_bits::{multiply_bits, order_key};
use crate::pruners::go::players;
use crate::pruners::go::players::pick_best_late;
use crate::pruners::go::scoring;
use crate::pruners::go::scoring::{
    captures_for, categorize_move, is_saving_move, is_star_point, GoMoveCategory, NUM_CATEGORIES,
};
use crate::pruners::go::state::{GoAction, GoState};
use crate::random;
use crate::random::{GameRng, REDRAWS};

verus! {

/// How often the bandit player explores at first (0.15), as a bit pattern.
pub const HL_EPSILON: u32 = 0x3E19_999A;

/// The factor by which the bandit player explores less after each game (0.995), as a bit pattern.
pub const HL_DECAY: u32 = 0x3F7E_B852;

/// How often the bandit player explores at least (0.05), as a bit pattern.
pub const HL_EPSILON_MIN: u32 = 0x3D4C_CCCD;

/// Number of strategy templates.
pub const NUM_TEMPLATES: usize = 4;

/// Default number of search iterations.
pub const DEFAULT_MCTS_BUDGET: usize = 200;

/// Default number of moves in a rollout.
pub const DEFAULT_MCTS_ROLLOUT_DEPTH: usize = 50;

/// An arm that is credited with a game, and how often it has been credited, this game
/// included.
#[derive(Clone, Copy, Debug, PartialEq, Eq, Structural)]
pub struct ArmCredit {
    pub arm: usize,
    pub visits: u32,
}

/// The place of the highest of the first `n` numbers, the later of equals.
pub open spec fn highest(scores: Seq<u32>, n: nat) -> int
    decreases n,
{
    if n <= 1 {
        0
    } else {
        let best = highest(scores, (n - 1) as nat);
        if float_bits::key(scores[n - 1]) >= float_bits::key(scores[best]) {
            n - 1
        } else {
            best
        }
    }
}

fn pick_highest(scores: &Vec<u32>) -> (best: usize)
    requires
        scores@.len() > 0,
    ensures
        best == highest(scores@, scores@.len()),
        best < scores@.len(),
{
    let mut best: usize = 0;
    let mut n: usize = 1;
    while n < scores.len()
        invariant
            1 <= n <= scores@.len(),
            best < n,
            best == highest(scores@, n as nat),
        decreases scores@.len() - n,
    {
        if order_key(scores[n]) >= order_key(scores[best]) {
            best = n;
        }
        n = n + 1;
    }
    best
}

/// No number is higher than the one picked.
pub proof fn law_highest_is_maximal(scores: Seq<u32>, n: nat)
    requires
        0 < n <= scores.len(),
    ensures
        0 <= highest(scores, n) < n,
        forall|i: int|
            0 <= i < n ==> float_bits::key(#[trigger] scores[i]) <= float_bits::key(
                scores[highest(scores, n)],
            ),
    decreases n,
{
    if n > 1 {
        law_highest_is_maximal(scores, (n - 1) as nat);
    }
}

/// The place of the move that the bandit player picks, and the seed after it.
pub open spec fn hl_pick(epsilon: u32, blended: Seq<u32>, seed: u64) -> (int, u64) {
    let (roll, s1) = random::unit_roll_spec(seed, REDRAWS as nat);
    if roll < epsilon {
        let (k, s2) = random::fastrand_u64(s1, (blended.len() - 1) as u64);
        (k as int, s2)
    } else {
        (highest(blended, blended.len()), s1)
    }
}

/// The exploration rate after a game: a little lower, but not below the least.
pub open spec fn decayed(epsilon: u32) -> u32 {
    let rate = float_bits::product_bits(epsilon, HL_DECAY);
    if rate < HL_EPSILON_MIN {
        HL_EPSILON_MIN
    } else {
        rate as u32
    }
}

/// The exploration rate after a number of games.
pub open spec fn decayed_by(epsilon: u32, games: nat) -> u32
    decreases games,
{
    if games == 0 {
        epsilon
    } else {
        decayed(decayed_by(epsilon, (games - 1) as nat))
    }
}

/// Bandit player over 8 move categories.
///
/// Explores at a rate of 0.15 that decays to 0.05, otherwise takes the best blended score. After
/// each game the category of the last move is credited.
#[derive(Debug)]
pub struct GoHLPlayer {
    /// Bit patterns of the learned values.
    pub q_values: Vec<u32>,
    pub visits: Vec<u32>,
    /// Bit pattern of the exploration rate.
    pub epsilon: u32,
    pub last_category: Option<GoMoveCategory>,
}

impl GoHLPlayer {
    /// One slot per category, and a rate between the first and the least.
    pub open spec fn wf(&self) -> bool {
        &&& self.q_values@.len() == NUM_CATEGORIES
        &&& self.visits@.len() == NUM_CATEGORIES
        &&& HL_EPSILON_MIN <= self.epsilon <= HL_EPSILON
    }

    /// Create a new HL player with default settings.
    pub fn new() -> (p: GoHLPlayer)
        ensures
            p.wf(),
            p.epsilon == HL_EPSILON,
            p.last_category is None,
            forall|i: int|
                0 <= i < NUM_CATEGORIES ==> #[trigger] p.q_values@[i] == 0 && p.visits@[i] == 0,
    {
        GoHLPlayer {
            q_values: vec![0u32; 8],
            visits: vec![0u32; 8],
            epsilon: HL_EPSILON,
            last_category: None,
        }
    }

    /// The category of each move.
    pub fn categorize(state: &GoState, legal_moves: &[(usize, usize)]) -> (cats: Vec<
        GoMoveCategory,
    >)
        requires
            state.wf(),
            players::moves_on_board(state, legal_moves@),
        ensures
            cats@.len() == legal_moves@.len(),
            forall|i: int|
                0 <= i < cats@.len() ==> #[trigger] cats@[i] == scoring::category(
                    state,
                    legal_moves@[i].0 as int,
                    legal_moves@[i].1 as int,
                ),
    {
        let mut cats: Vec<GoMoveCategory> = Vec::new();
        let mut i: usize = 0;
        while i < legal_moves.len()
            invariant
                i <= legal_moves@.len(),
                state.wf(),
                players::moves_on_board(state, legal_moves@),
                cats@.len() == i,
                forall|j: int|
                    0 <= j < i ==> #[trigger] cats@[j] == scoring::category(
                        state,
                        legal_moves@[j].0 as int,
                        legal_moves@[j].1 as int,
                    ),
            decreases legal_moves@.len() - i,
        {
            assert(legal_moves@[i as int].0 < state.size);
            cats.push(categorize_move(state, legal_moves[i].0, legal_moves[i].1));
            i = i + 1;
        }
        cats
    }

    /// Picks a move, given the bit patterns of the blended scores.
    pub fn select_move(
        &mut self,
        state: &GoState,
        legal_moves: &[(usize, usize)],
        blended: &Vec<u32>,
        rng: &mut GameRng,
    ) -> (action: GoAction)
        requires
            old(self).wf(),
            state.wf(),
            players::moves_on_board(state, legal_moves@),
            blended@.len() == legal_moves@.len(),
        ensures
            final(self).wf(),
            final(self).q_values@ == old(self).q_values@,
            final(self).visits@ == old(self).visits@,
            final(self).epsilon == old(self).epsilon,
            legal_moves@.len() == 0 ==> action is Pass && final(self).last_category == Some(
                GoMoveCategory::Pass,
            ) && *final(rng) == *old(rng),
            legal_moves@.len() > 0 ==> {
                let (i, seed) = hl_pick(old(self).epsilon, blended@, old(rng).seed);
                let m = legal_moves@[i];
                &&& action == GoAction::Place(m.0, m.1)
                &&& legal_moves@.contains(m)
                &&& final(rng).seed == seed
                &&& final(self).last_category == Some(
                    scoring::category(state, m.0 as int, m.1 as int),
                )
            },
    {
        if legal_moves.len() == 0 {
            self.last_category = Some(GoMoveCategory::Pass);
            return GoAction::Pass;
        }
        let pick: usize = if rng.chance(self.epsilon) {
            rng.below(legal_moves.len())
        } else {
            pick_highest(blended)
        };
        let (r, c) = legal_moves[pick];
        assert(legal_moves@[pick as int].0 < state.size);
        self.last_category = Some(categorize_move(state, r, c));
        GoAction::Place(r, c)
    }

    /// Closes a game: credits the category of the last move, if there was one, and explores a
    /// little less from then on.
    ///
    /// The credited arm's value is to be moved toward the game's reward.
    pub fn update_outcome(&mut self) -> (credit: Option<ArmCredit>)
        requires
            old(self).wf(),
            forall|i: int| 0 <= i < NUM_CATEGORIES ==> #[trigger] old(self).visits@[i] < u32::MAX,
        ensures
            final(self).wf(),
            final(self).last_category is None,
            final(self).q_values@ == old(self).q_values@,
            final(self).epsilon == decayed(old(self).epsilon),
            old(self).last_category is None ==> credit is None && final(self).visits@ == old(
                self,
            ).visits@,
            old(self).last_category matches Some(cat) ==> {
                let visits = old(self).visits@[cat.arm()] + 1;
                &&& credit == Some(ArmCredit { arm: cat.arm() as usize, visits: visits as u32 })
                &&& final(self).visits@ == old(self).visits@.update(cat.arm(), visits as u32)
            },
    {
        let credit: Option<ArmCredit> = match self.last_category {
            Some(cat) => {
                let arm: usize = cat.index();
                assert(self.visits@[arm as int] < u32::MAX);
                let visits: u32 = self.visits[arm] + 1;
                self.visits.set(arm, visits);
                Some(ArmCredit { arm, visits })
            },
            None => None,
        };
        self.last_category = None;
        proof {
            lemma_decay_step(self.epsilon);
        }
        let rate: u32 = multiply_bits(self.epsilon, HL_DECAY);
        self.epsilon = if rate < HL_EPSILON_MIN {
            HL_EPSILON_MIN
        } else {
            rate
        };
        credit
    }

    /// Stores a learned value.
    pub fn learn(&mut self, arm: usize, q: u32)
        requires
            old(self).wf(),
            arm < NUM_CATEGORIES,
        ensures
            final(self).wf(),
            final(self).q_values@ == old(self).q_values@.update(arm as int, q),
            final(self).visits@ == old(self).visits@,
            final(self).epsilon == old(self).epsilon,
            final(self).last_category == old(self).last_category,
    {
        self.q_values.set(arm, q);
    }

    /// Current learned values (for inspection).
    pub fn q_values(&self) -> (q: &[u32])
        ensures
            q@ == self.q_values@,
    {
        self.q_values.as_slice()
    }

    /// Human-readable player name.
    pub fn name(&self) -> (s: &'static str)
        ensures
            s@ == "HL"@,
    {
        "HL"
    }

    /// Forgets the last move.
    pub fn reset(&mut self)
        ensures
            final(self).last_category is None,
            final(self).q_values@ == old(self).q_values@,
            final(self).visits@ == old(self).visits@,
            final(self).epsilon == old(self).epsilon,
    {
        self.last_category = None;
    }
}

impl Default for GoHLPlayer {
    fn default() -> (p: GoHLPlayer)
        ensures
            p.wf(),
            p.epsilon == HL_EPSILON,
            p.last_category is None,
            forall|i: int|
                0 <= i < NUM_CATEGORIES ==> #[trigger] p.q_values@[i] == 0 && p.visits@[i] == 0,
    {
        GoHLPlayer::new()
    }
}

/// A game lowers the rate by at least so much, unless it reaches the least.
proof fn lemma_decay_step(epsilon: u32)
    requires
        HL_EPSILON_MIN <= epsilon <= HL_EPSILON,
    ensures
        decayed(epsilon) == HL_EPSILON_MIN || decayed(epsilon) <= epsilon - 40_000,
        HL_EPSILON_MIN <= decayed(epsilon) <= epsilon,
{
    let m = float_bits::significand(epsilon) as int;
    let p = m * 0xFE_B852;
    let e = epsilon / 0x80_0000;
    let r = float_bits::product_bits(epsilon, HL_DECAY);
    assert(float_bits::significand(HL_DECAY) == 0xFE_B852);
    assert(HL_DECAY / 0x80_0000 == 126);
    assert(0x80_0000 <= m < 0x100_0000);
    assert(epsilon == e * 0x80_0000 + (m - 0x80_0000));
    assert(r <= epsilon - 40_000) by {
        if p < 0x8000_0000_0000 {
            let q = float_bits::round_half_even(p as nat, 0x80_0000) as int;
            assert(r == (e - 1) * 0x80_0000 + q - 0x80_0000);
            assert(q * 0x80_0000 <= p + 0x80_0000);
        } else {
            let q = float_bits::round_half_even(p as nat, 0x100_0000) as int;
            assert(r == e * 0x80_0000 + q - 0x80_0000);
            assert(q * 0x100_0000 <= p + 0x100_0000);
        }
    }
}

/// The rate never rises, and within 400 games it is the least and stays there.
pub proof fn law_exploration_decays(epsilon: u32, games: nat)
    requires
        HL_EPSILON_MIN <= epsilon <= HL_EPSILON,
    ensures
        HL_EPSILON_MIN <= decayed_by(epsilon, games) <= epsilon,
        decayed_by(epsilon, games + 1) <= decayed_by(epsilon, games),
        games >= 400 ==> decayed_by(epsilon, games) == HL_EPSILON_MIN,
{
    lemma_decayed_by(epsilon, games);
    lemma_decay_step(decayed_by(epsilon, games));
}

proof fn lemma_decayed_by(epsilon: u32, games: nat)
    requires
        HL_EPSILON_MIN <= epsilon <= HL_EPSILON,
    ensures
        HL_EPSILON_MIN <= decayed_by(epsilon, games) <= epsilon,
        decayed_by(epsilon, games) == HL_EPSILON_MIN || decayed_by(epsilon, games) <= epsilon
            - 40_000 * games,
    decreases games,
{
    if games > 0 {
        lemma_decayed_by(epsilon, (games - 1) as nat);
        lemma_decay_step(decayed_by(epsilon, (games - 1) as nat));
    }
}

/// Go strategy templates for self-play.
#[derive(Clone, Copy, Debug, PartialEq, Eq, Structural, Hash)]
pub enum GoTemplate {
    /// Play on star points — strongest opening heuristic.
    CornerStar,
    /// Atari/capture opponent stones — tactical reading.
    Capture,
    /// Save own groups in atari — defensive safety.
    Defend,
    /// Play away from current action — strategic flexibility.
    Tenuki,
}

impl GoTemplate {
    /// The template's arm.
    pub open spec fn arm(self) -> int {
        match self {
            GoTemplate::CornerStar => 0,
            GoTemplate::Capture => 1,
            GoTemplate::Defend => 2,
            GoTemplate::Tenuki => 3,
        }
    }

    /// The template of an arm.
    pub open spec fn of(arm: int) -> GoTemplate {
        if arm == 0 {
            GoTemplate::CornerStar
        } else if arm == 1 {
            GoTemplate::Capture
        } else if arm == 2 {
            GoTemplate::Defend
        } else {
            GoTemplate::Tenuki
        }
    }

    /// Number of templates.
    pub fn count() -> (n: usize)
        ensures
            n == NUM_TEMPLATES,
    {
        NUM_TEMPLATES
    }

    /// The template's arm.
    pub fn index(&self) -> (i: usize)
        ensures
            i == self.arm(),
            i < NUM_TEMPLATES,
    {
        match self {
            GoTemplate::CornerStar => 0,
            GoTemplate::Capture => 1,
            GoTemplate::Defend => 2,
            GoTemplate::Tenuki => 3,
        }
    }
}

/// A template and its arm determine each other.
pub proof fn law_template_arm_round_trip(t: GoTemplate, arm: int)
    requires
        0 <= arm < NUM_TEMPLATES,
    ensures
        GoTemplate::of(t.arm()) == t,
        GoTemplate::of(arm).arm() == arm,
{
}

/// What an arm's upper confidence bound is computed from.
#[derive(Clone, Copy, Debug, PartialEq, Eq, Structural)]
pub struct BoundInputs {
    /// Bit pattern of the learned value.
    pub q: u32,
    pub visits: u32,
    pub total: u32,
}

/// Pull counts and learned values of the templates.
#[derive(Debug)]
pub struct TemplateStats {
    /// Bit patterns of the learned values.
    pub q_values: Vec<u32>,
    pub visits: Vec<u32>,
    pub total_pulls: u32,
}

impl TemplateStats {
    /// One slot per template.
    pub open spec fn wf(&self) -> bool {
        self.q_values@.len() == NUM_TEMPLATES && self.visits@.len() == NUM_TEMPLATES
    }

    /// Nothing pulled yet.
    pub fn new() -> (s: TemplateStats)
        ensures
            s.wf(),
            s.total_pulls == 0,
            forall|i: int| 0 <= i < NUM_TEMPLATES ==> #[trigger] s.q_values@[i] == 0,
            forall|i: int| 0 <= i < NUM_TEMPLATES ==> #[trigger] s.visits@[i] == 0,
    {
        TemplateStats { q_values: vec![0u32; 4], visits: vec![0u32; 4], total_pulls: 0 }
    }

    /// What an arm's bound is computed from; an arm without pulls has no finite bound.
    pub fn bound_inputs(&self, arm: usize) -> (r: Option<BoundInputs>)
        requires
            self.wf(),
            arm < NUM_TEMPLATES,
        ensures
            r == (if self.visits@[arm as int] == 0 || self.total_pulls == 0 {
                None::<BoundInputs>
            } else {
                Some(
                    BoundInputs {
                        q: self.q_values@[arm as int],
                        visits: self.visits@[arm as int],
                        total: self.total_pulls,
                    },
                )
            }),
    {
        if self.visits[arm] == 0 || self.total_pulls == 0 {
            return None;
        }
        Some(
            BoundInputs {
                q: self.q_values[arm],
                visits: self.visits[arm],
                total: self.total_pulls,
            },
        )
    }

    /// Counts a pull of an arm. An arm out of range counts nothing.
    pub fn pull(&mut self, arm: usize) -> (credit: Option<ArmCredit>)
        requires
            old(self).wf(),
            old(self).total_pulls < u32::MAX,
            forall|i: int| 0 <= i < NUM_TEMPLATES ==> #[trigger] old(self).visits@[i] < u32::MAX,
        ensures
            final(self).wf(),
            final(self).q_values@ == old(self).q_values@,
            arm >= NUM_TEMPLATES ==> credit is None && *final(self) == *old(self),
            arm < NUM_TEMPLATES ==> {
                let visits = (old(self).visits@[arm as int] + 1) as u32;
                &&& credit == Some(ArmCredit { arm, visits })
                &&& final(self).visits@ == old(self).visits@.update(arm as int, visits)
                &&& final(self).total_pulls == old(self).total_pulls + 1
            },
    {
        if arm >= NUM_TEMPLATES {
            return None;
        }
        assert(self.visits@[arm as int] < u32::MAX);
        let visits: u32 = self.visits[arm] + 1;
        self.visits.set(arm, visits);
        self.total_pulls = self.total_pulls + 1;
        Some(ArmCredit { arm, visits })
    }
}

/// True when a move fits a template.
pub open spec fn fits(
    t: GoTemplate,
    s: &GoState,
    last: Option<(usize, usize)>,
    row: int,
    col: int,
) -> bool {
    match t {
        GoTemplate::CornerStar => scoring::on_star(row, col, s.size as int),
        GoTemplate::Capture => scoring::gain(s, s.index(row, col)) > 0,
        GoTemplate::Defend => scoring::saves(
            s.board@,
            s.size as nat,
            s.index(row, col),
            s.to_play,
        ),
        GoTemplate::Tenuki => match last {
            Some((lr, lc)) => scoring::gap(row, lr as int) + scoring::gap(col, lc as int)
                > s.size as int / 3,
            None => true,
        },
    }
}

/// The first `n` moves that fit a template, in order.
pub open spec fn fitting(
    t: GoTemplate,
    s: &GoState,
    last: Option<(usize, usize)>,
    moves: Seq<(usize, usize)>,
    n: nat,
) -> Seq<(usize, usize)>
    decreases n,
{
    if n == 0 {
        seq![]
    } else {
        let rest = fitting(t, s, last, moves, (n - 1) as nat);
        let m = moves[n - 1];
        if fits(t, s, last, m.0 as int, m.1 as int) {
            rest.push(m)
        } else {
            rest
        }
    }
}

/// The moves that a template proposes: those that fit it, or all if none does.
pub open spec fn proposed(
    t: GoTemplate,
    s: &GoState,
    last: Option<(usize, usize)>,
    moves: Seq<(usize, usize)>,
) -> Seq<(usize, usize)> {
    let some = fitting(t, s, last, moves, moves.len());
    if some.len() == 0 {
        moves
    } else {
        some
    }
}

proof fn lemma_fitting(
    t: GoTemplate,
    s: &GoState,
    last: Option<(usize, usize)>,
    moves: Seq<(usize, usize)>,
    n: nat,
)
    requires
        n <= moves.len(),
    ensures
        forall|i: int|
            0 <= i < fitting(t, s, last, moves, n).len() ==> moves.contains(
                #[trigger] fitting(t, s, last, moves, n)[i],
            ),
    decreases n,
{
    if n > 0 {
        lemma_fitting(t, s, last, moves, (n - 1) as nat);
        let rest = fitting(t, s, last, moves, (n - 1) as nat);
        let all = fitting(t, s, last, moves, n);
        assert forall|i: int| 0 <= i < all.len() implies moves.contains(#[trigger] all[i]) by {
            if i < rest.len() {
                assert(all[i] == rest[i]);
            } else {
                assert(all[i] == moves[n - 1]);
            }
        }
    }
}

/// Template proposer.
///
/// Each turn: select template by its upper confidence bound → propose matching moves → pick
/// best. After each game the last template is credited.
#[derive(Debug)]
pub struct GoGZeroPlayer {
    pub stats: TemplateStats,
    pub last_template: Option<GoTemplate>,
    pub last_own_move: Option<(usize, usize)>,
}

impl GoGZeroPlayer {
    /// Create a new G-Zero player.
    pub fn new() -> (p: GoGZeroPlayer)
        ensures
            p.stats.wf(),
            p.stats.total_pulls == 0,
            forall|i: int| 0 <= i < NUM_TEMPLATES ==> #[trigger] p.stats.q_values@[i] == 0,
            forall|i: int| 0 <= i < NUM_TEMPLATES ==> #[trigger] p.stats.visits@[i] == 0,
            p.last_template is None,
            p.last_own_move is None,
    {
        GoGZeroPlayer { stats: TemplateStats::new(), last_template: None, last_own_move: None }
    }

    /// The template with the highest bound.
    pub fn select_template(&self, bounds: &Vec<u32>) -> (t: GoTemplate)
        requires
            bounds@.len() == NUM_TEMPLATES,
        ensures
            t == GoTemplate::of(highest(bounds@, NUM_TEMPLATES as nat)),
    {
        match pick_highest(bounds) {
            0 => GoTemplate::CornerStar,
            1 => GoTemplate::Capture,
            2 => GoTemplate::Defend,
            _ => GoTemplate::Tenuki,
        }
    }

    /// True when a move fits a template.
    pub fn matches_template(
        &self,
        template: GoTemplate,
        state: &GoState,
        row: usize,
        col: usize,
    ) -> (b: bool)
        requires
            state.wf(),
            row < state.size,
            col < state.size,
        ensures
            b == fits(template, state, self.last_own_move, row as int, col as int),
    {
        match template {
            GoTemplate::CornerStar => is_star_point(row, col, state.size),
            GoTemplate::Capture => {
                let next = state.advance(&GoAction::Place(row, col));
                captures_for(state.to_play, state, &next) > 0
            },
            GoTemplate::Defend => is_saving_move(state, state.flat_index(row, col)),
            GoTemplate::Tenuki => match self.last_own_move {
                Some((lr, lc)) => {
                    let dr: u128 = if row < lr {
                        (lr - row) as u128
                    } else {
                        (row - lr) as u128
                    };
                    let dc: u128 = if col < lc {
                        (lc - col) as u128
                    } else {
                        (col - lc) as u128
                    };
                    dr + dc > (state.size / 3) as u128
                },
                None => true,
            },
        }
    }

    /// The moves that a template proposes.
    pub fn propose_moves(
        &self,
        template: GoTemplate,
        state: &GoState,
        legal_moves: &[(usize, usize)],
    ) -> (r: Vec<(usize, usize)>)
        requires
            state.wf(),
            players::moves_on_board(state, legal_moves@),
        ensures
            r@ == proposed(template, state, self.last_own_move, legal_moves@),
            forall|i: int| 0 <= i < r@.len() ==> legal_moves@.contains(#[trigger] r@[i]),
            legal_moves@.len() > 0 ==> r@.len() > 0,
    {
        let mut some: Vec<(usize, usize)> = Vec::new();
        let mut all: Vec<(usize, usize)> = Vec::new();
        let mut i: usize = 0;
        while i < legal_moves.len()
            invariant
                i <= legal_moves@.len(),
                state.wf(),
                players::moves_on_board(state, legal_moves@),
                some@ == fitting(
                    template,
                    state,
                    self.last_own_move,
                    legal_moves@,
                    i as nat,
                ),
                all@ =~= legal_moves@.take(i as int),
            decreases legal_moves@.len() - i,
        {
            assert(legal_moves@[i as int].0 < state.size);
            let m = legal_moves[i];
            if self.matches_template(template, state, m.0, m.1) {
                some.push(m);
            }
            all.push(m);
            i = i + 1;
        }
        proof {
            lemma_fitting(
                template,
                state,
                self.last_own_move,
                legal_moves@,
                legal_moves@.len(),
            );
            assert(all@ =~= legal_moves@);
        }
        if some.len() == 0 {
            all
        } else {
            some
        }
    }

    /// Picks a move, given the bit patterns of the templates' bounds.
    ///
    /// One index is drawn even though a best proposed move always exists.
    pub fn select_move(
        &mut self,
        state: &GoState,
        legal_moves: &[(usize, usize)],
        bounds: &Vec<u32>,
        rng: &mut GameRng,
    ) -> (action: GoAction)
        requires
            state.wf(),
            players::moves_on_board(state, legal_moves@),
            bounds@.len() == NUM_TEMPLATES,
        ensures
            final(self).stats == old(self).stats,
            legal_moves@.len() == 0 ==> action is Pass && final(self).last_template is None
                && final(self).last_own_move == old(self).last_own_move && *final(rng) == *old(rng),
            legal_moves@.len() > 0 ==> {
                let t = GoTemplate::of(highest(bounds@, NUM_TEMPLATES as nat));
                let moves = proposed(t, state, old(self).last_own_move, legal_moves@);
                let m = moves[players::best_late(state, moves, moves.len())];
                &&& action == GoAction::Place(m.0, m.1)
                &&& legal_moves@.contains(m)
                &&& final(self).last_template == Some(t)
                &&& final(self).last_own_move == Some(m)
                &&& final(rng).seed == random::fastrand_u64(
                    old(rng).seed,
                    (legal_moves@.len() - 1) as u64,
                ).1
            },
    {
        if legal_moves.len() == 0 {
            self.last_template = None;
            return GoAction::Pass;
        }
        let template = self.select_template(bounds);
        let moves = self.propose_moves(template, state, legal_moves);
        assert(players::moves_on_board(state, moves@)) by {
            assert forall|i: int| 0 <= i < moves@.len() implies (#[trigger] moves@[i]).0
                < state.size && moves@[i].1 < state.size by {
                assert(legal_moves@.contains(moves@[i]));
                let j = choose|j: int| 0 <= j < legal_moves@.len() && legal_moves@[j] == moves@[i];
                assert(legal_moves@[j].0 < state.size);
            }
        }
        let best: usize = pick_best_late(state, moves.as_slice());
        let _spare: usize = rng.below(legal_moves.len());
        let m = moves[best];
        self.last_template = Some(template);
        self.last_own_move = Some(m);
        GoAction::Place(m.0, m.1)
    }

    /// Closes a game: credits the last template, if there was one.
    pub fn update_outcome(&mut self) -> (credit: Option<ArmCredit>)
        requires
            old(self).stats.wf(),
            old(self).stats.total_pulls < u32::MAX,
            forall|i: int|
                0 <= i < NUM_TEMPLATES ==> #[trigger] old(self).stats.visits@[i] < u32::MAX,
        ensures
            final(self).stats.wf(),
            final(self).last_template is None,
            final(self).last_own_move == old(self).last_own_move,
            old(self).last_template is None ==> credit is None && final(self).stats == old(
                self,
            ).stats,
            old(self).last_template matches Some(t) ==> {
                let visits = (old(self).stats.visits@[t.arm()] + 1) as u32;
                &&& credit == Some(ArmCredit { arm: t.arm() as usize, visits })
                &&& final(self).stats.visits@ == old(self).stats.visits@.update(t.arm(), visits)
                &&& final(self).stats.total_pulls == old(self).stats.total_pulls + 1
                &&& final(self).stats.q_values@ == old(self).stats.q_values@
            },
    {
        let credit: Option<ArmCredit> = match self.last_template {
            Some(t) => self.stats.pull(t.index()),
            None => None,
        };
        self.last_template = None;
        credit
    }

    /// Human-readable player name.
    pub fn name(&self) -> (s: &'static str)
        ensures
            s@ == "GZero"@,
    {
        "GZero"
    }

    /// Forgets the last game.
    pub fn reset(&mut self)
        ensures
            final(self).stats == old(self).stats,
            final(self).last_template is None,
            final(self).last_own_move is None,
    {
        self.last_template = None;
        self.last_own_move = None;
    }
}

impl Default for GoGZeroPlayer {
    fn default() -> (p: GoGZeroPlayer)
        ensures
            p.stats.wf(),
            p.stats.total_pulls == 0,
            forall|i: int| 0 <= i < NUM_TEMPLATES ==> #[trigger] p.stats.q_values@[i] == 0,
            forall|i: int| 0 <= i < NUM_TEMPLATES ==> #[trigger] p.stats.visits@[i] == 0,
            p.last_template is None,
            p.last_own_move is None,
    {
        GoGZeroPlayer::new()
    }
}

/// What the tree-search player does with a position.
#[derive(Clone, Copy, Debug, PartialEq, Eq, Structural)]
pub enum MctsPlan {
    /// There is at most one thing to do.
    Play(GoAction),
    /// The position has to be searched.
    Search { budget: usize, rollout_depth: usize },
}

/// Tree-search player.
///
/// Configurable budget and rollout depth.
#[derive(Clone, Copy, Debug, PartialEq, Eq, Structural)]
pub struct GoMctsPlayer {
    pub budget: usize,
    pub rollout_depth: usize,
}

impl GoMctsPlayer {
    /// Create MCTS player with custom parameters.
    pub fn new(budget: usize, rollout_depth: usize) -> (p: GoMctsPlayer)
        ensures
            p.budget == budget,
            p.rollout_depth == rollout_depth,
    {
        GoMctsPlayer { budget, rollout_depth }
    }

    /// Create MCTS player with default parameters (budget=200, depth=50).
    pub fn default_player() -> (p: GoMctsPlayer)
        ensures
            p.budget == DEFAULT_MCTS_BUDGET,
            p.rollout_depth == DEFAULT_MCTS_ROLLOUT_DEPTH,
    {
        GoMctsPlayer::new(DEFAULT_MCTS_BUDGET, DEFAULT_MCTS_ROLLOUT_DEPTH)
    }

    /// Current budget.
    pub fn budget(&self) -> (n: usize)
        ensures
            n == self.budget,
    {
        self.budget
    }

    /// Current rollout depth.
    pub fn rollout_depth(&self) -> (n: usize)
        ensures
            n == self.rollout_depth,
    {
        self.rollout_depth
    }

    /// Plays at once where there is no choice: passes without a move, takes the only one.
    pub fn plan(&self, legal_moves: &[(usize, usize)]) -> (plan: MctsPlan)
        ensures
            plan == (if legal_moves@.len() == 0 {
                MctsPlan::Play(GoAction::Pass)
            } else if legal_moves@.len() == 1 {
                MctsPlan::Play(GoAction::Place(legal_moves@[0].0, legal_moves@[0].1))
            } else {
                MctsPlan::Search { budget: self.budget, rollout_depth: self.rollout_depth }
            }),
    {
        if legal_moves.len() == 0 {
            return MctsPlan::Play(GoAction::Pass);
        }
        if legal_moves.len() == 1 {
            let (r, c) = legal_moves[0];
            return MctsPlan::Play(GoAction::Place(r, c));
        }
        MctsPlan::Search { budget: self.budget, rollout_depth: self.rollout_depth }
    }

    /// Select a move: without a choice the one thing to do, else what `search` finds from the
    /// state for the player to move, within the player's budget and rollout depth.
    pub fn select_move<F: FnOnce(&GoState, u8, usize, usize) -> GoAction>(
        &self,
        state: &GoState,
        legal_moves: &[(usize, usize)],
        search: F,
    ) -> (action: GoAction)
        requires
            legal_moves@.len() > 1 ==> call_requires(
                search,
                (state, state.mover(), self.budget, self.rollout_depth),
            ),
        ensures
            legal_moves@.len() == 0 ==> action is Pass,
            legal_moves@.len() == 1 ==> action == GoAction::Place(
                legal_moves@[0].0,
                legal_moves@[0].1,
            ),
            legal_moves@.len() > 1 ==> call_ensures(
                search,
                (state, state.mover(), self.budget, self.rollout_depth),
                action,
            ),
    {
        match self.plan(legal_moves) {
            MctsPlan::Play(action) => action,
            MctsPlan::Search { budget, rollout_depth } => search(
                state,
                state.to_play.player_id(),
                budget,
                rollout_depth,
            ),
        }
    }

    /// Human-readable player name.
    pub fn name(&self) -> (s: &'static str)
        ensures
            s@ == "MCTS"@,
    {
        "MCTS"
    }
}

impl Default for GoMctsPlayer {
    fn default() -> (p: GoMctsPlayer)
        ensures
            p.budget == DEFAULT_MCTS_BUDGET,
            p.rollout_depth == DEFAULT_MCTS_ROLLOUT_DEPTH,
    {
        GoMctsPlayer::default_player()
    }
}

/// The highest number is picked, and of equals the last.
pub proof fn law_highest_is_the_last_of_equals(scores: Seq<u32>, n: nat, i: int)
    requires
        0 < n <= scores.len(),
        highest(scores, n) < i < n,
    ensures
        float_bits::key(scores[i]) < float_bits::key(scores[highest(scores, n)]),
    decreases n,
{
    if n > 1 {
        law_highest_is_maximal(scores, (n - 1) as nat);
        if highest(scores, n) != n - 1 && i < n - 1 {
            law_highest_is_the_last_of_equals(scores, (n - 1) as nat, i);
        }
    }
}

/// Unless a roll falls below the exploration rate, the move with the best blended score is played,
/// and the roll is all that is drawn.
pub proof fn law_exploitation_takes_the_best(epsilon: u32, blended: Seq<u32>, seed: u64, i: int)
    requires
        blended.len() > 0,
        0 <= i < blended.len(),
        random::unit_roll_spec(seed, REDRAWS as nat).0 >= epsilon,
    ensures
        0 <= hl_pick(epsilon, blended, seed).0 < blended.len(),
        float_bits::key(blended[i]) <= float_bits::key(blended[hl_pick(epsilon, blended, seed).0]),
        hl_pick(epsilon, blended, seed).1 == random::unit_roll_spec(seed, REDRAWS as nat).1,
{
    law_highest_is_maximal(blended, blended.len());
}

/// The rates of the bandit player: it explores 15% at first and 5% at last, and each game keeps
/// 99.5% of the rate.
pub proof fn law_exploration_rates()
    ensures
        float_bits::is_nearest_to(HL_EPSILON, 15, 100),
        float_bits::is_nearest_to(HL_EPSILON_MIN, 5, 100),
        float_bits::is_nearest_to(HL_DECAY, 995, 1000),
{
    vstd::arithmetic::power2::lemma2_to64();
}

/// A game lowers the rate to 99.5% of it, to within rounding, unless that is below the least.
pub proof fn law_decay_keeps_a_share(epsilon: u32)
    requires
        HL_EPSILON_MIN < epsilon <= HL_EPSILON,
    ensures
        decayed(epsilon) < epsilon || decayed(epsilon) == HL_EPSILON_MIN,
        decayed(epsilon) > HL_EPSILON_MIN ==> decayed(epsilon) == float_bits::product_bits(
            HL_DECAY,
            epsilon,
        ),
{
    lemma_decay_step(epsilon);
    float_bits::law_product(epsilon, HL_DECAY);
    float_bits::law_product_is_near(epsilon, HL_DECAY);
    let x = float_bits::significand(epsilon);
    let y = float_bits::significand(HL_DECAY);
    assert(0 <= x * y < 0x100_0000 * 0x100_0000) by (nonlinear_arith)
        requires
            x < 0x100_0000,
            y < 0x100_0000,
    ;
}

/// A template proposes moves of the list only. Where some move fits it, it proposes exactly the
/// moves that fit; where none does, all.
pub proof fn law_template_proposes_fitting_moves(
    t: GoTemplate,
    s: &GoState,
    last: Option<(usize, usize)>,
    moves: Seq<(usize, usize)>,
    m: (usize, usize),
)
    ensures
        proposed(t, s, last, moves).contains(m) ==> moves.contains(m),
        moves.contains(m) && fits(t, s, last, m.0 as int, m.1 as int) ==> proposed(
            t,
            s,
            last,
            moves,
        ).contains(m),
        (exists|k: int|
            0 <= k < moves.len() && fits(
                t,
                s,
                last,
                (#[trigger] moves[k]).0 as int,
                moves[k].1 as int,
            )) && proposed(t, s, last, moves).contains(m) ==> fits(
            t,
            s,
            last,
            m.0 as int,
            m.1 as int,
        ),
        (forall|k: int|
            0 <= k < moves.len() ==> !fits(
                t,
                s,
                last,
                (#[trigger] moves[k]).0 as int,
                moves[k].1 as int,
            )) ==> proposed(t, s, last, moves) == moves,
{
    lemma_fitting_members(t, s, last, moves, moves.len());
    let some = fitting(t, s, last, moves, moves.len());
    if exists|k: int|
        0 <= k < moves.len() && fits(t, s, last, (#[trigger] moves[k]).0 as int, moves[k].1 as int) {
        let k = choose|k: int|
            0 <= k < moves.len() && fits(
                t,
                s,
                last,
                (#[trigger] moves[k]).0 as int,
                moves[k].1 as int,
            );
        assert(some.contains(moves[k]));
    }
    if some.len() > 0 {
        assert(some.contains(some[0]));
        let k = choose|k: int| 0 <= k < moves.len() && moves[k] == some[0];
        assert(fits(t, s, last, moves[k].0 as int, moves[k].1 as int));
    }
    if moves.contains(m) {
        let k = choose|k: int| 0 <= k < moves.len() && moves[k] == m;
        assert(moves[k] == m);
    }
}

proof fn lemma_fitting_members(
    t: GoTemplate,
    s: &GoState,
    last: Option<(usize, usize)>,
    moves: Seq<(usize, usize)>,
    n: nat,
)
    requires
        n <= moves.len(),
    ensures
        forall|m: (usize, usize)| #[trigger]
            fitting(t, s, last, moves, n).contains(m) ==> moves.contains(m) && fits(
                t,
                s,
                last,
                m.0 as int,
                m.1 as int,
            ),
        forall|k: int|
            0 <= k < n && fits(t, s, last, (#[trigger] moves[k]).0 as int, moves[k].1 as int)
                ==> fitting(t, s, last, moves, n).contains(moves[k]),
    decreases n,
{
    if n > 0 {
        lemma_fitting_members(t, s, last, moves, (n - 1) as nat);
        let rest = fitting(t, s, last, moves, (n - 1) as nat);
        let all = fitting(t, s, last, moves, n);
        assert forall|m: (usize, usize)| #[trigger] all.contains(m) implies moves.contains(m)
            && fits(t, s, last, m.0 as int, m.1 as int) by {
            let i = choose|i: int| 0 <= i < all.len() && all[i] == m;
            if i < rest.len() {
                assert(rest[i] == m);
                assert(rest.contains(m));
            } else {
                assert(moves[n - 1] == m);
            }
        }
        assert forall|k: int|
            0 <= k < n && fits(t, s, last, (#[trigger] moves[k]).0 as int, moves[k].1 as int) implies
            all.contains(moves[k]) by {
            if k < n - 1 {
                assert(rest.contains(moves[k]));
                let i = choose|i: int| 0 <= i < rest.len() && rest[i] == moves[k];
                assert(all[i] == moves[k]);
            } else {
                assert(all[rest.len() as int] == moves[k]);
            }
        }
    }
}

/// A tenuki lies more than a third of the board away from the last own move, counted in steps
/// along rows and columns. A capture takes stones, a defence saves a group, a corner move is on a
/// star point.
pub proof fn law_templates(s: &GoState, last: Option<(usize, usize)>, row: int, col: int)
    ensures
        last matches Some((r, c)) ==> fits(GoTemplate::Tenuki, s, last, row, col) == (3 * ((if row < r {
            r - row
        } else {
            row - r
        }) + (if col < c {
            c - col
        } else {
            col - c
        })) >= 3 * (s.size as int / 3) + 3),
        last is None ==> fits(GoTemplate::Tenuki, s, last, row, col),
        fits(GoTemplate::Capture, s, last, row, col) ==> s.captures_at(s.index(row, col)) > 0,
        fits(GoTemplate::Capture, s, last, row, col) == (scoring::category(s, row, col) is Capture),
        scoring::category(s, row, col) is Defend ==> fits(GoTemplate::Defend, s, last, row, col),
        scoring::category(s, row, col) is CornerStar ==> fits(
            GoTemplate::CornerStar,
            s,
            last,
            row,
            col,
        ),
{
}

/// Below the exploration rate the move is drawn among all of them, each of which the draw can
/// reach.
pub proof fn law_exploration_is_drawn_among_all(
    epsilon: u32,
    blended: Seq<u32>,
    seed: u64,
    last: u64,
)
    requires
        last + 1 == blended.len(),
        random::unit_roll_spec(seed, REDRAWS as nat).0 < epsilon,
    ensures
        ({
            let (k, next) = random::fastrand_u64(
                random::unit_roll_spec(seed, REDRAWS as nat).1,
                last,
            );
            hl_pick(epsilon, blended, seed) == (k as int, next)
        }),
{
}

} // verus!
