//! The learning player: a bandit over the six actions, with low arms compressed into blocks.
//!
//! The learned values are single-precision numbers, carried as bit patterns. The player hands
//! out what each arm's score is blended from, takes the blended scores back, and decides.

use vstd::prelude::*;

use crate::float_bits;
use crate::float_bits::{is_below, order_key, NEG_INFINITY_BITS};
use crate::pruners::bomber::arena::ArenaGrid;
use crate::pruners::bomber::danger;
use crate::pruners::bomber::danger::update_bombs;
use crate::pruners::bomber::players;
use crate::pruners::bomber::players::{
    heuristic_terms, is_safe_action, is_step_action, GreedyPlayer, RandomPlayer, ValidatorPlayer,
    ACTION_COUNT,
};
use crate::pruners::bomber::routes;
use crate::pruners::bomber::routes::{index_to_action, move_target};
use crate::pruners::bomber::{BomberAction, GameEvent, GridPos};
use crate::random;
use crate::random::{GameRng, REDRAWS};
use crate::text;
use crate::text::{push_decimal, push_text};

verus! {

/// How often the player explores (0.1), as the bit pattern of a single-precision number.
pub const HL_EXPLORE: u32 = 0x3DCC_CCCD;

/// How often an arm must have been pulled before it can be compressed.
pub const COMPRESS_MIN_VISITS: u32 = 20;

/// The value below which a well-tried arm is compressed (0.1), as a bit pattern.
pub const COMPRESS_THRESHOLD: u32 = 0x3DCC_CCCD;

/// What an arm's score is blended from.
#[derive(Debug)]
pub enum Arm {
    /// The arm was compressed into a hard block.
    Compressed,
    /// The action walks into a wall.
    Blocked,
    /// The arm is open: its heuristic terms in hundredths, whether it is safe, and the bit
    /// pattern of its learned value.
    Open { terms: Vec<i32>, safe: bool, q: u32 },
}

/// One arm's share of a round: how often it was pulled among all pulls of the round, and how
/// often it has been credited so far, this round included.
#[derive(Clone, Copy, Debug, PartialEq, Eq, Structural)]
pub struct ArmShare {
    pub arm: usize,
    pub count: usize,
    pub pulls: usize,
    pub visits: u32,
}

/// How often the action with index `arm` occurs.
pub open spec fn pulls_of(actions: Seq<BomberAction>, arm: int) -> nat
    decreases actions.len(),
{
    if actions.len() == 0 {
        0
    } else {
        pulls_of(actions.drop_last(), arm) + (if actions.last().index() == arm {
            1nat
        } else {
            0
        })
    }
}

/// The shares of the first `n` arms that were pulled at all.
pub open spec fn shares(actions: Seq<BomberAction>, visits: Seq<u32>, n: nat) -> Seq<ArmShare>
    decreases n,
{
    if n == 0 {
        seq![]
    } else {
        let rest = shares(actions, visits, (n - 1) as nat);
        let count = pulls_of(actions, n - 1);
        if count == 0 {
            rest
        } else {
            rest.push(
                ArmShare {
                    arm: (n - 1) as usize,
                    count: count as usize,
                    pulls: actions.len() as usize,
                    visits: (visits[n - 1] + 1) as u32,
                },
            )
        }
    }
}

/// A score above minus infinity.
pub open spec fn has_score(score: u32) -> bool {
    float_bits::below(NEG_INFINITY_BITS, score)
}

/// The arms among the first `n` that are open and have a score.
pub open spec fn playable(compressed: Seq<bool>, scores: Seq<u32>, n: nat) -> Seq<usize>
    decreases n,
{
    if n == 0 {
        seq![]
    } else {
        let rest = playable(compressed, scores, (n - 1) as nat);
        if !compressed[n - 1] && has_score(scores[n - 1]) {
            rest.push((n - 1) as usize)
        } else {
            rest
        }
    }
}

/// The open arm among the first `n` with the highest score, the later of equals. A score that is
/// not a number counts as equal to any.
pub open spec fn best_open(compressed: Seq<bool>, scores: Seq<u32>, n: nat) -> Option<int>
    decreases n,
{
    if n == 0 {
        None
    } else {
        match best_open(compressed, scores, (n - 1) as nat) {
            Some(best) => if compressed[n - 1] || float_bits::below(scores[n - 1], scores[best]) {
                Some(best)
            } else {
                Some(n - 1)
            },
            None => if compressed[n - 1] {
                None
            } else {
                Some(n - 1)
            },
        }
    }
}

/// The arm that is pulled for these scores, and the seed after the draws. Without an open arm it
/// is the last.
pub open spec fn pulled_arm(compressed: Seq<bool>, scores: Seq<u32>, seed: u64) -> (int, u64) {
    let (roll, s1) = random::unit_roll_spec(seed, REDRAWS as nat);
    let arms = playable(compressed, scores, ACTION_COUNT as nat);
    if roll < HL_EXPLORE && arms.len() > 0 {
        let (k, s2) = random::fastrand_u64(s1, (arms.len() - 1) as u64);
        (arms[k as int] as int, s2)
    } else {
        match best_open(compressed, scores, ACTION_COUNT as nat) {
            Some(best) => (best, s1),
            None => (ACTION_COUNT - 1, s1),
        }
    }
}

/// True when an arm is tried often enough, is worth too little, and is not compressed yet.
pub open spec fn ripe(compressed: bool, visits: u32, q: u32) -> bool {
    !compressed && visits >= COMPRESS_MIN_VISITS && float_bits::key(q) < float_bits::key(
        COMPRESS_THRESHOLD,
    )
}

/// The arms among the first `n` that a compression cycle takes.
pub open spec fn ripe_arms(
    compressed: Seq<bool>,
    visits: Seq<u32>,
    q: Seq<u32>,
    n: nat,
) -> Seq<usize>
    decreases n,
{
    if n == 0 {
        seq![]
    } else {
        let rest = ripe_arms(compressed, visits, q, (n - 1) as nat);
        if ripe(compressed[n - 1], visits[n - 1], q[n - 1]) {
            rest.push((n - 1) as usize)
        } else {
            rest
        }
    }
}

/// Bandit-adapted action selection with absorb-compress.
///
/// Uses a simple bandit over the 6 actions to adapt relevance scores based on observed
/// outcomes. Compresses stable low-Q arms into hard blocks over time.
#[derive(Debug)]
pub struct HLPlayer {
    pub id: u8,
    pub known_bombs: Vec<((i32, i32), u32)>,
    /// Bit patterns of the learned values.
    pub q_values: Vec<u32>,
    pub visits: Vec<u32>,
    pub total_pulls: u32,
    pub compressed: Vec<bool>,
    pub round_actions: Vec<BomberAction>,
    pub last_dir: Option<BomberAction>,
}

impl HLPlayer {
    /// One slot per action.
    pub open spec fn wf(&self) -> bool {
        &&& self.q_values@.len() == ACTION_COUNT
        &&& self.visits@.len() == ACTION_COUNT
        &&& self.compressed@.len() == ACTION_COUNT
    }

    /// Nothing learned differs between the two.
    pub open spec fn same_learning(&self, other: &HLPlayer) -> bool {
        &&& self.id == other.id
        &&& self.q_values@ == other.q_values@
        &&& self.visits@ == other.visits@
        &&& self.total_pulls == other.total_pulls
        &&& self.compressed@ == other.compressed@
    }

    /// The value by which an arm is blended; an arm that was never pulled counts as zero.
    pub open spec fn arm_value(&self, i: int) -> u32 {
        if self.visits@[i] > 0 {
            self.q_values@[i]
        } else {
            0
        }
    }

    /// What arm `i` is blended from, for these bombs.
    pub open spec fn arm_matches(
        &self,
        i: int,
        grid: &ArenaGrid,
        pos: GridPos,
        bombs: Seq<((i32, i32), u32)>,
        arm: Arm,
    ) -> bool {
        let action = routes::action_at(i);
        if self.compressed@[i] {
            arm is Compressed
        } else if action.is_step() && !grid.walkable(
            routes::target(action, pos).x as int,
            routes::target(action, pos).y as int,
        ) {
            arm is Blocked
        } else {
            &&& arm matches Arm::Open { terms, safe, q }
            &&& terms@ == players::score_terms(action, grid, pos, bombs, self.last_dir)
            &&& safe == players::is_safe(action, grid, pos, bombs)
            &&& q == self.arm_value(i)
        }
    }

    pub fn new(id: u8) -> (p: HLPlayer)
        ensures
            p.wf(),
            p.id == id,
            p.known_bombs@.len() == 0,
            p.total_pulls == 0,
            p.round_actions@.len() == 0,
            p.last_dir is None,
            forall|i: int|
                0 <= i < ACTION_COUNT ==> #[trigger] p.q_values@[i] == 0 && p.visits@[i] == 0
                    && !p.compressed@[i],
    {
        HLPlayer {
            id,
            known_bombs: Vec::new(),
            q_values: vec![0u32; 6],
            visits: vec![0u32; 6],
            total_pulls: 0,
            compressed: vec![false; 6],
            round_actions: Vec::new(),
            last_dir: None,
        }
    }

    /// Takes in the events and hands out what each arm's score is blended from.
    pub fn assess(&mut self, grid: &ArenaGrid, pos: GridPos, events: &[GameEvent]) -> (arms: Vec<Arm>)
        requires
            old(self).wf(),
            grid.wf(),
            pos.movable(),
        ensures
            final(self).wf(),
            final(self).same_learning(old(self)),
            final(self).round_actions@ == old(self).round_actions@,
            final(self).last_dir == old(self).last_dir,
            final(self).known_bombs@ == danger::bombs_after(old(self).known_bombs@, events@),
            arms@.len() == ACTION_COUNT,
            forall|i: int|
                0 <= i < ACTION_COUNT ==> final(self).arm_matches(
                    i,
                    grid,
                    pos,
                    final(self).known_bombs@,
                    #[trigger] arms@[i],
                ),
    {
        update_bombs(&mut self.known_bombs, events);
        let mut arms: Vec<Arm> = Vec::new();
        let mut i: usize = 0;
        while i < ACTION_COUNT
            invariant
                i <= ACTION_COUNT,
                grid.wf(),
                pos.movable(),
                self.wf(),
                self.same_learning(old(self)),
                self.round_actions@ == old(self).round_actions@,
                self.last_dir == old(self).last_dir,
                self.known_bombs@ == danger::bombs_after(old(self).known_bombs@, events@),
                arms@.len() == i,
                forall|j: int|
                    0 <= j < i ==> self.arm_matches(
                        j,
                        grid,
                        pos,
                        self.known_bombs@,
                        #[trigger] arms@[j],
                    ),
            decreases ACTION_COUNT - i,
        {
            let arm: Arm = self.arm(i, grid, pos);
            arms.push(arm);
            i = i + 1;
        }
        arms
    }

    fn arm(&self, i: usize, grid: &ArenaGrid, pos: GridPos) -> (arm: Arm)
        requires
            self.wf(),
            grid.wf(),
            pos.movable(),
            i < ACTION_COUNT,
        ensures
            self.arm_matches(i as int, grid, pos, self.known_bombs@, arm),
    {
        if self.compressed[i] {
            return Arm::Compressed;
        }
        let action = index_to_action(i);
        if is_step_action(action) {
            let to = move_target(&action, pos);
            if !grid.is_walkable(to.x, to.y) {
                return Arm::Blocked;
            }
        }
        let terms = heuristic_terms(
            &action,
            grid,
            pos,
            self.known_bombs.as_slice(),
            self.last_dir,
        );
        let safe: bool = is_safe_action(&action, grid, pos, self.known_bombs.as_slice());
        let q: u32 = if self.visits[i] > 0 {
            self.q_values[i]
        } else {
            0
        };
        Arm::Open { terms, safe, q }
    }

    /// Pulls an arm, given the bit patterns of the blended scores.
    ///
    /// 10% of the pulls explore the open arms, the others take the best score among them. A
    /// compressed arm is passed over whatever its score.
    pub fn pull(&mut self, scores: &Vec<u32>, rng: &mut GameRng) -> (action: BomberAction)
        requires
            old(self).wf(),
            scores@.len() == ACTION_COUNT,
        ensures
            final(self).wf(),
            final(self).same_learning(old(self)),
            final(self).known_bombs@ == old(self).known_bombs@,
            ({
                let (arm, seed) = pulled_arm(old(self).compressed@, scores@, old(rng).seed);
                action == routes::action_at(arm) && final(rng).seed == seed
            }),
            (exists|i: int| 0 <= i < ACTION_COUNT && !#[trigger] old(self).compressed@[i])
                ==> !old(self).compressed@[action.index()],
            final(self).round_actions@ == old(self).round_actions@.push(action),
            final(self).last_dir == (if action.is_step() {
                Some(action)
            } else {
                old(self).last_dir
            }),
    {
        let lucky: bool = rng.chance(HL_EXPLORE);
        let arms = self.playable_arms(scores);
        let arm: usize = if lucky && arms.len() > 0 {
            let k: usize = rng.below(arms.len());
            arms[k]
        } else {
            match best_open_arm(&self.compressed, scores) {
                Some(best) => best,
                None => ACTION_COUNT - 1,
            }
        };
        proof {
            lemma_playable(self.compressed@, scores@, ACTION_COUNT as nat);
            lemma_best_open(self.compressed@, scores@, ACTION_COUNT as nat);
        }
        let action = index_to_action(arm);
        assert(action.index() == arm);
        self.round_actions.push(action);
        if is_step_action(action) {
            self.last_dir = Some(action);
        }
        action
    }

    fn playable_arms(&self, scores: &Vec<u32>) -> (arms: Vec<usize>)
        requires
            self.wf(),
            scores@.len() == ACTION_COUNT,
        ensures
            arms@ == playable(self.compressed@, scores@, ACTION_COUNT as nat),
    {
        let mut arms: Vec<usize> = Vec::new();
        let mut i: usize = 0;
        while i < ACTION_COUNT
            invariant
                i <= ACTION_COUNT,
                self.wf(),
                scores@.len() == ACTION_COUNT,
                arms@ == playable(self.compressed@, scores@, i as nat),
            decreases ACTION_COUNT - i,
        {
            if !self.compressed[i] && is_below(NEG_INFINITY_BITS, scores[i]) {
                arms.push(i);
            }
            i = i + 1;
        }
        arms
    }

    /// Closes a round: credits every arm that was pulled in it once, and hands out the shares
    /// by which the round's reward is split.
    pub fn update_outcome(&mut self) -> (split: Vec<ArmShare>)
        requires
            old(self).wf(),
            old(self).total_pulls <= u32::MAX - ACTION_COUNT,
            forall|i: int| 0 <= i < ACTION_COUNT ==> #[trigger] old(self).visits@[i] < u32::MAX,
        ensures
            final(self).wf(),
            final(self).id == old(self).id,
            final(self).q_values@ == old(self).q_values@,
            final(self).compressed@ == old(self).compressed@,
            final(self).known_bombs@ == old(self).known_bombs@,
            final(self).round_actions@ == old(self).round_actions@,
            final(self).last_dir == old(self).last_dir,
            split@ == shares(old(self).round_actions@, old(self).visits@, ACTION_COUNT as nat),
            final(self).total_pulls == old(self).total_pulls + split@.len(),
            forall|i: int|
                0 <= i < ACTION_COUNT ==> #[trigger] final(self).visits@[i] == old(self).visits@[i]
                    + (if pulls_of(old(self).round_actions@, i) > 0 {
                    1int
                } else {
                    0
                }),
    {
        let mut split: Vec<ArmShare> = Vec::new();
        let mut i: usize = 0;
        while i < ACTION_COUNT
            invariant
                i <= ACTION_COUNT,
                self.wf(),
                self.id == old(self).id,
                self.q_values@ == old(self).q_values@,
                self.compressed@ == old(self).compressed@,
                self.known_bombs@ == old(self).known_bombs@,
                self.round_actions@ == old(self).round_actions@,
                self.last_dir == old(self).last_dir,
                split@ == shares(old(self).round_actions@, old(self).visits@, i as nat),
                split@.len() <= i,
                old(self).total_pulls <= u32::MAX - ACTION_COUNT,
                self.total_pulls == old(self).total_pulls + split@.len(),
                forall|j: int| 0 <= j < ACTION_COUNT ==> #[trigger] old(self).visits@[j] < u32::MAX,
                forall|j: int|
                    i <= j < ACTION_COUNT ==> #[trigger] self.visits@[j] == old(self).visits@[j],
                forall|j: int|
                    0 <= j < i ==> #[trigger] self.visits@[j] == old(self).visits@[j] + (if pulls_of(
                        old(self).round_actions@,
                        j,
                    ) > 0 {
                        1int
                    } else {
                        0
                    }),
            decreases ACTION_COUNT - i,
        {
            let count: usize = count_pulls(&self.round_actions, i);
            if count > 0 {
                assert(old(self).visits@[i as int] < u32::MAX);
                let visits: u32 = self.visits[i] + 1;
                self.visits.set(i, visits);
                self.total_pulls = self.total_pulls + 1;
                split.push(ArmShare { arm: i, count, pulls: self.round_actions.len(), visits });
            }
            i = i + 1;
        }
        split
    }

    /// Stores the bit pattern of an arm's learned value.
    pub fn learn(&mut self, arm: usize, q: u32)
        requires
            old(self).wf(),
            arm < ACTION_COUNT,
        ensures
            final(self).wf(),
            final(self).id == old(self).id,
            final(self).q_values@ == old(self).q_values@.update(arm as int, q),
            final(self).visits@ == old(self).visits@,
            final(self).total_pulls == old(self).total_pulls,
            final(self).compressed@ == old(self).compressed@,
            final(self).known_bombs@ == old(self).known_bombs@,
            final(self).round_actions@ == old(self).round_actions@,
            final(self).last_dir == old(self).last_dir,
    {
        self.q_values.set(arm, q);
    }

    /// Run absorb-compress cycle. Returns newly compressed arm indices.
    pub fn compress_cycle(&mut self) -> (taken: Vec<usize>)
        requires
            old(self).wf(),
        ensures
            final(self).wf(),
            final(self).id == old(self).id,
            final(self).q_values@ == old(self).q_values@,
            final(self).visits@ == old(self).visits@,
            final(self).total_pulls == old(self).total_pulls,
            final(self).known_bombs@ == old(self).known_bombs@,
            final(self).round_actions@ == old(self).round_actions@,
            final(self).last_dir == old(self).last_dir,
            taken@ == ripe_arms(
                old(self).compressed@,
                old(self).visits@,
                old(self).q_values@,
                ACTION_COUNT as nat,
            ),
            forall|i: int|
                0 <= i < ACTION_COUNT ==> #[trigger] final(self).compressed@[i] == (old(
                    self,
                ).compressed@[i] || ripe(
                    old(self).compressed@[i],
                    old(self).visits@[i],
                    old(self).q_values@[i],
                )),
    {
        let mut taken: Vec<usize> = Vec::new();
        let mut i: usize = 0;
        while i < ACTION_COUNT
            invariant
                i <= ACTION_COUNT,
                self.wf(),
                self.id == old(self).id,
                self.q_values@ == old(self).q_values@,
                self.visits@ == old(self).visits@,
                self.total_pulls == old(self).total_pulls,
                self.known_bombs@ == old(self).known_bombs@,
                self.round_actions@ == old(self).round_actions@,
                self.last_dir == old(self).last_dir,
                taken@ == ripe_arms(
                    old(self).compressed@,
                    old(self).visits@,
                    old(self).q_values@,
                    i as nat,
                ),
                forall|j: int|
                    i <= j < ACTION_COUNT ==> #[trigger] self.compressed@[j] == old(
                        self,
                    ).compressed@[j],
                forall|j: int|
                    0 <= j < i ==> #[trigger] self.compressed@[j] == (old(self).compressed@[j]
                        || ripe(
                        old(self).compressed@[j],
                        old(self).visits@[j],
                        old(self).q_values@[j],
                    )),
            decreases ACTION_COUNT - i,
        {
            if !self.compressed[i] && self.visits[i] >= COMPRESS_MIN_VISITS && order_key(
                self.q_values[i],
            ) < order_key(COMPRESS_THRESHOLD) {
                self.compressed.set(i, true);
                taken.push(i);
            }
            i = i + 1;
        }
        taken
    }

    /// Forgets the round. What was learned persists across rounds.
    pub fn reset(&mut self)
        requires
            old(self).wf(),
        ensures
            final(self).wf(),
            final(self).same_learning(old(self)),
            final(self).known_bombs@.len() == 0,
            final(self).round_actions@.len() == 0,
            final(self).last_dir is None,
    {
        self.known_bombs.clear();
        self.round_actions.clear();
        self.last_dir = None;
    }

    /// Player display name.
    pub fn name(&self) -> (s: &'static str)
        ensures
            s@ == "HL"@,
    {
        "HL"
    }

    /// Emoji for TUI rendering.
    pub fn emoji(&self) -> (s: &'static str)
        ensures
            s@ == "🐵"@,
    {
        "🐵"
    }
}

fn best_open_arm(compressed: &Vec<bool>, scores: &Vec<u32>) -> (r: Option<usize>)
    requires
        compressed@.len() == ACTION_COUNT,
        scores@.len() == ACTION_COUNT,
    ensures
        r matches Some(b) ==> b < ACTION_COUNT && best_open(
            compressed@,
            scores@,
            ACTION_COUNT as nat,
        ) == Some(b as int),
        r is None ==> best_open(compressed@, scores@, ACTION_COUNT as nat) is None,
{
    let mut best: Option<usize> = None;
    let mut n: usize = 0;
    while n < ACTION_COUNT
        invariant
            n <= ACTION_COUNT,
            compressed@.len() == ACTION_COUNT,
            scores@.len() == ACTION_COUNT,
            best matches Some(b) ==> b < n && best_open(compressed@, scores@, n as nat) == Some(
                b as int,
            ),
            best is None ==> best_open(compressed@, scores@, n as nat) is None,
        decreases ACTION_COUNT - n,
    {
        if !compressed[n] {
            let beaten: bool = match best {
                Some(b) => is_below(scores[n], scores[b]),
                None => false,
            };
            if !beaten {
                best = Some(n);
            }
        }
        n = n + 1;
    }
    best
}

fn count_pulls(actions: &Vec<BomberAction>, arm: usize) -> (count: usize)
    ensures
        count == pulls_of(actions@, arm as int),
{
    let mut count: usize = 0;
    let mut i: usize = 0;
    while i < actions.len()
        invariant
            i <= actions.len(),
            count <= i,
            count == pulls_of(actions@.take(i as int), arm as int),
        decreases actions.len() - i,
    {
        assert(actions@.take(i + 1).drop_last() =~= actions@.take(i as int));
        if actions[i].as_usize() == arm {
            count = count + 1;
        }
        i = i + 1;
    }
    assert(actions@.take(actions@.len() as int) =~= actions@);
    count
}

proof fn lemma_playable(compressed: Seq<bool>, scores: Seq<u32>, n: nat)
    requires
        n <= ACTION_COUNT,
    ensures
        forall|i: int|
            0 <= i < playable(compressed, scores, n).len() ==> {
                let a = #[trigger] playable(compressed, scores, n)[i];
                a < n && !compressed[a as int] && has_score(scores[a as int])
            },
    decreases n,
{
    if n > 0 {
        lemma_playable(compressed, scores, (n - 1) as nat);
        let rest = playable(compressed, scores, (n - 1) as nat);
        let all = playable(compressed, scores, n);
        assert forall|i: int| 0 <= i < all.len() implies {
            let a = #[trigger] all[i];
            a < n && !compressed[a as int] && has_score(scores[a as int])
        } by {
            if i < rest.len() {
                assert(all[i] == rest[i]);
            }
        }
    }
}

proof fn lemma_best_open(compressed: Seq<bool>, scores: Seq<u32>, n: nat)
    ensures
        match best_open(compressed, scores, n) {
            Some(b) => 0 <= b < n && !compressed[b],
            None => forall|i: int| 0 <= i < n ==> #[trigger] compressed[i],
        },
    decreases n,
{
    if n > 0 {
        lemma_best_open(compressed, scores, (n - 1) as nat);
    }
}

proof fn lemma_best_open_is_highest(compressed: Seq<bool>, scores: Seq<u32>, n: nat)
    requires
        n <= scores.len(),
        forall|i: int| 0 <= i < scores.len() ==> float_bits::is_number(#[trigger] scores[i]),
    ensures
        best_open(compressed, scores, n) matches Some(b) ==> forall|i: int|
            0 <= i < n && !compressed[i] ==> float_bits::at_most(#[trigger] scores[i], scores[b]),
    decreases n,
{
    if n > 0 {
        lemma_best_open_is_highest(compressed, scores, (n - 1) as nat);
        lemma_best_open(compressed, scores, (n - 1) as nat);
        assert(float_bits::is_number(scores[n - 1]));
    }
}

/// Exploration pulls an open arm, and otherwise, where there is an open arm, one is pulled that no
/// open arm beats.
pub proof fn law_pull_is_open_or_best(compressed: Seq<bool>, scores: Seq<u32>, k: int)
    requires
        compressed.len() == ACTION_COUNT,
        scores.len() == ACTION_COUNT,
        forall|i: int| 0 <= i < scores.len() ==> float_bits::is_number(#[trigger] scores[i]),
    ensures
        0 <= k < playable(compressed, scores, ACTION_COUNT as nat).len()
            ==> !compressed[playable(compressed, scores, ACTION_COUNT as nat)[k] as int],
        best_open(compressed, scores, ACTION_COUNT as nat) is None <==> forall|i: int|
            0 <= i < ACTION_COUNT ==> #[trigger] compressed[i],
        best_open(compressed, scores, ACTION_COUNT as nat) matches Some(b) ==> 0 <= b
            < ACTION_COUNT && !compressed[b] && forall|i: int|
            0 <= i < ACTION_COUNT && !compressed[i] ==> float_bits::at_most(
                #[trigger] scores[i],
                scores[b],
            ),
{
    lemma_playable(compressed, scores, ACTION_COUNT as nat);
    lemma_best_open(compressed, scores, ACTION_COUNT as nat);
    lemma_best_open_is_highest(compressed, scores, ACTION_COUNT as nat);
}

/// A compressed arm stays compressed: it is never ripe again.
pub proof fn law_compression_is_final(visits: u32, q: u32)
    ensures
        !ripe(true, visits, q),
{
}

/// How many of the first `n` arms are compressed.
pub open spec fn compressed_among(compressed: Seq<bool>, n: nat) -> nat
    decreases n,
{
    if n == 0 {
        0
    } else {
        compressed_among(compressed, (n - 1) as nat) + if compressed[n - 1] {
            1nat
        } else {
            0nat
        }
    }
}

/// The compressed among the first `n` arms, each with its value, separated by commas.
pub open spec fn compressed_text(
    compressed: Seq<bool>,
    names: Seq<String>,
    values: Seq<String>,
    n: nat,
) -> Seq<char>
    decreases n,
{
    if n == 0 {
        seq![]
    } else {
        let rest = compressed_text(compressed, names, values, (n - 1) as nat);
        if !compressed[n - 1] {
            rest
        } else {
            rest + (if compressed_among(compressed, (n - 1) as nat) > 0 {
                ","@
            } else {
                seq![]
            }) + names[n - 1]@ + "("@ + values[n - 1]@ + ")"@
        }
    }
}

/// The first `n` arms with their values, separated by spaces.
pub open spec fn values_text(names: Seq<String>, values: Seq<String>, n: nat) -> Seq<char>
    decreases n,
{
    if n == 0 {
        seq![]
    } else {
        values_text(names, values, (n - 1) as nat) + (if n > 1 {
            " "@
        } else {
            seq![]
        }) + names[n - 1]@ + ":"@ + values[n - 1]@
    }
}

impl HLPlayer {
    /// Generate a compression report string, given the names of the actions and the texts of
    /// their learned values.
    pub fn compress_report(&self, names: &Vec<String>, values: &Vec<String>) -> (s: String)
        requires
            self.wf(),
            names@.len() == ACTION_COUNT,
            values@.len() == ACTION_COUNT,
        ensures
            s@ == "Pulls="@ + text::decimal(self.total_pulls as nat) + " Compressed="@
                + text::decimal(compressed_among(self.compressed@, 6)) + "/"@ + text::decimal(6)
                + " ["@ + compressed_text(self.compressed@, names@, values@, 6) + "] Q=["@
                + values_text(names@, values@, 6) + "]"@,
    {
        let mut count: u64 = 0;
        let mut blocked = String::new();
        let mut all = String::new();
        let mut i: usize = 0;
        assert(blocked@ =~= compressed_text(self.compressed@, names@, values@, 0));
        assert(all@ =~= values_text(names@, values@, 0));
        while i < ACTION_COUNT
            invariant
                i <= ACTION_COUNT,
                self.wf(),
                names@.len() == ACTION_COUNT,
                values@.len() == ACTION_COUNT,
                count <= i,
                count == compressed_among(self.compressed@, i as nat),
                blocked@ == compressed_text(self.compressed@, names@, values@, i as nat),
                all@ == values_text(names@, values@, i as nat),
            decreases ACTION_COUNT - i,
        {
            if self.compressed[i] {
                if count > 0 {
                    push_text(&mut blocked, ",");
                }
                push_text(&mut blocked, names[i].as_str());
                push_text(&mut blocked, "(");
                push_text(&mut blocked, values[i].as_str());
                push_text(&mut blocked, ")");
                count = count + 1;
            }
            if i > 0 {
                push_text(&mut all, " ");
            }
            push_text(&mut all, names[i].as_str());
            push_text(&mut all, ":");
            push_text(&mut all, values[i].as_str());
            i = i + 1;
            assert(blocked@ =~= compressed_text(self.compressed@, names@, values@, i as nat));
            assert(all@ =~= values_text(names@, values@, i as nat));
        }
        let mut s = String::new();
        push_text(&mut s, "Pulls=");
        push_decimal(&mut s, self.total_pulls as u64);
        push_text(&mut s, " Compressed=");
        push_decimal(&mut s, count);
        push_text(&mut s, "/");
        push_decimal(&mut s, ACTION_COUNT as u64);
        push_text(&mut s, " [");
        push_text(&mut s, blocked.as_str());
        push_text(&mut s, "] Q=[");
        push_text(&mut s, all.as_str());
        push_text(&mut s, "]");
        s
    }
}

/// The four players of a game, one of each kind, each as new.
pub fn create_players() -> (p: (RandomPlayer, GreedyPlayer, ValidatorPlayer, HLPlayer))
    ensures
        p.0.id == 0,
        p.1.id == 1,
        p.1.state == (players::AiState::Explore { dir: BomberAction::Wait }),
        p.1.known_bombs@.len() == 0,
        p.2.id == 2,
        p.2.state == (players::AiState::Explore { dir: BomberAction::Wait }),
        p.2.known_bombs@.len() == 0,
        p.3.id == 3,
        p.3.wf(),
        p.3.known_bombs@.len() == 0,
        p.3.total_pulls == 0,
        p.3.round_actions@.len() == 0,
        p.3.last_dir is None,
        forall|i: int|
            0 <= i < ACTION_COUNT ==> #[trigger] p.3.q_values@[i] == 0 && p.3.visits@[i] == 0
                && !p.3.compressed@[i],
{
    (RandomPlayer::new(0), GreedyPlayer::new(1), ValidatorPlayer::new(2), HLPlayer::new(3))
}

/// Every pull of a round counts for exactly one arm.
pub proof fn law_pulls_add_up(actions: Seq<BomberAction>, last: BomberAction, arm: int)
    ensures
        pulls_of(actions, 0) + pulls_of(actions, 1) + pulls_of(actions, 2) + pulls_of(actions, 3)
            + pulls_of(actions, 4) + pulls_of(actions, 5) == actions.len(),
        pulls_of(actions.push(last), last.index()) == pulls_of(actions, last.index()) + 1,
        arm != last.index() ==> pulls_of(actions.push(last), arm) == pulls_of(actions, arm),
        pulls_of(Seq::empty(), arm) == 0,
    decreases actions.len(),
{
    assert(actions.push(last).drop_last() =~= actions);
    if actions.len() > 0 {
        law_pulls_add_up(actions.drop_last(), actions.last(), arm);
    }
}

/// An arm gets a share of a round exactly when it was pulled in it: as many of the round's pulls as
/// it had, and one visit more than before.
pub proof fn law_shares_are_of_pulled_arms(
    actions: Seq<BomberAction>,
    visits: Seq<u32>,
    n: nat,
    arm: int,
)
    requires
        n <= visits.len(),
        n <= usize::MAX,
        0 <= arm < n,
        actions.len() <= usize::MAX,
    ensures
        pulls_of(actions, arm) > 0 ==> exists|i: int|
            0 <= i < shares(actions, visits, n).len() && (#[trigger] shares(
                actions,
                visits,
                n,
            )[i]).arm == arm && shares(actions, visits, n)[i].count == pulls_of(actions, arm)
                && shares(actions, visits, n)[i].pulls == actions.len() && (visits[arm] < u32::MAX
                ==> shares(actions, visits, n)[i].visits == visits[arm] + 1),
        pulls_of(actions, arm) == 0 ==> forall|i: int|
            0 <= i < shares(actions, visits, n).len() ==> (#[trigger] shares(
                actions,
                visits,
                n,
            )[i]).arm != arm,
    decreases n,
{
    let all = shares(actions, visits, n);
    let rest = shares(actions, visits, (n - 1) as nat);
    lemma_share_arms(actions, visits, (n - 1) as nat);
    lemma_pulls_bound(actions, n - 1);
    lemma_pulls_bound(actions, arm);
    if arm < n - 1 {
        law_shares_are_of_pulled_arms(actions, visits, (n - 1) as nat, arm);
        if pulls_of(actions, arm) > 0 {
            let i = choose|i: int|
                0 <= i < rest.len() && (#[trigger] rest[i]).arm == arm && rest[i].count == pulls_of(
                    actions,
                    arm,
                ) && rest[i].pulls == actions.len() && (visits[arm] < u32::MAX ==> rest[i].visits
                    == visits[arm] + 1);
            assert(all[i] == rest[i]);
        } else {
            assert forall|i: int| 0 <= i < all.len() implies (#[trigger] all[i]).arm != arm by {
                if i < rest.len() {
                    assert(all[i] == rest[i]);
                }
            }
        }
    } else {
        if pulls_of(actions, arm) > 0 {
            assert(all[rest.len() as int].arm == arm);
        } else {
            assert forall|i: int| 0 <= i < all.len() implies (#[trigger] all[i]).arm != arm by {
                assert(all[i] == rest[i]);
            }
        }
    }
}

proof fn lemma_share_arms(actions: Seq<BomberAction>, visits: Seq<u32>, n: nat)
    requires
        n <= usize::MAX,
    ensures
        forall|i: int|
            0 <= i < shares(actions, visits, n).len() ==> (#[trigger] shares(
                actions,
                visits,
                n,
            )[i]).arm < n,
    decreases n,
{
    if n > 0 {
        lemma_share_arms(actions, visits, (n - 1) as nat);
        let rest = shares(actions, visits, (n - 1) as nat);
        let all = shares(actions, visits, n);
        assert forall|i: int| 0 <= i < all.len() implies (#[trigger] all[i]).arm < n by {
            if i < rest.len() {
                assert(all[i] == rest[i]);
            }
        }
    }
}

proof fn lemma_pulls_bound(actions: Seq<BomberAction>, arm: int)
    ensures
        pulls_of(actions, arm) <= actions.len(),
    decreases actions.len(),
{
    if actions.len() > 0 {
        lemma_pulls_bound(actions.drop_last(), arm);
    }
}

/// An arm is compressed once it was tried twenty times and is worth less than a tenth, and not
/// before; more visits or a lower value never keep it open.
pub proof fn law_poor_arms_are_compressed(visits: u32, q: u32, more: u32, lower: u32)
    requires
        float_bits::is_number(q),
        float_bits::is_number(lower),
        visits <= more,
        float_bits::at_most(lower, q),
    ensures
        visits < 20 ==> !ripe(false, visits, q),
        visits >= 20 && float_bits::below(q, COMPRESS_THRESHOLD) ==> ripe(false, visits, q),
        float_bits::at_most(COMPRESS_THRESHOLD, q) ==> !ripe(false, visits, q),
        ripe(false, visits, q) ==> ripe(false, more, lower),
        float_bits::is_nearest_to(COMPRESS_THRESHOLD, 1, 10),
        float_bits::is_nearest_to(HL_EXPLORE, 1, 10),
{
    vstd::arithmetic::power2::lemma2_to64();
}

/// A compression cycle takes exactly the ripe arms.
pub proof fn law_cycle_takes_the_ripe_arms(
    compressed: Seq<bool>,
    visits: Seq<u32>,
    q: Seq<u32>,
    n: nat,
    arm: int,
)
    requires
        n <= usize::MAX,
        0 <= arm < n,
    ensures
        ripe_arms(compressed, visits, q, n).contains(arm as usize) == ripe(
            compressed[arm],
            visits[arm],
            q[arm],
        ),
    decreases n,
{
    let all = ripe_arms(compressed, visits, q, n);
    let rest = ripe_arms(compressed, visits, q, (n - 1) as nat);
    lemma_ripe_below(compressed, visits, q, (n - 1) as nat);
    if arm < n - 1 {
        law_cycle_takes_the_ripe_arms(compressed, visits, q, (n - 1) as nat, arm);
        if rest.contains(arm as usize) {
            let i = choose|i: int| 0 <= i < rest.len() && rest[i] == arm as usize;
            assert(all[i] == arm as usize);
        }
        if all.contains(arm as usize) {
            let i = choose|i: int| 0 <= i < all.len() && all[i] == arm as usize;
            assert(rest[i] == arm as usize);
        }
    } else {
        if ripe(compressed[arm], visits[arm], q[arm]) {
            assert(all[rest.len() as int] == arm as usize);
        } else if all.contains(arm as usize) {
            let i = choose|i: int| 0 <= i < all.len() && all[i] == arm as usize;
            assert(rest[i] < n - 1);
        }
    }
}

proof fn lemma_ripe_below(compressed: Seq<bool>, visits: Seq<u32>, q: Seq<u32>, n: nat)
    requires
        n <= usize::MAX,
    ensures
        forall|i: int|
            0 <= i < ripe_arms(compressed, visits, q, n).len() ==> #[trigger] ripe_arms(
                compressed,
                visits,
                q,
                n,
            )[i] < n,
    decreases n,
{
    if n > 0 {
        lemma_ripe_below(compressed, visits, q, (n - 1) as nat);
        let rest = ripe_arms(compressed, visits, q, (n - 1) as nat);
        let all = ripe_arms(compressed, visits, q, n);
        assert forall|i: int| 0 <= i < all.len() implies #[trigger] all[i] < n by {
            if i < rest.len() {
                assert(all[i] == rest[i]);
            }
        }
    }
}

/// Unless a roll of one in ten explores, the best open arm is pulled. Exploring draws among the
/// open arms that have a score, all of them.
pub proof fn law_pulls_exploit_or_explore(
    compressed: Seq<bool>,
    scores: Seq<u32>,
    seed: u64,
    arm: int,
)
    requires
        compressed.len() == ACTION_COUNT,
        scores.len() == ACTION_COUNT,
        0 <= arm < ACTION_COUNT,
    ensures
        random::unit_roll_spec(seed, REDRAWS as nat).0 >= HL_EXPLORE ==> pulled_arm(
            compressed,
            scores,
            seed,
        ) == (match best_open(compressed, scores, 6) {
            Some(best) => (best, random::unit_roll_spec(seed, REDRAWS as nat).1),
            None => (5int, random::unit_roll_spec(seed, REDRAWS as nat).1),
        }),
        playable(compressed, scores, 6).contains(arm as usize) == (!compressed[arm]
            && float_bits::below(NEG_INFINITY_BITS, scores[arm])),
{
    lemma_playable_members(compressed, scores, 6, arm);
}

proof fn lemma_playable_members(compressed: Seq<bool>, scores: Seq<u32>, n: nat, arm: int)
    requires
        0 <= arm < n <= ACTION_COUNT,
    ensures
        playable(compressed, scores, n).contains(arm as usize) == (!compressed[arm] && has_score(
            scores[arm],
        )),
    decreases n,
{
    let all = playable(compressed, scores, n);
    let rest = playable(compressed, scores, (n - 1) as nat);
    lemma_playable(compressed, scores, (n - 1) as nat);
    if arm < n - 1 {
        lemma_playable_members(compressed, scores, (n - 1) as nat, arm);
        if rest.contains(arm as usize) {
            let i = choose|i: int| 0 <= i < rest.len() && rest[i] == arm as usize;
            assert(all[i] == arm as usize);
        }
        if all.contains(arm as usize) {
            let i = choose|i: int| 0 <= i < all.len() && all[i] == arm as usize;
            assert(rest[i] == arm as usize);
        }
    } else {
        if !compressed[arm] && has_score(scores[arm]) {
            assert(all[rest.len() as int] == arm as usize);
        } else if all.contains(arm as usize) {
            let i = choose|i: int| 0 <= i < all.len() && all[i] == arm as usize;
            assert(rest[i] < n - 1);
        }
    }
}

/// What was never pulled is worth nothing yet, and what was is worth what was learned.
pub proof fn law_untried_arms_are_worth_nothing(p: &HLPlayer, i: int)
    requires
        p.wf(),
        0 <= i < ACTION_COUNT,
    ensures
        p.visits@[i] == 0 ==> p.arm_value(i) == 0,
        p.visits@[i] > 0 ==> p.arm_value(i) == p.q_values@[i],
{
}

impl HLPlayer {
    /// A compressed arm is out whatever the arena looks like; a step that leads onto no floor is
    /// blocked; every other arm is blended from its heuristic, its safety and its learned value.
    pub proof fn law_arms_are_sorted_out(
        &self,
        i: int,
        grid: &ArenaGrid,
        pos: GridPos,
        bombs: Seq<((i32, i32), u32)>,
        arm: Arm,
    )
        requires
            self.arm_matches(i, grid, pos, bombs, arm),
        ensures
            ({
                let action = routes::action_at(i);
                let to = routes::target(action, pos);
                let barred = (action is Up || action is Down || action is Left || action is Right)
                    && (grid.at(to.x as int, to.y as int) is FixedWall || grid.at(
                    to.x as int,
                    to.y as int,
                ) is DestructibleWall);
                &&& arm is Compressed == self.compressed@[i]
                &&& arm is Blocked == (!self.compressed@[i] && barred)
                &&& arm matches Arm::Open { terms, safe, q } ==> terms@ == players::score_terms(
                    action,
                    grid,
                    pos,
                    bombs,
                    self.last_dir,
                ) && safe == players::is_safe(action, grid, pos, bombs) && (q == self.q_values@[i]
                    || (self.visits@[i] == 0 && q == 0))
            }),
    {
    }
}

/// Compressing an arm that was not raises their number by one, and without any it is zero.
pub proof fn law_compressed_arms_are_counted(compressed: Seq<bool>, n: nat, i: int)
    requires
        n <= compressed.len(),
        0 <= i < compressed.len(),
        !compressed[i],
    ensures
        compressed_among(compressed.update(i, true), n) == compressed_among(compressed, n) + (if i
            < n {
            1nat
        } else {
            0nat
        }),
        (forall|k: int| 0 <= k < n ==> !#[trigger] compressed[k]) ==> compressed_among(compressed, n)
            == 0,
    decreases n,
{
    if n > 0 {
        law_compressed_arms_are_counted(compressed, (n - 1) as nat, i);
    }
}

proof fn lemma_some_compressed(compressed: Seq<bool>, n: nat)
    ensures
        compressed_among(compressed, n) > 0 <==> exists|k: int| 0 <= k < n && #[trigger] compressed[k],
    decreases n,
{
    if n > 0 {
        lemma_some_compressed(compressed, (n - 1) as nat);
        if exists|k: int| 0 <= k < n && #[trigger] compressed[k] {
            let k = choose|k: int| 0 <= k < n && #[trigger] compressed[k];
            if k < n - 1 {
                assert(compressed[k]);
            }
        }
        if compressed[n - 1] {
            assert(compressed_among(compressed, n) > 0);
        }
    }
}

/// The report names each compressed arm with its value in brackets, with a comma before it where
/// another was named already, and all arms with their values behind colons and blanks between.
pub proof fn law_report_names_the_arms(
    compressed: Seq<bool>,
    names: Seq<String>,
    values: Seq<String>,
    n: nat,
)
    ensures
        ({
            let before = compressed_text(compressed, names, values, n);
            let after = compressed_text(compressed, names, values, n + 1);
            let own = names[n as int]@ + seq!['('] + values[n as int]@ + seq![')'];
            let earlier = exists|k: int| 0 <= k < n && #[trigger] compressed[k];
            &&& !compressed[n as int] ==> after == before
            &&& compressed[n as int] && earlier ==> after == before + seq![','] + own
            &&& compressed[n as int] && !earlier ==> after == own
        }),
        compressed_text(compressed, names, values, 0) == Seq::<char>::empty(),
        n == 0 ==> values_text(names, values, 1) == names[0]@ + seq![':'] + values[0]@,
        n > 0 ==> values_text(names, values, n + 1) == values_text(names, values, n) + seq![' ']
            + names[n as int]@ + seq![':'] + values[n as int]@,
{
    reveal_strlit(",");
    reveal_strlit("(");
    reveal_strlit(")");
    reveal_strlit(" ");
    reveal_strlit(":");
    assert(","@ =~= seq![',']);
    assert("("@ =~= seq!['(']);
    assert(")"@ =~= seq![')']);
    assert(" "@ =~= seq![' ']);
    assert(":"@ =~= seq![':']);
    lemma_some_compressed(compressed, n);
    let before = compressed_text(compressed, names, values, n);
    let own = names[n as int]@ + seq!['('] + values[n as int]@ + seq![')'];
    if compressed[n as int] {
        if compressed_among(compressed, n) > 0 {
            assert(compressed_text(compressed, names, values, n + 1) =~= before + seq![','] + own);
        } else {
            lemma_no_text(compressed, names, values, n);
            assert(compressed_text(compressed, names, values, n + 1) =~= own);
        }
    }
    if n == 0 {
        reveal_with_fuel(values_text, 2);
        assert(values_text(names, values, 1) =~= names[0]@ + seq![':'] + values[0]@);
    } else {
        assert(values_text(names, values, n + 1) =~= values_text(names, values, n) + seq![' ']
            + names[n as int]@ + seq![':'] + values[n as int]@);
    }
}

proof fn lemma_no_text(compressed: Seq<bool>, names: Seq<String>, values: Seq<String>, n: nat)
    requires
        compressed_among(compressed, n) == 0,
    ensures
        compressed_text(compressed, names, values, n) == Seq::<char>::empty(),
    decreases n,
{
    if n > 0 {
        lemma_no_text(compressed, names, values, (n - 1) as nat);
    }
}

} // verus!
