//! What becomes of a draft: the best path, how much of it is accepted, and the rejection loop.

use vstd::prelude::*;

use crate::float_bits;
use crate::float_bits::{is_at_most, is_below, order_key, round_signed};
use crate::random::ONE_BITS;
use crate::speculative::dd_tree::TreeNode;

verus! {

/// Bit pattern of positive infinity; larger magnitudes are not numbers.
pub const INFINITY_BITS: u32 = 0x7F80_0000;

/// The number by which the scores of one depth are compared: the score in millionths, cut to
/// an integer. The product is rounded to single precision first.
pub open spec fn path_key(score: i64) -> int {
    let n = float_bits::round24_signed(score * 1_000_000);
    if n < 0 {
        -(-n / 0x1_0000_0000_0000)
    } else {
        n / 0x1_0000_0000_0000
    }
}

/// The greatest depth among the first `n` nodes.
pub open spec fn deepest(tree: Seq<TreeNode>, n: nat) -> nat
    decreases n,
{
    if n == 0 {
        0
    } else {
        let rest = deepest(tree, (n - 1) as nat);
        if tree[n - 1].depth > rest {
            tree[n - 1].depth as nat
        } else {
            rest
        }
    }
}

/// The place of the best node at a depth among the first `n`, the later of equals.
pub open spec fn best_at(tree: Seq<TreeNode>, depth: nat, n: nat) -> Option<int>
    decreases n,
{
    if n == 0 {
        None
    } else {
        let best = best_at(tree, depth, (n - 1) as nat);
        let node = tree[n - 1];
        if node.depth != depth {
            best
        } else if best is Some && path_key(node.score) < path_key(tree[best->0].score) {
            best
        } else {
            Some(n - 1)
        }
    }
}

/// The best token at each depth from `from` to `to`, up to the first depth without a node.
pub open spec fn best_path(tree: Seq<TreeNode>, from: nat, to: nat) -> Seq<usize>
    decreases to + 1 - from,
{
    if from > to {
        seq![]
    } else {
        match best_at(tree, from, tree.len()) {
            Some(i) => seq![tree[i].token_idx] + best_path(tree, from + 1, to),
            None => seq![],
        }
    }
}

fn path_key_of(score: i64) -> (k: i128)
    ensures
        k == path_key(score),
{
    let n: i128 = round_signed(score as i128 * 1_000_000);
    if n < 0 {
        -((-n) / 0x1_0000_0000_0000)
    } else {
        n / 0x1_0000_0000_0000
    }
}

fn deepest_of(tree: &[TreeNode]) -> (d: usize)
    ensures
        d == deepest(tree@, tree@.len()),
{
    let mut deep: usize = 0;
    let mut i: usize = 0;
    while i < tree.len()
        invariant
            i <= tree@.len(),
            deep == deepest(tree@, i as nat),
        decreases tree@.len() - i,
    {
        if tree[i].depth > deep {
            deep = tree[i].depth;
        }
        i = i + 1;
    }
    deep
}

fn best_node_at(tree: &[TreeNode], depth: usize) -> (r: Option<usize>)
    ensures
        r is Some == best_at(tree@, depth as nat, tree@.len()) is Some,
        r matches Some(i) ==> best_at(tree@, depth as nat, tree@.len()) == Some(i as int) && i
            < tree@.len(),
{
    let mut best: Option<usize> = None;
    let mut i: usize = 0;
    while i < tree.len()
        invariant
            i <= tree@.len(),
            best is Some == best_at(tree@, depth as nat, i as nat) is Some,
            best matches Some(b) ==> best_at(tree@, depth as nat, i as nat) == Some(b as int) && b
                < i,
        decreases tree@.len() - i,
    {
        if tree[i].depth == depth {
            let better: bool = match best {
                Some(b) => path_key_of(tree[i].score) >= path_key_of(tree[b].score),
                None => true,
            };
            if better {
                best = Some(i);
            }
        }
        i = i + 1;
    }
    best
}

/// Extract best-scored token at each depth from a DDTree.
pub fn extract_best_path(tree: &[TreeNode]) -> (path: Vec<usize>)
    ensures
        path@ == (if tree@.len() == 0 {
            seq![]
        } else {
            best_path(tree@, 0, deepest(tree@, tree@.len()))
        }),
{
    let mut path: Vec<usize> = Vec::new();
    if tree.len() == 0 {
        assert(path@ =~= seq![]);
        return path;
    }
    let deep: usize = deepest_of(tree);
    let mut depth: usize = 0;
    let ghost whole = best_path(tree@, 0, deep as nat);
    assert(path@ + best_path(tree@, 0, deep as nat) =~= whole);
    loop
        invariant_except_break
            path@ + best_path(tree@, depth as nat, deep as nat) == whole,
        invariant
            depth <= deep,
            deep == deepest(tree@, tree@.len()),
            whole == best_path(tree@, 0, deep as nat),
        ensures
            path@ == whole,
        decreases deep - depth,
    {
        let ghost before = path@;
        match best_node_at(tree, depth) {
            Some(i) => {
                path.push(tree[i].token_idx);
                assert(path@ + best_path(tree@, (depth + 1) as nat, deep as nat) =~= before + (
                seq![tree@[i as int].token_idx] + best_path(
                    tree@,
                    (depth + 1) as nat,
                    deep as nat,
                )));
            },
            None => {
                assert(path@ + seq![] =~= path@);
                break ;
            },
        }
        if depth == deep {
            assert(path@ + best_path(tree@, (depth + 1) as nat, deep as nat) =~= path@);
            break ;
        }
        depth = depth + 1;
    }
    path
}

/// `n` divided by `2^s`, rounded up.
pub open spec fn halved_up(n: nat, s: nat) -> nat
    decreases s,
{
    if s == 0 {
        n
    } else {
        halved_up((n + 1) / 2, (s - 1) as nat)
    }
}

/// A rate as a significand and the power of two that divides it.
pub open spec fn rate_parts(rate: u32) -> (nat, nat) {
    let e = rate / 0x80_0000;
    let frac = rate % 0x80_0000;
    if e == 0 {
        (frac as nat, 149)
    } else {
        ((0x80_0000 + frac) as nat, (150 - e) as nat)
    }
}

/// The rate kept by a verifier: clamped to 0..=1, unless it is not a number.
pub open spec fn clamped_rate(rate: u32) -> u32 {
    if rate % 0x8000_0000 > INFINITY_BITS {
        rate
    } else if float_bits::key(rate) <= 0 {
        0
    } else if float_bits::key(rate) > ONE_BITS {
        ONE_BITS
    } else {
        rate
    }
}

/// How many of `len` drafted tokens a rate accepts: the product of the two, length and product
/// rounded to single precision, and then up, as far as a length can count. A rate that is not a
/// number accepts none.
pub open spec fn accepted_count(len: nat, rate: u32) -> nat {
    if rate > ONE_BITS {
        0
    } else {
        let (m, s) = rate_parts(rate);
        let n = halved_up(float_bits::round24(float_bits::round24(len) * m), s);
        if n > usize::MAX {
            usize::MAX as nat
        } else {
            n
        }
    }
}

/// How many tokens of a drafted path are kept under a cap: at least the first.
pub open spec fn kept_count(len: nat, cap: nat) -> nat {
    if cap < 1 {
        1
    } else if cap < len {
        cap
    } else {
        len
    }
}

/// Simulated verification: an acceptance cap and a bonus token.
///
/// No target model needed — fast, used by default.
#[derive(Clone, Copy, Debug, PartialEq, Eq, Structural)]
pub struct SimulatedVerifier {
    /// Bit pattern of the acceptance rate.
    pub acceptance_rate: u32,
}

/// What is accepted of a drafted path.
#[derive(Debug)]
pub struct Acceptance {
    pub accepted: Vec<usize>,
    /// True when everything up to the cap was accepted, so that one more token is sampled.
    pub bonus: bool,
}

/// The distribution that the last token of a settlement is drawn from.
#[derive(Clone, Copy, Debug, PartialEq, Eq, Structural)]
pub enum Draw {
    /// No token is drawn.
    Nothing,
    /// The marginal of a drafted step.
    Marginal { at: usize },
    /// The distribution of a single token, where nothing was drafted.
    Sole,
}

/// What a step comes to: the drafted tokens that are kept, and what one more is drawn from.
#[derive(Debug)]
pub struct Settlement {
    pub kept: Vec<usize>,
    pub draw: Draw,
}

impl SimulatedVerifier {
    /// A verifier for a rate given by its bit pattern.
    pub fn new(acceptance_rate: u32) -> (v: SimulatedVerifier)
        ensures
            v.acceptance_rate == clamped_rate(acceptance_rate),
    {
        let rate: u32 = if acceptance_rate % 0x8000_0000 > INFINITY_BITS {
            acceptance_rate
        } else if order_key(acceptance_rate) <= 0 {
            0
        } else if order_key(acceptance_rate) > ONE_BITS as i64 {
            ONE_BITS
        } else {
            acceptance_rate
        };
        SimulatedVerifier { acceptance_rate: rate }
    }

    /// How many of `len` drafted tokens are accepted.
    pub fn max_accept(&self, len: usize) -> (n: usize)
        ensures
            n == accepted_count(len as nat, self.acceptance_rate),
    {
        let rate: u32 = self.acceptance_rate;
        if rate > ONE_BITS {
            return 0;
        }
        let e: u32 = rate / 0x80_0000;
        let frac: u32 = rate % 0x80_0000;
        let m: i128 = if e == 0 {
            frac as i128
        } else {
            (0x80_0000 + frac) as i128
        };
        let shift: u32 = if e == 0 {
            149
        } else {
            150 - e
        };
        proof {
            float_bits::lemma_round24_bound(len as nat);
        }
        let length: i128 = round_signed(len as i128);
        assert(0 <= length * m <= 0x2_0000_0000_0000_0000 * 0x100_0000) by (nonlinear_arith)
            requires
                0 <= length <= 0x2_0000_0000_0000_0000,
                0 <= m <= 0x100_0000,
        ;
        proof {
            float_bits::lemma_round24_bound((length * m) as nat);
        }
        let product: i128 = round_signed(length * m);
        let mut n: i128 = product;
        let mut s: u32 = shift;
        while s > 0
            invariant
                0 <= n <= 0x1000_0000_0000_0000_0000_0000_0000,
                halved_up(product as nat, shift as nat) == halved_up(n as nat, s as nat),
            decreases s,
        {
            n = (n + 1) / 2;
            s = s - 1;
        }
        if n > usize::MAX as i128 {
            usize::MAX
        } else {
            n as usize
        }
    }

    /// Accepts a drafted path up to the cap, and at least one token.
    pub fn accept(&self, path: &Vec<usize>) -> (r: Acceptance)
        requires
            0 < path@.len(),
        ensures
            ({
                let cap = accepted_count(path@.len(), self.acceptance_rate);
                let taken = kept_count(path@.len(), cap);
                &&& r.accepted@ == path@.take(taken as int)
                &&& r.bonus == (taken == cap)
            }),
            1 <= r.accepted@.len() <= path@.len(),
    {
        let cap: usize = self.max_accept(path.len());
        let taken: usize = if cap < 1 {
            1
        } else if cap < path.len() {
            cap
        } else {
            path.len()
        };
        let mut accepted: Vec<usize> = Vec::new();
        let mut i: usize = 0;
        while i < taken
            invariant
                i <= taken <= path@.len(),
                accepted@ =~= path@.take(i as int),
            decreases taken - i,
        {
            accepted.push(path[i]);
            i = i + 1;
        }
        Acceptance { accepted, bonus: taken == cap }
    }

    /// What becomes of the best path through a draft of `steps` steps. Without a path, one token
    /// is drawn from the first marginal. Otherwise the path is kept up to the cap; where the cap
    /// is met, a bonus token is drawn from the last marginal, if there is one.
    pub fn settle(&self, path: &Vec<usize>, steps: usize) -> (r: Settlement)
        ensures
            path@.len() == 0 ==> r.kept@.len() == 0 && r.draw == (if steps == 0 {
                Draw::Sole
            } else {
                Draw::Marginal { at: 0 }
            }),
            path@.len() > 0 ==> {
                let cap = accepted_count(path@.len(), self.acceptance_rate);
                let taken = kept_count(path@.len(), cap);
                &&& r.kept@ == path@.take(taken as int)
                &&& r.draw == (if taken == cap && steps > 0 {
                    Draw::Marginal { at: (steps - 1) as usize }
                } else {
                    Draw::Nothing
                })
            },
            r.kept@.len() > 0 || r.draw != Draw::Nothing,
    {
        if path.len() == 0 {
            let draw = if steps == 0 {
                Draw::Sole
            } else {
                Draw::Marginal { at: 0 }
            };
            return Settlement { kept: Vec::new(), draw };
        }
        let acceptance = self.accept(path);
        let draw = if acceptance.bonus && steps > 0 {
            Draw::Marginal { at: steps - 1 }
        } else {
            Draw::Nothing
        };
        Settlement { kept: acceptance.accepted, draw }
    }
}

/// The node at a depth that no other there beats.
pub open spec fn is_best_at(tree: Seq<TreeNode>, depth: int, i: int) -> bool {
    &&& 0 <= i < tree.len()
    &&& tree[i].depth == depth
    &&& forall|j: int|
        0 <= j < tree.len() && (#[trigger] tree[j]).depth == depth ==> path_key(tree[j].score)
            <= path_key(tree[i].score)
}

/// The best path holds a token of the best score at each depth, up to the first depth that has no
/// node.
pub proof fn law_path_takes_the_best(tree: Seq<TreeNode>, d: int)
    requires
        tree.len() > 0,
    ensures
        ({
            let path = best_path(tree, 0, deepest(tree, tree.len()));
            &&& 0 <= d < path.len() ==> exists|i: int| #[trigger]
                is_best_at(tree, d, i) && tree[i].token_idx == path[d]
            &&& d == path.len() ==> forall|i: int|
                0 <= i < tree.len() ==> (#[trigger] tree[i]).depth != d
        }),
{
    let to = deepest(tree, tree.len());
    lemma_path_entries(tree, 0, to, d);
    lemma_deepest(tree, tree.len());
    lemma_path_len(tree, 0, to);
}

proof fn lemma_best_at(tree: Seq<TreeNode>, depth: nat, n: nat)
    requires
        n <= tree.len(),
    ensures
        match best_at(tree, depth, n) {
            Some(i) => 0 <= i < n && tree[i].depth == depth && forall|j: int|
                0 <= j < n && (#[trigger] tree[j]).depth == depth ==> path_key(tree[j].score)
                    <= path_key(tree[i].score),
            None => forall|j: int| 0 <= j < n ==> (#[trigger] tree[j]).depth != depth,
        },
    decreases n,
{
    if n > 0 {
        lemma_best_at(tree, depth, (n - 1) as nat);
    }
}

proof fn lemma_path_entries(tree: Seq<TreeNode>, from: nat, to: nat, d: int)
    ensures
        ({
            let path = best_path(tree, from, to);
            &&& 0 <= d < path.len() ==> exists|i: int| #[trigger]
                is_best_at(tree, from + d, i) && tree[i].token_idx == path[d]
            &&& d == path.len() && from + d <= to ==> forall|i: int|
                0 <= i < tree.len() ==> (#[trigger] tree[i]).depth != from + d
        }),
    decreases to + 1 - from,
{
    if from <= to {
        lemma_best_at(tree, from, tree.len());
        match best_at(tree, from, tree.len()) {
            Some(i) => {
                lemma_path_entries(tree, from + 1, to, d - 1);
                let rest = best_path(tree, from + 1, to);
                let path = best_path(tree, from, to);
                if d == 0 {
                    assert(is_best_at(tree, from + d, i) && tree[i].token_idx == path[d]);
                } else if 0 < d < path.len() {
                    let e = (from + 1) + (d - 1);
                    let k = choose|k: int| #[trigger]
                        is_best_at(tree, e, k) && tree[k].token_idx == rest[d - 1];
                    assert(path[d] == rest[d - 1]);
                    assert(e == from + d);
                    assert(is_best_at(tree, from + d, k) && tree[k].token_idx == path[d]);
                }
            },
            None => {},
        }
    }
}

proof fn lemma_deepest(tree: Seq<TreeNode>, n: nat)
    requires
        n <= tree.len(),
    ensures
        forall|i: int| 0 <= i < n ==> (#[trigger] tree[i]).depth <= deepest(tree, n),
    decreases n,
{
    if n > 0 {
        lemma_deepest(tree, (n - 1) as nat);
    }
}

/// The best path through a tree is no longer than its draft, and of a path that is not empty at
/// least one token is kept: with a bonus token a step comes to at most one more than was drafted.
pub proof fn law_settlement_is_bounded(tree: Seq<TreeNode>, steps: nat, rate: u32)
    requires
        tree.len() > 0,
        forall|i: int| 0 <= i < tree.len() ==> (#[trigger] tree[i]).depth < steps,
    ensures
        ({
            let path = best_path(tree, 0, deepest(tree, tree.len()));
            let kept = kept_count(path.len(), accepted_count(path.len(), rate));
            &&& path.len() <= steps
            &&& path.len() > 0 ==> 1 <= kept <= path.len()
        }),
{
    lemma_deepest_below(tree, tree.len(), steps);
    lemma_path_len(tree, 0, deepest(tree, tree.len()));
}

proof fn lemma_deepest_below(tree: Seq<TreeNode>, n: nat, steps: nat)
    requires
        0 < n <= tree.len(),
        forall|i: int| 0 <= i < tree.len() ==> (#[trigger] tree[i]).depth < steps,
    ensures
        deepest(tree, n) < steps,
    decreases n,
{
    assert(tree[n - 1].depth < steps);
    if n > 1 {
        lemma_deepest_below(tree, (n - 1) as nat, steps);
    } else {
        assert(deepest(tree, 0) == 0);
    }
}

proof fn lemma_path_len(tree: Seq<TreeNode>, from: nat, to: nat)
    requires
        from <= to + 1,
    ensures
        best_path(tree, from, to).len() <= to + 1 - from,
    decreases to + 1 - from,
{
    if from <= to {
        lemma_path_len(tree, from + 1, to);
    }
}

/// Rounding up after every halving rounds up once.
pub proof fn law_halved_up_is_least(n: nat, s: nat)
    ensures
        n <= halved_up(n, s) * vstd::arithmetic::power2::pow2(s),
        halved_up(n, s) > 0 ==> (halved_up(n, s) - 1) * vstd::arithmetic::power2::pow2(s) < n,
    decreases s,
{
    if s == 0 {
        vstd::arithmetic::power2::lemma2_to64();
        assert(n * 1 == n);
    } else {
        let m = (n + 1) / 2;
        law_halved_up_is_least(m, (s - 1) as nat);
        vstd::arithmetic::power2::lemma_pow2_unfold(s);
        let h = halved_up(n, s) as int;
        let p = vstd::arithmetic::power2::pow2((s - 1) as nat) as int;
        assert(h * (2 * p) == 2 * (h * p)) by (nonlinear_arith);
        assert((h - 1) * (2 * p) == 2 * ((h - 1) * p)) by (nonlinear_arith);
    }
}

/// How many tokens can be drafted from a position.
pub fn draft_steps(lookahead: usize, block_size: usize, pos: usize) -> (n: usize)
    ensures
        n == (if block_size <= pos {
            0
        } else if lookahead < block_size - pos {
            lookahead as int
        } else {
            block_size - pos
        }),
{
    let room: usize = block_size.saturating_sub(pos);
    if lookahead < room {
        lookahead
    } else {
        room
    }
}

/// The chance that a drafted token is accepted, as a bit pattern: `min(1, p / q)` for the
/// pattern of `p / q`, and one where the draft gave the token no probability.
pub open spec fn acceptance(q: u32, ratio: u32) -> u32 {
    if float_bits::below(0, q) && float_bits::below(ratio, ONE_BITS) {
        ratio
    } else {
        ONE_BITS
    }
}

/// Whether a roll accepts a drafted token.
pub open spec fn accepts(q: u32, ratio: u32, roll: u32) -> bool {
    float_bits::at_most(roll, acceptance(q, ratio))
}

/// What the rejection loop asks for next.
#[derive(Clone, Copy, Debug, PartialEq, Eq, Structural)]
pub enum RejectionStep {
    /// Accept or reject the drafted token at this place.
    Judge { at: usize, token: usize },
    /// Sample a replacement from what the target prefers at this place.
    Replace { at: usize },
    /// Every drafted token was accepted: sample one more.
    Bonus { at: usize },
    /// The tokens are final.
    Done,
}

/// Rejection sampling of a draft against a target distribution.
///
/// Drafted tokens are judged in order. The first one rejected is replaced and ends the loop;
/// if none is, a bonus token is added.
#[derive(Debug)]
pub struct RejectionLoop {
    pub drafted: Vec<usize>,
    pub accepted: Vec<usize>,
    pub step: RejectionStep,
}

impl RejectionLoop {
    /// What has been accepted is a prefix of the draft, followed by one token at the end.
    pub open spec fn wf(&self) -> bool {
        match self.step {
            RejectionStep::Judge { at, token } => at < self.drafted@.len() && token
                == self.drafted@[at as int] && self.accepted@ == self.drafted@.take(at as int),
            RejectionStep::Replace { at } => at < self.drafted@.len() && self.accepted@
                == self.drafted@.take(at as int),
            RejectionStep::Bonus { at } => at == self.drafted@.len() && self.accepted@
                == self.drafted@,
            RejectionStep::Done => exists|k: int, t: usize|
                0 <= k <= self.drafted@.len() && self.accepted@ == #[trigger] self.drafted@.take(
                    k,
                ).push(t),
        }
    }

    /// Starts with a draft. An empty draft leaves only the bonus token.
    pub fn new(drafted: Vec<usize>) -> (l: RejectionLoop)
        ensures
            l.wf(),
            l.drafted@ == drafted@,
            l.accepted@.len() == 0,
            l.step == (if drafted@.len() == 0 {
                RejectionStep::Bonus { at: 0 }
            } else {
                RejectionStep::Judge { at: 0, token: drafted@[0] }
            }),
    {
        let step = if drafted.len() == 0 {
            RejectionStep::Bonus { at: 0 }
        } else {
            RejectionStep::Judge { at: 0, token: drafted[0] }
        };
        let l = RejectionLoop { drafted, accepted: Vec::new(), step };
        assert(l.accepted@ =~= l.drafted@.take(0));
        assert(l.drafted@.len() == 0 ==> l.accepted@ =~= l.drafted@);
        l
    }

    /// Judges the token asked about by a roll, given the bit patterns of its probability `q` in
    /// the draft and of the ratio `p / q` to its probability in the target.
    pub fn judge(&mut self, q: u32, ratio: u32, roll: u32)
        requires
            old(self).wf(),
            old(self).step is Judge,
        ensures
            final(self).wf(),
            final(self).drafted@ == old(self).drafted@,
            ({
                let accept = accepts(q, ratio, roll);
                let at = old(self).step->Judge_at;
                let len = old(self).drafted@.len();
                &&& !accept ==> final(self).accepted@ == old(self).accepted@ && final(self).step == (
                RejectionStep::Replace { at })
                &&& accept ==> final(self).accepted@ == old(self).drafted@.take(at + 1)
                &&& accept && at + 1 < len ==> final(self).step == (RejectionStep::Judge {
                    at: (at + 1) as usize,
                    token: old(self).drafted@[at + 1],
                })
                &&& accept && at + 1 == len ==> final(self).step == (RejectionStep::Bonus {
                    at: len as usize,
                })
            }),
    {
        let len: usize = self.drafted.len();
        let chance: u32 = if is_below(0, q) && is_below(ratio, ONE_BITS) {
            ratio
        } else {
            ONE_BITS
        };
        if let RejectionStep::Judge { at, token } = self.step {
            if is_at_most(roll, chance) {
                self.accepted.push(token);
                assert(self.accepted@ =~= self.drafted@.take(at + 1));
                let next: usize = at + 1;
                if next < len {
                    self.step = RejectionStep::Judge { at: next, token: self.drafted[next] };
                } else {
                    assert(self.drafted@.take(at + 1) =~= self.drafted@);
                    self.step = RejectionStep::Bonus { at: next };
                }
            } else {
                self.step = RejectionStep::Replace { at };
            }
        }
    }

    /// Takes the sampled replacement or bonus token and ends the loop.
    pub fn finish(&mut self, token: usize)
        requires
            old(self).wf(),
            old(self).step is Replace || old(self).step is Bonus,
        ensures
            final(self).wf(),
            final(self).drafted@ == old(self).drafted@,
            final(self).accepted@ == old(self).accepted@.push(token),
            final(self).step is Done,
    {
        let ghost k = self.accepted@.len() as int;
        assert(self.accepted@ =~= self.drafted@.take(k));
        self.accepted.push(token);
        self.step = RejectionStep::Done;
        assert(self.accepted@ == self.drafted@.take(k).push(token));
    }
}

/// A token that the target likes at least as much as the draft is always accepted.
pub proof fn law_preferred_token_is_accepted(q: u32, ratio: u32, roll: u32)
    requires
        float_bits::at_most(ONE_BITS, ratio),
        float_bits::at_most(roll, ONE_BITS),
    ensures
        accepts(q, ratio, roll),
{
}

/// A finished loop holds at least one token and at most one more than was drafted.
pub proof fn law_rejection_yields_a_token(l: RejectionLoop)
    requires
        l.wf(),
        l.step is Done,
    ensures
        1 <= l.accepted@.len() <= l.drafted@.len() + 1,
        forall|i: int|
            0 <= i < l.accepted@.len() - 1 ==> #[trigger] l.accepted@[i] == l.drafted@[i],
{
}

/// The number by which a score is compared never falls as the score rises: of two scores the
/// higher one is not the one passed over.
pub proof fn law_higher_scores_compare_higher(a: i64, b: i64)
    requires
        a <= b,
    ensures
        path_key(a) <= path_key(b),
        a <= 0 ==> path_key(a) <= 0,
        b >= 0 ==> path_key(b) >= 0,
{
    float_bits::law_signed_rounding_keeps_order(a * 1_000_000, b * 1_000_000);
    float_bits::law_signed_rounding_keeps_order(b * 1_000_000, b * 1_000_000);
    float_bits::law_signed_rounding_keeps_order(a * 1_000_000, a * 1_000_000);
}

/// The number by which a score is compared counts its millionths: it is off by less than one and
/// by what single precision loses.
pub proof fn law_scores_compare_by_millionths(score: i64)
    ensures
        ({
            let exact = score * 1_000_000;
            let size = if exact < 0 {
                -exact
            } else {
                exact
            };
            let off = path_key(score) * 0x1_0000_0000_0000 - exact;
            &&& 0x100_0000 * off < 0x100_0000 * 0x1_0000_0000_0000 + size
            &&& -0x100_0000 * off < 0x100_0000 * 0x1_0000_0000_0000 + size
        }),
{
    float_bits::law_signed_rounding_keeps_order(score * 1_000_000, score * 1_000_000);
}

/// The token of the best path at a depth belongs to a node there that no other beats: no node of
/// that depth has a score higher by two millionths and what single precision loses, and every
/// later node of the depth has a lower score.
pub proof fn law_path_takes_the_most_probable(tree: Seq<TreeNode>, d: int)
    requires
        tree.len() > 0,
        0 <= d < best_path(tree, 0, deepest(tree, tree.len())).len(),
    ensures
        exists|i: int|
            {
                &&& 0 <= i < tree.len()
                &&& (#[trigger] tree[i]).depth == d
                &&& tree[i].token_idx == best_path(tree, 0, deepest(tree, tree.len()))[d]
                &&& forall|j: int|
                    0 <= j < tree.len() && (#[trigger] tree[j]).depth == d ==> not_beaten(
                        tree[i].score,
                        tree[j].score,
                    )
                &&& forall|j: int|
                    i < j < tree.len() && (#[trigger] tree[j]).depth == d ==> tree[j].score
                        < tree[i].score
            },
{
    let to = deepest(tree, tree.len());
    lemma_path_node(tree, 0, to, d);
    let path = best_path(tree, 0, to);
    let i = choose|i: int|
        best_at(tree, d as nat, tree.len()) == Some(i) && (#[trigger] tree[i]).token_idx == path[d];
    lemma_best_at(tree, d as nat, tree.len());
    lemma_best_is_late(tree, d as nat, tree.len());
    assert forall|j: int| 0 <= j < tree.len() && (#[trigger] tree[j]).depth == d implies not_beaten(
        tree[i].score,
        tree[j].score,
    ) by {
        law_scores_compare_by_millionths(tree[i].score);
        law_scores_compare_by_millionths(tree[j].score);
    }
    assert forall|j: int| i < j < tree.len() && (#[trigger] tree[j]).depth == d implies tree[j].score
        < tree[i].score by {
        if tree[j].score >= tree[i].score {
            law_higher_scores_compare_higher(tree[i].score, tree[j].score);
        }
    }
    assert(tree[i].depth == d);
}

/// `other` is not higher than `score` by more than two millionths and the rounding of both.
pub open spec fn not_beaten(score: i64, other: i64) -> bool {
    let size = |s: i64|
        if s < 0 {
            -s
        } else {
            s as int
        };
    0x100_0000 * (1_000_000 * (other - score)) <= 2 * 0x100_0000 * 0x1_0000_0000_0000 + 1_000_000
        * (size(score) + size(other))
}

proof fn lemma_best_is_late(tree: Seq<TreeNode>, depth: nat, n: nat)
    requires
        n <= tree.len(),
    ensures
        best_at(tree, depth, n) matches Some(i) ==> forall|j: int|
            i < j < n && (#[trigger] tree[j]).depth == depth ==> path_key(tree[j].score) < path_key(
                tree[i].score,
            ),
    decreases n,
{
    if n > 0 {
        lemma_best_is_late(tree, depth, (n - 1) as nat);
        lemma_best_at(tree, depth, (n - 1) as nat);
    }
}

proof fn lemma_path_node(tree: Seq<TreeNode>, from: nat, to: nat, d: int)
    requires
        0 <= d < best_path(tree, from, to).len(),
    ensures
        exists|i: int|
            best_at(tree, (from + d) as nat, tree.len()) == Some(i) && (
            #[trigger] tree[i]).token_idx == best_path(tree, from, to)[d],
    decreases to + 1 - from,
{
    if from <= to {
        match best_at(tree, from, tree.len()) {
            Some(i) => {
                let rest = best_path(tree, from + 1, to);
                let path = best_path(tree, from, to);
                if d == 0 {
                    assert(tree[i].token_idx == path[0]);
                } else {
                    lemma_path_node(tree, from + 1, to, d - 1);
                    let k = choose|k: int|
                        best_at(tree, (from + 1 + (d - 1)) as nat, tree.len()) == Some(k) && (
                        #[trigger] tree[k]).token_idx == rest[d - 1];
                    assert(path[d] == rest[d - 1]);
                    assert(from + 1 + (d - 1) == from + d);
                    assert(tree[k].token_idx == path[d]);
                }
            },
            None => {},
        }
    }
}

/// The value of a rate between zero and one rises with its bit pattern, from nothing at zero to
/// the whole at one, and is halved with each step of the exponent.
pub proof fn law_rate_parts(low: u32, high: u32)
    requires
        low <= high <= ONE_BITS,
    ensures
        rate_parts(0).0 == 0,
        rate_parts(ONE_BITS).0 == vstd::arithmetic::power2::pow2(rate_parts(ONE_BITS).1),
        0x100_0000 <= high ==> rate_parts((high - 0x80_0000) as u32).0 == rate_parts(high).0
            && rate_parts((high - 0x80_0000) as u32).1 == rate_parts(high).1 + 1,
        rate_parts(high).0 * vstd::arithmetic::power2::pow2((149 - rate_parts(high).1) as nat)
            == float_bits::magnitude_units(high),
{
    vstd::arithmetic::power2::lemma2_to64();
    reveal(float_bits::magnitude_units);
    let e = high as int / 0x80_0000;
    if e == 0 {
        assert(rate_parts(high).0 * 1 == rate_parts(high).0);
    }
    assert(e % 256 == e);
}

/// A share of the drafted tokens is accepted: none at rate zero, all at rate one, and for a
/// shorter draft or a lower rate in between never more than were drafted.
pub proof fn law_accepted_share(len: nat, rate: u32)
    requires
        len < 0x100_0000,
        rate <= ONE_BITS,
    ensures
        accepted_count(len, 0) == 0,
        accepted_count(len, ONE_BITS) == len,
        accepted_count(len, rate) <= len,
        len > 0 && rate > 0 ==> accepted_count(len, rate) > 0,
        ({
            let (m, s) = rate_parts(rate);
            let n = accepted_count(len, rate) as int;
            let whole = vstd::arithmetic::power2::pow2(s) as int;
            &&& 0xFF_FFFF * (len * m) <= 0x100_0000 * (n * whole)
            &&& n > 0 ==> 0x100_0000 * ((n - 1) * whole) < 0x100_0001 * (len * m)
        }),
{
    float_bits::lemma_round24_bound(len);
    lemma_share(len, rate);
    lemma_share(len, 0);
    lemma_share(len, ONE_BITS);
    let (m, s) = rate_parts(rate);
    let whole = vstd::arithmetic::power2::pow2(s) as int;
    let n = accepted_count(len, rate) as int;
    vstd::arithmetic::power2::lemma2_to64();
    assert(rate_parts(0).0 == 0 && rate_parts(ONE_BITS) == (0x80_0000nat, 23nat));
    assert(len * 0 == 0) by (nonlinear_arith);
    lemma_halved_up_zero(rate_parts(0).1);
    float_bits::lemma_round24_bound(0);
    if len > 0 && rate > 0 {
        assert(m > 0);
        assert(len * m > 0) by (nonlinear_arith)
            requires
                len > 0,
                m > 0,
        ;
        if n == 0 {
            assert(n * whole == 0) by (nonlinear_arith)
                requires
                    n == 0,
            ;
        }
    }
}

proof fn lemma_halved_up_zero(s: nat)
    ensures
        halved_up(0, s) == 0,
    decreases s,
{
    if s > 0 {
        lemma_halved_up_zero((s - 1) as nat);
    }
}

proof fn lemma_share(len: nat, rate: u32)
    requires
        len < 0x100_0000,
        rate <= ONE_BITS,
    ensures
        ({
            let (m, s) = rate_parts(rate);
            let n = accepted_count(len, rate) as int;
            let whole = vstd::arithmetic::power2::pow2(s) as int;
            &&& n == halved_up(float_bits::round24(len * m), s)
            &&& 0xFF_FFFF * (len * m) <= 0x100_0000 * (n * whole)
            &&& n > 0 ==> 0x100_0000 * ((n - 1) * whole) < 0x100_0001 * (len * m)
            &&& n <= len
            &&& rate == ONE_BITS ==> n == len
        }),
{
    let (m, s) = rate_parts(rate);
    float_bits::lemma_round24_bound(len);
    let x = len * m;
    let r = float_bits::round24(x);
    float_bits::law_round24_is_near(x);
    law_halved_up_is_least(r, s);
    let whole = vstd::arithmetic::power2::pow2(s);
    vstd::arithmetic::power2::lemma2_to64();
    if s > 24 {
        vstd::arithmetic::power2::lemma_pow2_strictly_increases(24, s);
    }
    assert(m <= whole);
    // A length of at most 24 bits times a power of two is not rounded, and bounds the product.
    lemma_scaled_is_exact(len, s);
    assert(x <= len * whole) by (nonlinear_arith)
        requires
            x == len * m,
            m <= whole,
    ;
    float_bits::law_round24_is_monotone(x, len * whole);
    let h = halved_up(r, s) as int;
    if h > len {
        assert((h - 1) * whole >= len * whole) by (nonlinear_arith)
            requires
                h - 1 >= len,
        ;
    }
    if rate == ONE_BITS {
        assert(m == whole);
        if h < len {
            assert(h * whole < len * whole) by (nonlinear_arith)
                requires
                    h < len,
                    whole > 0,
            ;
        }
    }
}

proof fn lemma_scaled_is_exact(n: nat, s: nat)
    requires
        n < 0x100_0000,
    ensures
        float_bits::round24(n * vstd::arithmetic::power2::pow2(s)) == n
            * vstd::arithmetic::power2::pow2(s),
    decreases s,
{
    if s == 0 {
        vstd::arithmetic::power2::lemma2_to64();
        assert(n * 1 == n);
        float_bits::lemma_round24_bound(n);
    } else {
        lemma_scaled_is_exact(n, (s - 1) as nat);
        vstd::arithmetic::power2::lemma_pow2_unfold(s);
        let p = vstd::arithmetic::power2::pow2((s - 1) as nat);
        assert(n * (2 * p) == 2 * (n * p)) by (nonlinear_arith);
        float_bits::lemma_round24_of_double(n * p);
    }
}

/// A kept rate lies between zero and one. A rate that does is kept as it is, one outside is moved
/// to the nearer end.
pub proof fn law_rate_is_clamped(rate: u32)
    requires
        float_bits::is_number(rate),
    ensures
        clamped_rate(rate) <= ONE_BITS,
        float_bits::at_most(0, rate) && float_bits::at_most(rate, ONE_BITS) && rate
            < float_bits::SIGN_BIT ==> clamped_rate(rate) == rate,
        float_bits::at_most(rate, 0) ==> clamped_rate(rate) == 0,
        float_bits::at_most(ONE_BITS, rate) ==> clamped_rate(rate) == ONE_BITS,
{
}

/// Of a path at least one token is kept and never more than it has; in between, as many as the
/// cap allows.
pub proof fn law_kept_count(len: nat, cap: nat)
    requires
        0 < len,
    ensures
        1 <= kept_count(len, cap) <= len,
        1 <= cap <= len ==> kept_count(len, cap) == cap,
        kept_count(len, cap) == cap || cap == 0 || cap > len,
        kept_count(len, 0) == 1,
        cap >= len ==> kept_count(len, cap) == len,
{
}

/// A drafted token is accepted with the chance `min(1, p / q)`: a roll up to the ratio accepts it,
/// a roll above a ratio below one rejects it, and a token that the draft gave no probability is
/// accepted.
pub proof fn law_acceptance_follows_the_ratio(q: u32, ratio: u32, roll: u32, lower: u32)
    requires
        float_bits::is_number(ratio),
        float_bits::at_most(roll, ONE_BITS),
        float_bits::at_most(lower, roll),
    ensures
        float_bits::at_most(roll, ratio) ==> accepts(q, ratio, roll),
        float_bits::below(0, q) && float_bits::below(ratio, roll) ==> !accepts(q, ratio, roll),
        !float_bits::below(0, q) ==> accepts(q, ratio, roll),
        accepts(q, ratio, roll) ==> accepts(q, ratio, lower),
{
}

} // verus!
