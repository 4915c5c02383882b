//! Draft trees: best-first search over the drafted distributions.
//!
//! A node's score is the sum of the log-probabilities along its path, in single precision. Such
//! numbers are counted in units of `2^-48`, which hold every logarithm of a single-precision
//! probability, and every sum is rounded to 24 significant bits.

use vstd::prelude::*;

use crate::float_bits;
use crate::float_bits::round_signed;
use crate::speculative::pruner;
use crate::speculative::pruner::{ConstraintPruner, NoPruner};

verus! {

/// The largest magnitude of a log-probability, in score units.
pub const MAX_LOG: i64 = 0x80_0000_0000_0000;

/// Depths that a path can be unpacked from.
pub const MAX_DEPTHS: usize = 14;

/// Depths at which a path of tokens below 32 is kept without loss.
pub const EXACT_DEPTHS: usize = 12;

/// DDTree node for best-first search.
#[derive(Clone, Copy, Debug, PartialEq, Eq, Structural)]
pub struct TreeNode {
    /// Sum of log-probabilities, in units of `2^-48`.
    pub score: i64,
    pub depth: usize,
    pub token_idx: usize,
    pub parent_path: u64,
}

/// The token that a path holds `back` places before its end.
pub open spec fn packed(path: u64, back: int) -> usize {
    ((path >> ((back * 5) as u64)) & 0x1F) as usize
}

/// The `n` tokens that a path packs, the earliest first. The latest is in the lowest bits.
pub open spec fn unpacked(path: u64, n: nat) -> Seq<usize> {
    Seq::new(n, |k: int| packed(path, n - 1 - k))
}

/// The path that a token extends.
pub open spec fn extended(path: u64, token: int) -> u64 {
    (path << 5) | (token as u64)
}

/// The drafted roots among the first `n` tokens that have a probability and are allowed.
pub open spec fn roots<P: ConstraintPruner>(logs: Seq<Option<i64>>, p: &P, n: nat) -> Seq<TreeNode>
    decreases n,
{
    if n == 0 {
        seq![]
    } else {
        let rest = roots(logs, p, (n - 1) as nat);
        let i = n - 1;
        if logs[i] is Some && p.allows(0, i, seq![]) {
            rest.push(
                TreeNode {
                    score: logs[i]->0,
                    depth: 0,
                    token_idx: i as usize,
                    parent_path: i as u64,
                },
            )
        } else {
            rest
        }
    }
}

/// The drafted children of a node among the first `n` tokens.
pub open spec fn children<P: ConstraintPruner>(
    best: TreeNode,
    logs: Seq<Option<i64>>,
    p: &P,
    n: nat,
) -> Seq<TreeNode>
    decreases n,
{
    if n == 0 {
        seq![]
    } else {
        let rest = children(best, logs, p, (n - 1) as nat);
        let i = n - 1;
        let parents = unpacked(best.parent_path, (best.depth + 1) as nat);
        if logs[i] is Some && p.allows(best.depth + 1, i, parents) {
            rest.push(
                TreeNode {
                    score: float_bits::round24_signed(best.score + logs[i]->0) as i64,
                    depth: (best.depth + 1) as usize,
                    token_idx: i as usize,
                    parent_path: extended(best.parent_path, i),
                },
            )
        } else {
            rest
        }
    }
}

/// The place of the highest score among the first `n` nodes, the earlier of equals.
pub open spec fn best_of(frontier: Seq<TreeNode>, n: nat) -> int
    decreases n,
{
    if n <= 1 {
        0
    } else {
        let best = best_of(frontier, (n - 1) as nat);
        if frontier[n - 1].score > frontier[best].score {
            n - 1
        } else {
            best
        }
    }
}

/// The nodes added when `best` leaves the frontier.
pub open spec fn opened<P: ConstraintPruner>(
    logs: Seq<Vec<Option<i64>>>,
    p: &P,
    best: TreeNode,
) -> Seq<TreeNode> {
    if best.depth + 1 < logs.len() {
        let row = logs[best.depth + 1]@;
        children(best, row, p, row.len())
    } else {
        seq![]
    }
}

/// The tree and the frontier after `n` nodes have been taken, or fewer if nothing is left.
pub open spec fn grown<P: ConstraintPruner>(logs: Seq<Vec<Option<i64>>>, p: &P, n: nat) -> (
    Seq<TreeNode>,
    Seq<TreeNode>,
)
    decreases n,
{
    if n == 0 {
        (
            seq![],
            if logs.len() == 0 {
                seq![]
            } else {
                roots(logs[0]@, p, logs[0]@.len())
            },
        )
    } else {
        let (tree, frontier) = grown(logs, p, (n - 1) as nat);
        if frontier.len() == 0 {
            (tree, frontier)
        } else {
            let b = best_of(frontier, frontier.len());
            (tree.push(frontier[b]), frontier.remove(b) + opened(logs, p, frontier[b]))
        }
    }
}

/// Every log-probability is in range.
pub open spec fn logs_in_range(logs: Seq<Vec<Option<i64>>>) -> bool {
    forall|d: int, i: int|
        0 <= d < logs.len() && 0 <= i < logs[d]@.len() ==> (#[trigger] logs[d]@[i] matches Some(l)
            ==> -MAX_LOG <= l <= MAX_LOG)
}

/// Every log-probability is that of a single-precision probability: at most zero, and exact
/// in 24 bits.
pub open spec fn logs_of_probabilities(logs: Seq<Vec<Option<i64>>>) -> bool {
    forall|d: int, i: int|
        0 <= d < logs.len() && 0 <= i < logs[d]@.len() ==> (#[trigger] logs[d]@[i] matches Some(l)
            ==> l <= 0 && float_bits::round24_signed(l as int) == l)
}

/// What every node keeps: its depth is drafted and its score is bounded by its depth.
spec fn node_in_range(logs: Seq<Vec<Option<i64>>>, n: TreeNode) -> bool {
    &&& n.depth < logs.len()
    &&& -(n.depth + 1) * 2 * MAX_LOG <= n.score <= (n.depth + 1) * 2 * MAX_LOG
}

spec fn nodes_in_range(logs: Seq<Vec<Option<i64>>>, nodes: Seq<TreeNode>) -> bool {
    forall|i: int| 0 <= i < nodes.len() ==> node_in_range(logs, #[trigger] nodes[i])
}

/// One more sum stays within the bound of the next depth.
proof fn lemma_score_step(score: int, l: int, depth: int)
    requires
        0 <= depth < MAX_DEPTHS,
        -(depth + 1) * 2 * MAX_LOG <= score <= (depth + 1) * 2 * MAX_LOG,
        -MAX_LOG <= l <= MAX_LOG,
    ensures
        -(depth + 2) * 2 * MAX_LOG <= float_bits::round24_signed(score + l) <= (depth + 2) * 2
            * MAX_LOG,
{
    let n = score + l;
    let a = (if n < 0 {
        -n
    } else {
        n
    }) as nat;
    float_bits::lemma_round24_bound(a);
    assert(a <= (2 * (depth + 1) + 1) * MAX_LOG);
}

/// Extract tokens from a `parent_path` bitfield for path-aware pruning.
///
/// A path uses 5 bits per depth with the most recent token in the lowest bits. Returns the
/// tokens with the one at depth 0 first.
pub fn extract_parent_tokens(parent_path: u64, num_tokens: usize) -> (tokens: Vec<usize>)
    requires
        num_tokens <= 13,
    ensures
        tokens@ == unpacked(parent_path, num_tokens as nat),
{
    let mut tokens: Vec<usize> = Vec::new();
    let mut k: usize = 0;
    while k < num_tokens
        invariant
            k <= num_tokens <= 13,
            tokens@ =~= unpacked(parent_path, num_tokens as nat).take(k as int),
        decreases num_tokens - k,
    {
        let shift: u64 = ((num_tokens - 1 - k) * 5) as u64;
        tokens.push(((parent_path >> shift) & 0x1F) as usize);
        k = k + 1;
    }
    assert(tokens@ =~= unpacked(parent_path, num_tokens as nat));
    tokens
}

fn pick_best(frontier: &Vec<TreeNode>) -> (best: usize)
    requires
        frontier@.len() > 0,
    ensures
        best == best_of(frontier@, frontier@.len()),
        best < frontier@.len(),
{
    let mut best: usize = 0;
    let mut n: usize = 1;
    while n < frontier.len()
        invariant
            1 <= n <= frontier@.len(),
            best < n,
            best == best_of(frontier@, n as nat),
        decreases frontier@.len() - n,
    {
        if frontier[n].score > frontier[best].score {
            best = n;
        }
        n = n + 1;
    }
    best
}

fn open_roots<P: ConstraintPruner>(logs: &Vec<Vec<Option<i64>>>, p: &P) -> (r: Vec<TreeNode>)
    requires
        logs@.len() > 0,
        logs_in_range(logs@),
    ensures
        r@ == roots(logs@[0]@, p, logs@[0]@.len()),
        nodes_in_range(logs@, r@),
{
    let mut nodes: Vec<TreeNode> = Vec::new();
    let none: Vec<usize> = Vec::new();
    assert(none@ =~= seq![]);
    let mut i: usize = 0;
    while i < logs[0].len()
        invariant
            logs@.len() > 0,
            logs_in_range(logs@),
            none@ == Seq::<usize>::empty(),
            i <= logs@[0]@.len(),
            nodes@ == roots(logs@[0]@, p, i as nat),
            nodes_in_range(logs@, nodes@),
        decreases logs@[0]@.len() - i,
    {
        if let Some(log) = logs[0][i] {
            assert(logs@[0]@[i as int] == Some(log));
            if p.is_valid(0, i, none.as_slice()) {
                let node = TreeNode {
                    score: log,
                    depth: 0,
                    token_idx: i,
                    parent_path: i as u64,
                };
                assert(node_in_range(logs@, node));
                nodes.push(node);
            }
        }
        i = i + 1;
    }
    nodes
}

fn open_children<P: ConstraintPruner>(
    logs: &Vec<Vec<Option<i64>>>,
    p: &P,
    best: TreeNode,
    frontier: &mut Vec<TreeNode>,
)
    requires
        logs@.len() <= MAX_DEPTHS,
        logs_in_range(logs@),
        node_in_range(logs@, best),
        nodes_in_range(logs@, old(frontier)@),
    ensures
        final(frontier)@ == old(frontier)@ + opened(logs@, p, best),
        nodes_in_range(logs@, final(frontier)@),
{
    let next: usize = best.depth + 1;
    if next >= logs.len() {
        assert(frontier@ =~= old(frontier)@ + opened(logs@, p, best));
        return;
    }
    let parents = extract_parent_tokens(best.parent_path, best.depth + 1);
    let mut i: usize = 0;
    assert(frontier@ =~= old(frontier)@ + children(best, logs@[next as int]@, p, 0));
    while i < logs[next].len()
        invariant
            next == best.depth + 1,
            next < logs@.len() <= MAX_DEPTHS,
            logs_in_range(logs@),
            node_in_range(logs@, best),
            parents@ == unpacked(best.parent_path, (best.depth + 1) as nat),
            i <= logs@[next as int]@.len(),
            frontier@ =~= old(frontier)@ + children(best, logs@[next as int]@, p, i as nat),
            nodes_in_range(logs@, frontier@),
        decreases logs@[next as int]@.len() - i,
    {
        if let Some(log) = logs[next][i] {
            assert(logs@[next as int]@[i as int] == Some(log));
            if p.is_valid(next, i, parents.as_slice()) {
                proof {
                    lemma_score_step(best.score as int, log as int, best.depth as int);
                }
                let sum: i128 = best.score as i128 + log as i128;
                let node = TreeNode {
                    score: round_signed(sum) as i64,
                    depth: next,
                    token_idx: i,
                    parent_path: (best.parent_path << 5) | (i as u64),
                };
                assert(node_in_range(logs@, node));
                frontier.push(node);
            }
        }
        i = i + 1;
    }
}

proof fn lemma_grown_stable<P: ConstraintPruner>(logs: Seq<Vec<Option<i64>>>, p: &P, n: nat, m: nat)
    requires
        n <= m,
        grown(logs, p, n).1.len() == 0,
    ensures
        grown(logs, p, m) == grown(logs, p, n),
    decreases m,
{
    if n < m {
        lemma_grown_stable(logs, p, n, (m - 1) as nat);
    }
}

proof fn lemma_best_of(frontier: Seq<TreeNode>, n: nat)
    requires
        0 < n <= frontier.len(),
    ensures
        0 <= best_of(frontier, n) < n,
        forall|i: int|
            0 <= i < n ==> (#[trigger] frontier[i]).score <= frontier[best_of(frontier, n)].score,
    decreases n,
{
    if n > 1 {
        lemma_best_of(frontier, (n - 1) as nat);
    }
}

proof fn lemma_grown_len<P: ConstraintPruner>(logs: Seq<Vec<Option<i64>>>, p: &P, n: nat)
    ensures
        grown(logs, p, n).0.len() <= n,
        grown(logs, p, n).1.len() > 0 ==> grown(logs, p, n).0.len() == n,
    decreases n,
{
    if n > 0 {
        lemma_grown_len(logs, p, (n - 1) as nat);
    }
}

/// DDTree with constraint pruner: builds the verification tree from log-probabilities,
/// filtering branches through a deterministic rules engine.
///
/// `log_probs[d][i]` is the log-probability of token `i` at depth `d`, or nothing where the
/// probability is not positive. The pruner is asked for every candidate token at every depth,
/// and tokens that it rejects never enter the frontier, so they take nothing of the budget.
pub fn build_dd_tree_pruned<P: ConstraintPruner>(
    log_probs: &Vec<Vec<Option<i64>>>,
    tree_budget: usize,
    p: &P,
) -> (tree: Vec<TreeNode>)
    requires
        log_probs@.len() <= MAX_DEPTHS,
        logs_in_range(log_probs@),
    ensures
        tree@ == grown(log_probs@, p, tree_budget as nat).0,
        tree@.len() <= tree_budget,
{
    let mut tree: Vec<TreeNode> = Vec::new();
    if log_probs.len() == 0 {
        proof {
            lemma_grown_stable(log_probs@, p, 0, tree_budget as nat);
            assert(tree@ =~= grown(log_probs@, p, 0).0);
        }
        return tree;
    }
    let mut frontier = open_roots(log_probs, p);
    assert(tree@ =~= grown(log_probs@, p, 0).0);
    while tree.len() < tree_budget && frontier.len() > 0
        invariant
            0 < log_probs@.len() <= MAX_DEPTHS,
            logs_in_range(log_probs@),
            tree@.len() <= tree_budget,
            (tree@, frontier@) == grown(log_probs@, p, tree@.len()),
            nodes_in_range(log_probs@, frontier@),
        decreases tree_budget - tree@.len(),
    {
        let b: usize = pick_best(&frontier);
        let ghost before = frontier@;
        let best = frontier.remove(b);
        assert(nodes_in_range(log_probs@, frontier@)) by {
            assert forall|i: int| 0 <= i < frontier@.len() implies node_in_range(
                log_probs@,
                #[trigger] frontier@[i],
            ) by {
                if i < b {
                    assert(frontier@[i] == before[i]);
                } else {
                    assert(frontier@[i] == before[i + 1]);
                }
            }
        }
        assert(node_in_range(log_probs@, before[b as int]));
        tree.push(best);
        open_children(log_probs, p, best, &mut frontier);
    }
    proof {
        lemma_grown_len(log_probs@, p, tree_budget as nat);
        if tree@.len() < tree_budget {
            lemma_grown_stable(log_probs@, p, tree@.len(), tree_budget as nat);
        }
    }
    tree
}

/// DDTree: builds the verification tree from log-probabilities without pruning.
pub fn build_dd_tree(log_probs: &Vec<Vec<Option<i64>>>, tree_budget: usize) -> (tree: Vec<TreeNode>)
    requires
        log_probs@.len() <= MAX_DEPTHS,
        logs_in_range(log_probs@),
    ensures
        tree@ == grown(log_probs@, &NoPruner, tree_budget as nat).0,
        tree@.len() <= tree_budget,
{
    build_dd_tree_pruned(log_probs, tree_budget, &NoPruner)
}


/// The smallest power of two above every path of `n` tokens.
pub open spec fn path_bound(n: nat) -> int
    decreases n,
{
    if n == 0 {
        1
    } else {
        32 * path_bound((n - 1) as nat)
    }
}

proof fn lemma_path_bound(n: nat)
    requires
        n <= 12,
    ensures
        1 <= path_bound(n) <= 0x1000_0000_0000_0000,
        n <= 11 ==> path_bound(n) <= 0x80_0000_0000_0000,
{
    reveal_with_fuel(path_bound, 13);
}

proof fn lemma_shift_in(p: u64, t: u64, s: u64)
    by (bit_vector)
    requires
        p < 0x80_0000_0000_0000u64,
        t < 32,
        s <= 55,
    ensures
        (((p << 5) | t) >> ((s + 5) as u64)) & 0x1F == (p >> s) & 0x1F,
        (((p << 5) | t) >> 0u64) & 0x1F == t,
        ((p << 5) | t) == 32 * p + t,
{
}

/// Packing a token onto a path and unpacking it gives the earlier tokens and the new one.
pub proof fn law_packed_tokens_come_back(path: u64, n: nat, token: usize)
    requires
        n < EXACT_DEPTHS,
        path < path_bound(n),
        token < 32,
    ensures
        unpacked(extended(path, token as int), n + 1) == unpacked(path, n).push(token),
        extended(path, token as int) < path_bound(n + 1),
{
    lemma_path_bound(n);
    let t = token as u64;
    lemma_shift_in(path, t, 0);
    let whole = unpacked(extended(path, token as int), n + 1);
    let parts = unpacked(path, n).push(token);
    assert forall|k: int| 0 <= k <= n implies whole[k] == parts[k] by {
        if k < n {
            let s = ((n - 1 - k) * 5) as u64;
            lemma_shift_in(path, t, s);
            assert((n - k) * 5 == s + 5);
        }
    }
    assert(whole =~= parts);
}

/// A node whose path was allowed at every depth and ends in its token.
pub open spec fn node_allowed<P: ConstraintPruner>(
    logs: Seq<Vec<Option<i64>>>,
    p: &P,
    node: TreeNode,
) -> bool {
    let path = unpacked(node.parent_path, (node.depth + 1) as nat);
    &&& node.depth < logs.len()
    &&& node.parent_path < path_bound((node.depth + 1) as nat)
    &&& path.last() == node.token_idx
    &&& pruner::path_allowed(p, path)
}

spec fn nodes_allowed<P: ConstraintPruner>(
    logs: Seq<Vec<Option<i64>>>,
    p: &P,
    nodes: Seq<TreeNode>,
) -> bool {
    forall|i: int| 0 <= i < nodes.len() ==> node_allowed(logs, p, #[trigger] nodes[i])
}

/// Tokens are small enough and depths few enough for paths to be kept without loss.
pub open spec fn packs_exactly(logs: Seq<Vec<Option<i64>>>) -> bool {
    &&& logs.len() <= EXACT_DEPTHS
    &&& forall|d: int| 0 <= d < logs.len() ==> (#[trigger] logs[d])@.len() <= 32
}

proof fn lemma_roots_allowed<P: ConstraintPruner>(logs: Seq<Vec<Option<i64>>>, p: &P, n: nat)
    requires
        packs_exactly(logs),
        logs.len() > 0,
        n <= logs[0]@.len(),
    ensures
        nodes_allowed(logs, p, roots(logs[0]@, p, n)),
    decreases n,
{
    if n > 0 {
        lemma_roots_allowed(logs, p, (n - 1) as nat);
        let row = logs[0]@;
        let rest = roots(row, p, (n - 1) as nat);
        let i = n - 1;
        if row[i] is Some && p.allows(0, i, seq![]) {
            let node = TreeNode {
                score: row[i]->0,
                depth: 0,
                token_idx: i as usize,
                parent_path: i as u64,
            };
            reveal_with_fuel(path_bound, 2);
            assert(path_bound(1) == 32);
            let path = unpacked(node.parent_path, 1);
            assert(i < 32);
            lemma_shift_in(0, i as u64, 0);
            let w = i as u64;
            assert((w >> 0u64) & 0x1F == w) by (bit_vector)
                requires
                    w < 32,
            ;
            assert(path =~= seq![i as usize]);
            assert(path.take(0) =~= Seq::<usize>::empty());
            assert(node_allowed(logs, p, node));
            assert forall|j: int| 0 <= j < roots(row, p, n).len() implies node_allowed(
                logs,
                p,
                #[trigger] roots(row, p, n)[j],
            ) by {
                if j < rest.len() {
                    assert(roots(row, p, n)[j] == rest[j]);
                }
            }
        }
    }
}

proof fn lemma_children_allowed<P: ConstraintPruner>(
    logs: Seq<Vec<Option<i64>>>,
    p: &P,
    best: TreeNode,
    n: nat,
)
    requires
        packs_exactly(logs),
        node_allowed(logs, p, best),
        best.depth + 1 < logs.len(),
        n <= logs[best.depth + 1]@.len(),
    ensures
        nodes_allowed(logs, p, children(best, logs[best.depth + 1]@, p, n)),
    decreases n,
{
    if n > 0 {
        lemma_children_allowed(logs, p, best, (n - 1) as nat);
        let row = logs[best.depth + 1]@;
        let rest = children(best, row, p, (n - 1) as nat);
        let i = n - 1;
        let depth = (best.depth + 1) as nat;
        let parents = unpacked(best.parent_path, depth);
        if row[i] is Some && p.allows(best.depth + 1, i, parents) {
            let node = TreeNode {
                score: float_bits::round24_signed(best.score + row[i]->0) as i64,
                depth: depth as usize,
                token_idx: i as usize,
                parent_path: extended(best.parent_path, i),
            };
            law_packed_tokens_come_back(best.parent_path, depth, i as usize);
            let path = unpacked(node.parent_path, depth + 1);
            assert(path == parents.push(i as usize));
            assert forall|d: int| 0 <= d < path.len() implies p.allows(
                d,
                #[trigger] path[d] as int,
                path.take(d),
            ) by {
                if d < parents.len() {
                    assert(path.take(d) =~= parents.take(d));
                    assert(path[d] == parents[d]);
                } else {
                    assert(path.take(d) =~= parents);
                }
            }
            assert(node_allowed(logs, p, node));
            assert forall|j: int| 0 <= j < children(best, row, p, n).len() implies node_allowed(
                logs,
                p,
                #[trigger] children(best, row, p, n)[j],
            ) by {
                if j < rest.len() {
                    assert(children(best, row, p, n)[j] == rest[j]);
                }
            }
        }
    }
}

proof fn lemma_grown_allowed<P: ConstraintPruner>(logs: Seq<Vec<Option<i64>>>, p: &P, n: nat)
    requires
        packs_exactly(logs),
    ensures
        nodes_allowed(logs, p, grown(logs, p, n).0),
        nodes_allowed(logs, p, grown(logs, p, n).1),
    decreases n,
{
    if n == 0 {
        if logs.len() > 0 {
            lemma_roots_allowed(logs, p, logs[0]@.len());
        }
    } else {
        lemma_grown_allowed(logs, p, (n - 1) as nat);
        let (tree, frontier) = grown(logs, p, (n - 1) as nat);
        if frontier.len() > 0 {
            lemma_best_of(frontier, frontier.len());
            let b = best_of(frontier, frontier.len());
            let best = frontier[b];
            if best.depth + 1 < logs.len() {
                lemma_children_allowed(logs, p, best, logs[best.depth + 1]@.len());
            }
            let rest = frontier.remove(b);
            let next = rest + opened(logs, p, best);
            assert forall|i: int| 0 <= i < next.len() implies node_allowed(
                logs,
                p,
                #[trigger] next[i],
            ) by {
                if i < rest.len() {
                    if i < b {
                        assert(next[i] == frontier[i]);
                    } else {
                        assert(next[i] == frontier[i + 1]);
                    }
                } else {
                    assert(next[i] == opened(logs, p, best)[i - rest.len()]);
                }
            }
        }
    }
}

/// The path of every node of the tree was allowed at every depth, and ends in the node's
/// token.
pub proof fn law_tree_paths_are_allowed<P: ConstraintPruner>(
    logs: Seq<Vec<Option<i64>>>,
    p: &P,
    budget: nat,
    i: int,
)
    requires
        packs_exactly(logs),
        0 <= i < grown(logs, p, budget).0.len(),
    ensures
        node_allowed(logs, p, grown(logs, p, budget).0[i]),
{
    lemma_grown_allowed(logs, p, budget);
}

/// The node's depth is one of the draft, and its token has a probability there.
pub open spec fn is_drafted(logs: Seq<Vec<Option<i64>>>, n: TreeNode) -> bool {
    &&& n.depth < logs.len()
    &&& n.token_idx < logs[n.depth as int]@.len()
    &&& logs[n.depth as int]@[n.token_idx as int] is Some
}

spec fn all_drafted(logs: Seq<Vec<Option<i64>>>, nodes: Seq<TreeNode>) -> bool {
    forall|i: int| 0 <= i < nodes.len() ==> is_drafted(logs, #[trigger] nodes[i])
}

proof fn lemma_roots_drafted<P: ConstraintPruner>(logs: Seq<Vec<Option<i64>>>, p: &P, n: nat)
    requires
        0 < logs.len(),
        n <= logs[0]@.len() <= usize::MAX,
    ensures
        all_drafted(logs, roots(logs[0]@, p, n)),
    decreases n,
{
    if n > 0 {
        lemma_roots_drafted(logs, p, (n - 1) as nat);
        let rest = roots(logs[0]@, p, (n - 1) as nat);
        let all = roots(logs[0]@, p, n);
        assert forall|i: int| 0 <= i < all.len() implies is_drafted(logs, #[trigger] all[i]) by {
            if i < rest.len() {
                assert(all[i] == rest[i]);
            }
        }
    }
}

proof fn lemma_children_drafted<P: ConstraintPruner>(
    logs: Seq<Vec<Option<i64>>>,
    p: &P,
    best: TreeNode,
    n: nat,
)
    requires
        best.depth + 1 < logs.len() <= MAX_DEPTHS,
        n <= logs[best.depth + 1]@.len() <= usize::MAX,
    ensures
        all_drafted(logs, children(best, logs[best.depth + 1]@, p, n)),
    decreases n,
{
    if n > 0 {
        let row = logs[best.depth + 1]@;
        lemma_children_drafted(logs, p, best, (n - 1) as nat);
        let rest = children(best, row, p, (n - 1) as nat);
        let all = children(best, row, p, n);
        assert forall|i: int| 0 <= i < all.len() implies is_drafted(logs, #[trigger] all[i]) by {
            if i < rest.len() {
                assert(all[i] == rest[i]);
            }
        }
    }
}

proof fn lemma_grown_drafted<P: ConstraintPruner>(logs: Seq<Vec<Option<i64>>>, p: &P, n: nat)
    requires
        logs.len() <= MAX_DEPTHS,
        forall|d: int| 0 <= d < logs.len() ==> (#[trigger] logs[d])@.len() <= usize::MAX,
    ensures
        all_drafted(logs, grown(logs, p, n).0),
        all_drafted(logs, grown(logs, p, n).1),
    decreases n,
{
    if n == 0 {
        if logs.len() > 0 {
            lemma_roots_drafted(logs, p, logs[0]@.len());
        }
    } else {
        lemma_grown_drafted(logs, p, (n - 1) as nat);
        let (tree, frontier) = grown(logs, p, (n - 1) as nat);
        if frontier.len() > 0 {
            lemma_best_of(frontier, frontier.len());
            let b = best_of(frontier, frontier.len());
            let best = frontier[b];
            if best.depth + 1 < logs.len() {
                lemma_children_drafted(logs, p, best, logs[best.depth + 1]@.len());
            }
            let rest = frontier.remove(b);
            let next = rest + opened(logs, p, best);
            assert forall|i: int| 0 <= i < next.len() implies is_drafted(
                logs,
                #[trigger] next[i],
            ) by {
                if i < rest.len() {
                    if i < b {
                        assert(next[i] == frontier[i]);
                    } else {
                        assert(next[i] == frontier[i + 1]);
                    }
                } else {
                    assert(next[i] == opened(logs, p, best)[i - rest.len()]);
                }
            }
        }
    }
}

/// Every node of the tree stands at a depth of the draft and holds a token that has a
/// probability there.
pub proof fn law_tree_nodes_are_drafted<P: ConstraintPruner>(
    logs: Seq<Vec<Option<i64>>>,
    p: &P,
    budget: nat,
    i: int,
)
    requires
        logs.len() <= MAX_DEPTHS,
        forall|d: int| 0 <= d < logs.len() ==> (#[trigger] logs[d])@.len() <= usize::MAX,
        0 <= i < grown(logs, p, budget).0.len(),
    ensures
        is_drafted(logs, grown(logs, p, budget).0[i]),
{
    lemma_grown_drafted(logs, p, budget);
}

/// A score that is a sum of log-probabilities: at most zero, exact, and within its bound.
spec fn node_scored(logs: Seq<Vec<Option<i64>>>, n: TreeNode) -> bool {
    &&& node_in_range(logs, n)
    &&& n.score <= 0
    &&& float_bits::round24_signed(n.score as int) == n.score
}

spec fn nodes_scored(logs: Seq<Vec<Option<i64>>>, nodes: Seq<TreeNode>, top: int) -> bool {
    forall|i: int|
        0 <= i < nodes.len() ==> node_scored(logs, #[trigger] nodes[i]) && nodes[i].score <= top
}

proof fn lemma_sum_drops(score: int, l: int)
    requires
        score <= 0,
        l <= 0,
        float_bits::round24_signed(score) == score,
    ensures
        float_bits::round24_signed(score + l) <= score,
        float_bits::round24_signed(float_bits::round24_signed(score + l))
            == float_bits::round24_signed(score + l),
{
    let a = (-score) as nat;
    let b = (-(score + l)) as nat;
    float_bits::lemma_round24_bound(0);
    float_bits::law_round24_keeps_order(a, b);
    float_bits::law_round24_is_idempotent(b);
    if float_bits::round24(b) == 0 {
        assert(b == 0) by {
            float_bits::lemma_round24_bound(b);
            if b > 0 {
                float_bits::lemma_round24_bound(1);
                float_bits::law_round24_keeps_order(1, b);
            }
        }
    }
}

proof fn lemma_roots_scored<P: ConstraintPruner>(logs: Seq<Vec<Option<i64>>>, p: &P, n: nat)
    requires
        logs_in_range(logs),
        logs_of_probabilities(logs),
        logs.len() > 0,
        n <= logs[0]@.len(),
    ensures
        nodes_scored(logs, roots(logs[0]@, p, n), 0),
    decreases n,
{
    if n > 0 {
        lemma_roots_scored(logs, p, (n - 1) as nat);
        let row = logs[0]@;
        let rest = roots(row, p, (n - 1) as nat);
        assert(logs[0]@[n - 1] == row[n - 1]);
        assert forall|j: int| 0 <= j < roots(row, p, n).len() implies node_scored(
            logs,
            #[trigger] roots(row, p, n)[j],
        ) && roots(row, p, n)[j].score <= 0 by {
            if j < rest.len() {
                assert(roots(row, p, n)[j] == rest[j]);
            }
        }
    }
}

proof fn lemma_children_scored<P: ConstraintPruner>(
    logs: Seq<Vec<Option<i64>>>,
    p: &P,
    best: TreeNode,
    n: nat,
)
    requires
        logs.len() <= MAX_DEPTHS,
        logs_in_range(logs),
        logs_of_probabilities(logs),
        node_scored(logs, best),
        best.depth + 1 < logs.len(),
        n <= logs[best.depth + 1]@.len(),
    ensures
        nodes_scored(logs, children(best, logs[best.depth + 1]@, p, n), best.score as int),
    decreases n,
{
    if n > 0 {
        lemma_children_scored(logs, p, best, (n - 1) as nat);
        let row = logs[best.depth + 1]@;
        let rest = children(best, row, p, (n - 1) as nat);
        assert(logs[best.depth + 1]@[n - 1] == row[n - 1]);
        if row[n - 1] is Some {
            let l = row[n - 1]->0 as int;
            lemma_sum_drops(best.score as int, l);
            lemma_score_step(best.score as int, l, best.depth as int);
        }
        assert forall|j: int| 0 <= j < children(best, row, p, n).len() implies node_scored(
            logs,
            #[trigger] children(best, row, p, n)[j],
        ) && children(best, row, p, n)[j].score <= best.score by {
            if j < rest.len() {
                assert(children(best, row, p, n)[j] == rest[j]);
            }
        }
    }
}

/// The lowest score taken so far, or zero.
spec fn floor_of(tree: Seq<TreeNode>) -> int {
    if tree.len() == 0 {
        0
    } else {
        tree.last().score as int
    }
}

proof fn lemma_grown_ordered<P: ConstraintPruner>(logs: Seq<Vec<Option<i64>>>, p: &P, n: nat)
    requires
        logs.len() <= MAX_DEPTHS,
        logs_in_range(logs),
        logs_of_probabilities(logs),
    ensures
        ({
            let (tree, frontier) = grown(logs, p, n);
            &&& forall|i: int, j: int|
                0 <= i <= j < tree.len() ==> (#[trigger] tree[j]).score <= (#[trigger] tree[i]).score
            &&& nodes_scored(logs, frontier, floor_of(tree))
        }),
    decreases n,
{
    if n == 0 {
        if logs.len() > 0 {
            lemma_roots_scored(logs, p, logs[0]@.len());
        }
    } else {
        lemma_grown_ordered(logs, p, (n - 1) as nat);
        let (tree, frontier) = grown(logs, p, (n - 1) as nat);
        if frontier.len() > 0 {
            lemma_best_of(frontier, frontier.len());
            let b = best_of(frontier, frontier.len());
            let best = frontier[b];
            assert(node_scored(logs, best));
            if best.depth + 1 < logs.len() {
                lemma_children_scored(logs, p, best, logs[best.depth + 1]@.len());
            }
            let rest = frontier.remove(b);
            let next = rest + opened(logs, p, best);
            assert forall|i: int| 0 <= i < next.len() implies node_scored(logs, #[trigger] next[i])
                && next[i].score <= best.score by {
                if i < rest.len() {
                    if i < b {
                        assert(next[i] == frontier[i]);
                    } else {
                        assert(next[i] == frontier[i + 1]);
                    }
                } else {
                    assert(next[i] == opened(logs, p, best)[i - rest.len()]);
                }
            }
        }
    }
}

/// The nodes of a tree drafted from probabilities come in order of score, the best first.
pub proof fn law_tree_is_best_first<P: ConstraintPruner>(
    logs: Seq<Vec<Option<i64>>>,
    p: &P,
    budget: nat,
    i: int,
    j: int,
)
    requires
        logs.len() <= MAX_DEPTHS,
        logs_in_range(logs),
        logs_of_probabilities(logs),
        0 <= i <= j < grown(logs, p, budget).0.len(),
    ensures
        grown(logs, p, budget).0[j].score <= grown(logs, p, budget).0[i].score,
{
    lemma_grown_ordered(logs, p, budget);
}

/// A larger budget only adds nodes at the end of the tree.
pub proof fn law_budget_extends_tree<P: ConstraintPruner>(
    logs: Seq<Vec<Option<i64>>>,
    p: &P,
    small: nat,
    large: nat,
)
    requires
        small <= large,
    ensures
        grown(logs, p, small).0.is_prefix_of(grown(logs, p, large).0),
    decreases large,
{
    if small < large {
        law_budget_extends_tree(logs, p, small, (large - 1) as nat);
    }
}

/// The tokens on the way to a node, its own last.
pub open spec fn node_path(n: TreeNode) -> Seq<usize> {
    unpacked(n.parent_path, (n.depth + 1) as nat)
}

/// A path that may be drafted: each of its tokens has a probability at its depth, and is allowed
/// after the tokens before it.
pub open spec fn drafted_path<P: ConstraintPruner>(
    logs: Seq<Vec<Option<i64>>>,
    p: &P,
    q: Seq<usize>,
) -> bool {
    &&& 0 < q.len() <= logs.len()
    &&& forall|d: int|
        0 <= d < q.len() ==> (#[trigger] q[d]) < logs[d]@.len() && logs[d]@[q[d] as int] is Some
    &&& pruner::path_allowed(p, q)
}

/// All paths that may be drafted.
pub open spec fn drafted_paths<P: ConstraintPruner>(logs: Seq<Vec<Option<i64>>>, p: &P) -> Set<
    Seq<usize>,
> {
    Set::new(|q: Seq<usize>| drafted_path(logs, p, q))
}

/// The cumulative log-probability of a path, each sum in single precision.
pub open spec fn path_score(logs: Seq<Vec<Option<i64>>>, q: Seq<usize>) -> int
    decreases q.len(),
{
    if q.len() == 0 {
        0
    } else {
        let l = logs[q.len() - 1]@[q.last() as int]->0 as int;
        if q.len() == 1 {
            l
        } else {
            float_bits::round24_signed(path_score(logs, q.drop_last()) + l)
        }
    }
}

/// A node that stands for a path that may be drafted, with the path's score.
pub open spec fn stands_for_path<P: ConstraintPruner>(
    logs: Seq<Vec<Option<i64>>>,
    p: &P,
    n: TreeNode,
) -> bool {
    &&& n.depth < logs.len()
    &&& n.parent_path < path_bound((n.depth + 1) as nat)
    &&& drafted_path(logs, p, node_path(n))
    &&& n.score == path_score(logs, node_path(n))
}

/// Some node stands at the end of a path.
pub open spec fn holds_path(nodes: Seq<TreeNode>, q: Seq<usize>) -> bool {
    exists|i: int| 0 <= i < nodes.len() && node_path(#[trigger] nodes[i]) == q
}

/// Some node stands on a path.
spec fn leads_to(nodes: Seq<TreeNode>, q: Seq<usize>) -> bool {
    exists|i: int| 0 <= i < nodes.len() && node_path(#[trigger] nodes[i]).is_prefix_of(q)
}

spec fn all_stand<P: ConstraintPruner>(
    logs: Seq<Vec<Option<i64>>>,
    p: &P,
    nodes: Seq<TreeNode>,
) -> bool {
    forall|i: int| 0 <= i < nodes.len() ==> stands_for_path(logs, p, #[trigger] nodes[i])
}

spec fn distinct(nodes: Seq<TreeNode>) -> bool {
    forall|i: int, j: int|
        0 <= i < j < nodes.len() ==> node_path(#[trigger] nodes[i]) != node_path(#[trigger] nodes[j])
}

spec fn apart(a: Seq<TreeNode>, b: Seq<TreeNode>) -> bool {
    forall|i: int, j: int|
        0 <= i < a.len() && 0 <= j < b.len() ==> node_path(#[trigger] a[i]) != node_path(
            #[trigger] b[j],
        )
}

/// The parent of every node is in the tree.
spec fn rooted(tree: Seq<TreeNode>, nodes: Seq<TreeNode>) -> bool {
    forall|i: int|
        0 <= i < nodes.len() && node_path(#[trigger] nodes[i]).len() > 1 ==> holds_path(
            tree,
            node_path(nodes[i]).drop_last(),
        )
}

/// The nodes for the first `n` tokens that may follow a path: one for each.
spec fn follow<P: ConstraintPruner>(
    logs: Seq<Vec<Option<i64>>>,
    p: &P,
    s: Seq<usize>,
    nodes: Seq<TreeNode>,
    n: nat,
) -> bool {
    &&& all_stand(logs, p, nodes)
    &&& forall|j: int|
        0 <= j < nodes.len() ==> (#[trigger] nodes[j]).token_idx < n && node_path(nodes[j])
            == s.push(nodes[j].token_idx)
    &&& forall|j: int, k: int|
        0 <= j < k < nodes.len() ==> (#[trigger] nodes[j]).token_idx < (#[trigger] nodes[k]).token_idx
    &&& forall|t: usize|
        t < n && #[trigger] drafted_path(logs, p, s.push(t)) ==> holds_path(nodes, s.push(t))
}

proof fn lemma_extend_path<P: ConstraintPruner>(
    logs: Seq<Vec<Option<i64>>>,
    p: &P,
    s: Seq<usize>,
    t: usize,
)
    requires
        s.len() == 0 || drafted_path(logs, p, s),
        s.len() < logs.len(),
        t < logs[s.len() as int]@.len(),
    ensures
        drafted_path(logs, p, s.push(t)) == (logs[s.len() as int]@[t as int] is Some && p.allows(
            s.len() as int,
            t as int,
            s,
        )),
{
    let q = s.push(t);
    assert(q.take(s.len() as int) =~= s);
    assert(q[s.len() as int] == t);
    if logs[s.len() as int]@[t as int] is Some && p.allows(s.len() as int, t as int, s) {
        assert forall|d: int| 0 <= d < q.len() implies p.allows(d, #[trigger] q[d] as int, q.take(d)) by {
            if d < s.len() {
                assert(q.take(d) =~= s.take(d));
                assert(q[d] == s[d]);
            }
        }
        assert forall|d: int| 0 <= d < q.len() implies (#[trigger] q[d]) < logs[d]@.len()
            && logs[d]@[q[d] as int] is Some by {
            if d < s.len() {
                assert(q[d] == s[d]);
            }
        }
    }
}

proof fn lemma_take_drafted<P: ConstraintPruner>(
    logs: Seq<Vec<Option<i64>>>,
    p: &P,
    q: Seq<usize>,
    k: int,
)
    requires
        drafted_path(logs, p, q),
        0 < k <= q.len(),
    ensures
        drafted_path(logs, p, q.take(k)),
{
    let s = q.take(k);
    assert forall|d: int| 0 <= d < s.len() implies p.allows(d, #[trigger] s[d] as int, s.take(d)) by {
        assert(s[d] == q[d]);
        assert(s.take(d) =~= q.take(d));
    }
    assert forall|d: int| 0 <= d < s.len() implies (#[trigger] s[d]) < logs[d]@.len()
        && logs[d]@[s[d] as int] is Some by {
        assert(s[d] == q[d]);
    }
}

/// Adding the node of the next token.
proof fn lemma_follow_step<P: ConstraintPruner>(
    logs: Seq<Vec<Option<i64>>>,
    p: &P,
    s: Seq<usize>,
    rest: Seq<TreeNode>,
    node: TreeNode,
    n: nat,
)
    requires
        follow(logs, p, s, rest, n),
        stands_for_path(logs, p, node),
        node.token_idx == n,
        node_path(node) == s.push(node.token_idx),
    ensures
        follow(logs, p, s, rest.push(node), n + 1),
{
    let nodes = rest.push(node);
    assert forall|j: int| 0 <= j < nodes.len() implies stands_for_path(logs, p, #[trigger] nodes[j])
        by {
        if j < rest.len() {
            assert(nodes[j] == rest[j]);
        }
    }
    assert forall|t: usize|
        t < n + 1 && #[trigger] drafted_path(logs, p, s.push(t)) implies holds_path(
        nodes,
        s.push(t),
    ) by {
        if t < n {
            assert(holds_path(rest, s.push(t)));
            let i = choose|i: int|
                0 <= i < rest.len() && node_path(#[trigger] rest[i]) == s.push(t);
            assert(nodes[i] == rest[i]);
        } else {
            assert(nodes[rest.len() as int] == node);
        }
    }
}

/// Passing over a token that may not follow.
proof fn lemma_follow_skip<P: ConstraintPruner>(
    logs: Seq<Vec<Option<i64>>>,
    p: &P,
    s: Seq<usize>,
    nodes: Seq<TreeNode>,
    n: nat,
)
    requires
        follow(logs, p, s, nodes, n),
        n <= usize::MAX,
        !drafted_path(logs, p, s.push(n as usize)),
    ensures
        follow(logs, p, s, nodes, n + 1),
{
}

proof fn lemma_roots_follow<P: ConstraintPruner>(logs: Seq<Vec<Option<i64>>>, p: &P, n: nat)
    requires
        packs_exactly(logs),
        logs.len() > 0,
        n <= logs[0]@.len(),
    ensures
        follow(logs, p, seq![], roots(logs[0]@, p, n), n),
    decreases n,
{
    let none = Seq::<usize>::empty();
    assert(none =~= seq![]);
    if n > 0 {
        lemma_roots_follow(logs, p, (n - 1) as nat);
        let row = logs[0]@;
        let rest = roots(row, p, (n - 1) as nat);
        let i = n - 1;
        let t = i as usize;
        lemma_extend_path(logs, p, none, t);
        if row[i] is Some && p.allows(0, i, seq![]) {
            let node = TreeNode {
                score: row[i]->0,
                depth: 0,
                token_idx: i as usize,
                parent_path: i as u64,
            };
            reveal_with_fuel(path_bound, 2);
            let w = i as u64;
            assert((w >> 0u64) & 0x1F == w) by (bit_vector)
                requires
                    w < 32,
            ;
            assert(node_path(node) =~= none.push(t));
            lemma_follow_step(logs, p, none, rest, node, i as nat);
        } else {
            lemma_follow_skip(logs, p, none, rest, i as nat);
        }
    }
}

proof fn lemma_children_follow<P: ConstraintPruner>(
    logs: Seq<Vec<Option<i64>>>,
    p: &P,
    best: TreeNode,
    n: nat,
)
    requires
        packs_exactly(logs),
        logs_in_range(logs),
        stands_for_path(logs, p, best),
        node_scored(logs, best),
        best.depth + 1 < logs.len(),
        n <= logs[best.depth + 1]@.len(),
    ensures
        follow(logs, p, node_path(best), children(best, logs[best.depth + 1]@, p, n), n),
    decreases n,
{
    let s = node_path(best);
    if n > 0 {
        lemma_children_follow(logs, p, best, (n - 1) as nat);
        let row = logs[best.depth + 1]@;
        let rest = children(best, row, p, (n - 1) as nat);
        let i = n - 1;
        let t = i as usize;
        lemma_extend_path(logs, p, s, t);
        if row[i] is Some && p.allows(best.depth + 1, i, s) {
            let l = row[i]->0 as int;
            assert(logs[best.depth + 1]@[i] == row[i]);
            lemma_score_step(best.score as int, l, best.depth as int);
            let node = TreeNode {
                score: float_bits::round24_signed(best.score + l) as i64,
                depth: (best.depth + 1) as usize,
                token_idx: t,
                parent_path: extended(best.parent_path, i),
            };
            law_packed_tokens_come_back(best.parent_path, (best.depth + 1) as nat, t);
            assert(node_path(node) == s.push(t));
            assert(s.push(t).drop_last() =~= s);
            assert(path_score(logs, s.push(t)) == float_bits::round24_signed(
                path_score(logs, s) + l,
            ));
            lemma_follow_step(logs, p, s, rest, node, i as nat);
        } else {
            lemma_follow_skip(logs, p, s, rest, i as nat);
        }
    }
}

/// What the search keeps: nodes stand for distinct paths, parents are in the tree, and every
/// path is in the tree or still ahead of the frontier.
spec fn searched<P: ConstraintPruner>(
    logs: Seq<Vec<Option<i64>>>,
    p: &P,
    tree: Seq<TreeNode>,
    frontier: Seq<TreeNode>,
) -> bool {
    &&& all_stand(logs, p, tree)
    &&& all_stand(logs, p, frontier)
    &&& distinct(tree)
    &&& distinct(frontier)
    &&& apart(tree, frontier)
    &&& rooted(tree, tree)
    &&& rooted(tree, frontier)
    &&& forall|q: Seq<usize>| #[trigger]
        drafted_path(logs, p, q) ==> holds_path(tree, q) || leads_to(frontier, q)
}

proof fn lemma_search_starts<P: ConstraintPruner>(logs: Seq<Vec<Option<i64>>>, p: &P)
    requires
        packs_exactly(logs),
    ensures
        searched(logs, p, grown(logs, p, 0).0, grown(logs, p, 0).1),
{
    let (tree, frontier) = grown(logs, p, 0);
    if logs.len() > 0 {
        let none = Seq::<usize>::empty();
        assert(none =~= seq![]);
        lemma_roots_follow(logs, p, logs[0]@.len());
        assert forall|q: Seq<usize>| #[trigger] drafted_path(logs, p, q) implies leads_to(
            frontier,
            q,
        ) by {
            lemma_take_drafted(logs, p, q, 1);
            assert(q.take(1) =~= none.push(q[0]));
            assert(drafted_path(logs, p, none.push(q[0])));
            assert(q[0] < logs[0]@.len());
            assert(holds_path(frontier, none.push(q[0])));
            let i = choose|i: int|
                0 <= i < frontier.len() && node_path(#[trigger] frontier[i]) == none.push(q[0]);
            assert(node_path(frontier[i]).is_prefix_of(q));
        }
        assert forall|i: int, j: int| 0 <= i < j < frontier.len() implies node_path(
            #[trigger] frontier[i],
        ) != node_path(#[trigger] frontier[j]) by {
            assert(node_path(frontier[i])[0] == frontier[i].token_idx);
            assert(node_path(frontier[j])[0] == frontier[j].token_idx);
        }
    }
}

/// Where a node of a frontier without one of its nodes stood before.
proof fn lemma_removed(frontier: Seq<TreeNode>, b: int, k: int)
    requires
        0 <= b < frontier.len(),
        0 <= k < frontier.len() - 1,
    ensures
        frontier.remove(b)[k] == frontier[if k < b {
            k
        } else {
            k + 1
        }],
{
}

proof fn lemma_search_covers<P: ConstraintPruner>(
    logs: Seq<Vec<Option<i64>>>,
    p: &P,
    tree: Seq<TreeNode>,
    frontier: Seq<TreeNode>,
    b: int,
    q: Seq<usize>,
)
    requires
        0 <= b < frontier.len(),
        stands_for_path(logs, p, frontier[b]),
        holds_path(tree, q) || leads_to(frontier, q),
        frontier[b].depth + 1 < logs.len() ==> follow(
            logs,
            p,
            node_path(frontier[b]),
            opened(logs, p, frontier[b]),
            logs[frontier[b].depth + 1]@.len(),
        ),
        drafted_path(logs, p, q),
    ensures
        holds_path(tree.push(frontier[b]), q) || leads_to(
            frontier.remove(b) + opened(logs, p, frontier[b]),
            q,
        ),
{
    let best = frontier[b];
    let taken = tree.push(best);
    let rest = frontier.remove(b);
    let new = opened(logs, p, best);
    let next = rest + new;
    if holds_path(tree, q) {
        let i = choose|i: int| 0 <= i < tree.len() && node_path(#[trigger] tree[i]) == q;
        assert(taken[i] == tree[i]);
    } else {
        assert(leads_to(frontier, q));
        let i = choose|i: int|
            0 <= i < frontier.len() && node_path(#[trigger] frontier[i]).is_prefix_of(q);
        if i != b {
            let k = if i < b {
                i
            } else {
                i - 1
            };
            lemma_removed(frontier, b, k);
            assert(next[k] == frontier[i]);
            assert(leads_to(next, q));
        } else {
            let s = node_path(best);
            if s.len() == q.len() {
                assert(s =~= q);
                assert(taken[tree.len() as int] == best);
            } else {
                let t = q[s.len() as int];
                lemma_take_drafted(logs, p, q, s.len() as int + 1);
                assert(q.take(s.len() as int + 1) =~= s.push(t));
                assert(drafted_path(logs, p, s.push(t)));
                assert(t < logs[s.len() as int]@.len());
                assert(holds_path(new, s.push(t)));
                let j = choose|j: int|
                    0 <= j < new.len() && node_path(#[trigger] new[j]) == s.push(t);
                assert(next[rest.len() + j] == new[j]);
                assert(node_path(next[rest.len() + j]).is_prefix_of(q));
            }
        }
    }
}

proof fn lemma_search_step<P: ConstraintPruner>(
    logs: Seq<Vec<Option<i64>>>,
    p: &P,
    tree: Seq<TreeNode>,
    frontier: Seq<TreeNode>,
    b: int,
)
    requires
        packs_exactly(logs),
        searched(logs, p, tree, frontier),
        0 <= b < frontier.len(),
        frontier[b].depth + 1 < logs.len() ==> follow(
            logs,
            p,
            node_path(frontier[b]),
            opened(logs, p, frontier[b]),
            logs[frontier[b].depth + 1]@.len(),
        ),
    ensures
        searched(
            logs,
            p,
            tree.push(frontier[b]),
            frontier.remove(b) + opened(logs, p, frontier[b]),
        ),
{
    let best = frontier[b];
    let s = node_path(best);
    let taken = tree.push(best);
    let rest = frontier.remove(b);
    let new = opened(logs, p, best);
    let next = rest + new;
    assert forall|q: Seq<usize>| holds_path(tree, q) implies holds_path(taken, q) by {
        let i = choose|i: int| 0 <= i < tree.len() && node_path(#[trigger] tree[i]) == q;
        assert(taken[i] == tree[i]);
    }
    assert(holds_path(taken, s)) by {
        assert(taken[tree.len() as int] == best);
    }
    assert(!holds_path(tree, s)) by {
        if holds_path(tree, s) {
            let i = choose|i: int| 0 <= i < tree.len() && node_path(#[trigger] tree[i]) == s;
            assert(node_path(tree[i]) != node_path(frontier[b]));
        }
    }
    assert forall|j: int| 0 <= j < new.len() implies stands_for_path(logs, p, #[trigger] new[j])
        && node_path(new[j]).len() > 1 && node_path(new[j]).drop_last() == s by {
        assert(node_path(new[j]) == s.push(new[j].token_idx));
        assert(s.push(new[j].token_idx).drop_last() =~= s);
    }
    assert forall|i: int| 0 <= i < next.len() implies stands_for_path(logs, p, #[trigger] next[i])
        && (node_path(next[i]).len() > 1 ==> holds_path(taken, node_path(next[i]).drop_last())) by {
        if i < rest.len() {
            lemma_removed(frontier, b, i);
            assert(next[i] == rest[i]);
        } else {
            assert(next[i] == new[i - rest.len()]);
        }
    }
    assert forall|i: int| 0 <= i < taken.len() implies stands_for_path(logs, p, #[trigger] taken[i])
        && (node_path(taken[i]).len() > 1 ==> holds_path(taken, node_path(taken[i]).drop_last()))
        by {
        if i < tree.len() {
            assert(taken[i] == tree[i]);
        } else {
            assert(taken[i] == frontier[b]);
        }
    }
    assert(distinct(taken)) by {
        assert forall|i: int, j: int| 0 <= i < j < taken.len() implies node_path(
            #[trigger] taken[i],
        ) != node_path(#[trigger] taken[j]) by {
            assert(taken[i] == tree[i]);
            if j < tree.len() {
                assert(taken[j] == tree[j]);
            } else {
                assert(taken[j] == frontier[b]);
            }
        }
    }
    // A child of the node just taken was nowhere before: its parent was not in the tree.
    assert forall|k: int, j: int| 0 <= j < new.len() && 0 <= k < tree.len() implies node_path(
        #[trigger] tree[k],
    ) != node_path(#[trigger] new[j]) by {
        assert(node_path(tree[k]).len() > 1 ==> holds_path(tree, node_path(tree[k]).drop_last()));
    }
    assert forall|k: int, j: int| 0 <= j < new.len() && 0 <= k < frontier.len() implies node_path(
        #[trigger] frontier[k],
    ) != node_path(#[trigger] new[j]) by {
        assert(node_path(frontier[k]).len() > 1 ==> holds_path(
            tree,
            node_path(frontier[k]).drop_last(),
        ));
    }
    assert(distinct(next)) by {
        assert forall|i: int, j: int| 0 <= i < j < next.len() implies node_path(#[trigger] next[i])
            != node_path(#[trigger] next[j]) by {
            if j < rest.len() {
                lemma_removed(frontier, b, i);
                lemma_removed(frontier, b, j);
                assert(next[i] == rest[i] && next[j] == rest[j]);
            } else if i < rest.len() {
                lemma_removed(frontier, b, i);
                assert(next[i] == rest[i] && next[j] == new[j - rest.len()]);
            } else {
                let x = new[i - rest.len()];
                let y = new[j - rest.len()];
                assert(next[i] == x && next[j] == y);
                assert(node_path(x).last() == x.token_idx);
                assert(node_path(y).last() == y.token_idx);
            }
        }
    }
    assert(apart(taken, next)) by {
        assert forall|i: int, j: int|
            0 <= i < taken.len() && 0 <= j < next.len() implies node_path(#[trigger] taken[i])
            != node_path(#[trigger] next[j]) by {
            if j < rest.len() {
                lemma_removed(frontier, b, j);
                let k = if j < b {
                    j
                } else {
                    j + 1
                };
                assert(next[j] == frontier[k]);
                if i < tree.len() {
                    assert(taken[i] == tree[i]);
                } else {
                    assert(taken[i] == frontier[b]);
                    if k < b {
                        assert(node_path(frontier[k]) != node_path(frontier[b]));
                    } else {
                        assert(node_path(frontier[b]) != node_path(frontier[k]));
                    }
                }
            } else {
                assert(next[j] == new[j - rest.len()]);
                if i < tree.len() {
                    assert(taken[i] == tree[i]);
                } else {
                    assert(taken[i] == frontier[b]);
                }
            }
        }
    }
    assert forall|q: Seq<usize>| #[trigger] drafted_path(logs, p, q) implies holds_path(taken, q)
        || leads_to(next, q) by {
        assert(stands_for_path(logs, p, frontier[b]));
        lemma_search_covers(logs, p, tree, frontier, b, q);
    }
}

proof fn lemma_grown_searched<P: ConstraintPruner>(logs: Seq<Vec<Option<i64>>>, p: &P, n: nat)
    requires
        packs_exactly(logs),
        logs_in_range(logs),
        logs_of_probabilities(logs),
    ensures
        searched(logs, p, grown(logs, p, n).0, grown(logs, p, n).1),
    decreases n,
{
    if n == 0 {
        lemma_search_starts(logs, p);
    } else {
        lemma_grown_searched(logs, p, (n - 1) as nat);
        lemma_grown_ordered(logs, p, (n - 1) as nat);
        let (tree, frontier) = grown(logs, p, (n - 1) as nat);
        if frontier.len() > 0 {
            lemma_best_of(frontier, frontier.len());
            let b = best_of(frontier, frontier.len());
            let best = frontier[b];
            assert(node_scored(logs, best));
            assert(stands_for_path(logs, p, best));
            if best.depth + 1 < logs.len() {
                lemma_children_follow(logs, p, best, logs[best.depth + 1]@.len());
            }
            lemma_search_step(logs, p, tree, frontier, b);
        }
    }
}

/// A path scores no more than any of its beginnings.
proof fn lemma_longer_scores_less<P: ConstraintPruner>(
    logs: Seq<Vec<Option<i64>>>,
    p: &P,
    q: Seq<usize>,
    k: int,
)
    requires
        logs_of_probabilities(logs),
        drafted_path(logs, p, q),
        0 < k <= q.len(),
    ensures
        path_score(logs, q) <= path_score(logs, q.take(k)),
        path_score(logs, q) <= 0,
        float_bits::round24_signed(path_score(logs, q)) == path_score(logs, q),
    decreases q.len(),
{
    let d = q.len() - 1;
    assert(q[d] < logs[d]@.len() && logs[d]@[q[d] as int] is Some);
    assert(q.take(q.len() as int) =~= q);
    if q.len() > 1 {
        let s = q.drop_last();
        assert(s =~= q.take(d));
        lemma_take_drafted(logs, p, q, d);
        let j = if k < q.len() {
            k
        } else {
            d
        };
        lemma_longer_scores_less(logs, p, s, j);
        lemma_sum_drops(path_score(logs, s), logs[d]@[q[d] as int]->0 as int);
        if k < q.len() {
            assert(s.take(k) =~= q.take(k));
        }
    }
}

/// The number that packs a path.
spec fn pack(q: Seq<usize>) -> u64
    decreases q.len(),
{
    if q.len() == 0 {
        0
    } else {
        extended(pack(q.drop_last()), q.last() as int)
    }
}

proof fn lemma_pack(q: Seq<usize>)
    requires
        q.len() <= EXACT_DEPTHS,
        forall|d: int| 0 <= d < q.len() ==> #[trigger] q[d] < 32,
    ensures
        pack(q) < path_bound(q.len()),
        unpacked(pack(q), q.len()) == q,
    decreases q.len(),
{
    if q.len() == 0 {
        assert(unpacked(pack(q), 0) =~= q);
    } else {
        let s = q.drop_last();
        assert forall|d: int| 0 <= d < s.len() implies #[trigger] s[d] < 32 by {
            assert(s[d] == q[d]);
        }
        lemma_pack(s);
        assert(q[q.len() - 1] < 32);
        law_packed_tokens_come_back(pack(s), s.len(), q.last());
        assert(s.push(q.last()) =~= q);
    }
}

/// Paths that may be drafted are finitely many.
proof fn lemma_drafted_paths_finite<P: ConstraintPruner>(logs: Seq<Vec<Option<i64>>>, p: &P)
    requires
        packs_exactly(logs),
    ensures
        drafted_paths(logs, p).finite(),
{
    let unit = 0x1000_0000_0000_0000int;
    let codes = vstd::set_lib::set_int_range(0, 13 * unit);
    let decode = |v: int| unpacked((v % unit) as u64, (v / unit) as nat);
    vstd::set_lib::lemma_int_range(0, 13 * unit);
    codes.lemma_map_finite(decode);
    assert forall|q: Seq<usize>| drafted_paths(logs, p).contains(q) implies codes.map(
        decode,
    ).contains(q) by {
        assert forall|d: int| 0 <= d < q.len() implies #[trigger] q[d] < 32 by {
            assert(logs[d]@.len() <= 32);
        }
        lemma_pack(q);
        lemma_path_bound(q.len());
        let w = pack(q);
        let v = q.len() * unit + w;
        if w == unit {
            assert(false);
        }
        assert(v / unit == q.len() && v % unit == w);
        assert(codes.contains(v));
        assert(decode(v) == q);
    }
    vstd::set_lib::lemma_len_subset(drafted_paths(logs, p), codes.map(decode));
}

/// The tree holds the most probable paths: as many as the budget admits, each once, and none
/// that is left out scores above any that is held.
pub proof fn law_tree_holds_most_probable_paths<P: ConstraintPruner>(
    logs: Seq<Vec<Option<i64>>>,
    p: &P,
    budget: nat,
)
    requires
        packs_exactly(logs),
        logs_in_range(logs),
        logs_of_probabilities(logs),
    ensures
        ({
            let tree = grown(logs, p, budget).0;
            &&& drafted_paths(logs, p).finite()
            &&& tree.len() == (if budget < drafted_paths(logs, p).len() {
                budget
            } else {
                drafted_paths(logs, p).len()
            })
            &&& forall|i: int|
                0 <= i < tree.len() ==> stands_for_path(logs, p, #[trigger] tree[i])
            &&& forall|i: int, j: int|
                0 <= i < j < tree.len() ==> (#[trigger] tree[i]).depth != (#[trigger] tree[j]).depth
                    || tree[i].parent_path != tree[j].parent_path
            &&& forall|q: Seq<usize>, i: int|
                #![trigger drafted_path(logs, p, q), tree[i]]
                drafted_path(logs, p, q) && !holds_path(tree, q) && 0 <= i < tree.len()
                    ==> path_score(logs, q) <= tree[i].score
        }),
{
    let (tree, frontier) = grown(logs, p, budget);
    lemma_grown_searched(logs, p, budget);
    lemma_grown_ordered(logs, p, budget);
    lemma_grown_len(logs, p, budget);
    lemma_drafted_paths_finite(logs, p);
    let all = drafted_paths(logs, p);
    let held = tree.map_values(|n: TreeNode| node_path(n));
    assert(held.no_duplicates()) by {
        assert forall|i: int, j: int| 0 <= i < held.len() && 0 <= j < held.len() && i != j implies
            held[i] != held[j] by {
            if i < j {
                assert(node_path(tree[i]) != node_path(tree[j]));
            } else {
                assert(node_path(tree[j]) != node_path(tree[i]));
            }
        }
    }
    held.unique_seq_to_set();
    assert(held.to_set().subset_of(all)) by {
        assert forall|q: Seq<usize>| held.to_set().contains(q) implies all.contains(q) by {
            let i = choose|i: int| 0 <= i < held.len() && held[i] == q;
            assert(stands_for_path(logs, p, tree[i]));
        }
    }
    vstd::set_lib::lemma_len_subset(held.to_set(), all);
    if frontier.len() == 0 {
        assert(held.to_set() =~= all) by {
            assert forall|q: Seq<usize>| all.contains(q) implies held.to_set().contains(q) by {
                assert(drafted_path(logs, p, q));
                assert(holds_path(tree, q));
                let i = choose|i: int| 0 <= i < tree.len() && node_path(#[trigger] tree[i]) == q;
                assert(held[i] == q);
            }
        }
    }
    assert forall|q: Seq<usize>, i: int|
        #![trigger drafted_path(logs, p, q), tree[i]]
        drafted_path(logs, p, q) && !holds_path(tree, q) && 0 <= i < tree.len() implies path_score(
        logs,
        q,
    ) <= tree[i].score by {
        let k = choose|k: int|
            0 <= k < frontier.len() && node_path(#[trigger] frontier[k]).is_prefix_of(q);
        let s = node_path(frontier[k]);
        lemma_longer_scores_less(logs, p, q, s.len() as int);
        assert(q.take(s.len() as int) =~= s);
        assert(stands_for_path(logs, p, frontier[k]));
        assert(frontier[k].score <= floor_of(tree));
        assert(tree[tree.len() - 1].score <= tree[i].score);
    }
}

/// The sum of the log-probabilities along a path, without rounding.
pub open spec fn log_sum(logs: Seq<Vec<Option<i64>>>, q: Seq<usize>) -> int
    decreases q.len(),
{
    if q.len() == 0 {
        0
    } else {
        log_sum(logs, q.drop_last()) + logs[q.len() - 1]@[q.last() as int]->0
    }
}

/// The score of a path is the sum of the log-probabilities along it, as long as 24 bits hold each
/// of the sums on the way.
pub proof fn law_scores_add_log_probabilities(logs: Seq<Vec<Option<i64>>>, q: Seq<usize>)
    requires
        forall|n: int| 0 < n <= q.len() ==> -0x100_0000 < #[trigger] log_sum(logs, q.take(n))
            < 0x100_0000,
    ensures
        path_score(logs, q) == log_sum(logs, q),
    decreases q.len(),
{
    if q.len() > 0 {
        let p = q.drop_last();
        assert forall|n: int| 0 < n <= p.len() implies -0x100_0000 < #[trigger] log_sum(
            logs,
            p.take(n),
        ) < 0x100_0000 by {
            assert(p.take(n) =~= q.take(n));
        }
        law_scores_add_log_probabilities(logs, p);
        assert(q.take(q.len() as int) =~= q);
        let s = log_sum(logs, q);
        assert(-0x100_0000 < s < 0x100_0000);
        if s < 0 {
            float_bits::law_round24_leaves_24_bits((-s) as nat);
        } else {
            float_bits::law_round24_leaves_24_bits(s as nat);
        }
        assert(float_bits::round24_signed(s) == s);
        if q.len() == 1 {
            assert(log_sum(logs, p) == 0);
        }
    }
}

/// Of two tokens after the same path the more probable one never gives the lower score.
pub proof fn law_likelier_tokens_score_no_lower(
    logs: Seq<Vec<Option<i64>>>,
    q: Seq<usize>,
    a: usize,
    b: usize,
)
    requires
        logs[q.len() as int]@[a as int]->0 <= logs[q.len() as int]@[b as int]->0,
    ensures
        path_score(logs, q.push(a)) <= path_score(logs, q.push(b)),
{
    assert(q.push(a).drop_last() =~= q && q.push(b).drop_last() =~= q);
    let s = path_score(logs, q);
    float_bits::law_signed_rounding_keeps_order(
        s + logs[q.len() as int]@[a as int]->0,
        s + logs[q.len() as int]@[b as int]->0,
    );
}

/// The node that is taken has the highest score, and of several the earliest is taken.
pub proof fn law_best_node_is_taken(frontier: Seq<TreeNode>, n: nat, i: int)
    requires
        n <= frontier.len(),
        0 <= i < n,
    ensures
        0 <= best_of(frontier, n) < n,
        frontier[i].score <= frontier[best_of(frontier, n)].score,
        i < best_of(frontier, n) ==> frontier[i].score < frontier[best_of(frontier, n)].score,
    decreases n,
{
    if n > 1 {
        if i < n - 1 {
            law_best_node_is_taken(frontier, (n - 1) as nat, i);
        } else {
            law_best_node_is_taken(frontier, (n - 1) as nat, 0);
        }
        if best_of(frontier, n) == n - 1 && i < n - 1 {
            law_best_node_is_taken(frontier, (n - 1) as nat, i);
        }
    }
}

} // verus!
