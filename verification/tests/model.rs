//! Random draws, sampling, pruning, tree search, verification and generation.
//!
//! What is tested is the library: the tree built from marginals, the path taken from it, what is
//! settled or rejected, and what a generation feeds. The marginals that go in are those of a small
//! transformer, which the first part of this file computes and no test is about.

use microgpt::percepta::sudoku::Sudoku9x9;
use microgpt::speculative::dd_tree::{
    build_dd_tree, build_dd_tree_pruned, extract_parent_tokens, TreeNode,
};
use microgpt::speculative::pruner::{
    ConstraintPruner, NoPruner, StaticOnlyPruner, SudokuPruner,
};
use microgpt::speculative::sampling::{sample_from_distribution, sample_token};
use microgpt::speculative::verify::{
    draft_steps, extract_best_path, Draw, RejectionLoop, RejectionStep, SimulatedVerifier,
};
use microgpt::transformer::{tokens_to_string, Generation};
use microgpt::types::{Config, Rng};

// Where the marginals come from: a transformer in single precision.

struct Weights {
    wte: Vec<f32>,
    wpe: Vec<f32>,
    wq: Vec<f32>,
    wk: Vec<f32>,
    wv: Vec<f32>,
    wo: Vec<f32>,
    w1: Vec<f32>,
    w2: Vec<f32>,
    lm_head: Vec<f32>,
}

fn uniform(rng: &mut Rng) -> f32 {
    f32::from_bits(rng.uniform())
}

fn normal(rng: &mut Rng) -> f32 {
    let u1 = uniform(rng).max(1e-10);
    let u2 = uniform(rng);
    (-2.0 * u1.ln()).sqrt() * (2.0 * std::f32::consts::PI * u2).cos()
}

impl Weights {
    fn new(config: &Config, rng: &mut Rng) -> Self {
        let n = config.n_embd;
        let scale = (2.0 / n as f32).sqrt();
        let mut init =
            |len: usize| -> Vec<f32> { (0..len).map(|_| normal(rng) * scale).collect() };
        Self {
            wte: init(config.vocab_size * n),
            wpe: init(config.block_size * n),
            wq: init(n * n),
            wk: init(n * n),
            wv: init(n * n),
            wo: init(n * n),
            w1: init(config.mlp_hidden * n),
            w2: init(n * config.mlp_hidden),
            lm_head: init(config.vocab_size * n),
        }
    }
}

struct Cache {
    key: Vec<f32>,
    value: Vec<f32>,
}

impl Cache {
    fn new(config: &Config) -> Self {
        let len = config.block_size * config.n_embd;
        Self { key: vec![0.0; len], value: vec![0.0; len] }
    }

    fn reset(&mut self) {
        self.key.fill(0.0);
        self.value.fill(0.0);
    }
}

fn softmax(x: &mut [f32]) {
    let max_val = x.iter().copied().fold(f32::NEG_INFINITY, f32::max);
    let mut sum = 0.0;
    for val in x.iter_mut() {
        *val = (*val - max_val).exp();
        sum += *val;
    }
    for val in x.iter_mut() {
        *val /= sum;
    }
}

fn rmsnorm(x: &mut [f32]) {
    let ms: f32 = x.iter().map(|&v| v * v).sum::<f32>() / x.len() as f32;
    let scale = 1.0 / (ms + 1e-5).sqrt();
    for val in x.iter_mut() {
        *val *= scale;
    }
}

fn matmul(weight: &[f32], input: &[f32], rows: usize, cols: usize) -> Vec<f32> {
    weight
        .chunks_exact(cols)
        .take(rows)
        .map(|row| row.iter().zip(input.iter()).map(|(&w, &x)| w * x).sum())
        .collect()
}

fn forward(w: &Weights, cache: &mut Cache, token: usize, pos: usize, c: &Config) -> Vec<f32> {
    let n = c.n_embd;
    let hd = c.head_dim;
    let mut x: Vec<f32> = (0..n).map(|i| w.wte[token * n + i] + w.wpe[pos * n + i]).collect();
    rmsnorm(&mut x);
    let xr = x.clone();
    rmsnorm(&mut x);
    let q = matmul(&w.wq, &x, n, n);
    let k = matmul(&w.wk, &x, n, n);
    let v = matmul(&w.wv, &x, n, n);
    cache.key[pos * n..pos * n + n].copy_from_slice(&k);
    cache.value[pos * n..pos * n + n].copy_from_slice(&v);
    let scale = 1.0 / (hd as f32).sqrt();
    let mut attn = vec![0.0f32; n];
    for h in 0..c.n_head {
        let off = h * hd;
        let mut scores: Vec<f32> = (0..pos + 1)
            .map(|t| {
                let mut dot = 0.0f32;
                for d in 0..hd {
                    dot += q[off + d] * cache.key[t * n + off + d];
                }
                dot * scale
            })
            .collect();
        softmax(&mut scores);
        for d in 0..hd {
            let mut val = 0.0f32;
            for (t, &s) in scores.iter().enumerate() {
                val += s * cache.value[t * n + off + d];
            }
            attn[off + d] = val;
        }
    }
    let mut x = matmul(&w.wo, &attn, n, n);
    for (xi, &ri) in x.iter_mut().zip(&xr) {
        *xi += ri;
    }
    let xr2 = x.clone();
    rmsnorm(&mut x);
    let mut hidden = matmul(&w.w1, &x, c.mlp_hidden, n);
    for val in hidden.iter_mut() {
        *val = val.max(0.0);
    }
    let mut x = matmul(&w.w2, &hidden, n, c.mlp_hidden);
    for (xi, &ri) in x.iter_mut().zip(&xr2) {
        *xi += ri;
    }
    matmul(&w.lm_head, &x, c.vocab_size, n)
}

fn distribution(w: &Weights, cache: &mut Cache, token: usize, pos: usize, c: &Config) -> Vec<f32> {
    let temperature = f32::from_bits(c.temperature);
    let mut probs = forward(w, cache, token, pos, c);
    for p in probs.iter_mut() {
        *p /= temperature;
    }
    softmax(&mut probs);
    probs
}

// Handing marginals to the library, and drawing where it asks for a draw.

fn running_sums(probs: &[f32]) -> Vec<u32> {
    let mut sum = 0.0f32;
    probs
        .iter()
        .map(|&p| {
            sum += p;
            sum.to_bits()
        })
        .collect()
}

fn draw(probs: &[f32], rng: &mut Rng) -> usize {
    let r = rng.uniform();
    sample_from_distribution(&running_sums(probs), r)
}

fn draw_residual(p: &[f32], q: &[f32], rng: &mut Rng) -> usize {
    let mut residual: Vec<f32> = p.iter().zip(q).map(|(&a, &b)| (a - b).max(0.0)).collect();
    let sum: f32 = residual.iter().sum();
    if sum > 0.0 {
        let inv_sum = 1.0 / sum;
        for val in &mut residual {
            *val *= inv_sum;
        }
        draw(&residual, rng)
    } else {
        draw(p, rng)
    }
}

fn logs(marginals: &[Vec<f32>]) -> Vec<Vec<Option<i64>>> {
    let unit = (1u64 << 48) as f64;
    marginals
        .iter()
        .map(|row| {
            row.iter()
                .map(|&p| if p > 0.0 { Some((p.ln() as f64 * unit) as i64) } else { None })
                .collect()
        })
        .collect()
}

fn dflash_predict(w: &Weights, c: &Config, token: usize, pos: usize) -> Vec<Vec<f32>> {
    (0..draft_steps(c.draft_lookahead, c.block_size, pos))
        .map(|step| distribution(w, &mut Cache::new(c), token, pos + step, c))
        .collect()
}

fn dflash_predict_ar(
    w: &Weights,
    c: &Config,
    token: usize,
    pos: usize,
    rng: &mut Rng,
) -> (Vec<Vec<f32>>, Vec<usize>) {
    let mut cache = Cache::new(c);
    let mut marginals = Vec::new();
    let mut sampled = Vec::new();
    let mut cur = token;
    for step in 0..draft_steps(c.draft_lookahead, c.block_size, pos) {
        let probs = distribution(w, &mut cache, cur, pos + step, c);
        cur = draw(&probs, rng);
        marginals.push(probs);
        sampled.push(cur);
    }
    (marginals, sampled)
}

fn tree_of(marginals: &[Vec<f32>], c: &Config) -> Vec<TreeNode> {
    build_dd_tree(&logs(marginals), c.tree_budget)
}

fn pruned_tree_of<P: ConstraintPruner>(
    marginals: &[Vec<f32>],
    c: &Config,
    p: &P,
) -> Vec<TreeNode> {
    build_dd_tree_pruned(&logs(marginals), c.tree_budget, p)
}

fn speculate(
    verifier: &SimulatedVerifier,
    w: &Weights,
    c: &Config,
    token: usize,
    pos: usize,
    rng: &mut Rng,
) -> (Vec<usize>, usize) {
    let marginals = dflash_predict(w, c, token, pos);
    let settlement =
        verifier.settle(&extract_best_path(&tree_of(&marginals, c)), marginals.len());
    let mut accepted = settlement.kept;
    match settlement.draw {
        Draw::Nothing => {}
        Draw::Marginal { at } => accepted.push(draw(&marginals[at], rng)),
        Draw::Sole => accepted.push(draw(&[1.0], rng)),
    }
    let len = accepted.len();
    (accepted, len)
}

fn speculative_step(w: &Weights, c: &Config, rng: &mut Rng) -> (Vec<usize>, usize) {
    speculate(&SimulatedVerifier::new(0.75f32.to_bits()), w, c, 0, 0, rng)
}

fn leviathan(
    target: &Weights,
    tc: &Config,
    draft: &Weights,
    dc: &Config,
    token: usize,
    pos: usize,
    rng: &mut Rng,
) -> Vec<usize> {
    let (q, drafted) = dflash_predict_ar(draft, dc, token, pos, rng);
    let mut cache = Cache::new(tc);
    let mut p = vec![distribution(target, &mut cache, token, pos, tc)];
    for (i, &t) in drafted.iter().enumerate() {
        p.push(distribution(target, &mut cache, t, pos + 1 + i, tc));
    }
    let mut l = RejectionLoop::new(drafted);
    loop {
        match l.step {
            RejectionStep::Judge { at, token } => {
                let (pi, qi) = (p[at][token], q[at][token]);
                let r = rng.uniform();
                l.judge(qi.to_bits(), (pi / qi).to_bits(), r);
            }
            RejectionStep::Replace { at } => {
                let t = draw_residual(&p[at], &q[at], rng);
                l.finish(t);
            }
            RejectionStep::Bonus { at } => {
                let t = draw(&p[at], rng);
                l.finish(t);
            }
            RejectionStep::Done => return l.accepted,
        }
    }
}

fn generate(w: &Weights, c: &Config, rng: &mut Rng, n_tokens: usize) -> Vec<usize> {
    let mut cache = Cache::new(c);
    let mut g = Generation::begin(c, n_tokens);
    while let Some(feed) = g.next_feed(c) {
        if feed.reset {
            cache.reset();
        }
        let probs = distribution(w, &mut cache, feed.token, feed.pos, c);
        let r = rng.uniform();
        let next = sample_token(&running_sums(&probs), r);
        if g.take_token(c, next) {
            cache.reset();
        }
    }
    g.tokens
}

fn make_draft() -> (Weights, Config) {
    let config = Config::draft();
    let mut rng = Rng::new(42);
    let weights = Weights::new(&config, &mut rng);
    (weights, config)
}

fn make_micro() -> (Weights, Config) {
    let config = Config::micro();
    let mut rng = Rng::new(42);
    let weights = Weights::new(&config, &mut rng);
    (weights, config)
}

fn uniform_digits(depths: usize) -> Vec<Vec<f32>> {
    (0..depths)
        .map(|_| {
            let mut probs = vec![0.0f32; 10];
            for d in 1..=9u8 {
                probs[d as usize] = 1.0 / 9.0;
            }
            probs
        })
        .collect()
}

// Configuration and generator.

#[test]
fn test_config_micro_defaults() {
    let config = Config::micro();
    assert_eq!(config.vocab_size, 27);
    assert_eq!(config.block_size, 16);
    assert_eq!(config.n_embd, 16);
    assert_eq!(config.n_head, 4);
    assert_eq!(config.head_dim, 4);
    assert_eq!(config.mlp_hidden, 64);
    assert_eq!(config.bos_token, 26);
    assert!((f32::from_bits(config.temperature) - 0.5).abs() < 1e-6);
    assert_eq!(config.draft_lookahead, 8);
    assert_eq!(config.tree_budget, 16);
}

#[test]
fn test_config_default_is_micro() {
    let default = Config::default();
    let micro = Config::micro();
    assert_eq!(default.vocab_size, micro.vocab_size);
    assert_eq!(default.block_size, micro.block_size);
    assert_eq!(default.n_embd, micro.n_embd);
}

#[test]
fn test_rng_deterministic() {
    let mut a = Rng::new(42);
    let mut b = Rng::new(42);
    for _ in 0..200 {
        assert_eq!(a.next(), b.next());
    }
}

#[test]
fn test_rng_different_seeds_diverge() {
    let mut a = Rng::new(1);
    let mut b = Rng::new(2);
    let mut same = 0;
    for _ in 0..100 {
        if a.next() == b.next() {
            same += 1;
        }
    }
    assert!(same < 10, "different seeds should produce different sequences");
}

#[test]
fn test_rng_zero_seed_remapped() {
    let mut rng = Rng::new(0);
    let val = rng.next();
    assert_ne!(val, 0, "rng with seed 0 should still produce output");
}

#[test]
fn test_rng_uniform_range() {
    let mut rng = Rng::new(42);
    for _ in 0..2000 {
        let v = uniform(&mut rng);
        assert!((0.0..1.0).contains(&v), "uniform should be in [0,1), got {v}");
    }
}

#[test]
fn uniform_is_the_float_product() {
    for seed in [0u64, 1, 2, 42, 77, 999, u64::MAX] {
        let mut rng = Rng::new(seed);
        for _ in 0..500 {
            let mut copy = rng;
            let x = copy.next();
            let product = (x >> 11) as f32 * (1.0 / 9007199254740992.0);
            assert!(product < 1.0);
            assert_eq!(rng.uniform(), product.to_bits());
        }
    }
}

#[test]
fn uniform_stays_below_one() {
    // The next number of this state is the largest, whose quotient rounds up to one.
    let mut rng = Rng::new(7650297886450228676);
    let mut copy = rng;
    assert_eq!(copy.next(), u64::MAX);
    let draw = f32::from_bits(rng.uniform());
    assert!(draw < 1.0);
    assert_eq!(draw, 1.0 - f32::EPSILON / 2.0);
}

#[test]
fn first_draws_of_seed_one() {
    let mut rng = Rng::new(1);
    assert_eq!(rng.next(), 1_082_269_761);
    assert_eq!(rng.next(), 1_152_992_998_833_853_505);
}

// Sampling.

#[test]
fn test_sample_from_distribution() {
    let mut rng = Rng::new(42);
    let probs = vec![0.1, 0.2, 0.5, 0.2];
    for _ in 0..100 {
        let t = draw(&probs, &mut rng);
        assert!(t < 4, "token should be 0-3, got {t}");
    }
}

#[test]
fn test_sample_from_distribution_degenerate() {
    let mut rng = Rng::new(42);
    let probs = vec![0.0, 0.0, 1.0, 0.0];
    for _ in 0..50 {
        let t = draw(&probs, &mut rng);
        assert_eq!(t, 2, "should always sample token 2");
    }
}

#[test]
fn sampling_takes_the_first_sum_reached() {
    let sums = [0.25f32.to_bits(), 0.5f32.to_bits(), 1.0f32.to_bits()];
    assert_eq!(sample_from_distribution(&sums, 0.25f32.to_bits()), 0);
    assert_eq!(sample_from_distribution(&sums, 0.26f32.to_bits()), 1);
    assert_eq!(sample_token(&sums, 0.25f32.to_bits()), 1);
    assert_eq!(sample_token(&sums, 0.24f32.to_bits()), 0);
    let short = [0.25f32.to_bits(), 0.5f32.to_bits()];
    assert_eq!(sample_from_distribution(&short, 0.75f32.to_bits()), 1);
    assert_eq!(sample_token(&short, 0.75f32.to_bits()), 1);
    assert_eq!(sample_from_distribution(&[], 0), 0);
}

#[test]
fn test_sample_token_valid() {
    let config = Config::micro();
    let mut rng = Rng::new(42);
    let mut probs = vec![0.0; config.vocab_size];
    probs[5] = 1.0;
    for _ in 0..100 {
        let r = rng.uniform();
        let token = sample_token(&running_sums(&probs), r);
        assert_eq!(token, 5, "should always sample token 5");
    }
}

// Pruning.

#[test]
fn speculative_test_no_pruner_allows_all() {
    let pruner = NoPruner;
    assert!(pruner.is_valid(0, 0, &[]));
    assert!(pruner.is_valid(0, 26, &[]));
    assert!(pruner.is_valid(100, 999, &[]));
}

#[test]
fn step_test_no_pruner_allows_all() {
    let pruner = NoPruner;
    assert!(pruner.is_valid(0, 0, &[]));
    assert!(pruner.is_valid(0, 26, &[]));
    assert!(pruner.is_valid(100, 999, &[]));
}

#[test]
fn test_sudoku_pruner_rejects_invalid_digits() {
    let pruner = SudokuPruner::new(Sudoku9x9::arto_inkala());
    assert!(!pruner.is_valid(0, 3, &[]), "3 is in box");
    assert!(!pruner.is_valid(0, 5, &[]), "5 is in col");
    assert!(!pruner.is_valid(0, 7, &[]), "7 is in col+box");
    assert!(!pruner.is_valid(0, 8, &[]), "8 is in row+box");
    assert!(!pruner.is_valid(0, 9, &[]), "9 is in col");
    assert!(pruner.is_valid(0, 1, &[]), "1 should be valid");
    assert!(pruner.is_valid(0, 2, &[]), "2 should be valid");
    assert!(pruner.is_valid(0, 4, &[]), "4 should be valid");
    assert!(pruner.is_valid(0, 6, &[]), "6 should be valid");
}

#[test]
fn test_sudoku_pruner_rejects_token_zero() {
    let pruner = SudokuPruner::new(Sudoku9x9::arto_inkala());
    assert!(!pruner.is_valid(0, 0, &[]), "token 0 should be pruned");
}

#[test]
fn sudoku_pruner_rejects_tokens_that_are_no_digits() {
    let pruner = SudokuPruner::new(Sudoku9x9::arto_inkala());
    assert!(!pruner.is_valid(0, 10, &[]));
    assert!(!pruner.is_valid(0, 257, &[]));
    assert!(!pruner.is_valid(60, 1, &[]));
}

#[test]
fn test_sudoku_pruner_empty_count() {
    let pruner = SudokuPruner::new(Sudoku9x9::arto_inkala());
    assert_eq!(pruner.empty_count(), 60, "Arto Inkala has 60 empty cells");
}

#[test]
fn test_sudoku_pruner_positions_match_empties() {
    let pruner = SudokuPruner::new(Sudoku9x9::arto_inkala());
    assert_eq!(pruner.position_at(0), Some((0, 1)));
    assert_eq!(pruner.position_at(60), None);
}

#[test]
fn test_sudoku_pruner_path_aware_same_row() {
    let pruner = SudokuPruner::new(Sudoku9x9::arto_inkala());
    assert!(pruner.is_valid(0, 4, &[]), "digit 4 at depth 0 should be valid alone");
    assert!(pruner.is_valid(1, 4, &[]), "digit 4 at depth 1 should be valid alone");
    assert!(!pruner.is_valid(1, 4, &[4]), "same digit 4 in same row should be pruned");
}

#[test]
fn test_sudoku_pruner_path_aware_same_col() {
    let pruner = SudokuPruner::new(Sudoku9x9::arto_inkala());
    assert!(pruner.is_valid(0, 1, &[]), "digit 1 at depth 0 should be valid alone");
    assert!(pruner.is_valid(9, 1, &[]), "digit 1 at depth 9 should be valid alone");
    let mut parent_tokens = vec![0usize; 9];
    parent_tokens[0] = 1;
    assert!(
        !pruner.is_valid(9, 1, &parent_tokens),
        "same digit 1 in same column should be pruned"
    );
}

#[test]
fn test_sudoku_pruner_path_aware_same_box() {
    let pruner = SudokuPruner::new(Sudoku9x9::arto_inkala());
    assert!(pruner.is_valid(0, 6, &[]), "digit 6 at depth 0 should be valid alone");
    assert!(pruner.is_valid(1, 6, &[]), "digit 6 at depth 1 should be valid alone");
    assert!(!pruner.is_valid(1, 6, &[6]), "same digit 6 in same box should be pruned");
}

#[test]
fn test_sudoku_pruner_path_aware_no_conflict_different_digit() {
    let pruner = SudokuPruner::new(Sudoku9x9::arto_inkala());
    assert!(
        pruner.is_valid(1, 5, &[4]),
        "different digits (4→5) in same row should NOT be pruned"
    );
    assert!(
        pruner.is_valid(1, 9, &[2]),
        "different digits (2→9) in same row should NOT be pruned"
    );
}

#[test]
fn test_sudoku_pruner_path_aware_no_conflict_different_region() {
    let pruner = SudokuPruner::new(Sudoku9x9::arto_inkala());
    assert!(pruner.is_valid(0, 4, &[]), "digit 4 at (0,1) should be valid");
    assert!(pruner.is_valid(21, 4, &[]), "digit 4 at (3,0) should be valid");
    let mut parent_tokens = vec![0usize; 21];
    parent_tokens[0] = 4;
    assert!(
        pruner.is_valid(21, 4, &parent_tokens),
        "same digit in different row/col/box should NOT be pruned"
    );
}

#[test]
fn test_sudoku_pruner_path_aware_multi_level_conflict() {
    let pruner = SudokuPruner::new(Sudoku9x9::arto_inkala());
    assert!(pruner.is_valid(3, 1, &[]), "digit 1 at (0,4) should be valid alone");
    assert!(
        !pruner.is_valid(3, 1, &[1, 2, 3]),
        "digit 1 at depth 3 conflicts with digit 1 at depth 0 in same row"
    );
}

// Draft trees.

#[test]
fn test_ddtree_pruned_same_as_unpruned_with_no_pruner() {
    let (weights, config) = make_draft();
    let marginals = dflash_predict(&weights, &config, 0, 0);
    let tree_unpruned = tree_of(&marginals, &config);
    let tree_pruned = pruned_tree_of(&marginals, &config, &NoPruner);
    assert_eq!(
        tree_unpruned.len(),
        tree_pruned.len(),
        "NoPruner should produce identical tree"
    );
    for (a, b) in tree_unpruned.iter().zip(tree_pruned.iter()) {
        assert_eq!(a.score, b.score, "scores should match");
        assert_eq!(a.token_idx, b.token_idx, "tokens should match");
    }
}

#[test]
fn test_ddtree_pruned_sudoku_reduces_tree_size() {
    let marginals = uniform_digits(1);
    let config = Config { tree_budget: 20, ..Config::draft() };
    let tree_unpruned = tree_of(&marginals, &config);
    let tree_pruned =
        pruned_tree_of(&marginals, &config, &SudokuPruner::new(Sudoku9x9::arto_inkala()));
    assert!(
        tree_pruned.len() < tree_unpruned.len(),
        "pruned tree ({}) should be smaller than unpruned ({})",
        tree_pruned.len(),
        tree_unpruned.len()
    );
    assert!(!tree_pruned.is_empty(), "pruned tree should have nodes");
    assert_eq!(tree_unpruned.len(), 9, "unpruned should have 9 nodes");
    assert_eq!(tree_pruned.len(), 4, "pruned should have 4 valid nodes");
}

#[test]
fn test_ddtree_pruned_sudoku_only_valid_tokens() {
    let board = Sudoku9x9::arto_inkala();
    let pruner = SudokuPruner::new(board);
    let marginals = uniform_digits(3);
    let config = Config { tree_budget: 50, ..Config::draft() };
    let tree = pruned_tree_of(&marginals, &config, &pruner);
    for node in &tree {
        let pos = pruner.position_at(node.depth).expect("depth should map to position");
        let digit = node.token_idx as u8;
        assert!(
            board.is_valid_move(pos.0, pos.1, digit),
            "token {} at depth {} (row {}, col {}) should be valid",
            node.token_idx,
            node.depth,
            pos.0,
            pos.1,
        );
    }
}

#[test]
fn test_ddtree_pruned_sudoku_no_token_zero() {
    let pruner = SudokuPruner::new(Sudoku9x9::arto_inkala());
    let marginals: Vec<Vec<f32>> = (0..5)
        .map(|_| {
            let mut probs = vec![0.5f32; 10];
            let sum: f32 = probs.iter().sum();
            for p in probs.iter_mut() {
                *p /= sum;
            }
            probs
        })
        .collect();
    let config = Config { tree_budget: 50, ..Config::draft() };
    let tree = pruned_tree_of(&marginals, &config, &pruner);
    for node in &tree {
        assert_ne!(node.token_idx, 0, "token 0 should be pruned at depth {}", node.depth);
    }
}

#[test]
fn test_ddtree_pruned_empty_marginals() {
    let config = Config::draft();
    let tree = pruned_tree_of(&[], &config, &NoPruner);
    assert!(tree.is_empty(), "empty marginals should produce empty tree");
}

fn check_budget(weights: &Weights, config: &Config) {
    let tree = tree_of(&dflash_predict(weights, config, 0, 0), config);
    assert!(
        tree.len() <= config.tree_budget,
        "tree size {} exceeds budget {}",
        tree.len(),
        config.tree_budget
    );
    assert!(!tree.is_empty(), "tree should have at least one node");
}

#[test]
fn speculative_test_ddtree_respects_budget() {
    let (weights, config) = make_draft();
    check_budget(&weights, &config);
}

#[test]
fn integration_test_ddtree_respects_budget() {
    let (weights, config) = make_micro();
    check_budget(&weights, &config);
}

fn check_descending(weights: &Weights, config: &Config) {
    let tree = tree_of(&dflash_predict(weights, config, 0, 0), config);
    for window in tree.windows(2) {
        assert!(
            window[0].score >= window[1].score,
            "scores not descending: {} >= {}",
            window[0].score,
            window[1].score
        );
    }
}

#[test]
fn speculative_test_ddtree_scores_descending() {
    let (weights, config) = make_draft();
    check_descending(&weights, &config);
}

#[test]
fn integration_test_ddtree_scores_descending() {
    let (weights, config) = make_micro();
    check_descending(&weights, &config);
}

fn check_depths(weights: &Weights, config: &Config) {
    let tree = tree_of(&dflash_predict(weights, config, 0, 0), config);
    for node in &tree {
        assert!(
            node.depth < config.draft_lookahead,
            "depth {} should be < lookahead {}",
            node.depth,
            config.draft_lookahead
        );
    }
}

#[test]
fn speculative_test_ddtree_depth_within_lookahead() {
    let (weights, config) = make_draft();
    check_depths(&weights, &config);
}

#[test]
fn integration_test_ddtree_depth_within_lookahead() {
    let (weights, config) = make_micro();
    check_depths(&weights, &config);
}

fn check_tokens(weights: &Weights, config: &Config) {
    let tree = tree_of(&dflash_predict(weights, config, 0, 0), config);
    for node in &tree {
        assert!(node.token_idx < config.vocab_size, "token_idx {} out of range", node.token_idx);
    }
}

#[test]
fn speculative_test_ddtree_valid_token_indices() {
    let (weights, config) = make_draft();
    check_tokens(&weights, &config);
}

#[test]
fn integration_test_ddtree_valid_token_indices() {
    let (weights, config) = make_micro();
    check_tokens(&weights, &config);
}

#[test]
fn speculative_test_ddtree_empty_marginals() {
    let tree = tree_of(&[], &Config::draft());
    assert!(tree.is_empty(), "empty marginals should produce empty tree");
}

#[test]
fn integration_test_ddtree_empty_marginals() {
    let tree = tree_of(&[], &Config::micro());
    assert!(tree.is_empty(), "empty marginals should produce empty tree");
}

#[test]
fn tree_scores_are_single_precision_sums() {
    let (weights, config) = make_micro();
    let marginals = dflash_predict(&weights, &config, 0, 0);
    let tree = tree_of(&marginals, &config);
    let unit = (1u64 << 48) as f64;
    for node in &tree {
        let tokens = extract_parent_tokens(node.parent_path, node.depth + 1);
        let mut score = marginals[0][tokens[0]].ln();
        for (depth, &t) in tokens.iter().enumerate().skip(1) {
            score += marginals[depth][t].ln();
        }
        assert_eq!(node.score as f64 / unit, score as f64);
    }
}

#[test]
fn test_extract_parent_tokens_roundtrip() {
    let path_d0 = 3u64;
    let path_d1 = (path_d0 << 5) | 7;
    let path_d2 = (path_d1 << 5) | 1;
    assert_eq!(extract_parent_tokens(path_d0, 1), vec![3]);
    assert_eq!(extract_parent_tokens(path_d1, 2), vec![3, 7]);
    assert_eq!(extract_parent_tokens(path_d2, 3), vec![3, 7, 1]);
    assert_eq!(extract_parent_tokens(0, 0), Vec::<usize>::new());
}

fn count_invalid_accumulated(pruner: &SudokuPruner, tree: &[TreeNode]) -> usize {
    let mut invalid = 0;
    for node in tree {
        let all_tokens = extract_parent_tokens(node.parent_path, node.depth + 1);
        let parent_tokens = &all_tokens[..node.depth];
        let mut board = *pruner.board();
        for (depth, &token) in parent_tokens.iter().enumerate() {
            if token == 0 {
                continue;
            }
            if let Some((row, col)) = pruner.position_at(depth) {
                board.grid[row][col] = token as u8;
            }
        }
        if let Some((row, col)) = pruner.position_at(node.depth) {
            if !board.is_valid_move(row, col, node.token_idx as u8) {
                invalid += 1;
            }
        }
    }
    invalid
}

#[test]
fn test_ddtree_path_aware_all_nodes_valid_accumulated() {
    let pruner = SudokuPruner::new(Sudoku9x9::arto_inkala());
    let marginals = uniform_digits(8);
    let config = Config { tree_budget: 100, ..Config::draft() };
    let tree = pruned_tree_of(&marginals, &config, &pruner);
    assert!(!tree.is_empty(), "tree should have nodes");
    let invalid = count_invalid_accumulated(&pruner, &tree);
    assert_eq!(
        invalid, 0,
        "path-aware tree should have 0 invalid accumulated nodes, found {invalid}"
    );
}

#[test]
fn test_ddtree_path_aware_catches_cross_depth_conflicts() {
    let pruner = SudokuPruner::new(Sudoku9x9::arto_inkala());
    let marginals = uniform_digits(8);
    let config = Config { tree_budget: 100, ..Config::draft() };
    let tree_static = pruned_tree_of(&marginals, &config, &StaticOnlyPruner(&pruner));
    let tree_aware = pruned_tree_of(&marginals, &config, &pruner);
    let static_invalid = count_invalid_accumulated(&pruner, &tree_static);
    assert!(
        static_invalid > 0,
        "static tree should have cross-depth conflicts (found {static_invalid})"
    );
    let aware_invalid = count_invalid_accumulated(&pruner, &tree_aware);
    assert_eq!(aware_invalid, 0, "path-aware tree should have zero cross-depth conflicts");
}

#[test]
fn no_path_left_out_beats_one_in_the_tree() {
    let unit = 1i64 << 40;
    let rows: Vec<Vec<Option<i64>>> = vec![
        vec![Some(-unit), Some(-5 * unit), Some(-9 * unit)],
        vec![Some(-7 * unit), None, Some(-2 * unit)],
        vec![Some(-3 * unit), Some(-4 * unit), Some(-6 * unit)],
    ];
    let mut paths: Vec<(Vec<usize>, i64)> = Vec::new();
    let mut level: Vec<(Vec<usize>, i64)> = vec![(vec![], 0)];
    for row in &rows {
        let mut next = Vec::new();
        for (path, score) in &level {
            for (token, log) in row.iter().enumerate() {
                if let Some(l) = log {
                    let mut longer = path.clone();
                    longer.push(token);
                    next.push((longer, score + l));
                }
            }
        }
        paths.extend(next.iter().cloned());
        level = next;
    }
    assert_eq!(paths.len(), 3 + 6 + 18);
    for budget in 0..30 {
        let tree = build_dd_tree(&rows, budget);
        assert_eq!(tree.len(), budget.min(paths.len()));
        let held: Vec<Vec<usize>> =
            tree.iter().map(|n| extract_parent_tokens(n.parent_path, n.depth + 1)).collect();
        for (node, path) in tree.iter().zip(&held) {
            assert_eq!(held.iter().filter(|&p| p == path).count(), 1);
            assert!(paths.contains(&(path.clone(), node.score)));
        }
        for (path, score) in &paths {
            if !held.contains(path) {
                assert!(tree.iter().all(|n| n.score >= *score), "{path:?} was left out");
            }
        }
    }
}

#[test]
fn a_larger_budget_extends_the_tree() {
    let (weights, config) = make_micro();
    let l = logs(&dflash_predict(&weights, &config, 0, 0));
    let small = build_dd_tree(&l, 5);
    let large = build_dd_tree(&l, 16);
    assert_eq!(small.len(), 5);
    assert_eq!(&large[..5], &small[..]);
}

// Verification.

#[test]
fn test_extract_best_path() {
    let (weights, config) = make_draft();
    let tree = tree_of(&dflash_predict(&weights, &config, 0, 0), &config);
    let path = extract_best_path(&tree);
    assert!(!tree.is_empty());
    assert!(!path.is_empty(), "non-empty tree should produce a path");
    for &t in &path {
        assert!(t < config.vocab_size, "token {t} out of range");
    }
}

fn check_at_least_one(weights: &Weights, config: &Config) {
    for seed in [0, 42, 100, 999] {
        let mut rng = Rng::new(seed);
        let (accepted, accept_len) = speculative_step(weights, config, &mut rng);
        assert!(!accepted.is_empty(), "seed {seed}: should accept at least 1 token");
        assert!(accept_len >= 1, "seed {seed}: accept_len should be >= 1");
        for &t in &accepted {
            assert!(t < config.vocab_size, "seed {seed}: token {t} out of range");
        }
    }
}

#[test]
fn speculative_test_speculative_step_accepts_at_least_one() {
    let (weights, config) = make_draft();
    check_at_least_one(&weights, &config);
}

#[test]
fn step_test_speculative_step_accepts_at_least_one() {
    let (weights, config) = make_draft();
    check_at_least_one(&weights, &config);
}

#[test]
fn integration_test_speculative_step_accepts_at_least_one() {
    let (weights, config) = make_micro();
    check_at_least_one(&weights, &config);
}

fn check_consistent(weights: &Weights, config: &Config) {
    let (a1, l1) = speculative_step(weights, config, &mut Rng::new(77));
    let (a2, l2) = speculative_step(weights, config, &mut Rng::new(77));
    assert_eq!(a1, a2, "same seed should produce same accepted tokens");
    assert_eq!(l1, l2, "same seed should produce same acceptance length");
}

#[test]
fn speculative_test_speculative_step_consistent_for_same_seed() {
    let (weights, config) = make_draft();
    check_consistent(&weights, &config);
}

#[test]
fn step_test_speculative_step_consistent_for_same_seed() {
    let (weights, config) = make_draft();
    check_consistent(&weights, &config);
}

#[test]
fn integration_test_speculative_step_consistent_for_same_seed() {
    let (weights, config) = make_micro();
    check_consistent(&weights, &config);
}

fn check_simulated_returns() {
    let (weights, config) = make_draft();
    let verifier = SimulatedVerifier::new(0.75f32.to_bits());
    let (accepted, len) = speculate(&verifier, &weights, &config, 0, 0, &mut Rng::new(42));
    assert!(!accepted.is_empty(), "should return at least 1 token");
    assert!(len >= 1);
    for &t in &accepted {
        assert!(t < config.vocab_size, "token {t} out of range");
    }
}

#[test]
fn speculative_test_simulated_verifier_returns_at_least_one() {
    check_simulated_returns();
}

#[test]
fn step_test_simulated_verifier_returns_at_least_one() {
    check_simulated_returns();
}

fn check_simulated_deterministic() {
    let (weights, config) = make_draft();
    let verifier = SimulatedVerifier::new(0.75f32.to_bits());
    let (a1, l1) = speculate(&verifier, &weights, &config, 0, 0, &mut Rng::new(77));
    let (a2, l2) = speculate(&verifier, &weights, &config, 0, 0, &mut Rng::new(77));
    assert_eq!(a1, a2, "same seed should produce same accepted tokens");
    assert_eq!(l1, l2, "same seed should produce same acceptance length");
}

#[test]
fn speculative_test_simulated_verifier_deterministic() {
    check_simulated_deterministic();
}

#[test]
fn step_test_simulated_verifier_deterministic() {
    check_simulated_deterministic();
}

fn check_bonus() {
    let (weights, config) = make_draft();
    let verifier = SimulatedVerifier::new(0.95f32.to_bits());
    let saw_bonus = (0..200u64).any(|seed| {
        let (accepted, _) = speculate(&verifier, &weights, &config, 0, 0, &mut Rng::new(seed));
        accepted.len() > 1
    });
    assert!(saw_bonus, "should see bonus token at least once with high acceptance rate");
}

#[test]
fn speculative_test_simulated_verifier_bonus_token() {
    check_bonus();
}

#[test]
fn step_test_simulated_verifier_bonus_token() {
    check_bonus();
}

#[test]
fn a_settlement_keeps_a_share_and_may_draw() {
    let full = SimulatedVerifier::new(1.0f32.to_bits());
    let half = SimulatedVerifier::new(0.5f32.to_bits());
    let none = SimulatedVerifier::new(0.0f32.to_bits());
    let path = vec![7, 8, 9, 10];
    let s = full.settle(&path, 5);
    assert_eq!((s.kept, s.draw), (path.clone(), Draw::Marginal { at: 4 }));
    let s = half.settle(&path, 4);
    assert_eq!((s.kept, s.draw), (vec![7, 8], Draw::Marginal { at: 3 }));
    let s = half.settle(&path, 0);
    assert_eq!((s.kept, s.draw), (vec![7, 8], Draw::Nothing));
    let s = none.settle(&path, 4);
    assert_eq!((s.kept, s.draw), (vec![7], Draw::Nothing));
    let s = full.settle(&vec![], 4);
    assert_eq!((s.kept, s.draw), (vec![], Draw::Marginal { at: 0 }));
    let s = full.settle(&vec![], 0);
    assert_eq!((s.kept, s.draw), (vec![], Draw::Sole));
}

#[test]
fn acceptance_of_lengths_beyond_single_precision() {
    for rate in [1e-12f32, 0.1, 0.75, 1.0] {
        let verifier = SimulatedVerifier::new(rate.to_bits());
        for len in [0usize, 1, 0x100_0000, 0x100_0001, 0x100_0003, 1 << 40, usize::MAX] {
            let cap = ((len as f32) * rate).ceil() as usize;
            assert_eq!(verifier.max_accept(len), cap, "rate {rate}, length {len}");
        }
    }
}

#[test]
fn drafts_end_with_their_block() {
    assert_eq!(draft_steps(4, 16, 0), 4);
    assert_eq!(draft_steps(4, 16, 13), 3);
    assert_eq!(draft_steps(4, 16, 16), 0);
}

#[test]
fn acceptance_cap_is_the_rounded_up_product() {
    for rate in [0.0f32, 0.1, 0.25, 1.0 / 3.0, 0.5, 0.75, 0.95, 1.0, 2.0, -1.0] {
        let verifier = SimulatedVerifier::new(rate.to_bits());
        let clamped = rate.clamp(0.0, 1.0);
        for len in 1..40usize {
            let cap = ((len as f32) * clamped).ceil() as usize;
            assert_eq!(verifier.max_accept(len), cap, "rate {rate}, length {len}");
            let path: Vec<usize> = (0..len).collect();
            let r = verifier.accept(&path);
            assert_eq!(r.accepted, path[..cap.max(1).min(len)].to_vec());
            assert_eq!(r.bonus, r.accepted.len() == cap);
        }
    }
}

#[test]
fn rejection_replaces_and_stops() {
    let mut l = RejectionLoop::new(vec![4, 5, 6]);
    l.judge(0.5f32.to_bits(), 0.75f32.to_bits(), 0.75f32.to_bits());
    assert_eq!(l.step, RejectionStep::Judge { at: 1, token: 5 });
    l.judge(0.5f32.to_bits(), 0.75f32.to_bits(), 0.76f32.to_bits());
    assert_eq!(l.step, RejectionStep::Replace { at: 1 });
    l.finish(9);
    assert_eq!(l.step, RejectionStep::Done);
    assert_eq!(l.accepted, vec![4, 9]);
    let mut none = RejectionLoop::new(vec![]);
    assert_eq!(none.step, RejectionStep::Bonus { at: 0 });
    none.finish(3);
    assert_eq!(none.accepted, vec![3]);
}

fn leviathan_models() -> (Weights, Config, Weights, Config) {
    let config = Config::micro();
    let draft_config = Config::draft();
    let target = Weights::new(&config, &mut Rng::new(42));
    let draft = Weights::new(&draft_config, &mut Rng::new(99));
    (target, config, draft, draft_config)
}

#[test]
fn test_leviathan_verifier_returns_at_least_one() {
    let (target, tc, draft, dc) = leviathan_models();
    let accepted = leviathan(&target, &tc, &draft, &dc, tc.bos_token, 0, &mut Rng::new(100));
    assert!(!accepted.is_empty(), "should return at least 1 token");
    assert!(accepted.len() <= dc.draft_lookahead + 1, "should return at most gamma+1");
    for &t in &accepted {
        assert!(t < tc.vocab_size, "token {t} out of range");
    }
}

#[test]
fn test_leviathan_verifier_deterministic() {
    let (target, tc, draft, dc) = leviathan_models();
    let r1 = leviathan(&target, &tc, &draft, &dc, tc.bos_token, 0, &mut Rng::new(100));
    let r2 = leviathan(&target, &tc, &draft, &dc, tc.bos_token, 0, &mut Rng::new(100));
    assert_eq!(r1, r2, "same seed should produce same results");
}

#[test]
fn test_leviathan_verifier_bonus_token() {
    let (target, tc, draft, dc) = leviathan_models();
    let saw_bonus = (0..200u64).any(|seed| {
        leviathan(&target, &tc, &draft, &dc, tc.bos_token, 0, &mut Rng::new(seed)).len() >= 2
    });
    assert!(saw_bonus, "should see bonus token (gamma+1) at least once in 200 tries");
}

#[test]
fn test_leviathan_verifier_acceptance_decreases_with_gamma() {
    let (target, tc, draft, _) = leviathan_models();
    let avg_for_gamma = |gamma: usize| -> f64 {
        let mut total = 0usize;
        let iters = 100;
        let mut gc = Config::draft();
        gc.draft_lookahead = gamma;
        for seed in 0..iters as u64 {
            total +=
                leviathan(&target, &tc, &draft, &gc, tc.bos_token, 0, &mut Rng::new(seed)).len();
        }
        total as f64 / iters as f64
    };
    let avg_1 = avg_for_gamma(1);
    let avg_4 = avg_for_gamma(4);
    let avg_8 = avg_for_gamma(8);
    assert!(avg_1 >= 1.0, "gamma=1 should give >=1 token, got {avg_1}");
    assert!(avg_4 >= 1.0, "gamma=4 should give >=1 token, got {avg_4}");
    assert!(avg_8 >= 1.0, "gamma=8 should give >=1 token, got {avg_8}");
}

// Generation.

#[test]
fn transformer_test_generate_deterministic() {
    let (weights, config) = make_micro();
    let t1 = generate(&weights, &config, &mut Rng::new(100), 16);
    let t2 = generate(&weights, &config, &mut Rng::new(100), 16);
    assert_eq!(t1, t2, "Same seed must produce same tokens");
}

#[test]
fn integration_test_generate_deterministic() {
    let (weights, config) = make_micro();
    let t1 = generate(&weights, &config, &mut Rng::new(100), 16);
    let t2 = generate(&weights, &config, &mut Rng::new(100), 16);
    assert_eq!(t1, t2, "same seed must produce identical tokens");
}

fn check_generated(n: usize) {
    let config = Config::micro();
    let mut rng = Rng::new(42);
    let weights = Weights::new(&config, &mut rng);
    let tokens = generate(&weights, &config, &mut rng, n);
    assert_eq!(tokens.len(), n);
    for &t in &tokens {
        assert!(t < config.vocab_size, "Token {t} out of range");
    }
}

#[test]
fn transformer_test_generate_valid_tokens() {
    check_generated(32);
}

#[test]
fn integration_test_generate_valid_tokens() {
    check_generated(64);
}

#[test]
fn test_generate_different_seeds_diverge() {
    let (weights, config) = make_micro();
    let t1 = generate(&weights, &config, &mut Rng::new(1), 16);
    let t2 = generate(&weights, &config, &mut Rng::new(999), 16);
    assert_ne!(t1, t2, "different seeds should produce different output");
}

#[test]
fn test_generate_exact_length() {
    let config = Config::micro();
    let mut rng = Rng::new(42);
    let weights = Weights::new(&config, &mut rng);
    for len in [1, 8, 16, 32, 50] {
        let tokens = generate(&weights, &config, &mut rng, len);
        assert_eq!(tokens.len(), len, "generate should return exactly {len} tokens");
    }
}

#[test]
fn generation_starts_over_at_block_end_and_start_token() {
    let config = Config { block_size: 2, ..Config::micro() };
    let mut g = Generation::begin(&config, 4);
    let first = g.next_feed(&config).unwrap();
    assert_eq!((first.token, first.pos, first.reset), (26, 0, false));
    assert!(!g.take_token(&config, 3));
    let second = g.next_feed(&config).unwrap();
    assert_eq!((second.token, second.pos, second.reset), (3, 1, false));
    assert!(!g.take_token(&config, 4));
    let third = g.next_feed(&config).unwrap();
    assert_eq!((third.token, third.pos, third.reset), (26, 0, true));
    assert!(g.take_token(&config, 26));
    let fourth = g.next_feed(&config).unwrap();
    assert_eq!((fourth.token, fourth.pos, fourth.reset), (26, 0, false));
    assert!(!g.take_token(&config, 7));
    assert!(g.next_feed(&config).is_none());
    assert_eq!(g.tokens, vec![3, 4, 26, 7]);
}

#[test]
fn test_tokens_to_string() {
    let tokens = vec![0, 1, 2, 25, 26];
    let s = tokens_to_string(&tokens);
    assert_eq!(s, "abcz_");
}

#[test]
fn test_tokens_to_string_roundtrip() {
    let tokens = vec![0, 1, 2, 25, 26];
    let s = tokens_to_string(&tokens);
    assert_eq!(s, "abcz_");
}

#[test]
fn test_tokens_to_string_empty() {
    let tokens: Vec<usize> = vec![];
    let s = tokens_to_string(&tokens);
    assert_eq!(s, "");
}

#[test]
fn tokens_that_the_target_prefers_are_accepted() {
    let almost_one = 0.999f32.to_bits();
    let judged = |q: f32, ratio: f32, roll: u32| {
        let mut l = RejectionLoop::new(vec![4]);
        l.judge(q.to_bits(), ratio.to_bits(), roll);
        l.step == RejectionStep::Bonus { at: 1 }
    };
    assert!(judged(0.1, 2.5, almost_one));
    assert!(judged(0.1, 1.0, almost_one));
    assert!(judged(0.0, f32::INFINITY, almost_one));
    assert!(judged(0.0, 0.0, almost_one));
    assert!(!judged(0.1, 0.5, almost_one));
    assert!(!judged(0.1, 0.0, almost_one));
    assert!(judged(0.1, 0.0, 0));
}
