//! Shared configuration and the sampling generator.

use vstd::prelude::*;

use crate::float_bits;
use crate::random;

verus! {

/// Model configuration.
#[derive(Clone, Copy, Debug, PartialEq, Eq, Structural)]
pub struct Config {
    pub vocab_size: usize,
    pub block_size: usize,
    pub n_layer: usize,
    pub n_embd: usize,
    pub n_head: usize,
    pub n_kv_head: usize,
    pub head_dim: usize,
    pub mlp_hidden: usize,
    pub bos_token: usize,
    /// Bit pattern of the sampling temperature.
    pub temperature: u32,
    pub draft_lookahead: usize,
    pub tree_budget: usize,
}

impl Config {
    /// The values of the micro configuration.
    pub open spec fn is_micro(self) -> bool {
        &&& self.vocab_size == 27
        &&& self.block_size == 16
        &&& self.n_layer == 1
        &&& self.n_embd == 16
        &&& self.n_head == 4
        &&& self.n_kv_head == 4
        &&& self.head_dim == 4
        &&& self.mlp_hidden == 64
        &&& self.bos_token == 26
        &&& self.temperature == 0x3F00_0000
        &&& self.draft_lookahead == 8
        &&& self.tree_budget == 16
    }

    /// Micro GPT config:
    /// vocab=27, block=16, n_layer=1, n_head=4, n_embd=16, head_dim=4,
    /// RMSNorm (no learnable gain), ReLU MLP (4x), no biases, untied lm_head.
    pub fn micro() -> (c: Config)
        ensures
            c.is_micro(),
    {
        Config {
            vocab_size: 27,
            block_size: 16,
            n_layer: 1,
            n_embd: 16,
            n_head: 4,
            n_kv_head: 4,
            head_dim: 4,
            mlp_hidden: 64,
            bos_token: 26,
            temperature: 0x3F00_0000,
            draft_lookahead: 8,
            tree_budget: 16,
        }
    }

    /// The micro config with a narrow model for drafting: n_embd=4, 2 heads, mlp=16.
    pub fn draft() -> (c: Config)
        ensures
            c.n_embd == 4,
            c.n_head == 2,
            c.n_kv_head == 2,
            c.head_dim == 2,
            c.mlp_hidden == 16,
            (Config {
                n_embd: 16,
                n_head: 4,
                n_kv_head: 4,
                head_dim: 4,
                mlp_hidden: 64,
                ..c
            }).is_micro(),
    {
        let base = Config::micro();
        Config {
            vocab_size: base.vocab_size,
            block_size: base.block_size,
            n_layer: base.n_layer,
            n_embd: 4,
            n_head: 2,
            n_kv_head: 2,
            head_dim: 2,
            mlp_hidden: 16,
            bos_token: base.bos_token,
            temperature: base.temperature,
            draft_lookahead: base.draft_lookahead,
            tree_budget: base.tree_budget,
        }
    }
}

impl Default for Config {
    fn default() -> (c: Config)
        ensures
            c.is_micro(),
    {
        Config::micro()
    }
}

/// XorShift64 PRNG — deterministic per seed.
#[derive(Clone, Copy, Debug, PartialEq, Eq, Structural)]
pub struct Rng {
    pub state: u64,
}

/// One step of the generator.
pub open spec fn xorshift(s: u64) -> u64 {
    let a = s ^ (s << 13);
    let b = a ^ (a >> 7);
    b ^ (b << 17)
}

/// The state after `n` steps.
pub open spec fn xorshift_n(s: u64, n: nat) -> u64
    decreases n,
{
    if n == 0 {
        s
    } else {
        xorshift(xorshift_n(s, (n - 1) as nat))
    }
}

/// The bit pattern of a number between zero and one, where one gives the number before it.
pub open spec fn below_one(bits: int) -> int {
    if bits < random::ONE_BITS {
        bits
    } else {
        random::ONE_BITS - 1
    }
}

/// The bit pattern of the uniform number that a generator's number stands for: the upper 53 bits
/// over `2^53`, as the nearest single-precision number below one.
pub open spec fn uniform_bits(x: u64) -> int {
    below_one(random::unit_bits_spec((x / 2048 * 1024) as nat))
}

impl Rng {
    /// A generator for a seed; zero, which would be stuck, counts as one.
    pub fn new(seed: u64) -> (r: Rng)
        ensures
            r.state == (if seed == 0 {
                1
            } else {
                seed
            }),
            r.state != 0,
    {
        Rng {
            state: if seed == 0 {
                1
            } else {
                seed
            },
        }
    }

    /// The next number, which is also the new state.
    pub fn next(&mut self) -> (x: u64)
        ensures
            final(self).state == xorshift(old(self).state),
            x == final(self).state,
    {
        self.state ^= self.state << 13;
        self.state ^= self.state >> 7;
        self.state ^= self.state << 17;
        self.state
    }

    /// Uniform in [0, 1): the upper 53 bits of the next number over `2^53`, as the bit pattern
    /// of the nearest single-precision number below one.
    pub fn uniform(&mut self) -> (bits: u32)
        ensures
            final(self).state == xorshift(old(self).state),
            bits == uniform_bits(xorshift(old(self).state)),
            bits < random::ONE_BITS,
    {
        let x: u64 = self.next();
        assert(x >> 11 == x / 2048) by (bit_vector);
        let bits: u32 = random::unit_bits((x >> 11) * 1024);
        if bits < random::ONE_BITS {
            bits
        } else {
            random::ONE_BITS - 1
        }
    }
}

/// The generator never gets stuck at zero.
pub proof fn law_state_stays_nonzero(s: u64)
    by (bit_vector)
    requires
        s != 0,
    ensures
        xorshift(s) != 0,
{
}

/// Two different states never lead to the same state.
pub proof fn law_step_is_injective(s: u64, t: u64)
    requires
        xorshift(s) == xorshift(t),
    ensures
        s == t,
{
    let d = s ^ t;
    assert(xorshift(s) ^ xorshift(t) == xorshift(s ^ t)) by (bit_vector);
    let x = xorshift(s);
    assert(x ^ x == 0) by (bit_vector);
    if d != 0 {
        law_state_stays_nonzero(d);
    }
    assert(s ^ t == 0 ==> s == t) by (bit_vector);
}

/// Every number drawn from a seed is nonzero.
pub proof fn law_every_draw_is_nonzero(s: u64, n: nat)
    requires
        s != 0,
    ensures
        xorshift_n(s, n) != 0,
    decreases n,
{
    if n > 0 {
        law_every_draw_is_nonzero(s, (n - 1) as nat);
        law_state_stays_nonzero(xorshift_n(s, (n - 1) as nat));
    }
}

/// Steps add up bit by bit: the step of a sum without carry is the sum of the steps. A state of up
/// to seven bits is spread over the places 6, 13, 17, 23 and 30 above it.
pub proof fn law_step_spreads_bits(s: u64, t: u64)
    ensures
        xorshift(s ^ t) == xorshift(s) ^ xorshift(t),
        s < 128 ==> xorshift(s) == s ^ (s * 64) as u64 ^ (s * 8192) as u64 ^ (s * 131072) as u64 ^ (s
            * 8388608) as u64 ^ (s * 1073741824) as u64,
{
    assert(xorshift(s ^ t) == xorshift(s) ^ xorshift(t)) by (bit_vector);
    assert(s < 128 ==> xorshift(s) == s ^ (s * 64) as u64 ^ (s * 8192) as u64 ^ (s
        * 131072) as u64 ^ (s * 8388608) as u64 ^ (s * 1073741824) as u64) by (bit_vector);
}

/// Numbers are drawn one after another: drawing on from where a number of draws ended is drawing
/// more.
pub proof fn law_draws_follow_each_other(s: u64, n: nat, m: nat)
    ensures
        xorshift_n(xorshift_n(s, n), m) == xorshift_n(s, n + m),
        xorshift_n(s, 1) == xorshift(s),
    decreases m,
{
    reveal_with_fuel(xorshift_n, 2);
    if m > 0 {
        law_draws_follow_each_other(s, n, (m - 1) as nat);
    }
}

/// A uniform number is the upper 53 bits of the generator's number over `2^53`, rounded to 24
/// bits, and lies below one.
pub proof fn law_uniform_is_a_fraction(x: u64)
    ensures
        0 <= uniform_bits(x) < random::ONE_BITS,
        float_bits::round24((x / 2048) as nat) < 0x20_0000_0000_0000
            ==> float_bits::magnitude_units(uniform_bits(x) as u32) == float_bits::round24(
            (x / 2048) as nat,
        ) * vstd::arithmetic::power2::pow2(96),
{
    let u = (x / 2048 * 1024) as nat;
    let v = (x / 2048) as nat;
    random::law_unit_bits_are_a_fraction(u);
    vstd::arithmetic::power2::lemma2_to64();
    lemma_round_scaled(v, 10);
    float_bits::lemma_round24_bound(v);
    assert(float_bits::round24(u) == float_bits::round24(v) * 1024);
    vstd::arithmetic::power2::lemma_pow2_adds(10, 86);
    let p = vstd::arithmetic::power2::pow2(86);
    let r = float_bits::round24(v);
    assert((r * 1024) * p == r * (1024 * p)) by (nonlinear_arith);
    reveal(float_bits::magnitude_units);
    vstd::arithmetic::power2::lemma2_to64_rest();
    vstd::arithmetic::power2::lemma_pow2_adds(63, 86);
    vstd::arithmetic::power2::lemma_pow2_adds(23, 126);
    vstd::arithmetic::power2::lemma_pow2_pos(86);
    let bits = random::unit_bits_spec(u) as u32;
    float_bits::law_order_is_that_of_the_values(bits, random::ONE_BITS);
    assert(float_bits::magnitude_units(random::ONE_BITS) == 0x8000_0000_0000_0000 * p);
    assert(r < 0x20_0000_0000_0000 ==> (r * 1024) * p < 0x8000_0000_0000_0000 * p)
        by (nonlinear_arith)
        requires
            p > 0,
    ;
}

/// Rounding to 24 bits does not depend on the unit, as long as units are powers of two.
proof fn lemma_round_scaled(v: nat, k: nat)
    ensures
        float_bits::round24(v * vstd::arithmetic::power2::pow2(k)) == float_bits::round24(v)
            * vstd::arithmetic::power2::pow2(k) || v < 0x100_0000,
        v < 0x100_0000 ==> float_bits::round24(v * vstd::arithmetic::power2::pow2(k)) == v
            * vstd::arithmetic::power2::pow2(k),
    decreases k,
{
    if k == 0 {
        vstd::arithmetic::power2::lemma2_to64();
        float_bits::lemma_round24_bound(v);
        assert(v * 1 == v);
        assert(float_bits::round24(v) * 1 == float_bits::round24(v));
    } else {
        let p = vstd::arithmetic::power2::pow2((k - 1) as nat);
        lemma_round_scaled(v, (k - 1) as nat);
        vstd::arithmetic::power2::lemma_pow2_unfold(k);
        let a = v * p;
        assert(v * (2 * p) == 2 * a) by (nonlinear_arith)
            requires
                a == v * p,
        ;
        assert(float_bits::round24(v) * (2 * p) == 2 * (float_bits::round24(v) * p))
            by (nonlinear_arith);
        float_bits::lemma_round24_bound(v);
        if v < 0x100_0000 {
            float_bits::lemma_round24_of_double(a);
        } else {
            vstd::arithmetic::power2::lemma_pow2_pos((k - 1) as nat);
            assert(a >= v) by (nonlinear_arith)
                requires
                    a == v * p,
                    p >= 1,
            ;
            float_bits::lemma_round24_doubles(a);
        }
    }
}

/// A number below one is kept, and in the place of any other stands the largest below one.
pub proof fn law_below_one_is_the_nearest(bits: int, other: int)
    ensures
        below_one(bits) < 0x3F80_0000,
        bits < 0x3F80_0000 ==> below_one(bits) == bits,
        bits >= 0x3F80_0000 && other < 0x3F80_0000 ==> other <= below_one(bits),
{
}

/// The micro model reads the 26 letters and a token before them, its heads divide the embedding and
/// have their own keys and values, and its MLP is four times as wide.
pub proof fn law_micro_dimensions(c: Config)
    requires
        c.is_micro(),
    ensures
        c.vocab_size == 26 + 1,
        c.bos_token == c.vocab_size - 1,
        c.n_head * c.head_dim == c.n_embd,
        c.n_kv_head == c.n_head,
        c.mlp_hidden == 4 * c.n_embd,
        c.n_embd == 16 && c.head_dim == 4 && c.block_size == 16 && c.n_layer == 1,
        c.tree_budget == 2 * c.draft_lookahead && c.draft_lookahead == 8,
        float_bits::is_nearest_to(c.temperature, 1, 2),
{
    vstd::arithmetic::power2::lemma2_to64();
}

} // verus!
