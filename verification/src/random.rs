//! Seeded random draws for the game players and the arena generator.
//!
//! The draws come from `fastrand`. A generator is carried as the seed it currently holds, so a
//! draw is a function from a seed to a value and the next seed, and everything built on it can
//! be stated exactly.

use vstd::prelude::*;

use crate::float_bits;
use crate::float_bits::{coarse_of, divide_half_even};

verus! {

/// Bit pattern of the single-precision number one.
pub const ONE_BITS: u32 = 0x3F80_0000;

/// How often a unit roll is repeated when it rounds up to one.
pub const REDRAWS: u32 = 64;

/// What `fastrand::Rng::u64` draws from `0..=last` when the generator holds `seed`, and the
/// seed that the generator holds afterwards.
pub uninterp spec fn fastrand_u64(seed: u64, last: u64) -> (u64, u64);

/// What `fastrand::Rng::u8` draws from `0..=last` when the generator holds `seed`, and the
/// seed that the generator holds afterwards.
pub uninterp spec fn fastrand_u8(seed: u64, last: u8) -> (u8, u64);

/// Calls `fastrand::Rng::u64` on the range `0..=last`.
///
/// The generator's whole state is its seed, and the draw computes on that state alone, so the
/// drawn value and the seed left behind are a function of the arguments. The draw lies in the
/// range. Nothing is claimed about its distribution.
#[verifier::external_body]
fn draw_u64(seed: u64, last: u64) -> (r: (u64, u64))
    ensures
        r == fastrand_u64(seed, last),
        r.0 <= last,
{
    let mut rng = fastrand::Rng::with_seed(seed);
    let value = rng.u64(0..=last);
    (value, rng.get_seed())
}

/// Calls `fastrand::Rng::u8` on the range `0..=last`.
///
/// As with the wider draw, the value and the seed left behind are a function of the
/// arguments, and the value lies in the range.
#[verifier::external_body]
fn draw_u8(seed: u64, last: u8) -> (r: (u8, u64))
    ensures
        r == fastrand_u8(seed, last),
        r.0 <= last,
{
    let mut rng = fastrand::Rng::with_seed(seed);
    let value = rng.u8(0..=last);
    (value, rng.get_seed())
}

/// The largest power of two that is at most `u` (one for zero).
pub open spec fn top_power(u: nat) -> nat
    decreases u,
{
    if u < 2 {
        1
    } else {
        2 * top_power(u / 2)
    }
}

/// The exponent of the largest power of two that is at most `u` (zero for zero).
pub open spec fn top_bit(u: nat) -> nat
    decreases u,
{
    if u < 2 {
        0
    } else {
        1 + top_bit(u / 2)
    }
}

/// The bit pattern of the single-precision number nearest to `u / 2^63`, for `u < 2^63`.
///
/// The significand is `u` scaled to 24 bits, the exponent is that of the leading bit of `u`.
pub open spec fn unit_bits_spec(u: nat) -> int {
    if u == 0 {
        0
    } else {
        let significand = if u < 0x100_0000 {
            u * (0x80_0000nat / top_power(u))
        } else {
            float_bits::round_half_even(u, float_bits::coarse(u))
        };
        (top_bit(u) + 64) * 0x80_0000 + significand - 0x80_0000
    }
}

/// The unit roll made from `seed` with `tries` repetitions left, and the seed after it.
///
/// A draw that rounds up to one is thrown away and repeated.
pub open spec fn unit_roll_spec(seed: u64, tries: nat) -> (int, u64)
    decreases tries,
{
    let (x, next) = fastrand_u64(seed, u64::MAX);
    let bits = unit_bits_spec((x / 2) as nat);
    if bits < ONE_BITS {
        (bits, next)
    } else if tries == 0 {
        (ONE_BITS - 1, next)
    } else {
        unit_roll_spec(next, (tries - 1) as nat)
    }
}

proof fn lemma_top_power(u: nat)
    ensures
        1 <= top_power(u),
        0 < u ==> top_power(u) <= u < 2 * top_power(u),
    decreases u,
{
    if u >= 2 {
        lemma_top_power(u / 2);
    }
}

proof fn lemma_top_bit(u: nat, k: nat)
    requires
        u < vstd::arithmetic::power2::pow2(k),
        1 <= k,
    ensures
        top_bit(u) < k,
    decreases u,
{
    if u >= 2 {
        assert(k != 1) by {
            vstd::arithmetic::power2::lemma2_to64();
        }
        vstd::arithmetic::power2::lemma_pow2_unfold(k);
        lemma_top_bit(u / 2, (k - 1) as nat);
    }
}

/// A unit roll is at most one.
proof fn lemma_unit_bits_range(u: nat)
    requires
        u < 0x8000_0000_0000_0000,
    ensures
        0 <= unit_bits_spec(u) <= ONE_BITS,
        u < 0x100_0000 ==> u * (0x80_0000nat / top_power(u)) <= 0x100_0000,
        u >= 0x100_0000 ==> float_bits::round_half_even(u, float_bits::coarse(u)) <= 0x100_0000,
{
    vstd::arithmetic::power2::lemma2_to64();
    vstd::arithmetic::power2::lemma2_to64_rest();
    lemma_top_bit(u, 63);
    if 0 < u < 0x100_0000 {
        lemma_top_power(u);
        let p = top_power(u);
        let m = 0x80_0000nat / p;
        assert(m * p <= 0x80_0000) by (nonlinear_arith)
            requires
                m == 0x80_0000nat / p,
                p >= 1,
        ;
        assert(u * m <= 0x100_0000) by (nonlinear_arith)
            requires
                m * p <= 0x80_0000,
                u < 2 * p,
                m >= 0,
        ;
    } else if u > 0 {
        float_bits::lemma_coarse(u);
        let d = float_bits::coarse(u);
        assert(u / d < 0x100_0000) by (nonlinear_arith)
            requires
                u < 0x100_0000 * d,
                d >= 1,
        ;
    }
}

/// The bit pattern of the single-precision number nearest to `u / 2^63`.
pub fn unit_bits(u: u64) -> (bits: u32)
    requires
        u < 0x8000_0000_0000_0000,
    ensures
        bits == unit_bits_spec(u as nat),
        bits <= ONE_BITS,
{
    proof {
        lemma_unit_bits_range(u as nat);
    }
    if u == 0 {
        return 0;
    }
    let mut v: u64 = u;
    let mut power: u64 = 1;
    let mut bit: u64 = 0;
    while v >= 2
        invariant
            u < 0x8000_0000_0000_0000,
            1 <= v,
            1 <= power,
            power * v <= u,
            bit + v <= u,
            top_power(u as nat) == power * top_power(v as nat),
            top_bit(u as nat) == bit + top_bit(v as nat),
        decreases v,
    {
        let half: u64 = v / 2;
        proof {
            assert(power * 2 * half <= power * v) by (nonlinear_arith)
                requires
                    half == v / 2,
                    power >= 1,
            ;
            assert(power * 2 <= power * 2 * half) by (nonlinear_arith)
                requires
                    half >= 1,
                    power >= 1,
            ;
            let t = top_power(half as nat);
            assert(top_power(v as nat) == 2 * t);
            assert(power * (2 * t) == (power * 2) * t) by (nonlinear_arith);
        }
        v = half;
        power = power * 2;
        bit = bit + 1;
    }
    assert(power * 1 == power);
    let significand: u64 = if u < 0x100_0000 {
        let scale: u64 = 0x80_0000 / power;
        proof {
            assert(u * scale <= 0x100_0000);
        }
        u * scale
    } else {
        let d: u128 = coarse_of(u as u128);
        divide_half_even(u as u128, d) as u64
    };
    proof {
        vstd::arithmetic::power2::lemma2_to64();
        vstd::arithmetic::power2::lemma2_to64_rest();
        lemma_top_bit(u as nat, 63);
    }
    ((bit + 64) * 0x80_0000 + significand - 0x80_0000) as u32
}

/// A seeded generator, carried as the seed it holds.
#[derive(Clone, Copy, Debug, PartialEq, Eq, Structural)]
pub struct GameRng {
    pub seed: u64,
}

impl GameRng {
    /// A generator that starts from `seed`.
    pub fn with_seed(seed: u64) -> (r: GameRng)
        ensures
            r.seed == seed,
    {
        GameRng { seed }
    }

    /// Draws an index below `n`.
    pub fn below(&mut self, n: usize) -> (r: usize)
        requires
            0 < n,
        ensures
            (r as u64, final(self).seed) == fastrand_u64(old(self).seed, (n - 1) as u64),
            r < n,
    {
        let (value, next) = draw_u64(self.seed, (n - 1) as u64);
        self.seed = next;
        value as usize
    }

    /// Draws a byte below `n`.
    pub fn byte_below(&mut self, n: u8) -> (r: u8)
        requires
            0 < n,
        ensures
            (r, final(self).seed) == fastrand_u8(old(self).seed, (n - 1) as u8),
            r < n,
    {
        let (value, next) = draw_u8(self.seed, n - 1);
        self.seed = next;
        value
    }

    /// Draws the bit pattern of a single-precision number in `[0, 1)`.
    pub fn unit_roll(&mut self) -> (bits: u32)
        ensures
            (bits as int, final(self).seed) == unit_roll_spec(old(self).seed, REDRAWS as nat),
            bits < ONE_BITS,
    {
        let mut tries: u32 = REDRAWS;
        loop
            invariant
                unit_roll_spec(old(self).seed, REDRAWS as nat) == unit_roll_spec(
                    self.seed,
                    tries as nat,
                ),
            decreases tries,
        {
            let (x, next) = draw_u64(self.seed, u64::MAX);
            let bits: u32 = unit_bits(x / 2);
            self.seed = next;
            if bits < ONE_BITS {
                return bits;
            }
            if tries == 0 {
                return ONE_BITS - 1;
            }
            tries = tries - 1;
        }
    }

    /// True when a unit roll falls below the non-negative number whose bit pattern is `p`.
    ///
    /// Bit patterns of non-negative single-precision numbers are ordered as the numbers are.
    pub fn chance(&mut self, p: u32) -> (hit: bool)
        ensures
            ({
                let (bits, next) = unit_roll_spec(old(self).seed, REDRAWS as nat);
                hit == (bits < p) && final(self).seed == next
            }),
    {
        self.unit_roll() < p
    }
}

proof fn lemma_top_is_power(u: nat)
    requires
        0 < u,
    ensures
        top_power(u) == vstd::arithmetic::power2::pow2(top_bit(u)),
        top_power(u) <= u < 2 * top_power(u),
        u >= 0x100_0000 ==> top_power(u) == 0x80_0000 * float_bits::coarse(u),
        u < 0x100_0000 ==> top_power(u) * (0x80_0000nat / top_power(u)) == 0x80_0000,
    decreases u,
{
    vstd::arithmetic::power2::lemma2_to64();
    if u >= 2 {
        lemma_top_is_power(u / 2);
        vstd::arithmetic::power2::lemma_pow2_unfold(top_bit(u));
    }
    if u < 0x100_0000 {
        let t = top_bit(u);
        lemma_top_bit(u, 24);
        vstd::arithmetic::power2::lemma_pow2_adds(t, (23 - t) as nat);
        let p = vstd::arithmetic::power2::pow2(t);
        let m = vstd::arithmetic::power2::pow2((23 - t) as nat);
        vstd::arithmetic::power2::lemma_pow2_pos(t);
        vstd::arithmetic::div_mod::lemma_div_multiples_vanish(m as int, p as int);
        assert(p * m == 0x80_0000);
    } else if u < 0x200_0000 {
        assert(float_bits::coarse(u / 2) == 1);
        assert(top_power(u / 2) * (0x80_0000nat / top_power(u / 2)) == 0x80_0000);
        lemma_top_of_24_bits(u / 2);
    }
}

proof fn lemma_top_of_24_bits(u: nat)
    requires
        0x80_0000 <= u < 0x100_0000,
    ensures
        top_power(u) == 0x80_0000,
{
    reveal_with_fuel(top_power, 25);
}

/// A draw is read as a fraction: the value of the roll made of `u` is `u / 2^63`, rounded to 24
/// bits.
pub proof fn law_unit_bits_are_a_fraction(u: nat)
    requires
        u < 0x8000_0000_0000_0000,
    ensures
        0 <= unit_bits_spec(u) <= ONE_BITS,
        float_bits::magnitude_units(unit_bits_spec(u) as u32) == float_bits::round24(u)
            * vstd::arithmetic::power2::pow2(86),
{
    reveal(float_bits::magnitude_units);
    lemma_unit_bits_range(u);
    float_bits::lemma_round24_bound(u);
    if u > 0 {
        lemma_top_is_power(u);
        let t = top_bit(u);
        let p = top_power(u);
        let sig = if u < 0x100_0000 {
            u * (0x80_0000nat / p)
        } else {
            float_bits::round_half_even(u, float_bits::coarse(u))
        };
        let bits = unit_bits_spec(u);
        vstd::arithmetic::power2::lemma2_to64();
        vstd::arithmetic::power2::lemma2_to64_rest();
        vstd::arithmetic::power2::lemma_pow2_adds(t, 63);
        vstd::arithmetic::power2::lemma_pow2_adds(23, 63);
        let w = vstd::arithmetic::power2::pow2(63);
        let whole = vstd::arithmetic::power2::pow2(t + 63);
        assert(whole == p * w);
        assert(vstd::arithmetic::power2::pow2(86) == 0x80_0000 * w);
        assert(sig * whole == float_bits::round24(u) * (0x80_0000 * w)) by {
            if u < 0x100_0000 {
                let m = 0x80_0000nat / p;
                assert((u * m) * (p * w) == u * ((p * m) * w)) by (nonlinear_arith);
            } else {
                let c = float_bits::coarse(u);
                assert(sig * ((0x80_0000 * c) * w) == (sig * c) * (0x80_0000 * w))
                    by (nonlinear_arith);
            }
        }
        assert(0x80_0000 <= sig <= 0x100_0000) by {
            if u < 0x100_0000 {
                let m = 0x80_0000nat / p;
                assert(u * m >= p * m) by (nonlinear_arith)
                    requires
                        u >= p,
                ;
            } else {
                let c = float_bits::coarse(u);
                assert(0x80_0000 * c <= u * 1);
                assert(c > 0) by {
                    float_bits::lemma_coarse(u);
                }
                float_bits::law_rounding_keeps_order(0x80_0000, 1, u, c);
                assert(float_bits::round_half_even(0x80_0000, 1) == 0x80_0000);
            }
        }
        assert(bits == (t + 63) * 0x80_0000 + sig);
        if sig < 0x100_0000 {
            assert(bits / 0x80_0000 == t + 64);
            assert(bits % 0x80_0000 == sig - 0x80_0000);
            assert(t + 64 < 256) by {
                lemma_top_bit(u, 63);
            }
        } else {
            assert(bits / 0x80_0000 == t + 65);
            assert(bits % 0x80_0000 == 0);
            lemma_top_bit(u, 63);
            vstd::arithmetic::power2::lemma_pow2_unfold(t + 64);
            let more = vstd::arithmetic::power2::pow2(t + 64);
            assert(0x80_0000 * more == sig * whole) by (nonlinear_arith)
                requires
                    sig == 0x100_0000,
                    more == 2 * whole,
            ;
        }
    } else {
        assert(0 * vstd::arithmetic::power2::pow2(86) == 0);
    }
}

/// A roll is a number from zero up to but not including one. The first draw counts, unless it
/// rounds up to one.
pub proof fn law_roll_is_below_one(seed: u64, tries: nat)
    ensures
        0 <= unit_roll_spec(seed, tries).0 < ONE_BITS,
        ({
            let (x, next) = fastrand_u64(seed, u64::MAX);
            &&& float_bits::round24((x / 2) as nat) < 0x8000_0000_0000_0000 ==> unit_roll_spec(
                seed,
                tries,
            ).1 == next && float_bits::magnitude_units(unit_roll_spec(seed, tries).0 as u32)
                == float_bits::round24((x / 2) as nat) * vstd::arithmetic::power2::pow2(86)
            &&& float_bits::round24((x / 2) as nat) >= 0x8000_0000_0000_0000 && tries > 0
                ==> unit_roll_spec(seed, tries) == unit_roll_spec(next, (tries - 1) as nat)
        }),
    decreases tries,
{
    let (x, next) = fastrand_u64(seed, u64::MAX);
    let u = (x / 2) as nat;
    law_unit_bits_are_a_fraction(u);
    if tries > 0 {
        law_roll_is_below_one(next, (tries - 1) as nat);
    }
    reveal(float_bits::magnitude_units);
    vstd::arithmetic::power2::lemma2_to64_rest();
    vstd::arithmetic::power2::lemma_pow2_adds(63, 86);
    vstd::arithmetic::power2::lemma_pow2_adds(23, 126);
    let p = vstd::arithmetic::power2::pow2(86);
    let one = float_bits::magnitude_units(ONE_BITS);
    vstd::arithmetic::power2::lemma2_to64();
    assert(one == 0x80_0000 * vstd::arithmetic::power2::pow2(126));
    assert(one == 0x8000_0000_0000_0000 * p);
    vstd::arithmetic::power2::lemma_pow2_pos(86);
    let bits = unit_bits_spec(u) as u32;
    float_bits::law_order_is_that_of_the_values(bits, ONE_BITS);
    let r = float_bits::round24(u);
    assert((r * p < 0x8000_0000_0000_0000 * p) == (r < 0x8000_0000_0000_0000)) by (nonlinear_arith)
        requires
            p > 0,
    ;
}

/// A roll is the first draw that stays below one when it is rounded. Where all of them are used up
/// it is the largest number below one.
pub proof fn law_roll_repeats_until_below_one(seed: u64, tries: nat, other: int)
    ensures
        ({
            let (x, next) = fastrand_u64(seed, u64::MAX);
            let first = unit_bits_spec((x / 2) as nat);
            &&& first < 0x3F80_0000 ==> unit_roll_spec(seed, tries) == (first, next)
            &&& first >= 0x3F80_0000 && tries > 0 ==> unit_roll_spec(seed, tries)
                == unit_roll_spec(next, (tries - 1) as nat)
            &&& first >= 0x3F80_0000 && tries == 0 && other < 0x3F80_0000 ==> other
                <= unit_roll_spec(seed, tries).0 < 0x3F80_0000 && unit_roll_spec(seed, tries).1
                == next
        }),
{
}

} // verus!
