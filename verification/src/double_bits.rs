//! Double-precision numbers handled by their bit patterns, and their narrowing to single
//! precision.

use vstd::arithmetic::power2;
use vstd::prelude::*;

use crate::float_bits;
use crate::float_bits::divide_half_even;

verus! {

/// The bit that holds the sign.
pub const SIGN: u64 = 0x8000_0000_0000_0000;

/// Bit pattern of infinity.
pub const INFINITY: u64 = 0x7FF0_0000_0000_0000;

/// The pattern without its sign.
pub open spec fn magnitude(bits: u64) -> u64 {
    if bits < SIGN {
        bits
    } else {
        (bits - SIGN) as u64
    }
}

/// Whether a bit pattern is that of a number, infinities counted.
pub open spec fn is_number(bits: u64) -> bool {
    magnitude(bits) <= INFINITY
}

/// An integer that is ordered as the number with this bit pattern is.
pub open spec fn key(bits: u64) -> int {
    if bits < SIGN {
        bits as int
    } else {
        SIGN - bits
    }
}

/// The scale of a number: its exponent field, where subnormal numbers share that of the least
/// normal ones.
pub open spec fn scale(mag: u64) -> int {
    if mag < 0x10_0000_0000_0000 {
        1
    } else {
        mag as int / 0x10_0000_0000_0000
    }
}

/// The significand of a number, the leading bit of a normal one included.
pub open spec fn significand(mag: u64) -> nat {
    if mag < 0x10_0000_0000_0000 {
        mag as nat
    } else {
        (0x10_0000_0000_0000 + mag as int % 0x10_0000_0000_0000) as nat
    }
}

/// How many bits of the significand are lost in single precision: 29 of a normal number, more
/// below.
pub open spec fn lost_bits(mag: u64) -> nat {
    if scale(mag) >= 897 {
        29
    } else {
        (926 - scale(mag)) as nat
    }
}

/// The single-precision pattern nearest to a magnitude, halves to even, before infinity is
/// put in the place of what is too large.
pub open spec fn nearest(mag: u64) -> int {
    float_bits::round_half_even(significand(mag), power2::pow2(lost_bits(mag))) + (if scale(mag)
        >= 897 {
        (scale(mag) - 897) * 0x80_0000
    } else {
        0
    })
}

/// The single-precision pattern of a magnitude.
pub open spec fn narrowed_magnitude(mag: u64) -> int {
    if mag > INFINITY {
        0x7FC0_0000
    } else if nearest(mag) < 0x7F80_0000 {
        nearest(mag)
    } else {
        0x7F80_0000
    }
}

/// A double-precision pattern narrowed to single precision: the nearest number, halves to even,
/// infinity where it is too large. What is no number stays none.
pub open spec fn narrowed(bits: u64) -> int {
    narrowed_magnitude(magnitude(bits)) + (if bits < SIGN {
        0
    } else {
        float_bits::SIGN_BIT as int
    })
}

proof fn lemma_parts(mag: u64)
    requires
        mag <= INFINITY,
    ensures
        1 <= scale(mag) <= 2047,
        significand(mag) < 0x20_0000_0000_0000,
        mag >= 0x10_0000_0000_0000 ==> significand(mag) >= 0x10_0000_0000_0000,
        scale(mag) > 1 ==> mag >= 0x10_0000_0000_0000,
        29 <= lost_bits(mag),
{
}

/// Narrows a double-precision pattern to single precision.
pub fn narrow(bits: u64) -> (r: u32)
    ensures
        r == narrowed(bits),
{
    let mag: u64 = if bits < SIGN {
        bits
    } else {
        bits - SIGN
    };
    let sign: u32 = if bits < SIGN {
        0
    } else {
        float_bits::SIGN_BIT
    };
    if mag > INFINITY {
        return sign + 0x7FC0_0000;
    }
    proof {
        lemma_parts(mag);
    }
    let normal: bool = mag >= 0x10_0000_0000_0000;
    let e: u64 = if normal {
        mag / 0x10_0000_0000_0000
    } else {
        1
    };
    let m: u64 = if normal {
        0x10_0000_0000_0000 + mag % 0x10_0000_0000_0000
    } else {
        mag
    };
    let lost: u64 = if e >= 897 {
        29
    } else {
        926 - e
    };
    if lost > 60 {
        proof {
            lemma_vanishes(significand(mag), lost as nat);
        }
        return sign;
    }
    let d: u64 = power(lost);
    proof {
        lemma_at_least(lost as nat);
    }
    let k: u64 = divide_half_even(m as u128, d as u128) as u64;
    let base: u64 = if e >= 897 {
        (e - 897) * 0x80_0000
    } else {
        0
    };
    proof {
        let q = m as int / d as int;
        assert(q <= 0x100_0000) by (nonlinear_arith)
            requires
                q == m as int / d as int,
                m < 0x20_0000_0000_0000,
                d >= 0x2000_0000,
        ;
    }
    let near: u64 = base + k;
    if near < 0x7F80_0000 {
        sign + near as u32
    } else {
        sign + 0x7F80_0000
    }
}

/// A power of two.
fn power(n: u64) -> (d: u64)
    requires
        n <= 60,
    ensures
        d == power2::pow2(n as nat),
{
    let mut d: u64 = 1;
    let mut i: u64 = 0;
    proof {
        power2::lemma2_to64();
    }
    while i < n
        invariant
            i <= n <= 60,
            d == power2::pow2(i as nat),
        decreases n - i,
    {
        proof {
            power2::lemma2_to64();
            power2::lemma2_to64_rest();
            power2::lemma_pow2_unfold((i + 1) as nat);
            if i < 59 {
                power2::lemma_pow2_strictly_increases((i + 1) as nat, 60);
            }
        }
        d = 2 * d;
        i = i + 1;
    }
    d
}

proof fn lemma_at_least(n: nat)
    requires
        29 <= n,
    ensures
        power2::pow2(n) >= 0x2000_0000,
{
    power2::lemma2_to64();
    if n > 29 {
        power2::lemma_pow2_strictly_increases(29, n);
    }
}

/// Where all bits are lost and more, nothing is left.
proof fn lemma_vanishes(m: nat, lost: nat)
    requires
        m < 0x20_0000_0000_0000,
        lost >= 60,
    ensures
        float_bits::round_half_even(m, power2::pow2(lost)) == 0,
{
    power2::lemma2_to64_rest();
    if lost > 60 {
        power2::lemma_pow2_strictly_increases(60, lost);
    }
    let d = power2::pow2(lost);
    vstd::arithmetic::div_mod::lemma_fundamental_div_mod_converse(m as int, d as int, 0, m as int);
}

/// A larger fraction does not round to a smaller integer.
proof fn lemma_round_keeps_order(a: nat, c: nat, b: nat, d: nat)
    requires
        0 < c,
        0 < d,
        a * d <= b * c,
    ensures
        float_bits::round_half_even(a, c) <= float_bits::round_half_even(b, d),
{
    let p = (a / c) as int;
    let q = (b / d) as int;
    let r = (a % c) as int;
    let s = (b % d) as int;
    vstd::arithmetic::div_mod::lemma_fundamental_div_mod(a as int, c as int);
    vstd::arithmetic::div_mod::lemma_fundamental_div_mod(b as int, d as int);
    assert(p <= q) by (nonlinear_arith)
        requires
            a == c * p + r,
            b == d * q + s,
            0 <= r < c,
            0 <= s < d,
            a * d <= b * c,
    ;
    if p == q {
        assert(r * d <= s * c) by (nonlinear_arith)
            requires
                a == c * p + r,
                b == d * p + s,
                a * d <= b * c,
        ;
        assert(2 * r > c ==> 2 * s > d) by (nonlinear_arith)
            requires
                r * d <= s * c,
                0 < c,
                0 < d,
        ;
        assert(2 * r == c ==> 2 * s >= d) by (nonlinear_arith)
            requires
                r * d <= s * c,
                0 < c,
                0 < d,
        ;
    }
}

proof fn lemma_nearest_keeps_order(a: u64, b: u64)
    requires
        a <= b <= INFINITY,
    ensures
        nearest(a) <= nearest(b),
{
    lemma_parts(a);
    lemma_parts(b);
    lemma_at_least(lost_bits(a));
    lemma_at_least(lost_bits(b));
    let (m, n) = (significand(a), significand(b));
    let (c, d) = (power2::pow2(lost_bits(a)), power2::pow2(lost_bits(b)));
    if scale(a) == scale(b) {
        assert(m <= n);
        assert(m * d <= n * c) by (nonlinear_arith)
            requires
                m <= n,
                c == d,
        ;
        lemma_round_keeps_order(m, c, n, d);
    } else {
        assert(scale(a) < scale(b));
        if scale(a) >= 897 {
            assert(d == 0x2000_0000 && c == 0x2000_0000) by {
                power2::lemma2_to64();
            }
            let (least, most) = (0x10_0000_0000_0000nat, 0x20_0000_0000_0000nat);
            assert(m * c <= most * c && least * d <= n * d) by (nonlinear_arith)
                requires
                    m <= most,
                    least <= n,
            ;
            lemma_round_keeps_order(m, c, most, c);
            lemma_round_keeps_order(least, d, n, d);
        } else {
            power2::lemma_pow2_unfold(lost_bits(a));
            if lost_bits(a) > lost_bits(b) + 1 {
                power2::lemma_pow2_strictly_increases(lost_bits(b), (lost_bits(a) - 1) as nat);
            }
            assert(c >= 2 * d);
            assert(m * d <= n * c) by (nonlinear_arith)
                requires
                    m < 0x20_0000_0000_0000,
                    n >= 0x10_0000_0000_0000,
                    c >= 2 * d,
                    d > 0,
            ;
            lemma_round_keeps_order(m, c, n, d);
        }
    }
}

/// Narrowing keeps the order of numbers.
pub proof fn law_narrowing_keeps_order(a: u64, b: u64)
    requires
        is_number(a),
        is_number(b),
        key(a) <= key(b),
    ensures
        float_bits::key(narrowed(a) as u32) <= float_bits::key(narrowed(b) as u32),
{
    let (x, y) = (magnitude(a), magnitude(b));
    lemma_narrow_range(x);
    lemma_narrow_range(y);
    if x <= y {
        lemma_nearest_keeps_order(x, y);
    }
    if y <= x {
        lemma_nearest_keeps_order(y, x);
    }
    if a >= SIGN && b < SIGN {
        assert(float_bits::key(narrowed(a) as u32) <= 0);
    }
    if a < SIGN && b >= SIGN {
        assert(x == 0 && y == 0);
        lemma_vanishes(0, lost_bits(0));
    }
}

proof fn lemma_narrow_range(mag: u64)
    requires
        mag <= INFINITY,
    ensures
        0 <= narrowed_magnitude(mag) <= 0x7F80_0000,
{
    lemma_parts(mag);
}

/// The double-precision pattern of a normal single-precision number: the exponent is moved by the
/// difference of the two biases, and the fraction has 29 bits more.
pub open spec fn widened(b: int) -> int {
    (b / 0x80_0000 + 896) * 0x10_0000_0000_0000 + (b % 0x80_0000) * 0x2000_0000
}

/// A number between two normal neighbours in single precision becomes the nearer one, and the even
/// one if it lies half way. A neighbour becomes itself.
pub proof fn law_narrowing_is_to_the_nearest(b: int, excess: int)
    requires
        0x80_0000 <= b < 0x7F7F_FFFF,
        0 <= excess < 0x2000_0000,
    ensures
        ({
            let r = narrowed((widened(b) + excess) as u64);
            &&& excess < 0x1000_0000 ==> r == b
            &&& excess > 0x1000_0000 ==> r == b + 1
            &&& excess == 0x1000_0000 ==> (r == b || r == b + 1) && r % 2 == 0
        }),
{
    let e = b / 0x80_0000;
    let f = b % 0x80_0000;
    assert(1 <= e <= 254);
    let mag = widened(b) + excess;
    let low = f * 0x2000_0000 + excess;
    assert(0 <= low < 0x10_0000_0000_0000);
    assert(mag == (e + 896) * 0x10_0000_0000_0000 + low);
    assert(mag / 0x10_0000_0000_0000 == e + 896 && mag % 0x10_0000_0000_0000 == low);
    let m = (0x80_0000 + f) as nat;
    let s = significand(mag as u64);
    assert(s == m * 0x2000_0000 + excess);
    power2::lemma2_to64();
    assert(power2::pow2(lost_bits(mag as u64)) == 0x2000_0000);
    assert(s / 0x2000_0000 == m && s % 0x2000_0000 == excess);
    assert(nearest(mag as u64) == float_bits::round_half_even(s, 0x2000_0000) + (e - 1)
        * 0x80_0000);
    assert(m + (e - 1) * 0x80_0000 == b);
    assert(m % 2 == b as nat % 2);
}

/// A number too small for a normal one becomes the multiple of the least single-precision number
/// that is nearest to it.
pub proof fn law_small_numbers_narrow_to_the_nearest(mag: u64)
    requires
        scale(mag) < 897,
    ensures
        2 * (nearest(mag) * power2::pow2((926 - scale(mag)) as nat)) <= 2 * significand(mag)
            + power2::pow2((926 - scale(mag)) as nat),
        2 * significand(mag) <= 2 * (nearest(mag) * power2::pow2((926 - scale(mag)) as nat))
            + power2::pow2((926 - scale(mag)) as nat),
{
    power2::lemma_pow2_pos((926 - scale(mag)) as nat);
    float_bits::law_rounding_is_to_the_nearest(
        significand(mag),
        power2::pow2((926 - scale(mag)) as nat),
    );
}

/// Narrowing keeps the sign and is the same for both signs. What is no number stays none, and
/// infinity stays infinity.
pub proof fn law_narrowing_keeps_the_sign(mag: u64)
    requires
        mag < SIGN,
    ensures
        narrowed((mag + SIGN) as u64) == narrowed(mag) + 0x8000_0000,
        0 <= narrowed(mag) < 0x8000_0000,
        mag > INFINITY ==> !float_bits::is_number(narrowed(mag) as u32),
        mag <= INFINITY ==> float_bits::is_number(narrowed(mag) as u32),
        mag == INFINITY ==> narrowed(mag) == 0x7F80_0000,
{
    if mag <= INFINITY {
        lemma_narrow_range(mag);
    }
    if mag == INFINITY {
        power2::lemma2_to64();
        assert(mag as int / 0x10_0000_0000_0000 == 2047);
    }
}

} // verus!
