//! Single-precision numbers handled by their bit patterns.
//!
//! Scores and learned values are carried as bit patterns. Where a decision compares two of
//! them, it compares their order keys.

use vstd::prelude::*;

verus! {

/// Bit pattern of negative infinity.
pub const NEG_INFINITY_BITS: u32 = 0xFF80_0000;

/// The bit that holds the sign.
pub const SIGN_BIT: u32 = 0x8000_0000;

/// The largest magnitude that is rounded to 24 bits.
pub const ROUND_LIMIT: i128 = 0x1000_0000_0000_0000_0000_0000_0000_0000;

/// An integer that is ordered as the number with this bit pattern is.
///
/// The magnitude bits of a number grow with its magnitude, and the sign bit mirrors them, so
/// both zeros get the key zero. The keys of patterns that are not numbers mean nothing.
pub open spec fn key(bits: u32) -> int {
    if bits < SIGN_BIT {
        bits as int
    } else {
        SIGN_BIT - bits
    }
}

/// The order key of a bit pattern.
pub fn order_key(bits: u32) -> (k: i64)
    ensures
        k == key(bits),
{
    if bits < SIGN_BIT {
        bits as i64
    } else {
        SIGN_BIT as i64 - bits as i64
    }
}

/// Whether a bit pattern is that of a number, infinities counted.
pub open spec fn is_number(bits: u32) -> bool {
    bits <= 0x7F80_0000 || SIGN_BIT <= bits <= NEG_INFINITY_BITS
}

/// Whether the number of one pattern is below that of another. What is no number is below
/// nothing, and nothing is below it.
pub open spec fn below(a: u32, b: u32) -> bool {
    is_number(a) && is_number(b) && key(a) < key(b)
}

/// Whether the number of one pattern is below that of another.
pub fn is_below(a: u32, b: u32) -> (r: bool)
    ensures
        r == below(a, b),
{
    let a_number: bool = a <= 0x7F80_0000 || (SIGN_BIT <= a && a <= NEG_INFINITY_BITS);
    let b_number: bool = b <= 0x7F80_0000 || (SIGN_BIT <= b && b <= NEG_INFINITY_BITS);
    a_number && b_number && order_key(a) < order_key(b)
}

/// Whether the number of one pattern is at most that of another.
pub open spec fn at_most(a: u32, b: u32) -> bool {
    is_number(a) && is_number(b) && key(a) <= key(b)
}

/// Whether the number of one pattern is at most that of another.
pub fn is_at_most(a: u32, b: u32) -> (r: bool)
    ensures
        r == at_most(a, b),
{
    let a_number: bool = a <= 0x7F80_0000 || (SIGN_BIT <= a && a <= NEG_INFINITY_BITS);
    let b_number: bool = b <= 0x7F80_0000 || (SIGN_BIT <= b && b <= NEG_INFINITY_BITS);
    a_number && b_number && order_key(a) <= order_key(b)
}

/// Flipping the sign mirrors the order, and the two zeros are equal.
pub proof fn law_sign_mirrors_key(bits: u32)
    requires
        bits < SIGN_BIT,
    ensures
        key((bits + SIGN_BIT) as u32) == -key(bits),
        key(0) == key(SIGN_BIT),
{
}

/// Two patterns have one key only if they are equal or both zero.
pub proof fn law_key_is_injective(a: u32, b: u32)
    requires
        key(a) == key(b),
    ensures
        a == b || (key(a) == 0 && key(b) == 0),
{
}

/// `u / d` rounded to the nearest integer, halves to the even one.
pub open spec fn round_half_even(u: nat, d: nat) -> nat {
    let q = u / d;
    let r = u % d;
    if 2 * r > d || (2 * r == d && q % 2 == 1) {
        q + 1
    } else {
        q
    }
}

/// The power of two by which `u` is divided to leave at most 24 bits.
pub open spec fn coarse(u: nat) -> nat
    decreases u,
{
    if u < 0x100_0000 {
        1
    } else {
        2 * coarse(u / 2)
    }
}

/// `n` rounded to 24 significant bits, halves to even.
pub open spec fn round24(n: nat) -> nat {
    round_half_even(n, coarse(n)) * coarse(n)
}

/// A signed number rounded to 24 significant bits.
pub open spec fn round24_signed(n: int) -> int {
    if n < 0 {
        -(round24((-n) as nat) as int)
    } else {
        round24(n as nat) as int
    }
}

/// What is left after the division has at most 24 bits, and nothing smaller would do.
pub proof fn lemma_coarse(u: nat)
    ensures
        1 <= coarse(u),
        u < 0x100_0000 * coarse(u),
        u >= 0x100_0000 ==> 0x80_0000 * coarse(u) <= u,
    decreases u,
{
    if u >= 0x100_0000 {
        lemma_coarse(u / 2);
    }
}

/// Rounding moves a number by at most one unit of its last place.
pub proof fn lemma_round24_bound(n: nat)
    ensures
        round24(n) <= 2 * n,
        round24(n) <= n + coarse(n),
        n >= 0x100_0000 ==> 0x80_0000 * coarse(n) <= n,
        n < 0x100_0000 ==> round24(n) == n,
        round_half_even(n, coarse(n)) <= 0x100_0000,
{
    lemma_coarse(n);
    let d = coarse(n);
    let q = n / d;
    assert(q * d <= n && q < 0x100_0000) by (nonlinear_arith)
        requires
            q == n / d,
            d >= 1,
            n < 0x100_0000 * d,
    ;
    assert((q + 1) * d == q * d + d) by (nonlinear_arith);
    if n < 0x100_0000 {
        assert(d == 1);
        assert(n / 1 == n && n % 1 == 0);
        assert(n * 1 == n);
    }
}

/// The power of two by which a number is divided to leave at most 24 bits.
pub fn coarse_of(u: u128) -> (d: u128)
    ensures
        d == coarse(u as nat),
        1 <= d,
        u > 0 ==> d <= u,
{
    let mut w: u128 = u;
    let mut d: u128 = 1;
    while w >= 0x100_0000
        invariant
            u > 0 ==> 1 <= w,
            1 <= d,
            d * w <= u,
            coarse(u as nat) == d * coarse(w as nat),
        decreases w,
    {
        let half: u128 = w / 2;
        proof {
            assert(d * 2 * half <= d * w) by (nonlinear_arith)
                requires
                    half == w / 2,
                    d >= 1,
            ;
            assert(d * 2 <= d * 2 * half) by (nonlinear_arith)
                requires
                    half >= 1,
                    d >= 1,
            ;
            let t = coarse(half as nat);
            assert(coarse(w as nat) == 2 * t);
            assert(d * (2 * t) == (d * 2) * t) by (nonlinear_arith);
        }
        w = half;
        d = d * 2;
    }
    assert(d * 1 == d);
    if u > 0 {
        assert(d <= u) by (nonlinear_arith)
            requires
                d * w <= u,
                w >= 1,
                d >= 1,
        ;
    }
    d
}

/// `u / d` rounded to the nearest integer, halves to the even one.
pub fn divide_half_even(u: u128, d: u128) -> (q: u128)
    requires
        0 < d <= 0x7FFF_FFFF_FFFF_FFFF_FFFF_FFFF_FFFF_FFFF,
        u < u128::MAX,
    ensures
        q == round_half_even(u as nat, d as nat),
{
    let q: u128 = u / d;
    let r: u128 = u % d;
    assert(q <= u) by (nonlinear_arith)
        requires
            q == u / d,
            d >= 1,
    ;
    if 2 * r > d || (2 * r == d && q % 2 == 1) {
        q + 1
    } else {
        q
    }
}

/// Rounds a signed number to 24 significant bits.
pub fn round_signed(n: i128) -> (r: i128)
    requires
        -ROUND_LIMIT <= n <= ROUND_LIMIT,
    ensures
        r == round24_signed(n as int),
        -2 * ROUND_LIMIT <= r <= 2 * ROUND_LIMIT,
{
    let u: u128 = if n < 0 {
        (-n) as u128
    } else {
        n as u128
    };
    proof {
        lemma_coarse(u as nat);
        lemma_round24_bound(u as nat);
    }
    let d: u128 = coarse_of(u);
    if u == 0 {
        return 0;
    }
    let q: u128 = divide_half_even(u, d);
    assert(q * d == round24(u as nat));
    let rounded: i128 = (q * d) as i128;
    if n < 0 {
        -rounded
    } else {
        rounded
    }
}

/// The significand of a positive number, its leading bit included.
pub open spec fn significand(bits: u32) -> nat {
    (0x80_0000 + bits % 0x80_0000) as nat
}

/// The bit pattern of the product of two positive numbers, rounded to single precision. The
/// product of the significands has 47 or 48 bits, of which 24 are kept.
pub open spec fn product_bits(a: u32, b: u32) -> int {
    let p = significand(a) * significand(b);
    let exponent = a / 0x80_0000 + b / 0x80_0000 - 127;
    if p < 0x8000_0000_0000 {
        exponent * 0x80_0000 + round_half_even(p, 0x80_0000) - 0x80_0000
    } else {
        (exponent + 1) * 0x80_0000 + round_half_even(p, 0x100_0000) - 0x80_0000
    }
}

/// The product of two positive numbers, where neither it nor they are too small or too large.
pub fn multiply_bits(a: u32, b: u32) -> (r: u32)
    requires
        0x80_0000 <= a < 0x7F80_0000,
        0x80_0000 <= b < 0x7F80_0000,
        128 <= a / 0x80_0000 + b / 0x80_0000 <= 379,
    ensures
        r == product_bits(a, b),
{
    let x: u64 = 0x80_0000 + (a % 0x80_0000) as u64;
    let y: u64 = 0x80_0000 + (b % 0x80_0000) as u64;
    assert(0x4000_0000_0000 <= x * y < 0x1_0000_0000_0000) by (nonlinear_arith)
        requires
            0x80_0000 <= x < 0x100_0000,
            0x80_0000 <= y < 0x100_0000,
    ;
    let p: u64 = x * y;
    let exponent: u32 = a / 0x80_0000 + b / 0x80_0000 - 127;
    if p < 0x8000_0000_0000 {
        let kept: u32 = divide_half_even(p as u128, 0x80_0000) as u32;
        exponent * 0x80_0000 + (kept - 0x80_0000)
    } else {
        let kept: u32 = divide_half_even(p as u128, 0x100_0000) as u32;
        (exponent + 1) * 0x80_0000 + (kept - 0x80_0000)
    }
}

/// Larger numbers are divided by the same power of two or by at least twice as much.
pub proof fn lemma_coarse_monotone(a: nat, b: nat)
    requires
        a <= b,
    ensures
        coarse(a) == coarse(b) || 2 * coarse(a) <= coarse(b),
    decreases b,
{
    if a < 0x100_0000 && b >= 0x100_0000 {
        lemma_coarse(b / 2);
    }
    if a >= 0x100_0000 {
        lemma_coarse_monotone(a / 2, b / 2);
    }
}

/// Rounding never carries a number below one that needs no rounding.
pub proof fn law_round24_keeps_order(a: nat, b: nat)
    requires
        round24(a) == a,
        a <= b,
    ensures
        a <= round24(b),
{
    lemma_coarse(a);
    lemma_coarse(b);
    lemma_coarse_monotone(a, b);
    let ca = coarse(a);
    let d = coarse(b);
    let k = round_half_even(a, ca);
    let q = b / d;
    if b < 0x100_0000 {
        lemma_round24_bound(b);
    } else if ca == d {
        assert(q >= k) by (nonlinear_arith)
            requires
                k * d <= b,
                d >= 1,
                q == b / d,
        ;
        assert(q * d >= k * d) by (nonlinear_arith)
            requires
                q >= k,
                d >= 1,
        ;
    } else {
        assert(q >= 0x80_0000) by (nonlinear_arith)
            requires
                0x80_0000 * d <= b,
                d >= 1,
                q == b / d,
        ;
        assert(q * d >= 0x80_0000 * d) by (nonlinear_arith)
            requires
                q >= 0x80_0000,
                d >= 1,
        ;
    }
    assert((q + 1) * d == q * d + d) by (nonlinear_arith);
}

/// One, two, four and so on.
spec fn is_power_of_two(d: nat) -> bool
    decreases d,
{
    d == 1 || (d > 1 && d % 2 == 0 && is_power_of_two(d / 2))
}

proof fn lemma_coarse_is_power(u: nat)
    ensures
        is_power_of_two(coarse(u)),
    decreases u,
{
    if u >= 0x100_0000 {
        lemma_coarse_is_power(u / 2);
        assert((2 * coarse(u / 2)) / 2 == coarse(u / 2));
        lemma_coarse(u / 2);
    }
}

/// The power of two that leaves 24 bits is the only one that does.
proof fn lemma_coarse_unique(m: nat, d: nat)
    requires
        is_power_of_two(d),
        m < 0x100_0000 * d,
        d == 1 || 0x80_0000 * d <= m,
    ensures
        coarse(m) == d,
    decreases d,
{
    if d > 1 {
        lemma_coarse_unique(m / 2, d / 2);
    }
}

/// A rounded number needs no further rounding.
pub proof fn law_round24_is_idempotent(n: nat)
    ensures
        round24(round24(n)) == round24(n),
{
    let d = coarse(n);
    let q = round_half_even(n, d);
    let m = q * d;
    lemma_coarse(n);
    lemma_round24_bound(n);
    lemma_coarse_is_power(n);
    if n >= 0x100_0000 {
        assert(q >= 0x80_0000) by {
            let f = n / d;
            assert(f >= 0x80_0000) by (nonlinear_arith)
                requires
                    0x80_0000 * d <= n,
                    d >= 1,
                    f == n / d,
            ;
        }
        if q < 0x100_0000 {
            assert(0x80_0000 * d <= m < 0x100_0000 * d) by (nonlinear_arith)
                requires
                    0x80_0000 <= q < 0x100_0000,
                    m == q * d,
                    d >= 1,
            ;
            lemma_coarse_unique(m, d);
            lemma_exact(q, d);
        } else {
            let e = 2 * d;
            assert(e / 2 == d);
            assert(is_power_of_two(e));
            assert(m == 0x80_0000 * e);
            lemma_coarse_unique(m, e);
            lemma_exact(0x80_0000, e);
        }
    }
}

/// The double of a number that needs no rounding needs none either.
pub proof fn lemma_round24_of_double(n: nat)
    requires
        round24(n) == n,
    ensures
        round24(2 * n) == 2 * n,
{
    if 2 * n < 0x100_0000 {
        lemma_round24_bound(2 * n);
    } else {
        lemma_coarse(n);
        let q = round_half_even(n, coarse(n));
        let d = 2 * coarse(n);
        assert((2 * n) / 2 == n);
        assert(2 * n == q * d) by (nonlinear_arith)
            requires
                n == q * coarse(n),
                d == 2 * coarse(n),
        ;
        lemma_exact(q, d);
    }
}

/// A multiple is divided without a remainder.
pub proof fn lemma_exact(q: nat, d: nat)
    requires
        d >= 1,
    ensures
        round_half_even(q * d, d) == q,
{
    vstd::arithmetic::div_mod::lemma_fundamental_div_mod_converse((q * d) as int, d as int, q as int, 0);
}

/// Rounding a fraction finds the integer nearest to it, and where two are equally near the even
/// one.
pub proof fn law_rounding_is_to_the_nearest(u: nat, d: nat)
    requires
        0 < d,
    ensures
        2 * (round_half_even(u, d) * d) <= 2 * u + d,
        2 * u <= 2 * (round_half_even(u, d) * d) + d,
        2 * (round_half_even(u, d) * d) == 2 * u + d ==> round_half_even(u, d) % 2 == 0,
        2 * u == 2 * (round_half_even(u, d) * d) + d ==> round_half_even(u, d) % 2 == 0,
{
    let q = u / d;
    let r = u % d;
    vstd::arithmetic::div_mod::lemma_fundamental_div_mod(u as int, d as int);
    assert(q * d == d * q) by (nonlinear_arith);
    assert((q + 1) * d == q * d + d) by (nonlinear_arith);
}

/// A larger fraction never rounds to a smaller integer.
pub proof fn law_rounding_keeps_order(a: nat, c: nat, b: nat, d: nat)
    requires
        0 < c,
        0 < d,
        a * d <= b * c,
    ensures
        round_half_even(a, c) <= round_half_even(b, d),
{
    let p = (a / c) as int;
    let q = (b / d) as int;
    let r = (a % c) as int;
    let s = (b % d) as int;
    vstd::arithmetic::div_mod::lemma_fundamental_div_mod(a as int, c as int);
    vstd::arithmetic::div_mod::lemma_fundamental_div_mod(b as int, d as int);
    assert(p <= q) by (nonlinear_arith)
        requires
            a == c * p + r,
            b == d * q + s,
            0 <= r < c,
            0 <= s < d,
            a * d <= b * c,
    ;
    if p == q {
        assert(r * d <= s * c) by (nonlinear_arith)
            requires
                a == c * p + r,
                b == d * p + s,
                a * d <= b * c,
        ;
        assert(2 * r > c ==> 2 * s > d) by (nonlinear_arith)
            requires
                r * d <= s * c,
                0 < c,
                0 < d,
        ;
        assert(2 * r == c ==> 2 * s >= d) by (nonlinear_arith)
            requires
                r * d <= s * c,
                0 < c,
                0 < d,
        ;
    }
}

/// Rounding to 24 bits changes a number by at most its sixteen-millionth part (`2^-24`).
pub proof fn law_round24_is_near(n: nat)
    ensures
        0x100_0000 * round24(n) <= 0x100_0001 * n,
        0xFF_FFFF * n <= 0x100_0000 * round24(n),
{
    lemma_coarse(n);
    lemma_round24_bound(n);
    law_rounding_is_to_the_nearest(n, coarse(n));
}

/// What is left after rounding to 24 bits is a number of at most 24 bits times a power of two.
pub proof fn law_round24_leaves_24_bits(n: nat)
    ensures
        round24(n) % coarse(n) == 0,
        round24(n) <= 0x100_0000 * coarse(n),
        n < 0x100_0000 ==> round24(n) == n,
{
    lemma_coarse(n);
    lemma_round24_bound(n);
    let q = round_half_even(n, coarse(n));
    let d = coarse(n);
    vstd::arithmetic::div_mod::lemma_mod_multiples_basic(q as int, d as int);
    assert(q * d <= 0x100_0000 * d) by (nonlinear_arith)
        requires
            q <= 0x100_0000,
    ;
}

/// Of two numbers the larger one does not round to the smaller 24-bit number.
pub proof fn law_round24_is_monotone(a: nat, b: nat)
    requires
        a <= b,
    ensures
        round24(a) <= round24(b),
{
    lemma_coarse(a);
    lemma_coarse(b);
    lemma_coarse_monotone(a, b);
    let c = coarse(a);
    let d = coarse(b);
    if c == d {
        assert(a * c <= b * c) by (nonlinear_arith)
            requires
                a <= b,
        ;
        law_rounding_keeps_order(a, c, b, c);
        let p = round_half_even(a, c);
        let q = round_half_even(b, c);
        assert(p * c <= q * c) by (nonlinear_arith)
            requires
                p <= q,
        ;
    } else {
        law_round24_leaves_24_bits(a);
        law_round24_is_idempotent(a);
        if b < 0x100_0000 {
            assert(d == 1);
        }
        law_round24_keeps_order(round24(a), b);
    }
}

/// Rounding a signed number keeps its sign, mirrors it, and keeps order.
pub proof fn law_signed_rounding_keeps_order(a: int, b: int)
    requires
        a <= b,
    ensures
        round24_signed(a) <= round24_signed(b),
        round24_signed(-a) == -round24_signed(a),
        a >= 0 ==> round24_signed(a) >= 0,
        a <= 0 ==> round24_signed(a) <= 0,
        0x100_0000 * round24_signed(a) - 0x100_0000 * a <= (if a < 0 {
            -a
        } else {
            a
        }),
        0x100_0000 * a - 0x100_0000 * round24_signed(a) <= (if a < 0 {
            -a
        } else {
            a
        }),
{
    let m = if a < 0 {
        -a
    } else {
        a
    };
    law_round24_is_near(m as nat);
    lemma_round24_bound(0);
    if a < 0 && b < 0 {
        law_round24_is_monotone((-b) as nat, (-a) as nat);
    } else if a >= 0 {
        law_round24_is_monotone(a as nat, b as nat);
    }
}

/// The magnitude of a number in units of the least one above zero (`2^-149`).
#[verifier::opaque]
pub open spec fn magnitude_units(bits: u32) -> nat {
    let e = bits as int / 0x80_0000 % 256;
    let f = (bits % 0x80_0000) as nat;
    if e == 0 {
        f
    } else {
        (0x80_0000 + f) * vstd::arithmetic::power2::pow2((e - 1) as nat)
    }
}

/// The value of a finite number, in units of the least one above zero.
pub open spec fn value_units(bits: u32) -> int {
    if bits < 0x8000_0000 {
        magnitude_units(bits) as int
    } else {
        -(magnitude_units(bits) as int)
    }
}

/// Finite numbers are ordered by their values. Every finite number lies between the infinities,
/// and what is no number is ordered with nothing.
pub proof fn law_order_is_that_of_the_values(a: u32, b: u32)
    ensures
        a % 0x8000_0000 < 0x7F80_0000 && b % 0x8000_0000 < 0x7F80_0000 ==> below(a, b) == (
        value_units(a) < value_units(b)) && at_most(a, b) == (value_units(a) <= value_units(b)),
        a % 0x8000_0000 < 0x7F80_0000 ==> below(a, 0x7F80_0000) && below(0xFF80_0000, a),
        a % 0x8000_0000 > 0x7F80_0000 ==> !below(a, b) && !below(b, a) && !at_most(a, b)
            && !at_most(b, a),
        below(0xFF80_0000, 0x7F80_0000),
        at_most(a, b) == (below(a, b) || at_most(a, b) && at_most(b, a)),
{
    let x = a % 0x8000_0000;
    let y = b % 0x8000_0000;
    if x < 0x7F80_0000 && y < 0x7F80_0000 {
        if x < y {
            lemma_magnitude_grows(x, y);
        }
        if y < x {
            lemma_magnitude_grows(y, x);
        }
        lemma_same_magnitude(a);
        lemma_same_magnitude(b);
        lemma_magnitude_zero(x);
        lemma_magnitude_zero(y);
    }
}

proof fn lemma_same_magnitude(a: u32)
    ensures
        magnitude_units(a) == magnitude_units(a % 0x8000_0000),
{
    reveal(magnitude_units);
    assert(a >= 0x8000_0000 ==> a as int / 0x80_0000 == (a % 0x8000_0000) as int / 0x80_0000 + 256);
}

proof fn lemma_magnitude_zero(x: u32)
    requires
        x < 0x7F80_0000,
    ensures
        (magnitude_units(x) == 0) == (x == 0),
{
    reveal(magnitude_units);
    let e = x as int / 0x80_0000 % 256;
    if e > 0 {
        let p = vstd::arithmetic::power2::pow2((e - 1) as nat);
        vstd::arithmetic::power2::lemma_pow2_pos((e - 1) as nat);
        let f = (x % 0x80_0000) as nat;
        assert((0x80_0000 + f) * p > 0) by (nonlinear_arith)
            requires
                p > 0,
        ;
    }
}

proof fn lemma_magnitude_grows(x: u32, y: u32)
    requires
        x < y < 0x7F80_0000,
    ensures
        magnitude_units(x) < magnitude_units(y),
{
    reveal(magnitude_units);
    let d = x as int / 0x80_0000;
    let e = y as int / 0x80_0000;
    let f = (x % 0x80_0000) as nat;
    let g = (y % 0x80_0000) as nat;
    if e > 0 {
        let p = vstd::arithmetic::power2::pow2((e - 1) as nat);
        vstd::arithmetic::power2::lemma_pow2_pos((e - 1) as nat);
        if d == e {
            assert((0x80_0000 + f) * p < (0x80_0000 + g) * p) by (nonlinear_arith)
                requires
                    f < g,
                    p > 0,
            ;
        } else if d == 0 {
            assert((0x80_0000 + g) * p >= 0x80_0000) by (nonlinear_arith)
                requires
                    p > 0,
            ;
        } else {
            let o = vstd::arithmetic::power2::pow2((d - 1) as nat);
            vstd::arithmetic::power2::lemma_pow2_unfold((e - 1) as nat);
            if d - 1 < e - 2 {
                vstd::arithmetic::power2::lemma_pow2_strictly_increases(
                    (d - 1) as nat,
                    (e - 2) as nat,
                );
            }
            assert(2 * o <= p);
            vstd::arithmetic::power2::lemma_pow2_pos((d - 1) as nat);
            assert((0x80_0000 + f) * o < (0x80_0000 + g) * p) by (nonlinear_arith)
                requires
                    f < 0x80_0000,
                    2 * o <= p,
                    o > 0,
                    g >= 0,
            ;
        }
    }
}

/// A product does not depend on the order of its factors, one as a factor changes nothing, and
/// doubling a factor doubles the product.
pub proof fn law_product(a: u32, b: u32)
    requires
        0x80_0000 <= a < 0x7F00_0000,
        0x80_0000 <= b < 0x7F80_0000,
    ensures
        product_bits(a, b) == product_bits(b, a),
        product_bits(a, 0x3F80_0000) == a,
        product_bits((a + 0x80_0000) as u32, b) == product_bits(a, b) + 0x80_0000,
{
    let x = significand(a);
    let y = significand(b);
    assert(x * y == y * x) by (nonlinear_arith);
    assert(significand(0x3F80_0000) == 0x80_0000);
    lemma_exact(x, 0x80_0000);
    lemma_exact(x / 2, 0x100_0000);
    assert(x * 0x80_0000 < 0x8000_0000_0000);
    assert((a + 0x80_0000) / 0x80_0000 == a / 0x80_0000 + 1);
    assert((a + 0x80_0000) % 0x80_0000 == a % 0x80_0000);
}

/// A product lies within half a unit of its last place of the exact one: the significands are
/// multiplied, and what does not fit 24 bits is rounded off.
pub proof fn law_product_is_near(a: u32, b: u32)
    requires
        0x80_0000 <= a < 0x7F80_0000,
        0x80_0000 <= b < 0x7F80_0000,
    ensures
        ({
            let exact = significand(a) * significand(b);
            let ulps = product_bits(a, b) - (a as int / 0x80_0000 + b as int / 0x80_0000 - 128)
                * 0x80_0000;
            &&& exact < 0x8000_0000_0000 ==> -0x40_0000 <= ulps * 0x80_0000 - exact <= 0x40_0000
            &&& exact >= 0x8000_0000_0000 ==> -0x80_0000 <= (ulps - 0x80_0000) * 0x100_0000 - exact
                <= 0x80_0000
        }),
{
    let p = significand(a) * significand(b);
    law_rounding_is_to_the_nearest(p, 0x80_0000);
    law_rounding_is_to_the_nearest(p, 0x100_0000);
}

/// Whether a pattern is that of the normal number below two that is nearest to `num / den`.
pub open spec fn is_nearest_to(bits: u32, num: nat, den: nat) -> bool {
    let scale = vstd::arithmetic::power2::pow2((150 - bits as int / 0x80_0000) as nat);
    let off = significand(bits) * den - num * scale;
    &&& 0x80_0000 <= bits < 0x4000_0000
    &&& -(den as int) <= 2 * off <= den
}

/// A number that does not fit 24 bits rounds as its double does.
pub proof fn lemma_round24_doubles(n: nat)
    requires
        n >= 0x100_0000,
    ensures
        round24(2 * n) == 2 * round24(n),
{
    lemma_coarse(n);
    let d = coarse(n);
    assert((2 * n) / 2 == n);
    assert(coarse(2 * n) == 2 * d);
    let q = n / d;
    let r = n % d;
    vstd::arithmetic::div_mod::lemma_fundamental_div_mod(n as int, d as int);
    assert(2 * n == (2 * d) * q + 2 * r) by (nonlinear_arith)
        requires
            n == d * q + r,
    ;
    assert(q * (2 * d) == (2 * d) * q) by (nonlinear_arith);
    vstd::arithmetic::div_mod::lemma_fundamental_div_mod_converse(
        (2 * n) as int,
        (2 * d) as int,
        q as int,
        (2 * r) as int,
    );
    let k = round_half_even(n, d);
    assert(k * (2 * d) == 2 * (k * d)) by (nonlinear_arith);
}

} // verus!
