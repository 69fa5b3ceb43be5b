//! Addition and multiplication of binary32 patterns, each rounded once, to
//! the nearest number, ties to even.

use vstd::prelude::*;
use vstd::arithmetic::mul::{
    lemma_mul_inequality, lemma_mul_is_associative, lemma_mul_is_commutative,
};
use vstd::arithmetic::power2::{
    lemma2_to64, lemma_pow2_adds, lemma_pow2_pos, lemma_pow2_unfold, pow2,
};
use crate::binary32::{
    HIDDEN_BIT, INFINITY, ONE, QUIET_NAN, SIGN_BIT, exponent_field, fraction_field, is_finite,
    is_infinite, is_nan, is_negative, lemma_size_of_one, magnitude, scale, significand, size, value,
    with_sign,
};
use crate::rounding::{
    distance, lemma_bit_length_unique, lemma_magnitude_fields, lemma_pow2_increases,
    lemma_quotient_near, lemma_rounded_exact, lemma_rounded_rescaled, power_of_two,
    round_to_pattern, rounded_magnitude, spacing,
};

verus! {

/// The product of two finite numbers: the exact product of the two sizes,
/// which counts in units of 2^-149 times 2^-149, rounded; negative where
/// exactly one factor is.
pub open spec fn finite_product(a: u32, b: u32) -> u32 {
    with_sign(is_negative(a) != is_negative(b), rounded_magnitude(size(a) * size(b), -149))
}

/// The binary32 product. A NaN factor, or zero times an infinity, gives the
/// quiet NaN; an infinity times anything else gives an infinity.
pub open spec fn product(a: u32, b: u32) -> u32 {
    if is_nan(a) || is_nan(b) {
        QUIET_NAN
    } else if is_infinite(a) || is_infinite(b) {
        if magnitude(a) == 0 || magnitude(b) == 0 {
            QUIET_NAN
        } else {
            with_sign(is_negative(a) != is_negative(b), INFINITY)
        }
    } else {
        finite_product(a, b)
    }
}

/// The sum of two finite numbers: the exact sum of the two values, rounded.
/// An exact zero is positive, unless both terms are negative.
pub open spec fn finite_sum(a: u32, b: u32) -> u32 {
    let total = value(a) + value(b);
    if total == 0 {
        if is_negative(a) && is_negative(b) {
            SIGN_BIT
        } else {
            0
        }
    } else {
        with_sign(total < 0, rounded_magnitude(distance(total), 0))
    }
}

/// The binary32 sum. A NaN term, or two infinities of opposite sign, give the
/// quiet NaN; an infinity and anything else give that infinity.
pub open spec fn sum(a: u32, b: u32) -> u32 {
    if is_nan(a) || is_nan(b) {
        QUIET_NAN
    } else if is_infinite(a) {
        if is_infinite(b) && is_negative(a) != is_negative(b) {
            QUIET_NAN
        } else {
            a
        }
    } else if is_infinite(b) {
        b
    } else {
        finite_sum(a, b)
    }
}

/// The order of the terms does not matter.
pub proof fn lemma_sum_commutes(a: u32, b: u32)
    ensures
        sum(a, b) == sum(b, a),
{
}

/// The order of the factors does not matter.
pub proof fn lemma_product_commutes(a: u32, b: u32)
    ensures
        product(a, b) == product(b, a),
{
    assert(size(a) * size(b) == size(b) * size(a)) by (nonlinear_arith);
}

/// The product of two sizes is the product of the two significands at the
/// sum of the two scales.
pub proof fn lemma_product_of_sizes(a: u32, b: u32)
    ensures
        size(a) * size(b) == (significand(a) * significand(b)) * pow2(scale(a) + scale(b)),
        rounded_magnitude(size(a) * size(b), -149) == rounded_magnitude(
            significand(a) * significand(b),
            scale(a) + scale(b) - 149,
        ),
{
    lemma_pow2_adds(scale(a), scale(b));
    assert(size(a) * size(b) == (significand(a) * significand(b)) * pow2(scale(a) + scale(b)))
        by (nonlinear_arith)
        requires
            size(a) == significand(a) * pow2(scale(a)),
            size(b) == significand(b) * pow2(scale(b)),
            pow2(scale(a) + scale(b)) == pow2(scale(a)) * pow2(scale(b)),
    ;
    lemma_rounded_rescaled(significand(a) * significand(b), scale(a) + scale(b), -149);
}

/// A finite number is zero units exactly where its pattern is a zero.
pub proof fn lemma_size_zero(x: u32)
    requires
        is_finite(x),
    ensures
        size(x) == 0 <==> magnitude(x) == 0,
{
    lemma_magnitude_fields(x);
    lemma_pow2_pos(scale(x));
    assert(size(x) == 0 <==> significand(x) == 0) by (nonlinear_arith)
        requires
            size(x) == significand(x) * pow2(scale(x)),
            pow2(scale(x)) > 0,
    ;
}

/// Multiplying a finite number by 1 gives it back, bit for bit.
pub proof fn lemma_product_by_one(x: u32)
    requires
        is_finite(x),
    ensures
        product(x, ONE) == x,
        product(ONE, x) == x,
{
    lemma_product_commutes(x, ONE);
    lemma_size_of_one();
    lemma_rounded_rescaled(size(x), 149, -149);
    lemma_rounded_rescaled(significand(x), scale(x), 0);
    lemma_rounded_exact(x);
}

/// Adding a zero to a finite number gives it back, bit for bit; the one
/// exception is the negative zero, which a positive zero turns positive.
pub proof fn lemma_sum_with_zero(x: u32)
    requires
        is_finite(x),
        x != SIGN_BIT,
    ensures
        sum(x, 0) == x,
        sum(0, x) == x,
        is_negative(x) ==> sum(x, SIGN_BIT) == x && sum(SIGN_BIT, x) == x,
{
    lemma_sum_commutes(x, 0);
    lemma_sum_commutes(x, SIGN_BIT);
    lemma_size_zero(x);
    assert(significand(0) == 0 && significand(SIGN_BIT) == 0);
    assert(size(0) == 0 && size(SIGN_BIT) == 0) by (nonlinear_arith)
        requires
            size(0) == 0 * pow2(scale(0)),
            size(SIGN_BIT) == 0 * pow2(scale(SIGN_BIT)),
    ;
    lemma_rounded_rescaled(significand(x), scale(x), 0);
    lemma_rounded_exact(x);
}

/// A term 2^26 times finer than the other leaves the other as it is.
pub proof fn lemma_sum_far(hi: u32, lo: u32)
    requires
        is_finite(hi),
        is_finite(lo),
        scale(hi) >= scale(lo) + 26,
    ensures
        sum(hi, lo) == hi,
{
    lemma_magnitude_fields(hi);
    lemma_magnitude_fields(lo);
    lemma2_to64();
    let a = significand(hi);
    let b = significand(lo);
    let c = scale(lo);
    let d = (scale(hi) - scale(lo)) as nat;
    let unit = pow2(c);
    let step = pow2(d);
    lemma_pow2_pos(c);
    lemma_pow2_pos(d);
    lemma_pow2_adds(d, c);
    lemma_pow2_increases(26, d);
    assert(size(hi) == (a * step) * unit) by {
        lemma_mul_is_associative(a as int, step as int, unit as int);
    }
    assert(size(lo) == b * unit);
    assert(a * step >= HIDDEN_BIT * step) by {
        lemma_mul_inequality(HIDDEN_BIT as int, a as int, step as int);
    }
    assert(HIDDEN_BIT * step >= HIDDEN_BIT * 0x400_0000) by {
        lemma_mul_inequality(0x400_0000, step as int, HIDDEN_BIT as int);
        lemma_mul_is_commutative(HIDDEN_BIT as int, step as int);
    }
    if b == 0 {
        assert(size(lo) == 0) by (nonlinear_arith)
            requires
                size(lo) == b * unit,
                b == 0,
        ;
        assert(size(hi) > 0) by (nonlinear_arith)
            requires
                size(hi) == (a * step) * unit,
                a * step >= HIDDEN_BIT * 0x400_0000,
                unit > 0,
        ;
        lemma_rounded_rescaled(a, scale(hi), 0);
        lemma_rounded_exact(hi);
    } else {
        let same = is_negative(hi) == is_negative(lo);
        let n: nat = if same { a * step + b } else { (a * step - b) as nat };
        assert(n > 0);
        assert(a * step > b);
        assert(n * unit == if same { (size(hi) + size(lo)) as int } else { size(hi) - size(lo) })
            by (nonlinear_arith)
            requires
                size(hi) == (a * step) * unit,
                size(lo) == b * unit,
                n == if same { (a * step + b) as int } else { a * step - b },
        ;
        assert(n * unit > 0) by (nonlinear_arith)
            requires
                n > 0,
                unit > 0,
        ;
        let total = value(hi) + value(lo);
        assert(distance(total) == n * unit);
        assert(total < 0 <==> is_negative(hi));
        lemma_rounded_rescaled(n, c, 0);
        // what is left: rounded_magnitude(n, c) == magnitude(hi)
        if !same && a == HIDDEN_BIT {
            // just under a power of two, where the spacing halves
            let half = pow2((d - 1) as nat);
            lemma_pow2_unfold(d);
            lemma_pow2_increases(25, (d - 1) as nat);
            lemma_pow2_adds(23, d);
            lemma_pow2_adds(22, d);
            lemma_pow2_adds(24, (d - 1) as nat);
            lemma_pow2_unfold(23 + d);
            assert(n == (0x100_0000 - 1) * half + (half - b)) by (nonlinear_arith)
                requires
                    n == a * step - b,
                    a == 0x80_0000,
                    step == 2 * half,
            ;
            assert(pow2(22 + d) <= n < pow2(23 + d)) by (nonlinear_arith)
                requires
                    n == a * step - b,
                    a == 0x80_0000,
                    pow2(23 + d) == 0x80_0000 * step,
                    pow2(23 + d) == 2 * pow2(22 + d),
                    pow2(22 + d) == 0x40_0000 * step,
                    0 < b < 0x100_0000,
                    step >= 0x400_0000,
            ;
            lemma_bit_length_unique(n, 23 + d);
            assert(spacing(n, c as int) == d + c - 1);
            lemma_quotient_near((0x100_0000 - 1) as nat, (half - b) as nat, half);
            assert(magnitude(hi) == (d + c - 1) * HIDDEN_BIT + 0x100_0000) by (nonlinear_arith)
                requires
                    magnitude(hi) == exponent_field(hi) * HIDDEN_BIT + fraction_field(hi),
                    exponent_field(hi) == d + c + 1,
                    fraction_field(hi) == 0,
                    HIDDEN_BIT == 0x80_0000,
            ;
        } else {
            lemma_pow2_adds(23, d);
            lemma_pow2_adds(24, d);
            assert(pow2(23 + d) <= n < pow2(24 + d)) by (nonlinear_arith)
                requires
                    n == if same { a * step + b } else { (a * step - b) as nat },
                    same || a > 0x80_0000,
                    0x80_0000 <= a < 0x100_0000,
                    pow2(23 + d) == 0x80_0000 * step,
                    pow2(24 + d) == 0x100_0000 * step,
                    0 < b < 0x100_0000,
                    step >= 0x400_0000,
            ;
            lemma_bit_length_unique(n, 24 + d);
            assert(spacing(n, c as int) == d + c);
            if same {
                lemma_quotient_near(a, b, step);
            } else {
                assert(n == (a - 1) * step + (step - b)) by (nonlinear_arith)
                    requires
                        n == a * step - b,
                ;
                lemma_quotient_near((a - 1) as nat, (step - b) as nat, step);
            }
            assert(magnitude(hi) == (d + c) * HIDDEN_BIT + a) by (nonlinear_arith)
                requires
                    magnitude(hi) == exponent_field(hi) * HIDDEN_BIT + fraction_field(hi),
                    exponent_field(hi) == d + c + 1,
                    a == HIDDEN_BIT + fraction_field(hi),
            ;
        }
    }
}

/// The sum of two finite numbers whose significands are brought to the finer
/// scale: `x` and `y` count the two sizes in units of that scale, and the sum
/// is their signed total at that scale, rounded.
pub proof fn lemma_sum_aligned(hi: u32, lo: u32, x: nat, y: nat)
    requires
        is_finite(hi),
        is_finite(lo),
        scale(hi) >= scale(lo),
        x == significand(hi) * pow2((scale(hi) - scale(lo)) as nat),
        y == significand(lo),
    ensures
        sum(hi, lo) == if is_negative(hi) == is_negative(lo) {
            if x + y == 0 {
                if is_negative(hi) { SIGN_BIT } else { 0 }
            } else {
                with_sign(is_negative(hi), rounded_magnitude(x + y, scale(lo) as int))
            }
        } else if x > y {
            with_sign(is_negative(hi), rounded_magnitude((x - y) as nat, scale(lo) as int))
        } else if x < y {
            with_sign(is_negative(lo), rounded_magnitude((y - x) as nat, scale(lo) as int))
        } else {
            0
        },
{
    let c = scale(lo);
    let d = (scale(hi) - scale(lo)) as nat;
    let unit = pow2(c);
    lemma_pow2_pos(c);
    lemma_pow2_adds(d, c);
    assert(size(hi) == x * unit) by {
        lemma_mul_is_associative(significand(hi) as int, pow2(d) as int, unit as int);
    }
    assert(size(lo) == y * unit);
    let total = value(hi) + value(lo);
    let n: nat = if is_negative(hi) == is_negative(lo) {
        x + y
    } else if x > y {
        (x - y) as nat
    } else {
        (y - x) as nat
    };
    let same = is_negative(hi) == is_negative(lo);
    let negative = if same || x > y { is_negative(hi) } else { is_negative(lo) };
    assert(distance(total) == n * unit && (total < 0 <==> n > 0 && negative)) by (nonlinear_arith)
        requires
            size(hi) == x * unit,
            size(lo) == y * unit,
            unit > 0,
            total == value(hi) + value(lo),
            value(hi) == if is_negative(hi) { -(size(hi) as int) } else { size(hi) as int },
            value(lo) == if is_negative(lo) { -(size(lo) as int) } else { size(lo) as int },
            same == (is_negative(hi) == is_negative(lo)),
            negative == if same || x > y { is_negative(hi) } else { is_negative(lo) },
            n == if same { (x + y) as int } else if x > y { x - y } else { y - x },
            distance(total) == if total < 0 { -total } else { total },
    ;
    assert(total == 0 <==> n == 0) by (nonlinear_arith)
        requires
            distance(total) == n * unit,
            unit > 0,
            distance(total) == if total < 0 { -total } else { total },
    ;
    lemma_rounded_rescaled(n, c, 0);
}

/// The pattern with the given sign and magnitude.
fn signed(negative: bool, magnitude: u32) -> (r: u32)
    requires
        magnitude < SIGN_BIT,
    ensures
        r == with_sign(negative, magnitude),
{
    if negative {
        magnitude + SIGN_BIT
    } else {
        magnitude
    }
}

/// The significand and the scale of a pattern.
fn split(x: u32) -> (parts: (u32, i32))
    ensures
        parts.0 == significand(x),
        parts.1 == scale(x),
{
    let m: u32 = if x >= SIGN_BIT { x - SIGN_BIT } else { x };
    let e: u32 = m / HIDDEN_BIT;
    let f: u32 = m % HIDDEN_BIT;
    if e == 0 {
        (f, 0)
    } else {
        (HIDDEN_BIT + f, (e - 1) as i32)
    }
}

/// Multiplies two binary32 numbers.
pub fn times(a: u32, b: u32) -> (r: u32)
    ensures
        r == product(a, b),
{
    let negative = (a >= SIGN_BIT) != (b >= SIGN_BIT);
    let ma: u32 = if a >= SIGN_BIT { a - SIGN_BIT } else { a };
    let mb: u32 = if b >= SIGN_BIT { b - SIGN_BIT } else { b };
    if ma > INFINITY || mb > INFINITY {
        return QUIET_NAN;
    }
    if ma == INFINITY || mb == INFINITY {
        if ma == 0 || mb == 0 {
            return QUIET_NAN;
        }
        return signed(negative, INFINITY);
    }
    let (sa, ca) = split(a);
    let (sb, cb) = split(b);
    proof {
        lemma_magnitude_fields(a);
        lemma_magnitude_fields(b);
        lemma_product_of_sizes(a, b);
        assert(sa * sb < 0x1_0000_0000_0000) by (nonlinear_arith)
            requires
                sa < 0x100_0000,
                sb < 0x100_0000,
        ;
    }
    let n: u64 = (sa as u64) * (sb as u64);
    signed(negative, round_to_pattern(n, ca + cb - 149))
}

/// Adds two finite binary32 numbers, the first of which has the coarser scale.
fn plus_aligned(hi: u32, lo: u32) -> (r: u32)
    requires
        is_finite(hi),
        is_finite(lo),
        scale(hi) >= scale(lo),
    ensures
        r == sum(hi, lo),
{
    let (a, coarse) = split(hi);
    let (b, fine) = split(lo);
    let d: i32 = coarse - fine;
    proof {
        lemma_magnitude_fields(hi);
        lemma_magnitude_fields(lo);
    }
    if d >= 32 {
        proof {
            lemma_sum_far(hi, lo);
        }
        return hi;
    }
    let step: u64 = power_of_two(d as u32);
    proof {
        lemma2_to64();
        lemma_pow2_increases(d as nat, 31);
        assert(a * step < 0x80_0000_0000_0000) by (nonlinear_arith)
            requires
                a < 0x100_0000,
                step <= 0x8000_0000,
        ;
        lemma_sum_aligned(hi, lo, (a * step) as nat, b as nat);
    }
    let x: u64 = (a as u64) * step;
    let y: u64 = b as u64;
    let hi_negative = hi >= SIGN_BIT;
    let lo_negative = lo >= SIGN_BIT;
    if hi_negative == lo_negative {
        if x + y == 0 {
            if hi_negative { SIGN_BIT } else { 0 }
        } else {
            signed(hi_negative, round_to_pattern(x + y, fine))
        }
    } else if x > y {
        signed(hi_negative, round_to_pattern(x - y, fine))
    } else if x < y {
        signed(lo_negative, round_to_pattern(y - x, fine))
    } else {
        0
    }
}

/// Adds two binary32 numbers.
pub fn plus(a: u32, b: u32) -> (r: u32)
    ensures
        r == sum(a, b),
{
    let ma: u32 = if a >= SIGN_BIT { a - SIGN_BIT } else { a };
    let mb: u32 = if b >= SIGN_BIT { b - SIGN_BIT } else { b };
    if ma > INFINITY || mb > INFINITY {
        return QUIET_NAN;
    }
    if ma == INFINITY {
        if mb == INFINITY && (a >= SIGN_BIT) != (b >= SIGN_BIT) {
            return QUIET_NAN;
        }
        return a;
    }
    if mb == INFINITY {
        return b;
    }
    let (_, scale_a) = split(a);
    let (_, scale_b) = split(b);
    if scale_a >= scale_b {
        plus_aligned(a, b)
    } else {
        proof {
            lemma_sum_commutes(a, b);
        }
        plus_aligned(b, a)
    }
}

} // verus!
