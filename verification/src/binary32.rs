//! IEEE 754 binary32 numbers as bit patterns.
//!
//! A pattern is a `u32`: one sign bit, eight exponent bits, twenty-three
//! fraction bits. The value of a finite pattern is a whole multiple of
//! 2^-149, the smallest subnormal; the specifications count in that unit,
//! which keeps every value an integer.

use vstd::prelude::*;
use vstd::arithmetic::mul::{
    lemma_mul_inequality, lemma_mul_is_commutative, lemma_mul_strict_inequality,
};
use vstd::arithmetic::power2::{
    lemma2_to64, lemma_pow2_adds, lemma_pow2_pos, lemma_pow2_strictly_increases, pow2,
};

verus! {

/// The sign bit alone: negative zero.
pub const SIGN_BIT: u32 = 0x8000_0000;

/// Positive infinity: all exponent bits, no fraction bit.
pub const INFINITY: u32 = 0x7f80_0000;

/// The quiet NaN that arithmetic here gives where no number is the answer.
pub const QUIET_NAN: u32 = 0x7fc0_0000;

/// The number 1.
pub const ONE: u32 = 0x3f80_0000;

/// The number -1.
pub const NEG_ONE: u32 = 0xbf80_0000;

/// The weight of the lowest exponent bit; also the leading bit that a normal
/// significand has without storing it.
pub const HIDDEN_BIT: u32 = 0x0080_0000;

/// Whether the sign bit is set.
pub open spec fn is_negative(x: u32) -> bool {
    x >= SIGN_BIT
}

/// The pattern without its sign bit.
pub open spec fn magnitude(x: u32) -> u32 {
    if x >= SIGN_BIT {
        (x - SIGN_BIT) as u32
    } else {
        x
    }
}

/// The pattern with the given sign and the given magnitude.
pub open spec fn with_sign(negative: bool, magnitude: u32) -> u32
    recommends
        magnitude < SIGN_BIT,
{
    if negative {
        (magnitude + SIGN_BIT) as u32
    } else {
        magnitude
    }
}

/// Not a number: all exponent bits and some fraction bit.
pub open spec fn is_nan(x: u32) -> bool {
    magnitude(x) > INFINITY
}

/// Positive or negative infinity.
pub open spec fn is_infinite(x: u32) -> bool {
    magnitude(x) == INFINITY
}

/// Zero, subnormal or normal.
pub open spec fn is_finite(x: u32) -> bool {
    magnitude(x) < INFINITY
}

/// The eight exponent bits as a number.
pub open spec fn exponent_field(x: u32) -> nat {
    (magnitude(x) / HIDDEN_BIT) as nat
}

/// The twenty-three fraction bits as a number.
pub open spec fn fraction_field(x: u32) -> nat {
    (magnitude(x) % HIDDEN_BIT) as nat
}

/// The significand as an integer: the fraction, with the hidden bit on top
/// unless the exponent field is zero.
pub open spec fn significand(x: u32) -> nat {
    if exponent_field(x) == 0 {
        fraction_field(x)
    } else {
        (HIDDEN_BIT + fraction_field(x)) as nat
    }
}

/// The binary exponent of the significand's last bit, counted from -149.
pub open spec fn scale(x: u32) -> nat {
    if exponent_field(x) == 0 {
        0
    } else {
        (exponent_field(x) - 1) as nat
    }
}

/// The absolute value in units of 2^-149. For an infinity this is 2^277,
/// above every finite size; for a NaN it means nothing.
pub open spec fn size(x: u32) -> nat {
    significand(x) * pow2(scale(x))
}

/// The value in units of 2^-149.
pub open spec fn value(x: u32) -> int {
    if is_negative(x) {
        -(size(x) as int)
    } else {
        size(x) as int
    }
}

/// The pattern limited to the range from -1 to 1. A NaN stays as it is.
pub open spec fn clamped(x: u32) -> u32 {
    if is_nan(x) {
        x
    } else if value(x) < value(NEG_ONE) {
        NEG_ONE
    } else if value(x) > value(ONE) {
        ONE
    } else {
        x
    }
}

/// Among patterns that are no NaN, a larger magnitude is a larger size.
pub proof fn lemma_size_increases(a: u32, b: u32)
    requires
        !is_nan(a),
        !is_nan(b),
        magnitude(a) < magnitude(b),
    ensures
        size(a) < size(b),
{
    let ea = exponent_field(a);
    let eb = exponent_field(b);
    lemma_pow2_pos(scale(a));
    lemma_pow2_pos(scale(b));
    if ea == eb {
        lemma_mul_strict_inequality(
            significand(a) as int,
            significand(b) as int,
            pow2(scale(a)) as int,
        );
    } else {
        assert(ea < eb);
        assert(significand(b) >= HIDDEN_BIT);
        lemma_mul_inequality(HIDDEN_BIT as int, significand(b) as int, pow2(scale(b)) as int);
        if ea == 0 {
            lemma2_to64();
            lemma_mul_inequality(1, pow2(scale(b)) as int, HIDDEN_BIT as int);
            lemma_mul_is_commutative(HIDDEN_BIT as int, pow2(scale(b)) as int);
        } else {
            // size(a) < 2^24 * 2^scale(a) = 2^23 * 2^(scale(a) + 1) <= 2^23 * 2^scale(b)
            lemma_mul_strict_inequality(
                significand(a) as int,
                2 * HIDDEN_BIT,
                pow2(scale(a)) as int,
            );
            lemma_pow2_adds(1, scale(a));
            lemma2_to64();
            assert(2 * HIDDEN_BIT * pow2(scale(a)) == HIDDEN_BIT * pow2(1 + scale(a)))
                by (nonlinear_arith)
                requires
                    pow2(1 + scale(a)) == 2 * pow2(scale(a)),
            ;
            if 1 + scale(a) < scale(b) {
                lemma_pow2_strictly_increases(1 + scale(a), scale(b));
            }
            lemma_mul_inequality(
                pow2(1 + scale(a)) as int,
                pow2(scale(b)) as int,
                HIDDEN_BIT as int,
            );
            lemma_mul_is_commutative(HIDDEN_BIT as int, pow2(scale(b)) as int);
            lemma_mul_is_commutative(HIDDEN_BIT as int, pow2(1 + scale(a)) as int);
        }
    }
}

/// The number 1 is 2^149 units.
pub proof fn lemma_size_of_one()
    ensures
        size(ONE) == pow2(149),
        size(NEG_ONE) == pow2(149),
        value(ONE) == pow2(149),
        value(NEG_ONE) == -pow2(149),
{
    lemma2_to64();
    lemma_pow2_adds(23, 126);
    assert(exponent_field(ONE) == 127 && fraction_field(ONE) == 0);
    assert(exponent_field(NEG_ONE) == 127 && fraction_field(NEG_ONE) == 0);
}

/// Whatever goes in, what `clamped` gives lies between -1 and 1, unless it is
/// a NaN.
pub proof fn lemma_clamped_in_range(x: u32)
    requires
        !is_nan(x),
    ensures
        !is_nan(clamped(x)),
        value(NEG_ONE) <= value(clamped(x)) <= value(ONE),
{
    lemma_size_of_one();
    lemma_pow2_pos(149);
}

/// Limits a pattern to the range from -1 to 1.
pub fn clamp_unit(x: u32) -> (r: u32)
    ensures
        r == clamped(x),
{
    let negative = x >= SIGN_BIT;
    let m: u32 = if negative { x - SIGN_BIT } else { x };
    if m > INFINITY || m <= ONE {
        proof {
            if m < ONE {
                lemma_size_increases(x, ONE);
            }
            if m <= INFINITY {
                assert(m == ONE ==> size(x) == size(ONE));
                lemma_size_of_one();
            }
        }
        x
    } else {
        proof {
            lemma_size_increases(ONE, x);
            lemma_size_of_one();
        }
        if negative { NEG_ONE } else { ONE }
    }
}

} // verus!
