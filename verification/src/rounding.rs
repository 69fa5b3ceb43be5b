//! Rounding a magnitude to the nearest binary32 number, ties to even.
//!
//! A magnitude comes as a natural number `n` and an exponent `exp`, and
//! stands for `n * 2^exp` units of 2^-149. The binary32 numbers are spaced
//! 2^j units apart where `j` grows with the magnitude; rounding divides by
//! that spacing and keeps the nearest whole quotient.

use vstd::prelude::*;
use vstd::arithmetic::div_mod::{
    lemma_basic_div, lemma_div_is_ordered_by_denominator, lemma_fundamental_div_mod,
    lemma_fundamental_div_mod_converse, lemma_small_mod,
};
use vstd::arithmetic::mul::{
    lemma_mul_inequality, lemma_mul_is_associative, lemma_mul_is_commutative,
    lemma_mul_strict_inequality,
};
use vstd::arithmetic::power2::{
    lemma2_to64, lemma2_to64_rest, lemma_pow2_adds, lemma_pow2_pos, lemma_pow2_strictly_increases,
    lemma_pow2_unfold, pow2,
};
use vstd::bits::lemma_u64_shl_is_mul;
use crate::binary32::{
    HIDDEN_BIT, INFINITY, exponent_field, fraction_field, is_finite, magnitude, scale, significand,
};

verus! {

/// The distance of an integer from zero.
pub open spec fn distance(v: int) -> nat {
    if v < 0 {
        (-v) as nat
    } else {
        v as nat
    }
}

/// The number of binary digits of `n`: 0 for 0, and else the `k` with
/// `2^(k-1) <= n < 2^k`.
pub open spec fn bit_length(n: nat) -> nat
    decreases n,
{
    if n == 0 {
        0
    } else {
        1 + bit_length(n / 2)
    }
}

/// `n / d` rounded to the nearest whole number, a tie going to the even one.
pub open spec fn nearest_even_quotient(n: nat, d: nat) -> nat
    recommends
        d > 0,
{
    let q = n / d;
    let r = n % d;
    if 2 * r < d || (2 * r == d && q % 2 == 0) {
        q
    } else {
        q + 1
    }
}

/// The exponent `j` of the spacing of the binary32 numbers around
/// `n * 2^exp`: the least `j >= 0` with `n * 2^exp < 2^(24 + j)`.
pub open spec fn spacing(n: nat, exp: int) -> nat {
    if bit_length(n) + exp > 24 {
        (bit_length(n) + exp - 24) as nat
    } else {
        0
    }
}

/// The magnitude `n * 2^exp` divided by the spacing around it and rounded to
/// a whole number, a tie going to the even one. Where the spacing divides the
/// magnitude nothing is rounded.
pub open spec fn grid_quotient(n: nat, exp: int) -> nat {
    let j = spacing(n, exp);
    if exp >= j {
        n * pow2((exp - j) as nat)
    } else {
        nearest_even_quotient(n, pow2((j - exp) as nat))
    }
}

/// The magnitude pattern of the binary32 number nearest to `n * 2^exp` units,
/// a tie going to the even significand, and the infinity where the rounded
/// number is out of range.
///
/// With spacing `2^j` the quotient `q` of the magnitude by the spacing is at
/// most 2^24, and the pattern is `j * 2^23 + q`: a quotient below 2^23 occurs
/// with `j == 0` only and is a subnormal or zero, one from 2^23 on carries the
/// hidden bit into the exponent field, and the quotient 2^24 carries once more.
pub open spec fn rounded_magnitude(n: nat, exp: int) -> u32 {
    if n == 0 {
        0
    } else {
        let pattern = spacing(n, exp) * HIDDEN_BIT + grid_quotient(n, exp);
        if pattern >= INFINITY {
            INFINITY
        } else {
            pattern as u32
        }
    }
}

pub proof fn lemma_pow2_increases(a: nat, b: nat)
    requires
        a <= b,
    ensures
        pow2(a) <= pow2(b),
{
    if a < b {
        lemma_pow2_strictly_increases(a, b);
    }
}

/// A positive number lies between the powers of two that its length names.
pub proof fn lemma_bit_length_bounds(n: nat)
    requires
        n > 0,
    ensures
        bit_length(n) > 0,
        pow2((bit_length(n) - 1) as nat) <= n < pow2(bit_length(n)),
    decreases n,
{
    if n == 1 {
        lemma2_to64();
        assert(bit_length(0) == 0);
        assert(bit_length(1) == 1 + bit_length(0));
    } else {
        lemma_bit_length_bounds(n / 2);
        lemma_pow2_unfold(bit_length(n));
        lemma_pow2_unfold((bit_length(n) - 1) as nat);
    }
}

/// The length is the only `k` whose powers of two enclose the number.
pub proof fn lemma_bit_length_unique(n: nat, k: nat)
    requires
        k > 0,
        pow2((k - 1) as nat) <= n < pow2(k),
    ensures
        bit_length(n) == k,
{
    lemma_pow2_pos((k - 1) as nat);
    lemma_bit_length_bounds(n);
    let len = bit_length(n);
    if len < k {
        lemma_pow2_increases(len, (k - 1) as nat);
    }
    if len > k {
        lemma_pow2_increases(k, (len - 1) as nat);
    }
}

/// A number below `2^k` has at most `k` digits.
pub proof fn lemma_bit_length_below(n: nat, k: nat)
    requires
        n < pow2(k),
    ensures
        bit_length(n) <= k,
{
    if n > 0 {
        lemma_bit_length_bounds(n);
        if bit_length(n) > k {
            lemma_pow2_increases(k, (bit_length(n) - 1) as nat);
        }
    }
}

/// Multiplying by `2^m` adds `m` digits.
pub proof fn lemma_bit_length_shifted(n: nat, m: nat)
    requires
        n > 0,
    ensures
        bit_length(n * pow2(m)) == bit_length(n) + m,
{
    let len = bit_length(n);
    lemma_bit_length_bounds(n);
    lemma_pow2_pos(m);
    lemma_pow2_adds((len - 1) as nat, m);
    lemma_pow2_adds(len, m);
    lemma_mul_inequality(pow2((len - 1) as nat) as int, n as int, pow2(m) as int);
    lemma_mul_strict_inequality(n as int, pow2(len) as int, pow2(m) as int);
    lemma_bit_length_unique(n * pow2(m), len + m);
}

/// A whole multiple of the divisor is divided without rounding.
pub proof fn lemma_quotient_exact(k: nat, d: nat)
    requires
        d > 0,
    ensures
        nearest_even_quotient(k * d, d) == k,
{
    lemma_fundamental_div_mod_converse((k * d) as int, d as int, k as int, 0);
}

/// The quotient of `k * d + r` is `k` where `r` is under half of `d`, and
/// `k + 1` where it is over half.
pub proof fn lemma_quotient_near(k: nat, r: nat, d: nat)
    requires
        r < d,
        2 * r != d,
    ensures
        nearest_even_quotient(k * d + r, d) == if 2 * r < d { k } else { k + 1 },
{
    lemma_fundamental_div_mod_converse((k * d + r) as int, d as int, k as int, r as int);
}

/// A factor common to the number and the divisor changes nothing.
pub proof fn lemma_quotient_scaled(n: nat, d: nat, c: nat)
    requires
        d > 0,
        c > 0,
    ensures
        nearest_even_quotient(n * c, d * c) == nearest_even_quotient(n, d),
{
    let q = n / d;
    let r = n % d;
    assert(n == q * d + r) by {
        lemma_fundamental_div_mod(n as int, d as int);
        lemma_mul_is_commutative(q as int, d as int);
    }
    assert(n * c == q * (d * c) + r * c) by (nonlinear_arith)
        requires
            n == q * d + r,
    ;
    assert(r * c < d * c) by (nonlinear_arith)
        requires
            r < d,
            c > 0,
    ;
    assert(d * c > 0) by (nonlinear_arith)
        requires
            d > 0,
            c > 0,
    ;
    lemma_fundamental_div_mod_converse((n * c) as int, (d * c) as int, q as int, (r * c) as int);
    assert(2 * (r * c) < d * c <==> 2 * r < d) by (nonlinear_arith)
        requires
            c > 0,
    ;
    assert(2 * (r * c) == d * c <==> 2 * r == d) by (nonlinear_arith)
        requires
            c > 0,
    ;
}

/// A power of two taken out of the number and put into the exponent leaves
/// the rounded pattern as it is.
pub proof fn lemma_rounded_rescaled(n: nat, m: nat, exp: int)
    ensures
        rounded_magnitude(n * pow2(m), exp) == rounded_magnitude(n, exp + m),
{
    lemma_pow2_pos(m);
    if n == 0 {
        assert(n * pow2(m) == 0) by (nonlinear_arith)
            requires
                n == 0,
        ;
    } else {
        let big = n * pow2(m);
        assert(big > 0) by (nonlinear_arith)
            requires
                n > 0,
                pow2(m) > 0,
                big == n * pow2(m),
        ;
        lemma_bit_length_shifted(n, m);
        let j = spacing(n, exp + m);
        assert(j == spacing(big, exp));
        if exp >= j {
            let e = (exp - j) as nat;
            lemma_pow2_adds(m, e);
            lemma_mul_is_associative(n as int, pow2(m) as int, pow2(e) as int);
        } else if exp + m >= j {
            let e = (exp + m - j) as nat;
            let s = (j - exp) as nat;
            lemma_pow2_adds(e, s);
            lemma_mul_is_associative(n as int, pow2(e) as int, pow2(s) as int);
            lemma_pow2_pos(s);
            lemma_quotient_exact(n * pow2(e), pow2(s));
        } else {
            let s = (j - exp - m) as nat;
            lemma_pow2_adds(s, m);
            lemma_pow2_pos(s);
            lemma_quotient_scaled(n, pow2(s), pow2(m));
        }
    }
}

/// The pattern is the sum of its two fields, each at its weight.
pub proof fn lemma_magnitude_fields(x: u32)
    ensures
        magnitude(x) == exponent_field(x) * HIDDEN_BIT + fraction_field(x),
        fraction_field(x) < HIDDEN_BIT,
        exponent_field(x) <= 255,
        significand(x) < 2 * HIDDEN_BIT,
        scale(x) <= 254,
        exponent_field(x) > 0 ==> significand(x) >= HIDDEN_BIT,
        is_finite(x) ==> scale(x) <= 253,
{
}

/// A finite binary32 number rounds to itself.
pub proof fn lemma_rounded_exact(x: u32)
    requires
        is_finite(x),
    ensures
        rounded_magnitude(significand(x), scale(x) as int) == magnitude(x),
{
    lemma_magnitude_fields(x);
    lemma2_to64();
    let n = significand(x);
    if n > 0 {
        if exponent_field(x) == 0 {
            lemma_bit_length_below(n, 23);
        } else {
            lemma_bit_length_unique(n, 24);
        }
        assert(spacing(n, scale(x) as int) == scale(x));
        assert(n * pow2(0) == n);
        assert(scale(x) * HIDDEN_BIT + n == magnitude(x)) by (nonlinear_arith)
            requires
                magnitude(x) == exponent_field(x) * HIDDEN_BIT + fraction_field(x),
                n == significand(x),
                significand(x) == if exponent_field(x) == 0 {
                    fraction_field(x)
                } else {
                    (HIDDEN_BIT + fraction_field(x)) as nat
                },
                scale(x) == if exponent_field(x) == 0 {
                    0
                } else {
                    (exponent_field(x) - 1) as nat
                },
        ;
    }
}

/// The number of binary digits of `n`.
pub fn count_bits(n: u64) -> (len: u32)
    ensures
        len == bit_length(n as nat),
        len <= 64,
{
    proof {
        lemma2_to64();
        lemma_bit_length_below(n as nat, 64);
    }
    let mut rest: u64 = n;
    let mut len: u32 = 0;
    while rest != 0
        invariant
            bit_length(n as nat) == len + bit_length(rest as nat),
            bit_length(n as nat) <= 64,
        decreases rest,
    {
        rest = rest / 2;
        len = len + 1;
    }
    len
}

/// Two to the power `e`.
pub fn power_of_two(e: u32) -> (r: u64)
    requires
        e < 64,
    ensures
        r == pow2(e as nat),
{
    proof {
        lemma2_to64();
        lemma_pow2_strictly_increases(e as nat, 64);
        lemma_u64_shl_is_mul(1u64, e as u64);
    }
    1u64 << (e as u64)
}

/// Rounds `n * 2^exp` units to the nearest binary32 magnitude.
pub fn round_to_pattern(n: u64, exp: i32) -> (r: u32)
    ensures
        r == rounded_magnitude(n as nat, exp as int),
        r <= INFINITY,
{
    if n == 0 {
        return 0;
    }
    proof {
        lemma_bit_length_bounds(n as nat);
        lemma2_to64();
        lemma2_to64_rest();
    }
    if exp > 400 {
        assert(spacing(n as nat, exp as int) * HIDDEN_BIT >= INFINITY) by (nonlinear_arith)
            requires
                spacing(n as nat, exp as int) >= 255,
                HIDDEN_BIT == 0x80_0000,
                INFINITY == 0x7f80_0000,
        ;
        return INFINITY;
    }
    if exp < -300 {
        proof {
            let d = pow2((-exp) as nat);
            lemma_bit_length_below(n as nat, 64);
            lemma_pow2_increases(65, (-exp) as nat);
            lemma_pow2_unfold(65);
            lemma_small_mod(n as nat, d);
            lemma_basic_div(n as int, d as int);
        }
        return 0;
    }
    let len: i32 = count_bits(n) as i32;
    let j: i32 = if len + exp > 24 { len + exp - 24 } else { 0 };
    assert(j == spacing(n as nat, exp as int));
    if j >= 255 {
        assert(j * HIDDEN_BIT >= INFINITY) by (nonlinear_arith)
            requires
                j >= 255,
                HIDDEN_BIT == 0x80_0000,
                INFINITY == 0x7f80_0000,
        ;
        return INFINITY;
    }
    let q: u64;
    if exp >= j {
        let shift: u32 = (exp - j) as u32;
        proof {
            // n < 2^len, and len + shift <= 24
            lemma_pow2_pos(shift as nat);
            lemma_mul_strict_inequality(
                n as int,
                pow2(len as nat) as int,
                pow2(shift as nat) as int,
            );
            lemma_pow2_adds(len as nat, shift as nat);
            lemma_pow2_increases((len + shift) as nat, 24);
        }
        q = n * power_of_two(shift);
    } else {
        let s: u32 = (j - exp) as u32;
        if s >= 64 {
            proof {
                let d = pow2(s as nat);
                lemma_pow2_increases(64, s as nat);
                if s >= 65 {
                    lemma_pow2_increases(65, s as nat);
                    lemma_pow2_unfold(65);
                }
                lemma_small_mod(n as nat, d);
                lemma_basic_div(n as int, d as int);
            }
            q = if s == 64 && n > 0x8000_0000_0000_0000 { 1 } else { 0 };
        } else {
            let d: u64 = power_of_two(s);
            proof {
                lemma_pow2_pos((s - 1) as nat);
                lemma_pow2_unfold(s as nat);
                lemma_div_is_ordered_by_denominator(n as int, 2, d as int);
            }
            let k: u64 = n / d;
            let r: u64 = n % d;
            q = if r < d - r || (r == d - r && k % 2 == 0) { k } else { k + 1 };
        }
    }
    let pattern: u64 = (j as u64) * 0x80_0000 + q;
    if pattern >= INFINITY as u64 {
        INFINITY
    } else {
        pattern as u32
    }
}

} // verus!
