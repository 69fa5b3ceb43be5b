//! Why the rounded pattern is the right one: no binary32 number lies nearer
//! to the exact magnitude, and of two that lie equally near the one with the
//! even pattern is taken.

use vstd::prelude::*;
use vstd::arithmetic::div_mod::{
    lemma_fundamental_div_mod, lemma_fundamental_div_mod_converse, lemma_mod_pos_bound,
};
use vstd::arithmetic::power2::{
    lemma2_to64, lemma_pow2_adds, lemma_pow2_pos, lemma_pow2_unfold, pow2,
};
use crate::arith::{product, sum};
use crate::binary32::{
    HIDDEN_BIT, INFINITY, SIGN_BIT, exponent_field, fraction_field, is_finite, is_negative,
    lemma_size_increases, magnitude, scale, significand, size, value, with_sign,
};
use crate::rounding::{
    bit_length, distance, grid_quotient, lemma_bit_length_bounds, lemma_magnitude_fields,
    lemma_pow2_increases, nearest_even_quotient, rounded_magnitude, spacing,
};

verus! {

/// How far the finite pattern `y` lies from `n * 2^exp` units. Where `exp` is
/// negative the distance is counted in the finer units of `2^exp`, so that it
/// is whole.
pub open spec fn miss(y: u32, n: nat, exp: int) -> nat {
    if exp >= 0 {
        distance(size(y) - n * pow2(exp as nat))
    } else {
        distance(size(y) * pow2((-exp) as nat) - n)
    }
}

/// A positive factor scales the distance from zero.
pub proof fn lemma_distance_scaled(v: int, u: nat)
    ensures
        distance(v * u) == distance(v) * u,
{
    assert(distance(v * u) == distance(v) * u) by (nonlinear_arith)
        requires
            u >= 0,
            distance(v) == if v < 0 { -v } else { v },
            distance(v * u) == if v * u < 0 { -(v * u) } else { v * u },
    ;
}

/// No multiple of the divisor is nearer to the number than the rounded
/// quotient's, and where another is as near, the rounded quotient is even.
pub proof fn lemma_quotient_is_nearest(n: nat, d: nat, t: nat)
    requires
        d > 0,
    ensures
        distance(nearest_even_quotient(n, d) * d - n) <= distance(t * d - n),
        distance(nearest_even_quotient(n, d) * d - n) == distance(t * d - n)
            && t != nearest_even_quotient(n, d) ==> nearest_even_quotient(n, d) % 2 == 0,
{
    let k = n / d;
    let r = n % d;
    let q = nearest_even_quotient(n, d);
    lemma_fundamental_div_mod(n as int, d as int);
    lemma_mod_pos_bound(n as int, d as int);
    assert(q * d - n == if q == k { -r } else { d - r }) by (nonlinear_arith)
        requires
            n == d * k + r,
            q == k || q == k + 1,
    ;
    if t <= k {
        assert(t * d <= n - r && (t < k ==> t * d <= n - r - d)) by (nonlinear_arith)
            requires
                n == d * k + r,
                t <= k,
                d > 0,
        ;
    } else {
        assert(t * d >= n - r + d && (t > k + 1 ==> t * d >= n - r + 2 * d)) by (nonlinear_arith)
            requires
                n == d * k + r,
                t > k,
                d > 0,
        ;
    }
}

/// The rounded quotient fits in 25 bits, and where the spacing is above one
/// unit it has its 24th bit set.
pub proof fn lemma_quotient_range(n: nat, exp: int)
    requires
        n > 0,
    ensures
        grid_quotient(n, exp) <= 0x100_0000,
        spacing(n, exp) > 0 ==> grid_quotient(n, exp) >= 0x80_0000,
{
    let len = bit_length(n);
    let j = spacing(n, exp);
    lemma_bit_length_bounds(n);
    lemma2_to64();
    if exp >= j {
        let e = (exp - j) as nat;
        lemma_pow2_pos(e);
        lemma_pow2_adds(len, e);
        lemma_pow2_adds((len - 1) as nat, e);
        lemma_pow2_increases(len + e, 24);
        assert(n * pow2(e) < pow2(len) * pow2(e) && n * pow2(e) >= pow2((len - 1) as nat) * pow2(e))
            by (nonlinear_arith)
            requires
                pow2((len - 1) as nat) <= n < pow2(len),
                pow2(e) > 0,
        ;
    } else {
        let s = (j - exp) as nat;
        let d = pow2(s);
        let k = n / d;
        let r = n % d;
        lemma_pow2_pos(s);
        lemma_fundamental_div_mod(n as int, d as int);
        lemma_mod_pos_bound(n as int, d as int);
        lemma_pow2_adds(24, s);
        lemma_pow2_increases(len, 24 + s);
        assert(k < 0x100_0000) by (nonlinear_arith)
            requires
                n == d * k + r,
                r >= 0,
                n < 0x100_0000 * d,
                d > 0,
        ;
        if j > 0 {
            lemma_pow2_adds(23, s);
            assert(k >= 0x80_0000) by (nonlinear_arith)
                requires
                    n == d * k + r,
                    r < d,
                    n >= 0x80_0000 * d,
                    d > 0,
            ;
        }
    }
}

/// The size of the pattern that a spacing and a quotient make.
pub proof fn lemma_size_of_packed(j: nat, q: nat)
    requires
        q <= 0x100_0000,
        j > 0 ==> q >= 0x80_0000,
        j * HIDDEN_BIT + q < INFINITY,
    ensures
        size((j * HIDDEN_BIT + q) as u32) == q * pow2(j),
{
    let p = (j * HIDDEN_BIT + q) as u32;
    lemma2_to64();
    assert(magnitude(p) == p);
    if q < 0x80_0000 {
        lemma_fundamental_div_mod_converse(p as int, HIDDEN_BIT as int, j as int, q as int);
        assert(exponent_field(p) == 0 && fraction_field(p) == q);
    } else if q < 0x100_0000 {
        lemma_fundamental_div_mod_converse(
            p as int,
            HIDDEN_BIT as int,
            (j + 1) as int,
            q - HIDDEN_BIT,
        );
        assert(exponent_field(p) == j + 1 && fraction_field(p) == q - HIDDEN_BIT);
        assert(significand(p) == q && scale(p) == j);
    } else {
        lemma_fundamental_div_mod_converse(p as int, HIDDEN_BIT as int, (j + 2) as int, 0);
        assert(exponent_field(p) == j + 2 && fraction_field(p) == 0);
        assert(significand(p) == HIDDEN_BIT && scale(p) == j + 1);
        lemma_pow2_unfold(j + 1);
        assert(HIDDEN_BIT * pow2(j + 1) == q * pow2(j)) by (nonlinear_arith)
            requires
                pow2(j + 1) == 2 * pow2(j),
                HIDDEN_BIT == 0x80_0000,
                q == 0x100_0000,
        ;
    }
}

/// Two finite numbers of one size have one magnitude pattern.
pub proof fn lemma_size_tells_magnitude(a: u32, b: u32)
    requires
        is_finite(a),
        is_finite(b),
        size(a) == size(b),
    ensures
        magnitude(a) == magnitude(b),
{
    if magnitude(a) < magnitude(b) {
        lemma_size_increases(a, b);
    }
    if magnitude(b) < magnitude(a) {
        lemma_size_increases(b, a);
    }
}

/// Rounding gives a nearest binary32 number: no finite pattern lies nearer
/// to the exact magnitude than the rounded one. Where another lies as near,
/// the rounded pattern is the even one of the two.
pub proof fn lemma_rounded_is_nearest(n: nat, exp: int, y: u32)
    requires
        is_finite(y),
        rounded_magnitude(n, exp) != INFINITY,
    ensures
        miss(rounded_magnitude(n, exp), n, exp) <= miss(y, n, exp),
        miss(rounded_magnitude(n, exp), n, exp) == miss(y, n, exp) && magnitude(y)
            != rounded_magnitude(n, exp) ==> rounded_magnitude(n, exp) % 2 == 0,
{
    let r = rounded_magnitude(n, exp);
    lemma2_to64();
    if n == 0 {
        assert(significand(0) == 0);
        assert(size(0) == 0) by (nonlinear_arith)
            requires
                size(0) == 0 * pow2(scale(0)),
        ;
        assert(n * pow2((if exp >= 0 { exp } else { 0 }) as nat) == 0) by (nonlinear_arith)
            requires
                n == 0,
        ;
        assert(miss(r, n, exp) == 0) by (nonlinear_arith)
            requires
                size(r) == 0,
                n == 0,
                miss(r, n, exp) == if exp >= 0 {
                    distance(size(r) - n * pow2(exp as nat))
                } else {
                    distance(size(r) * pow2((-exp) as nat) - n)
                },
                distance(0) == 0,
        ;
    } else {
        let j = spacing(n, exp);
        let q = grid_quotient(n, exp);
        let len = bit_length(n);
        lemma_quotient_range(n, exp);
        lemma_size_of_packed(j, q);
        lemma_bit_length_bounds(n);
        lemma_magnitude_fields(y);
        let lift: nat = if exp < 0 { (-exp) as nat } else { 0 };
        let a = pow2(lift);
        let u = pow2((exp + lift) as nat);
        let m = significand(y);
        let c = scale(y);
        lemma_pow2_pos(lift);
        lemma_pow2_pos((exp + lift) as nat);
        lemma_pow2_pos(j);
        lemma_pow2_pos(c);
        // both distances, counted in the finer of the two units
        assert(miss(r, n, exp) == distance(size(r) * a - n * u) && miss(y, n, exp) == distance(
            size(y) * a - n * u,
        )) by (nonlinear_arith)
            requires
                exp >= 0 ==> a == 1 && u == pow2(exp as nat),
                exp < 0 ==> u == 1 && a == pow2((-exp) as nat),
                miss(r, n, exp) == if exp >= 0 {
                    distance(size(r) - n * pow2(exp as nat))
                } else {
                    distance(size(r) * pow2((-exp) as nat) - n)
                },
                miss(y, n, exp) == if exp >= 0 {
                    distance(size(y) - n * pow2(exp as nat))
                } else {
                    distance(size(y) * pow2((-exp) as nat) - n)
                },
        ;
        if exp >= j {
            let e = (exp - j) as nat;
            lemma_pow2_adds(e, j);
            assert(size(r) * a - n * u == 0) by (nonlinear_arith)
                requires
                    size(r) == q * pow2(j),
                    q == n * pow2(e),
                    pow2(e + j) == pow2(e) * pow2(j),
                    u == pow2(e + j),
                    a == 1,
            ;
            if miss(y, n, exp) == 0 {
                assert(size(y) == size(r)) by (nonlinear_arith)
                    requires
                        size(r) * a - n * u == 0,
                        distance(size(y) * a - n * u) == 0,
                        a == 1,
                ;
                lemma_size_tells_magnitude(y, r);
            }
        } else {
            let s = (j - exp) as nat;
            let d = pow2(s);
            lemma_pow2_pos(s);
            lemma_pow2_adds(j, lift);
            lemma_pow2_adds(s, (exp + lift) as nat);
            assert(pow2(j) * a == d * u);
            let near = distance(q * d - n);
            assert(distance(size(r) * a - n * u) == near * u) by (nonlinear_arith)
                requires
                    size(r) == q * pow2(j),
                    pow2(j) * a == d * u,
                    near == distance(q * d - n),
                    u > 0,
            ;
            if c >= j {
                let t = m * pow2((c - j) as nat);
                lemma_pow2_adds((c - j) as nat, j);
                lemma_quotient_is_nearest(n, d, t);
                let far = distance(t * d - n);
                assert(size(y) == t * pow2(j)) by (nonlinear_arith)
                    requires
                        size(y) == m * pow2(c),
                        pow2(c) == pow2((c - j) as nat) * pow2(j),
                        t == m * pow2((c - j) as nat),
                ;
                assert(size(y) * a == (t * d) * u) by (nonlinear_arith)
                    requires
                        size(y) == t * pow2(j),
                        pow2(j) * a == d * u,
                ;
                assert(size(y) * a - n * u == (t * d - n) * u) by (nonlinear_arith)
                    requires
                        size(y) * a == (t * d) * u,
                ;
                lemma_distance_scaled(t * d - n, u);
                assert(near * u <= far * u && (near * u == far * u ==> near == far))
                    by (nonlinear_arith)
                    requires
                        near <= far,
                        u > 0,
                ;
                if t == q {
                    assert(size(y) == size(r)) by (nonlinear_arith)
                        requires
                            size(y) == m * pow2(c),
                            pow2(c) == pow2((c - j) as nat) * pow2(j),
                            t == m * pow2((c - j) as nat),
                            size(r) == q * pow2(j),
                            t == q,
                    ;
                    lemma_size_tells_magnitude(y, r);
                }
                assert(q % 2 == 0 ==> r % 2 == 0) by {
                    assert(r == j * HIDDEN_BIT + q);
                    assert((j * 0x80_0000 + q) % 2 == q % 2) by (nonlinear_arith);
                }
            } else {
                // y lies below the binade of the magnitude, whose lower end
                // is a multiple of the spacing and lies between the two
                let edge: nat = 0x80_0000;
                lemma_pow2_adds(23, s);
                lemma_pow2_increases(c + 1, j);
                lemma_pow2_unfold(c + 1);
                lemma_quotient_is_nearest(n, d, edge);
                assert(n >= edge * d);
                assert(size(y) * a < edge * (d * u)) by (nonlinear_arith)
                    requires
                        size(y) == m * pow2(c),
                        m < 0x100_0000,
                        2 * pow2(c) <= pow2(j),
                        pow2(j) * a == d * u,
                        edge == 0x80_0000,
                        a > 0,
                        pow2(c) > 0,
                ;
                assert(distance(size(y) * a - n * u) > distance(edge * d - n) * u)
                    by (nonlinear_arith)
                    requires
                        size(y) * a < edge * (d * u),
                        n >= edge * d,
                        u > 0,
                ;
                assert(near * u <= distance(edge * d - n) * u) by (nonlinear_arith)
                    requires
                        near <= distance(edge * d - n),
                        u > 0,
                ;
            }
        }
    }
}

/// Rounding gives the infinity exactly where the magnitude reaches the
/// midpoint between the largest finite number, `(2^24 - 1) * 2^253` units, and
/// the power of two above it.
pub proof fn lemma_rounded_overflows(n: nat, exp: int)
    ensures
        rounded_magnitude(n, exp) == INFINITY <==> if exp >= 0 {
            2 * (n * pow2(exp as nat)) >= 0x1ff_ffff * pow2(253)
        } else {
            2 * n >= 0x1ff_ffff * (pow2(253) * pow2((-exp) as nat))
        },
{
    lemma2_to64();
    let top = pow2(253);
    lemma_pow2_pos(253);
    let lift: nat = if exp < 0 { (-exp) as nat } else { 0 };
    let a = pow2(lift);
    let u = pow2((exp + lift) as nat);
    lemma_pow2_pos(lift);
    lemma_pow2_pos((exp + lift) as nat);
    let over = 2 * (n * u) >= 0x1ff_ffff * (top * a);
    assert(over <==> if exp >= 0 {
        2 * (n * pow2(exp as nat)) >= 0x1ff_ffff * pow2(253)
    } else {
        2 * n >= 0x1ff_ffff * (pow2(253) * pow2((-exp) as nat))
    }) by (nonlinear_arith)
        requires
            over == (2 * (n * u) >= 0x1ff_ffff * (top * a)),
            top == pow2(253),
            exp >= 0 ==> a == 1 && u == pow2(exp as nat),
            exp < 0 ==> u == 1 && a == pow2((-exp) as nat),
    ;
    if n == 0 {
        assert(!over) by (nonlinear_arith)
            requires
                over == (2 * (n * u) >= 0x1ff_ffff * (top * a)),
                n == 0,
                top > 0,
                a > 0,
        ;
    } else {
        let len = bit_length(n);
        let j = spacing(n, exp);
        let q = grid_quotient(n, exp);
        lemma_bit_length_bounds(n);
        lemma_quotient_range(n, exp);
        let x = n * u;
        assert(pow2((len - 1) as nat) * u <= x < pow2(len) * u) by (nonlinear_arith)
            requires
                pow2((len - 1) as nat) <= n < pow2(len),
                x == n * u,
                u > 0,
        ;
        if j == 0 {
            // below 2^24 units
            lemma_pow2_adds(len, (exp + lift) as nat);
            lemma_pow2_adds(24, lift);
            lemma_pow2_increases((len + exp + lift) as nat, 24 + lift);
            lemma_pow2_increases(25, 253);
            assert(!over) by (nonlinear_arith)
                requires
                    over == (2 * x >= 0x1ff_ffff * (top * a)),
                    x < 0x100_0000 * a,
                    top >= 0x200_0000,
                    a > 0,
            ;
        } else {
            // from 2^(23 + j) units on, below 2^(24 + j)
            lemma_pow2_adds((len - 1) as nat, (exp + lift) as nat);
            lemma_pow2_adds(len, (exp + lift) as nat);
            lemma_pow2_adds(23 + j, lift);
            lemma_pow2_adds(24 + j, lift);
            assert(pow2(23 + j) * a <= x < pow2(24 + j) * a);
            if j >= 254 {
                lemma_pow2_increases(277, 23 + j);
                lemma_pow2_adds(24, 253);
                lemma_pow2_unfold(277);
                assert(j * HIDDEN_BIT + q >= INFINITY) by (nonlinear_arith)
                    requires
                        j >= 254,
                        q >= 0x80_0000,
                        HIDDEN_BIT == 0x80_0000,
                        INFINITY == 0x7f80_0000,
                ;
                assert(over) by (nonlinear_arith)
                    requires
                        over == (2 * x >= 0x1ff_ffff * (top * a)),
                        x >= pow2(23 + j) * a,
                        pow2(23 + j) >= pow2(277),
                        pow2(277) == 0x100_0000 * top,
                        a > 0,
                        top > 0,
                ;
            } else if j <= 252 {
                lemma_pow2_increases(24 + j, 276);
                lemma_pow2_adds(23, 253);
                assert(j * HIDDEN_BIT + q < INFINITY) by (nonlinear_arith)
                    requires
                        j <= 252,
                        q <= 0x100_0000,
                        HIDDEN_BIT == 0x80_0000,
                        INFINITY == 0x7f80_0000,
                ;
                assert(!over) by (nonlinear_arith)
                    requires
                        over == (2 * x >= 0x1ff_ffff * (top * a)),
                        x < pow2(24 + j) * a,
                        pow2(24 + j) <= pow2(276),
                        pow2(276) == 0x80_0000 * top,
                        a > 0,
                        top > 0,
                ;
            } else {
                // the last binade: the infinity comes with the quotient 2^24
                assert(j * HIDDEN_BIT + q >= INFINITY <==> q == 0x100_0000) by (nonlinear_arith)
                    requires
                        j == 253,
                        q <= 0x100_0000,
                        HIDDEN_BIT == 0x80_0000,
                        INFINITY == 0x7f80_0000,
                ;
                if exp >= j {
                    let e = (exp - j) as nat;
                    lemma_pow2_adds(len, e);
                    lemma_pow2_adds(e, 253);
                    lemma_pow2_pos(e);
                    assert(q < 0x100_0000) by (nonlinear_arith)
                        requires
                            q == n * pow2(e),
                            n < pow2(len),
                            pow2(len) * pow2(e) == 0x100_0000,
                            pow2(e) > 0,
                    ;
                    assert(!over) by (nonlinear_arith)
                        requires
                            over == (2 * x >= 0x1ff_ffff * (top * a)),
                            x == n * u,
                            u == pow2(e) * top,
                            q == n * pow2(e),
                            q < 0x100_0000,
                            a == 1,
                            top > 0,
                    ;
                } else {
                    let s = (j - exp) as nat;
                    let d = pow2(s);
                    let k = n / d;
                    let r = n % d;
                    lemma_pow2_pos(s);
                    lemma_pow2_adds(j, lift);
                    lemma_pow2_adds(s, (exp + lift) as nat);
                    assert(top * a == d * u);
                    lemma_fundamental_div_mod(n as int, d as int);
                    lemma_mod_pos_bound(n as int, d as int);
                    lemma_pow2_adds(24, s);
                    assert(k < 0x100_0000) by (nonlinear_arith)
                        requires
                            n == d * k + r,
                            r >= 0,
                            n < 0x100_0000 * d,
                            d > 0,
                    ;
                    assert(q == 0x100_0000 <==> 2 * n >= 0x1ff_ffff * d) by (nonlinear_arith)
                        requires
                            n == d * k + r,
                            0 <= r < d,
                            k < 0x100_0000,
                            q == if 2 * r < d || (2 * r == d && k % 2 == 0) { k } else { k + 1 },
                    ;
                    assert(over <==> 2 * n >= 0x1ff_ffff * d) by (nonlinear_arith)
                        requires
                            over == (2 * x >= 0x1ff_ffff * (top * a)),
                            x == n * u,
                            top * a == d * u,
                            u > 0,
                    ;
                }
            }
        }
    }
}

/// The value of a pattern made of a sign and a finite magnitude.
pub proof fn lemma_value_with_sign(negative: bool, r: u32)
    requires
        r < INFINITY,
    ensures
        is_finite(with_sign(negative, r)),
        value(with_sign(negative, r)) == if negative { -(size(r) as int) } else { size(r) as int },
{
    assert(magnitude(with_sign(negative, r)) == r);
}

/// A finite sum is a binary32 number nearest to the exact sum of the two
/// values: no finite pattern `y` has a value nearer to it.
pub proof fn lemma_sum_is_nearest(a: u32, b: u32, y: u32)
    requires
        is_finite(a),
        is_finite(b),
        is_finite(y),
        is_finite(sum(a, b)),
    ensures
        distance(value(sum(a, b)) - (value(a) + value(b))) <= distance(
            value(y) - (value(a) + value(b)),
        ),
{
    lemma2_to64();
    let total = value(a) + value(b);
    assert(significand(0) == 0 && significand(SIGN_BIT) == 0);
    assert(size(0) == 0 && size(SIGN_BIT) == 0) by (nonlinear_arith)
        requires
            size(0) == 0 * pow2(scale(0)),
            size(SIGN_BIT) == 0 * pow2(scale(SIGN_BIT)),
    ;
    if total != 0 {
        let n = distance(total);
        let r = rounded_magnitude(n, 0);
        assert(r != INFINITY) by {
            if r == INFINITY {
                assert(magnitude(with_sign(total < 0, INFINITY)) == INFINITY);
            }
        }
        assert(r < INFINITY) by {
            lemma_quotient_range(n, 0);
        }
        lemma_value_with_sign(total < 0, r);
        lemma_rounded_is_nearest(n, 0, y);
        lemma_rounded_is_nearest(n, 0, 0);
        assert(n * pow2(0) == n);
    }
}

/// A finite product is a binary32 number nearest to the exact product of the
/// two values: no finite pattern `y` has a value nearer to it. The product of
/// two values counts in units of 2^-149 times 2^-149, so the values held
/// against it are brought to that unit.
pub proof fn lemma_product_is_nearest(a: u32, b: u32, y: u32)
    requires
        is_finite(a),
        is_finite(b),
        is_finite(y),
        is_finite(product(a, b)),
    ensures
        distance(value(product(a, b)) * pow2(149) - value(a) * value(b)) <= distance(
            value(y) * pow2(149) - value(a) * value(b),
        ),
{
    lemma2_to64();
    lemma_pow2_pos(149);
    let fine = pow2(149);
    let n = size(a) * size(b);
    let negative = is_negative(a) != is_negative(b);
    let exact = value(a) * value(b);
    assert(exact == if negative { -(n as int) } else { n as int }) by (nonlinear_arith)
        requires
            exact == value(a) * value(b),
            n == size(a) * size(b),
            negative == (is_negative(a) != is_negative(b)),
            value(a) == if is_negative(a) { -(size(a) as int) } else { size(a) as int },
            value(b) == if is_negative(b) { -(size(b) as int) } else { size(b) as int },
    ;
    let r = rounded_magnitude(n, -149);
    assert(r != INFINITY) by {
        if r == INFINITY {
            assert(magnitude(with_sign(negative, INFINITY)) == INFINITY);
        }
    }
    assert(r < INFINITY) by {
        if n > 0 {
            lemma_quotient_range(n, -149);
        }
    }
    lemma_value_with_sign(negative, r);
    lemma_rounded_is_nearest(n, -149, y);
    lemma_rounded_is_nearest(n, -149, 0);
    assert(significand(0) == 0);
    assert(size(0) == 0) by (nonlinear_arith)
        requires
            size(0) == 0 * pow2(scale(0)),
    ;
    let near = miss(r, n, -149);
    let far = miss(y, n, -149);
    let zero = miss(0, n, -149);
    assert(distance(value(product(a, b)) * fine - exact) == near) by (nonlinear_arith)
        requires
            value(product(a, b)) == if negative { -(size(r) as int) } else { size(r) as int },
            exact == if negative { -(n as int) } else { n as int },
            near == distance(size(r) * fine - n),
            distance(size(r) * fine - n) == if size(r) * fine - n < 0 {
                -(size(r) * fine - n)
            } else {
                size(r) * fine - n
            },
            distance(value(product(a, b)) * fine - exact) == if value(product(a, b)) * fine
                - exact < 0 {
                -(value(product(a, b)) * fine - exact)
            } else {
                value(product(a, b)) * fine - exact
            },
    ;
    assert(distance(value(y) * fine - exact) >= if is_negative(y) == negative { far } else { zero })
        by (nonlinear_arith)
        requires
            value(y) == if is_negative(y) { -(size(y) as int) } else { size(y) as int },
            exact == if negative { -(n as int) } else { n as int },
            far == distance(size(y) * fine - n),
            zero == distance(size(0) * fine - n),
            size(0) == 0,
            fine > 0,
            distance(size(y) * fine - n) == if size(y) * fine - n < 0 {
                -(size(y) * fine - n)
            } else {
                size(y) * fine - n
            },
            distance(size(0) * fine - n) == if size(0) * fine - n < 0 {
                -(size(0) * fine - n)
            } else {
                size(0) * fine - n
            },
            distance(value(y) * fine - exact) == if value(y) * fine - exact < 0 {
                -(value(y) * fine - exact)
            } else {
                value(y) * fine - exact
            },
    ;
}

} // verus!
