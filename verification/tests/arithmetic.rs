//! The arithmetic on bit patterns, held against the machine's own binary32
//! arithmetic.

use rmms_engine::arith::{plus, times};
use rmms_engine::binary32::{clamp_unit, INFINITY, NEG_ONE, ONE, QUIET_NAN, SIGN_BIT};
use rmms_engine::rounding::{count_bits, power_of_two, round_to_pattern};

fn bits(x: f32) -> u32 {
    x.to_bits()
}

/// Equal as patterns, or both a NaN: the machine does not fix which NaN an
/// operation gives.
fn agree(ours: u32, machine: f32) -> bool {
    if machine.is_nan() {
        f32::from_bits(ours).is_nan()
    } else {
        ours == machine.to_bits()
    }
}

fn step(state: &mut u64) -> u32 {
    let mut x: u64 = *state;
    x ^= x << 13;
    x ^= x >> 7;
    x ^= x << 17;
    *state = x;
    (x >> 16) as u32
}

/// A pattern with the given exponent field and random sign and fraction.
fn with_exponent(state: &mut u64, exponent: u32) -> u32 {
    let r: u32 = step(state);
    (r & 0x807f_ffff) | ((exponent & 0xff) << 23)
}

fn against_machine(a: u32, b: u32) {
    let fa: f32 = f32::from_bits(a);
    let fb: f32 = f32::from_bits(b);
    assert!(agree(plus(a, b), fa + fb), "sum of {:#010x} and {:#010x}", a, b);
    assert!(agree(times(a, b), fa * fb), "product of {:#010x} and {:#010x}", a, b);
}

#[test]
fn sums_and_products_of_random_patterns_match_the_machine() {
    let mut state: u64 = 0x9e37_79b9_7f4a_7c15;
    for _ in 0..200_000 {
        let a: u32 = step(&mut state);
        let b: u32 = step(&mut state);
        against_machine(a, b);
    }
}

#[test]
fn sums_of_close_exponents_match_the_machine() {
    let mut state: u64 = 0x0123_4567_89ab_cdef;
    for _ in 0..200_000 {
        let ea: u32 = step(&mut state) % 255;
        let offset: u32 = step(&mut state) % 36;
        let eb: u32 = if ea >= offset { ea - offset } else { 0 };
        let a: u32 = with_exponent(&mut state, ea);
        let b: u32 = with_exponent(&mut state, eb);
        against_machine(a, b);
        against_machine(b, a);
    }
}

#[test]
fn sums_that_cancel_match_the_machine() {
    let mut state: u64 = 0xfeed_face_cafe_beef;
    for _ in 0..200_000 {
        let a: u32 = step(&mut state) & 0x7fff_ffff;
        let nudge: u32 = step(&mut state) % 5;
        let b: u32 = (a.wrapping_add(nudge).wrapping_sub(2) & 0x7fff_ffff) | SIGN_BIT;
        against_machine(a, b);
        against_machine(b, a);
    }
}

#[test]
fn products_near_the_subnormal_range_match_the_machine() {
    let mut state: u64 = 0x1357_9bdf_0246_8ace;
    for _ in 0..200_000 {
        let ea: u32 = step(&mut state) % 160;
        let total: u32 = 95 + step(&mut state) % 40;
        let eb: u32 = if total >= ea { total - ea } else { 0 };
        let a: u32 = with_exponent(&mut state, ea);
        let b: u32 = with_exponent(&mut state, eb);
        against_machine(a, b);
    }
}

#[test]
fn products_near_overflow_match_the_machine() {
    let mut state: u64 = 0x0f1e_2d3c_4b5a_6978;
    for _ in 0..200_000 {
        let ea: u32 = 100 + step(&mut state) % 155;
        let total: u32 = 375 + step(&mut state) % 12;
        let eb: u32 = if total >= ea { (total - ea).min(254) } else { 0 };
        let a: u32 = with_exponent(&mut state, ea);
        let b: u32 = with_exponent(&mut state, eb);
        against_machine(a, b);
    }
}

#[test]
fn subnormals_match_the_machine() {
    let mut state: u64 = 0x2468_ace0_1357_9bdf;
    for _ in 0..100_000 {
        let ea: u32 = step(&mut state) % 3;
        let eb: u32 = step(&mut state) % 3;
        let ec: u32 = 120 + step(&mut state) % 30;
        let a: u32 = with_exponent(&mut state, ea);
        let b: u32 = with_exponent(&mut state, eb);
        against_machine(a, b);
        let c: u32 = with_exponent(&mut state, ec);
        against_machine(a, c);
    }
}

#[test]
fn special_values_match_the_machine() {
    let specials: [u32; 16] = [
        0,
        SIGN_BIT,
        1,
        SIGN_BIT | 1,
        0x007f_ffff,
        0x0080_0000,
        0x7f7f_ffff,
        0xff7f_ffff,
        INFINITY,
        INFINITY | SIGN_BIT,
        QUIET_NAN,
        0x7f80_0001,
        ONE,
        NEG_ONE,
        0x3f00_0000,
        0x4b80_0000,
    ];
    for a in specials {
        for b in specials {
            against_machine(a, b);
        }
    }
}

#[test]
fn a_tie_goes_to_the_even_significand() {
    // 2^24 + 1 lies halfway between 2^24 and 2^24 + 2
    assert_eq!(plus(bits(16_777_216.0), bits(1.0)), bits(16_777_216.0));
    // 2^24 + 3 lies halfway between 2^24 + 2 and 2^24 + 4
    assert_eq!(plus(bits(16_777_218.0), bits(1.0)), bits(16_777_220.0));
    assert_eq!(round_to_pattern(0x100_0001, 149), bits(16_777_216.0));
    assert_eq!(round_to_pattern(0x100_0003, 149), bits(16_777_220.0));
}

#[test]
fn rounding_carries_into_the_exponent() {
    // 2^25 - 1 rounds up to 2^25
    assert_eq!(round_to_pattern(0x1ff_ffff, 149), bits(33_554_432.0));
    // the largest finite number and half a step more overflow
    assert_eq!(round_to_pattern(0x1ff_ffff, 252), INFINITY);
    assert_eq!(round_to_pattern(0xff_ffff, 253), 0x7f7f_ffff);
    assert_eq!(round_to_pattern(1, 400), INFINITY);
}

#[test]
fn rounding_reaches_the_subnormals() {
    assert_eq!(round_to_pattern(0, 0), 0);
    assert_eq!(round_to_pattern(1, 0), 1);
    assert_eq!(round_to_pattern(3, -1), 2);
    assert_eq!(round_to_pattern(1, -1), 0);
    assert_eq!(round_to_pattern(5, -1), 2);
    assert_eq!(round_to_pattern(1, -149), 0);
    assert_eq!(round_to_pattern(0x3fff_ffff_ffff_ffff, -149), 0);
    assert_eq!(round_to_pattern(0x3fff_ffff_ffff_ffff, -62), 1);
}

#[test]
fn exact_sums_of_zeros_keep_the_documented_sign() {
    assert_eq!(plus(0, 0), 0);
    assert_eq!(plus(0, SIGN_BIT), 0);
    assert_eq!(plus(SIGN_BIT, 0), 0);
    assert_eq!(plus(SIGN_BIT, SIGN_BIT), SIGN_BIT);
    assert_eq!(plus(bits(1.5), bits(-1.5)), 0);
}

#[test]
fn what_is_no_number_is_the_quiet_nan() {
    assert_eq!(plus(INFINITY, INFINITY | SIGN_BIT), QUIET_NAN);
    assert_eq!(times(0, INFINITY), QUIET_NAN);
    assert_eq!(times(INFINITY | SIGN_BIT, SIGN_BIT), QUIET_NAN);
    assert_eq!(plus(0x7f80_0001, ONE), QUIET_NAN);
    assert_eq!(times(ONE, 0xffc0_1234), QUIET_NAN);
}

#[test]
fn infinities_absorb() {
    assert_eq!(plus(INFINITY, bits(-3.0e38)), INFINITY);
    assert_eq!(plus(bits(1.0), INFINITY | SIGN_BIT), INFINITY | SIGN_BIT);
    assert_eq!(plus(INFINITY, INFINITY), INFINITY);
    assert_eq!(times(INFINITY, bits(-2.0)), INFINITY | SIGN_BIT);
    assert_eq!(times(bits(3.0e38), bits(10.0)), INFINITY);
}

#[test]
fn one_is_the_identity_of_the_product() {
    let mut state: u64 = 0x5555_aaaa_3333_cccc;
    for _ in 0..50_000 {
        let x: u32 = step(&mut state);
        if f32::from_bits(x).is_finite() {
            assert_eq!(times(x, ONE), x);
            assert_eq!(times(ONE, x), x);
        }
    }
}

#[test]
fn zero_is_the_identity_of_the_sum() {
    let mut state: u64 = 0x7777_1111_9999_eeee;
    for _ in 0..50_000 {
        let x: u32 = step(&mut state);
        if f32::from_bits(x).is_finite() && x != SIGN_BIT {
            assert_eq!(plus(x, 0), x);
            assert_eq!(plus(0, x), x);
        }
    }
    assert_eq!(plus(SIGN_BIT, 0), 0);
}

#[test]
fn sums_and_products_commute() {
    let mut state: u64 = 0x1212_3434_5656_7878;
    for _ in 0..50_000 {
        let a: u32 = step(&mut state);
        let b: u32 = step(&mut state);
        assert_eq!(plus(a, b), plus(b, a));
        assert_eq!(times(a, b), times(b, a));
    }
}

#[test]
fn a_far_smaller_term_changes_nothing() {
    assert_eq!(plus(bits(1.0), bits(1.0e-10)), bits(1.0));
    assert_eq!(plus(bits(1.0e-10), bits(-1.0)), bits(-1.0));
    assert_eq!(plus(bits(8_388_608.0), 1), bits(8_388_608.0));
    assert_eq!(plus(bits(8_388_608.0), SIGN_BIT | 1), bits(8_388_608.0));
}

#[test]
fn clamp_unit_matches_the_machine() {
    let mut state: u64 = 0xdead_beef_0bad_f00d;
    for _ in 0..200_000 {
        let x: u32 = step(&mut state);
        let f: f32 = f32::from_bits(x);
        if f.is_nan() {
            assert_eq!(clamp_unit(x), x);
        } else {
            assert_eq!(clamp_unit(x), f.clamp(-1.0, 1.0).to_bits());
        }
    }
}

#[test]
fn clamp_unit_at_the_edges() {
    assert_eq!(clamp_unit(ONE), ONE);
    assert_eq!(clamp_unit(ONE + 1), ONE);
    assert_eq!(clamp_unit(ONE - 1), ONE - 1);
    assert_eq!(clamp_unit(NEG_ONE), NEG_ONE);
    assert_eq!(clamp_unit(NEG_ONE + 1), NEG_ONE);
    assert_eq!(clamp_unit(NEG_ONE - 1), NEG_ONE - 1);
    assert_eq!(clamp_unit(INFINITY), ONE);
    assert_eq!(clamp_unit(INFINITY | SIGN_BIT), NEG_ONE);
    assert_eq!(clamp_unit(0), 0);
    assert_eq!(clamp_unit(SIGN_BIT), SIGN_BIT);
    assert_eq!(clamp_unit(QUIET_NAN), QUIET_NAN);
    assert_eq!(clamp_unit(0xffc0_0001), 0xffc0_0001);
}

#[test]
fn count_bits_counts_binary_digits() {
    assert_eq!(count_bits(0), 0);
    assert_eq!(count_bits(1), 1);
    assert_eq!(count_bits(2), 2);
    assert_eq!(count_bits(3), 2);
    assert_eq!(count_bits(0x80_0000), 24);
    assert_eq!(count_bits(0xff_ffff), 24);
    assert_eq!(count_bits(u64::MAX), 64);
}

#[test]
fn power_of_two_shifts_one() {
    assert_eq!(power_of_two(0), 1);
    assert_eq!(power_of_two(1), 2);
    assert_eq!(power_of_two(23), 0x80_0000);
    assert_eq!(power_of_two(63), 0x8000_0000_0000_0000);
}

#[test]
fn no_neighbour_is_nearer_to_the_exact_product() {
    let mut state: u64 = 0x3141_5926_5358_9793;
    for _ in 0..100_000 {
        let a: u32 = with_exponent(&mut state, 100);
        let e: u32 = 90 + step(&mut state) % 60;
        let b: u32 = with_exponent(&mut state, e);
        let r: u32 = times(a, b);
        // the product of two binary32 numbers is exact in binary64
        let exact: f64 = (f32::from_bits(a) as f64) * (f32::from_bits(b) as f64);
        let miss: f64 = (f32::from_bits(r) as f64 - exact).abs();
        let above: f64 = (f32::from_bits(r + 1) as f64 - exact).abs();
        let below: f64 = (f32::from_bits(r - 1) as f64 - exact).abs();
        assert!(miss <= above && miss <= below, "{:#010x} times {:#010x}", a, b);
        if miss == above || miss == below {
            assert_eq!(r % 2, 0, "{:#010x} times {:#010x}", a, b);
        }
    }
}

#[test]
fn rounding_overflows_from_the_midpoint_on() {
    // the largest finite number is 0xff_ffff * 2^253 units; the midpoint to
    // the next power of two is 0x3ff_fffe * 2^251
    assert_eq!(round_to_pattern(0x3ff_fffd, 251), 0x7f7f_ffff);
    assert_eq!(round_to_pattern(0x3ff_fffe, 251), INFINITY);
    assert_eq!(round_to_pattern(0x3ff_ffff, 251), INFINITY);
    assert_eq!(plus(0x7f7f_ffff, 0x7300_0000), INFINITY);
    assert_eq!(plus(0x7f7f_ffff, 0x72ff_ffff), 0x7f7f_ffff);
}

#[test]
fn rounding_takes_any_number_and_exponent() {
    assert_eq!(round_to_pattern(u64::MAX, 149), 0x5f80_0000);
    assert_eq!(round_to_pattern(u64::MAX, 0), 0x1500_0000);
    assert_eq!(round_to_pattern(u64::MAX, -64), 1);
    assert_eq!(round_to_pattern(0x8000_0000_0000_0000, -64), 0);
    assert_eq!(round_to_pattern(0x8000_0000_0000_0001, -64), 1);
    assert_eq!(round_to_pattern(0xc000_0000_0000_0000, -63), 2);
    assert_eq!(round_to_pattern(u64::MAX, -65), 0);
    assert_eq!(round_to_pattern(u64::MAX, i32::MIN), 0);
    assert_eq!(round_to_pattern(1, i32::MAX), INFINITY);
    assert_eq!(round_to_pattern(0, i32::MAX), 0);
    assert_eq!(round_to_pattern(u64::MAX, 213), INFINITY);
    assert_eq!(round_to_pattern(u64::MAX, 212), 0x7f00_0000);
}
