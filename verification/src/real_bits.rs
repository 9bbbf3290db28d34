//! The mathematical model of a single-precision floating-point number,
//! read off its raw IEEE-754 bit pattern.
//!
//! A finite pattern denotes the real number
//! `(-1)^sign * significand * 2^(binade - 150)`, where the significand
//! carries the implicit leading bit of a normal number.  Scaling by `2^150`
//! turns every finite denoted value into an integer, so contracts can speak
//! of exact integer comparisons.  Infinities are mapped beyond every finite
//! scaled value.

use vstd::prelude::*;
use vstd::arithmetic::power2::{
    lemma2_to64, lemma_pow2_adds, lemma_pow2_pos, lemma_pow2_strictly_increases, pow2,
};
use vstd::arithmetic::mul::{lemma_mul_inequality, lemma_mul_strict_inequality};

verus! {

/// Sign bit of the pattern: 0 for positive, 1 for negative.
pub open spec fn sign_field(b: u32) -> nat {
    (b as nat) / 0x8000_0000
}

/// Biased exponent field (8 bits).
pub open spec fn exp_field(b: u32) -> nat {
    ((b as nat) / 0x80_0000) % 256
}

/// Fraction field (23 bits).
pub open spec fn frac_field(b: u32) -> nat {
    (b as nat) % 0x80_0000
}

/// The pattern with the sign bit cleared, as an integer.
pub open spec fn mag_field(b: u32) -> nat {
    (b as nat) % 0x8000_0000
}

/// Not-a-number: exponent field all ones, nonzero fraction.
pub open spec fn is_nan(b: u32) -> bool {
    exp_field(b) == 255 && frac_field(b) != 0
}

/// Positive or negative infinity.
pub open spec fn is_infinite(b: u32) -> bool {
    exp_field(b) == 255 && frac_field(b) == 0
}

/// A finite number (normal, subnormal or zero).
pub open spec fn is_finite(b: u32) -> bool {
    exp_field(b) != 255
}

/// The significand with the implicit leading bit of a normal number made
/// explicit.  Zero exactly for the two zero patterns.
pub open spec fn significand(b: u32) -> nat {
    if exp_field(b) == 0 {
        frac_field(b)
    } else {
        frac_field(b) + 0x80_0000
    }
}

/// The power of two that scales the significand; subnormal numbers share
/// the scale of the smallest normal binade.
pub open spec fn binade(b: u32) -> nat {
    if exp_field(b) == 0 {
        1
    } else {
        exp_field(b)
    }
}

/// Magnitude of the denoted value, scaled by `2^150`; infinities are sent
/// beyond every finite magnitude (a finite one is below `2^278`).
pub open spec fn mag_scaled(b: u32) -> nat {
    if is_infinite(b) {
        pow2(300)
    } else {
        significand(b) * pow2(binade(b))
    }
}

/// The denoted value, scaled by `2^150` and extended to infinities.  Both
/// zero patterns denote 0, so the two zeroes compare as equal.
pub open spec fn ext_scaled(b: u32) -> int {
    if sign_field(b) == 1 {
        -(mag_scaled(b) as int)
    } else {
        mag_scaled(b) as int
    }
}

/// The three fields reassemble the unsigned part of the pattern.
pub proof fn lemma_mag_decomposition(b: u32)
    ensures
        mag_field(b) == exp_field(b) * 0x80_0000 + frac_field(b),
        exp_field(b) < 256,
        frac_field(b) < 0x80_0000,
        sign_field(b) <= 1,
{
    let n = b as nat;
    assert(mag_field(b) == exp_field(b) * 0x80_0000 + frac_field(b)) by {
        assert(n % 0x8000_0000 == ((n / 0x80_0000) % 256) * 0x80_0000 + n % 0x80_0000)
            by (nonlinear_arith);
    }
    assert(sign_field(b) <= 1) by {
        assert(n / 0x8000_0000 <= 1) by (nonlinear_arith)
            requires n < 0x1_0000_0000;
    }
}

/// A finite scaled magnitude lies strictly below `2^278`, hence below the
/// scaled magnitude of an infinity.
pub proof fn lemma_finite_mag_bound(b: u32)
    requires
        is_finite(b),
    ensures
        mag_scaled(b) < pow2(278),
        mag_scaled(b) < pow2(300),
{
    lemma_mag_decomposition(b);
    lemma2_to64();
    assert(significand(b) < pow2(24));
    assert(binade(b) <= 254);
    lemma_pow2_pos(binade(b));
    lemma_pow2_pos(254);
    assert(significand(b) * pow2(binade(b)) < pow2(24) * pow2(binade(b))) by {
        lemma_mul_strict_inequality(
            significand(b) as int,
            pow2(24) as int,
            pow2(binade(b)) as int,
        );
    }
    assert(pow2(24) * pow2(binade(b)) <= pow2(24) * pow2(254)) by {
        if binade(b) < 254 {
            lemma_pow2_strictly_increases(binade(b), 254);
        }
        lemma_mul_inequality(pow2(binade(b)) as int, pow2(254) as int, pow2(24) as int);
    }
    lemma_pow2_adds(24, 254);
    lemma_pow2_strictly_increases(278, 300);
}

/// The scaled magnitude is zero exactly for the two zero patterns.
pub proof fn lemma_mag_zero(b: u32)
    requires
        !is_nan(b),
    ensures
        (mag_scaled(b) == 0) <==> (mag_field(b) == 0),
{
    lemma_mag_decomposition(b);
    lemma_pow2_pos(binade(b));
    if is_infinite(b) {
        lemma_pow2_pos(300);
        assert(mag_field(b) == 255 * 0x80_0000);
    } else {
        assert(significand(b) * pow2(binade(b)) == 0 <==> significand(b) == 0) by {
            if significand(b) != 0 {
                assert(significand(b) * pow2(binade(b)) > 0) by (nonlinear_arith)
                    requires significand(b) > 0, pow2(binade(b)) > 0;
            }
        }
        if mag_field(b) == 0 {
            assert(exp_field(b) * 0x80_0000 + frac_field(b) == 0);
            assert(exp_field(b) == 0) by (nonlinear_arith)
                requires exp_field(b) * 0x80_0000 + frac_field(b) == 0;
        } else {
            if exp_field(b) == 0 {
                assert(significand(b) == frac_field(b));
                assert(frac_field(b) != 0);
            }
        }
    }
}

/// Ordering the unsigned patterns as integers orders the denoted magnitudes:
/// the map from pattern to scaled magnitude is strictly monotone.
pub proof fn lemma_mag_orders(a: u32, b: u32)
    requires
        !is_nan(a),
        !is_nan(b),
    ensures
        (mag_field(a) < mag_field(b)) <==> (mag_scaled(a) < mag_scaled(b)),
        (mag_field(a) == mag_field(b)) <==> (mag_scaled(a) == mag_scaled(b)),
{
    if mag_field(a) < mag_field(b) {
        lemma_mag_strict(a, b);
    }
    if mag_field(b) < mag_field(a) {
        lemma_mag_strict(b, a);
    }
    lemma_mag_decomposition(a);
    lemma_mag_decomposition(b);
    if mag_field(a) == mag_field(b) {
        assert(exp_field(a) == exp_field(b) && frac_field(a) == frac_field(b))
            by (nonlinear_arith)
            requires
                exp_field(a) * 0x80_0000 + frac_field(a)
                    == exp_field(b) * 0x80_0000 + frac_field(b),
                frac_field(a) < 0x80_0000,
                frac_field(b) < 0x80_0000;
    }
}

/// One strict direction of `lemma_mag_orders`.
proof fn lemma_mag_strict(a: u32, b: u32)
    requires
        !is_nan(a),
        !is_nan(b),
        mag_field(a) < mag_field(b),
    ensures
        mag_scaled(a) < mag_scaled(b),
{
    lemma_mag_decomposition(a);
    lemma_mag_decomposition(b);
    lemma2_to64();
    // Pattern order is lexicographic in (exponent field, fraction field).
    assert(exp_field(a) < exp_field(b)
        || (exp_field(a) == exp_field(b) && frac_field(a) < frac_field(b)))
        by (nonlinear_arith)
        requires
            exp_field(a) * 0x80_0000 + frac_field(a)
                < exp_field(b) * 0x80_0000 + frac_field(b),
            frac_field(a) < 0x80_0000,
            frac_field(b) < 0x80_0000;
    if is_infinite(b) {
        assert(is_finite(a));
        lemma_finite_mag_bound(a);
    } else {
        assert(is_finite(a) && is_finite(b));
        lemma_pow2_pos(binade(a));
        lemma_pow2_pos(binade(b));
        if binade(a) == binade(b) {
            // Equal scales: the significands decide, strictly.
            assert(significand(a) < significand(b));
            lemma_mul_strict_inequality(
                significand(a) as int,
                significand(b) as int,
                pow2(binade(a)) as int,
            );
        } else {
            // The higher binade dominates: the smaller side is below
            // `2^(24 + binade(a))`, the larger at least `2^23 * 2^binade(b)`.
            assert(binade(a) < binade(b));
            assert(exp_field(b) >= 2);
            assert(significand(b) >= pow2(23));
            assert(significand(a) < pow2(24));
            assert(significand(a) * pow2(binade(a)) < pow2(24) * pow2(binade(a))) by {
                lemma_mul_strict_inequality(
                    significand(a) as int,
                    pow2(24) as int,
                    pow2(binade(a)) as int,
                );
            }
            lemma_pow2_adds(24, binade(a));
            lemma_pow2_adds(23, binade(b));
            assert(pow2(24 + binade(a)) <= pow2(23 + binade(b))) by {
                if 24 + binade(a) < 23 + binade(b) {
                    lemma_pow2_strictly_increases(24 + binade(a), 23 + binade(b));
                }
            }
            assert(pow2(23) * pow2(binade(b)) <= significand(b) * pow2(binade(b))) by {
                lemma_mul_inequality(
                    pow2(23) as int,
                    significand(b) as int,
                    pow2(binade(b)) as int,
                );
            }
        }
    }
}

} // verus!
