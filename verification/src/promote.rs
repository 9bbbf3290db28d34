//! Promotion of a 32-bit integer to the single-precision floating
//! representation, the widening cast a mixed comparison performs.
//!
//! The cast rounds to 24 significant bits, to nearest, ties to even.  The
//! spec states that rounding arithmetically; `promote` computes the bit
//! pattern and is proved to denote exactly the rounded value.

use vstd::prelude::*;
use vstd::arithmetic::power2::{
    lemma2_to64, lemma_pow2_adds, lemma_pow2_pos, lemma_pow2_strictly_increases, pow2,
};
use crate::real_bits::{
    binade, exp_field, ext_scaled, frac_field, is_infinite, is_nan, mag_scaled, sign_field,
    significand,
};

verus! {

/// `n` rounded to the nearest multiple of `2^k`, ties to the even multiple.
pub open spec fn round_even(n: nat, k: nat) -> nat {
    let p: nat = pow2(k);
    let q: nat = n / p;
    let r: nat = n % p;
    if 2 * r > p || (2 * r == p && q % 2 == 1) {
        (q + 1) * p
    } else {
        q * p
    }
}

/// How many low bits must be dropped to leave `n` with 24 significant bits.
pub open spec fn drop_count(n: nat) -> nat
    decreases n,
{
    if n < 0x100_0000 {
        0
    } else {
        1 + drop_count(n / 2)
    }
}

/// `n` rounded to at most 24 significant bits, nearest, ties to even.
pub open spec fn round24(n: nat) -> nat {
    if n < 0x100_0000 {
        n
    } else {
        round_even(n, drop_count(n))
    }
}

/// The scaled value (as in `ext_scaled`) of the pattern an integer is
/// promoted to: its magnitude rounded to 24 significant bits, scaled.
pub open spec fn promoted_scaled(i: int) -> int {
    if i >= 0 {
        (round24(i as nat) * pow2(150)) as int
    } else {
        -((round24((-i) as nat) * pow2(150)) as int)
    }
}

/// For `n` needing rounding, `drop_count` brackets `n` between consecutive
/// powers of two: `2^(23 + d) <= n < 2^(24 + d)`.
pub proof fn lemma_drop_count_bounds(n: nat)
    requires
        n >= 0x100_0000,
    ensures
        drop_count(n) >= 1,
        pow2(23 + drop_count(n)) <= n < pow2(24 + drop_count(n)),
    decreases n,
{
    lemma2_to64();
    if n / 2 < 0x100_0000 {
        assert(drop_count(n / 2) == 0);
        assert(drop_count(n) == 1);
        assert(n < 0x200_0000);
    } else {
        lemma_drop_count_bounds(n / 2);
        let d: nat = drop_count(n / 2);
        assert(drop_count(n) == 1 + d);
        lemma_pow2_adds(23 + d, 1);
        lemma_pow2_adds(24 + d, 1);
        assert(pow2(23 + d) <= n / 2 < pow2(24 + d));
        assert(n >= 2 * (n / 2));
        assert(n <= 2 * (n / 2) + 1);
    }
}

/// Magnitudes that fit a 32-bit integer drop at most 8 bits.
pub proof fn lemma_drop_count_small(n: nat)
    requires
        n <= 0x8000_0000,
    ensures
        drop_count(n) <= 8,
{
    if n >= 0x100_0000 {
        lemma_drop_count_bounds(n);
        lemma2_to64();
        let d: nat = drop_count(n);
        if d > 8 {
            lemma_pow2_strictly_increases(31, 23 + d);
            assert(pow2(31) == 0x8000_0000);
        }
    }
}

/// Rounding to multiples of `2^k` never moves a value past another:
/// `round_even` is monotone at a fixed `k`.
proof fn lemma_round_even_monotone(a: nat, b: nat, k: nat)
    requires
        a <= b,
    ensures
        round_even(a, k) <= round_even(b, k),
{
    let p: nat = pow2(k);
    lemma_pow2_pos(k);
    let qa: nat = a / p;
    let ra: nat = a % p;
    let qb: nat = b / p;
    let rb: nat = b % p;
    vstd::arithmetic::div_mod::lemma_fundamental_div_mod(a as int, p as int);
    vstd::arithmetic::div_mod::lemma_fundamental_div_mod(b as int, p as int);
    vstd::arithmetic::div_mod::lemma_div_is_ordered(a as int, b as int, p as int);
    assert(qa * p + p == (qa + 1) * p) by (nonlinear_arith);
    assert(qb * p + p == (qb + 1) * p) by (nonlinear_arith);
    if qa < qb {
        assert((qa + 1) * p <= qb * p) by (nonlinear_arith)
            requires qa + 1 <= qb, p > 0;
    } else {
        assert(qa == qb);
        assert(ra <= rb);
    }
}

/// `round_even` stays within one step of the truncation.
proof fn lemma_round_even_range(n: nat, k: nat)
    ensures
        (n / pow2(k)) * pow2(k) <= round_even(n, k),
        round_even(n, k) <= (n / pow2(k) + 1) * pow2(k),
{
    let p: nat = pow2(k);
    lemma_pow2_pos(k);
    let q: nat = n / p;
    assert(q * p <= (q + 1) * p) by (nonlinear_arith)
        requires p > 0;
}

/// A larger magnitude never drops fewer bits.
proof fn lemma_drop_count_monotone(a: nat, b: nat)
    requires
        a <= b,
    ensures
        drop_count(a) <= drop_count(b),
{
    if a >= 0x100_0000 {
        lemma_drop_count_bounds(a);
        lemma_drop_count_bounds(b);
        let da: nat = drop_count(a);
        let db: nat = drop_count(b);
        if da > db {
            if 24 + db < 23 + da {
                lemma_pow2_strictly_increases(24 + db, 23 + da);
            }
            assert(false);
        }
    }
}

/// Rounding to 24 significant bits is monotone.
pub proof fn lemma_round24_monotone(a: nat, b: nat)
    requires
        a <= b,
    ensures
        round24(a) <= round24(b),
{
    lemma2_to64();
    if b < 0x100_0000 {
        // Both exact.
    } else if a < 0x100_0000 {
        // The rounded side stays at or above `2^24`, the exact side below.
        lemma_drop_count_bounds(b);
        let kb: nat = drop_count(b);
        let p: nat = pow2(kb);
        lemma_pow2_pos(kb);
        lemma_round_even_range(b, kb);
        lemma_pow2_adds(23, kb);
        assert(b / p >= pow2(23)) by (nonlinear_arith)
            requires pow2(23) * p <= b, p > 0;
        assert((b / p) * p >= pow2(23) * p) by (nonlinear_arith)
            requires b / p >= pow2(23), p > 0;
        assert(pow2(23 + kb) >= pow2(24)) by {
            if 24 < 23 + kb {
                lemma_pow2_strictly_increases(24, 23 + kb);
            }
        }
    } else {
        lemma_drop_count_monotone(a, b);
        let ka: nat = drop_count(a);
        let kb: nat = drop_count(b);
        if ka == kb {
            lemma_round_even_monotone(a, b, ka);
        } else {
            // The side in the higher binade wins outright:
            // `round24(a) <= 2^(24 + ka) <= 2^(23 + kb) <= round24(b)`.
            lemma_drop_count_bounds(a);
            lemma_drop_count_bounds(b);
            lemma_round_even_range(a, ka);
            lemma_round_even_range(b, kb);
            let pa: nat = pow2(ka);
            let pb: nat = pow2(kb);
            lemma_pow2_pos(ka);
            lemma_pow2_pos(kb);
            lemma_pow2_adds(24, ka);
            lemma_pow2_adds(23, kb);
            assert(a / pa < pow2(24)) by (nonlinear_arith)
                requires a < pow2(24) * pa, pa > 0;
            assert((a / pa + 1) * pa <= pow2(24) * pa) by (nonlinear_arith)
                requires a / pa + 1 <= pow2(24), pa > 0;
            assert(pow2(24 + ka) <= pow2(23 + kb)) by {
                if 24 + ka < 23 + kb {
                    lemma_pow2_strictly_increases(24 + ka, 23 + kb);
                }
            }
            assert(b / pb >= pow2(23)) by (nonlinear_arith)
                requires pow2(23) * pb <= b, pb > 0;
            assert((b / pb) * pb >= pow2(23) * pb) by (nonlinear_arith)
                requires b / pb >= pow2(23), pb > 0;
        }
    }
}

/// Promotion preserves the order of integers (not strictly: two integers
/// may round to the same floating value).
pub proof fn lemma_promoted_monotone(i: int, j: int)
    requires
        i <= j,
    ensures
        promoted_scaled(i) <= promoted_scaled(j),
{
    lemma_pow2_pos(150);
    if i >= 0 {
        lemma_round24_monotone(i as nat, j as nat);
        vstd::arithmetic::mul::lemma_mul_inequality(
            round24(i as nat) as int,
            round24(j as nat) as int,
            pow2(150) as int,
        );
    } else if j < 0 {
        lemma_round24_monotone((-j) as nat, (-i) as nat);
        vstd::arithmetic::mul::lemma_mul_inequality(
            round24((-j) as nat) as int,
            round24((-i) as nat) as int,
            pow2(150) as int,
        );
    } else {
        assert(round24((-i) as nat) * pow2(150) >= 0);
        assert(round24(j as nat) * pow2(150) >= 0);
    }
}

/// Promotes an integer to the bit pattern of the nearest single-precision
/// value, ties to even; the result is finite and denotes exactly the
/// rounded integer.
pub fn promote(i: i32) -> (r: u32)
    ensures
        !is_nan(r),
        !is_infinite(r),
        ext_scaled(r) == promoted_scaled(i as int),
{
    if i == 0 {
        proof {
            assert(exp_field(0u32) == 0);
            assert(significand(0u32) == 0);
            assert(mag_scaled(0u32) == 0);
            assert(ext_scaled(0u32) == 0);
            assert(round24(0) == 0);
        }
        return 0;
    }
    let neg: bool = i < 0;
    let mag: u32 = if i == i32::MIN {
        0x8000_0000
    } else if i < 0 {
        (-i) as u32
    } else {
        i as u32
    };
    proof {
        lemma2_to64();
        lemma_drop_count_small(mag as nat);
    }
    // Count the bits that rounding to 24 significant bits will drop.
    let mut t: u32 = mag;
    let mut k: u32 = 0;
    let mut p: u32 = 1;
    while t >= 0x100_0000
        invariant
            1 <= mag <= 0x8000_0000,
            p == pow2(k as nat),
            k as nat + drop_count(t as nat) == drop_count(mag as nat),
            drop_count(mag as nat) <= 8,
        decreases t,
    {
        proof {
            assert(drop_count(t as nat) == 1 + drop_count((t / 2) as nat));
            assert(k < 8);
            lemma_pow2_strictly_increases(k as nat, 8);
            lemma_pow2_adds(k as nat, 1);
            lemma2_to64();
        }
        t = t / 2;
        k = k + 1;
        p = 2 * p;
    }
    proof {
        assert(drop_count(t as nat) == 0);
        assert(k as nat == drop_count(mag as nat));
        lemma_pow2_pos(k as nat);
        lemma2_to64();
    }
    let mut u: u32;
    let mut expf: u32;
    if k == 0 {
        // Already at most 24 significant bits: the value is exact; shift the
        // significand up into the normal range.
        assert(mag < 0x100_0000);
        assert(round24(mag as nat) == mag as nat);
        u = mag;
        expf = 150;
        proof {
            lemma_pow2_adds(23, 127);
        }
        while u < 0x80_0000
            invariant
                1 <= u < 0x100_0000,
                127 <= expf <= 150,
                (u as nat) * pow2(expf as nat) == (mag as nat) * pow2(150),
                1 <= mag,
            decreases expf,
        {
            proof {
                lemma2_to64();
                lemma_pow2_adds(23, 127);
                lemma_pow2_pos(expf as nat);
                if expf <= 127 {
                    if (expf as nat) < 127 {
                        lemma_pow2_strictly_increases(expf as nat, 127);
                    }
                    assert((u as nat) * pow2(expf as nat) >= pow2(150)) by {
                        vstd::arithmetic::mul::lemma_mul_inequality(
                            1,
                            mag as int,
                            pow2(150) as int,
                        );
                    }
                    assert((u as nat) * pow2(expf as nat) < pow2(23) * pow2(127))
                        by (nonlinear_arith)
                        requires
                            (u as nat) < pow2(23),
                            pow2(expf as nat) <= pow2(127),
                            pow2(expf as nat) > 0,
                    ;
                    assert(false);
                }
                assert(expf >= 128);
                lemma_pow2_adds((expf - 1) as nat, 1);
                assert((2 * u as nat) * pow2((expf - 1) as nat) == (u as nat) * pow2(expf as nat))
                    by (nonlinear_arith)
                    requires
                        pow2(expf as nat) == pow2((expf - 1) as nat) * pow2(1),
                        pow2(1) == 2,
                ;
            }
            u = 2 * u;
            expf = expf - 1;
        }
    } else {
        // Round the dropped bits: nearest, ties to even.
        proof {
            lemma_drop_count_bounds(mag as nat);
            lemma_pow2_adds(23, k as nat);
            lemma_pow2_adds(24, k as nat);
            assert(pow2(23) * p <= mag as nat);
            assert((mag as nat) < pow2(24) * p);
            assert(p <= 256) by {
                lemma2_to64();
                assert(pow2(k as nat) <= pow2(8)) by {
                    if (k as nat) < 8 {
                        lemma_pow2_strictly_increases(k as nat, 8);
                    }
                }
            }
            assert(pow2(23) <= (mag as nat) / (p as nat) < pow2(24)) by (nonlinear_arith)
                requires
                    pow2(23) * (p as nat) <= mag as nat,
                    (mag as nat) < pow2(24) * (p as nat),
                    (p as nat) > 0,
            ;
        }
        let q: u32 = mag / p;
        let r: u32 = mag % p;
        let up: bool = 2 * r > p || (2 * r == p && q % 2 == 1);
        let rq: u32 = if up { q + 1 } else { q };
        proof {
            assert(mag >= 0x100_0000) by {
                if (24nat) < 23 + k as nat {
                    lemma_pow2_strictly_increases(24, 23 + k as nat);
                }
                assert(pow2(24) <= pow2(23 + k as nat));
            }
            assert(round24(mag as nat) == (rq as nat) * (p as nat));
        }
        if rq == 0x100_0000 {
            u = 0x80_0000;
            expf = 151 + k;
            proof {
                lemma_pow2_adds(23, 151 + k as nat);
                lemma_pow2_adds(24, 150 + k as nat);
                lemma_pow2_adds(150, k as nat);
                assert((u as nat) * pow2(expf as nat) == round24(mag as nat) * pow2(150))
                    by (nonlinear_arith)
                    requires
                        round24(mag as nat) == pow2(24) * pow2(k as nat),
                        (u as nat) == pow2(23),
                        expf as nat == 151 + k as nat,
                        pow2(23) * pow2(151 + k as nat) == pow2(174 + k as nat),
                        pow2(24) * pow2(150 + k as nat) == pow2(174 + k as nat),
                        pow2(150 + k as nat) == pow2(150) * pow2(k as nat),
                ;
            }
        } else {
            u = rq;
            expf = 150 + k;
            proof {
                lemma_pow2_adds(150, k as nat);
                assert((u as nat) * pow2(expf as nat) == round24(mag as nat) * pow2(150))
                    by (nonlinear_arith)
                    requires
                        round24(mag as nat) == (u as nat) * pow2(k as nat),
                        pow2((150 + k) as nat) == pow2(150) * pow2(k as nat),
                        expf as nat == 150 + k as nat,
                ;
            }
        }
    }
    // Assemble the pattern and read its fields back.
    let sign_part: u32 = if neg { 0x8000_0000 } else { 0 };
    let bits: u32 = sign_part + expf * 0x80_0000 + (u - 0x80_0000);
    proof {
        let s: nat = if neg { 1nat } else { 0nat };
        let f: nat = (u - 0x80_0000) as nat;
        let e: nat = expf as nat;
        assert(bits as nat == s * 0x8000_0000 + e * 0x80_0000 + f);
        assert(sign_field(bits) == s) by (nonlinear_arith)
            requires
                bits as nat == s * 0x8000_0000 + e * 0x80_0000 + f,
                s <= 1,
                e < 256,
                f < 0x80_0000,
        ;
        assert(exp_field(bits) == e) by (nonlinear_arith)
            requires
                bits as nat == s * 0x8000_0000 + e * 0x80_0000 + f,
                s <= 1,
                e < 256,
                f < 0x80_0000,
        ;
        assert(frac_field(bits) == f) by (nonlinear_arith)
            requires
                bits as nat == s * 0x8000_0000 + e * 0x80_0000 + f,
                s <= 1,
                e < 256,
                f < 0x80_0000,
        ;
        assert(significand(bits) == u as nat);
        assert(binade(bits) == expf as nat);
        assert(mag_scaled(bits) == (u as nat) * pow2(expf as nat));
        assert((u as nat) * pow2(expf as nat) == round24(mag as nat) * pow2(150));
        if i >= 0 {
            assert(mag as nat == i as nat);
        } else if i == i32::MIN {
            assert(mag as nat == (-(i as int)) as nat);
        } else {
            assert(mag as nat == (-(i as int)) as nat);
        }
        assert(ext_scaled(bits) == promoted_scaled(i as int));
    }
    bits
}

} // verus!
