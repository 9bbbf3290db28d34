//! The tagged numeric value and its four-valued comparison.
//!
//! Same-variant pairs compare by the native order of the payload type;
//! a mixed pair compares after promoting the integer operand to the
//! floating representation, the same policy whichever side the integer
//! stands on.  A not-a-number payload makes a pair `Incomparable`.

use vstd::prelude::*;
use crate::promote::{promote, promoted_scaled};
use crate::real_bits::{ext_scaled, is_nan, lemma_mag_orders, lemma_mag_zero};

verus! {

/// A value tagged with its numeric representation: a signed 32-bit integer,
/// or a single-precision floating-point number carried as its raw IEEE-754
/// bit pattern.
#[derive(Clone, Copy, Debug, PartialEq, Eq, Structural)]
pub enum NumericValue {
    Integer(i32),
    Real(u32),
}

/// The outcome of comparing two `NumericValue`s.  `Incomparable` arises
/// only when a floating payload is not-a-number.
#[derive(Clone, Copy, Debug, PartialEq, Eq, Structural)]
pub enum Ordering {
    Less,
    Equal,
    Greater,
    Incomparable,
}

/// The order of two mathematical integers, as a comparison outcome.
pub open spec fn cmp_int(x: int, y: int) -> Ordering {
    if x < y {
        Ordering::Less
    } else if x == y {
        Ordering::Equal
    } else {
        Ordering::Greater
    }
}

/// Whether the value carries a not-a-number payload.
pub open spec fn value_is_nan(v: NumericValue) -> bool {
    match v {
        NumericValue::Integer(_) => false,
        NumericValue::Real(b) => is_nan(b),
    }
}

/// What `compare` returns: integer pairs by their exact values, floating
/// pairs by their denoted (scaled) values, mixed pairs after rounding the
/// integer to 24 significant bits as the widening cast does; any
/// not-a-number payload makes the pair `Incomparable`.
pub open spec fn compare_spec(a: NumericValue, b: NumericValue) -> Ordering {
    match (a, b) {
        (NumericValue::Integer(i), NumericValue::Integer(j)) => cmp_int(i as int, j as int),
        (NumericValue::Integer(i), NumericValue::Real(y)) => if is_nan(y) {
            Ordering::Incomparable
        } else {
            cmp_int(promoted_scaled(i as int), ext_scaled(y))
        },
        (NumericValue::Real(x), NumericValue::Integer(j)) => if is_nan(x) {
            Ordering::Incomparable
        } else {
            cmp_int(ext_scaled(x), promoted_scaled(j as int))
        },
        (NumericValue::Real(x), NumericValue::Real(y)) => if is_nan(x) || is_nan(y) {
            Ordering::Incomparable
        } else {
            cmp_int(ext_scaled(x), ext_scaled(y))
        },
    }
}

/// Whether the pattern is a not-a-number.
pub fn bits_is_nan(b: u32) -> (r: bool)
    ensures
        r == is_nan(b),
{
    let e: u32 = (b / 0x80_0000) % 256;
    let f: u32 = b % 0x80_0000;
    e == 255 && f != 0
}

/// Orders two floating bit patterns, neither a not-a-number, by their
/// denoted values: sign first, then the unsigned patterns, the two zeroes
/// equal.
fn cmp_bits(a: u32, b: u32) -> (r: Ordering)
    requires
        !is_nan(a),
        !is_nan(b),
    ensures
        r == cmp_int(ext_scaled(a), ext_scaled(b)),
{
    let sa: u32 = a / 0x8000_0000;
    let ma: u32 = a % 0x8000_0000;
    let sb: u32 = b / 0x8000_0000;
    let mb: u32 = b % 0x8000_0000;
    proof {
        lemma_mag_zero(a);
        lemma_mag_zero(b);
        lemma_mag_orders(a, b);
    }
    if ma == 0 && mb == 0 {
        Ordering::Equal
    } else if sa != sb {
        if sa == 1 {
            Ordering::Less
        } else {
            Ordering::Greater
        }
    } else {
        let unsigned: Ordering = if ma < mb {
            Ordering::Less
        } else if ma == mb {
            Ordering::Equal
        } else {
            Ordering::Greater
        };
        if sa == 0 {
            unsigned
        } else {
            match unsigned {
                Ordering::Less => Ordering::Greater,
                Ordering::Greater => Ordering::Less,
                _ => Ordering::Equal,
            }
        }
    }
}

/// Compares two tagged numeric values.
///
/// Same-variant pairs follow the native order of the payloads; a mixed
/// pair promotes the integer operand to the floating representation first.
/// The outcome is `Incomparable` exactly when a payload is not-a-number.
pub fn compare(a: NumericValue, b: NumericValue) -> (r: Ordering)
    ensures
        r == compare_spec(a, b),
        r == Ordering::Incomparable <==> (value_is_nan(a) || value_is_nan(b)),
{
    proof {
        lemma_compare_nan_only(a, b);
    }
    match (a, b) {
        (NumericValue::Integer(i), NumericValue::Integer(j)) => {
            if i < j {
                Ordering::Less
            } else if i == j {
                Ordering::Equal
            } else {
                Ordering::Greater
            }
        },
        (NumericValue::Integer(i), NumericValue::Real(y)) => {
            if bits_is_nan(y) {
                Ordering::Incomparable
            } else {
                cmp_bits(promote(i), y)
            }
        },
        (NumericValue::Real(x), NumericValue::Integer(j)) => {
            if bits_is_nan(x) {
                Ordering::Incomparable
            } else {
                cmp_bits(x, promote(j))
            }
        },
        (NumericValue::Real(x), NumericValue::Real(y)) => {
            if bits_is_nan(x) || bits_is_nan(y) {
                Ordering::Incomparable
            } else {
                cmp_bits(x, y)
            }
        },
    }
}

/// Whether the value carries a not-a-number payload.
pub fn is_nan_value(v: NumericValue) -> (r: bool)
    ensures
        r == value_is_nan(v),
{
    match v {
        NumericValue::Integer(_) => false,
        NumericValue::Real(b) => bits_is_nan(b),
    }
}

/// Numeric equality under the comparison policy: true exactly when the
/// pair compares `Equal` (so never for a not-a-number payload).
pub fn numeric_eq(a: NumericValue, b: NumericValue) -> (r: bool)
    ensures
        r == (compare_spec(a, b) == Ordering::Equal),
{
    let c: Ordering = compare(a, b);
    match c {
        Ordering::Equal => true,
        _ => false,
    }
}

/// `Incomparable` comes from a not-a-number payload and from nothing else.
pub proof fn lemma_compare_nan_only(a: NumericValue, b: NumericValue)
    ensures
        compare_spec(a, b) == Ordering::Incomparable <==> (value_is_nan(a) || value_is_nan(b)),
{
}

} // verus!
