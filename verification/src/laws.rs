//! The stated laws of the comparison relation and of the reduction.
//!
//! Each public proof function here is a property the library promises:
//! agreement of same-variant comparison with the native order, inversion
//! under swapping the operands, and invariance of the maximum under
//! permutation of the input when no payload is not-a-number and no two
//! elements compare equal.

use vstd::prelude::*;
use crate::compare::{cmp_int, compare_spec, value_is_nan, NumericValue, Ordering};
use crate::promote::{lemma_promoted_monotone, promoted_scaled};
use crate::real_bits::{ext_scaled, is_nan};
use crate::reduce::max_of_spec;

verus! {

/// Same-variant integer pairs compare exactly as the integers do.
pub proof fn lemma_same_variant_integer(i: i32, j: i32)
    ensures
        compare_spec(NumericValue::Integer(i), NumericValue::Integer(j)) == cmp_int(
            i as int,
            j as int,
        ),
{
}

/// Same-variant floating pairs compare exactly as the denoted values do,
/// with a not-a-number payload making the pair incomparable.
pub proof fn lemma_same_variant_real(x: u32, y: u32)
    ensures
        (is_nan(x) || is_nan(y)) ==> compare_spec(NumericValue::Real(x), NumericValue::Real(y))
            == Ordering::Incomparable,
        (!is_nan(x) && !is_nan(y)) ==> compare_spec(NumericValue::Real(x), NumericValue::Real(y))
            == cmp_int(ext_scaled(x), ext_scaled(y)),
{
}

/// Swapping the operands inverts the outcome; `Incomparable` is mutual.
pub proof fn lemma_compare_swap(a: NumericValue, b: NumericValue)
    ensures
        (compare_spec(a, b) == Ordering::Less) <==> (compare_spec(b, a) == Ordering::Greater),
        (compare_spec(a, b) == Ordering::Equal) <==> (compare_spec(b, a) == Ordering::Equal),
        (compare_spec(a, b) == Ordering::Incomparable) <==> (compare_spec(b, a)
            == Ordering::Incomparable),
{
}

/// A value free of not-a-number compares equal to itself.
pub proof fn lemma_compare_reflexive(v: NumericValue)
    requires
        !value_is_nan(v),
    ensures
        compare_spec(v, v) == Ordering::Equal,
{
}

/// The scaled value each operand contributes to a comparison that
/// involves a floating side.
spec fn rounded_measure(v: NumericValue) -> int {
    match v {
        NumericValue::Integer(i) => promoted_scaled(i as int),
        NumericValue::Real(b) => ext_scaled(b),
    }
}

/// Strict transitivity of the order on values free of not-a-number.
/// (Promotion can round two different integers to one floating value, so
/// `Equal` outcomes do not chain; strict ones do.)
pub proof fn lemma_less_transitive(x: NumericValue, y: NumericValue, z: NumericValue)
    requires
        !value_is_nan(x),
        !value_is_nan(y),
        !value_is_nan(z),
        compare_spec(x, y) == Ordering::Less,
        compare_spec(y, z) == Ordering::Less,
    ensures
        compare_spec(x, z) == Ordering::Less,
{
    match (x, y, z) {
        (NumericValue::Integer(_), NumericValue::Integer(_), NumericValue::Integer(_)) => {},
        (NumericValue::Integer(i), NumericValue::Integer(j), NumericValue::Real(_)) => {
            lemma_promoted_monotone(i as int, j as int);
        },
        (NumericValue::Real(_), NumericValue::Integer(j), NumericValue::Integer(k)) => {
            lemma_promoted_monotone(j as int, k as int);
        },
        (NumericValue::Integer(i), NumericValue::Real(_), NumericValue::Integer(k)) => {
            if i >= k {
                lemma_promoted_monotone(k as int, i as int);
            }
        },
        _ => {},
    }
}

/// No element of the sequence carries a not-a-number payload.
pub open spec fn no_nans(s: Seq<NumericValue>) -> bool {
    forall|i: int| 0 <= i < s.len() ==> !value_is_nan(#[trigger] s[i])
}

/// No two elements of the sequence compare equal.
pub open spec fn no_ties(s: Seq<NumericValue>) -> bool {
    forall|i: int, j: int|
        0 <= i < s.len() && 0 <= j < s.len() && i != j ==> #[trigger] compare_spec(s[i], s[j])
            != Ordering::Equal
}

/// The reduction returns an element of its input.
pub proof fn lemma_max_of_in(s: Seq<NumericValue>)
    requires
        s.len() > 0,
    ensures
        s.contains(max_of_spec(s)),
    decreases s.len(),
{
    if s.len() > 1 {
        lemma_max_of_in(s.drop_last());
        let prev = max_of_spec(s.drop_last());
        assert(s.drop_last().contains(prev));
        let i = choose|i: int| 0 <= i < s.drop_last().len() && s.drop_last()[i] == prev;
        assert(s[i] == prev);
    }
}

/// With no not-a-number and no ties, every other element of the input is
/// strictly below the reduction's result.
pub proof fn lemma_max_of_greatest(s: Seq<NumericValue>)
    requires
        s.len() > 0,
        no_nans(s),
        no_ties(s),
    ensures
        forall|i: int|
            0 <= i < s.len() && s[i] != max_of_spec(s) ==> compare_spec(
                #[trigger] s[i],
                max_of_spec(s),
            ) == Ordering::Less,
    decreases s.len(),
{
    if s.len() > 1 {
        let s0 = s.drop_last();
        let prev = max_of_spec(s0);
        let last = s.last();
        let r = max_of_spec(s);
        assert(no_nans(s0)) by {
            assert(forall|i: int| 0 <= i < s0.len() ==> #[trigger] s0[i] == s[i]);
        }
        assert(no_ties(s0)) by {
            assert(forall|i: int| 0 <= i < s0.len() ==> #[trigger] s0[i] == s[i]);
        }
        lemma_max_of_greatest(s0);
        lemma_max_of_in(s0);
        let pi = choose|i: int| 0 <= i < s0.len() && s0[i] == prev;
        assert(s[pi] == prev);
        assert(!value_is_nan(prev));
        assert(!value_is_nan(last));
        // The winner test reduces to `Greater`: no payload is not-a-number.
        assert(compare_spec(last, prev) != Ordering::Incomparable);
        // The pair (prev, last) sits at two distinct indices, so no tie.
        assert(compare_spec(prev, last) != Ordering::Equal);
        lemma_compare_swap(prev, last);
        if compare_spec(last, prev) == Ordering::Greater {
            assert(r == last);
            assert(compare_spec(prev, last) == Ordering::Less);
            assert forall|i: int| 0 <= i < s.len() && s[i] != r implies compare_spec(
                #[trigger] s[i],
                r,
            ) == Ordering::Less by {
                if i < s.len() - 1 {
                    if s[i] == prev {
                        assert(compare_spec(s[i], last) == Ordering::Less);
                    } else {
                        assert(s0[i] == s[i]);
                        assert(compare_spec(s[i], prev) == Ordering::Less);
                        lemma_less_transitive(s[i], prev, last);
                    }
                }
            }
        } else {
            assert(compare_spec(last, prev) == Ordering::Less);
            assert(r == prev);
            assert forall|i: int| 0 <= i < s.len() && s[i] != r implies compare_spec(
                #[trigger] s[i],
                r,
            ) == Ordering::Less by {
                if i < s.len() - 1 {
                    assert(s0[i] == s[i]);
                }
            }
        }
    }
}

/// The maximum of a sequence free of not-a-number and of ties does not
/// depend on the order of its elements: any two sequences holding the
/// same values reduce to the same result.
pub proof fn lemma_max_of_permutation(s1: Seq<NumericValue>, s2: Seq<NumericValue>)
    requires
        s1.len() > 0,
        s1.to_multiset() == s2.to_multiset(),
        no_nans(s1),
        no_ties(s1),
        no_nans(s2),
        no_ties(s2),
    ensures
        max_of_spec(s1) == max_of_spec(s2),
{
    s1.to_multiset_ensures();
    s2.to_multiset_ensures();
    assert(s2.len() == s1.len());
    let r1 = max_of_spec(s1);
    let r2 = max_of_spec(s2);
    lemma_max_of_in(s1);
    lemma_max_of_in(s2);
    lemma_max_of_greatest(s1);
    lemma_max_of_greatest(s2);
    assert(s1.to_multiset().count(r1) > 0);
    assert(s2.contains(r1));
    assert(s2.to_multiset().count(r2) > 0);
    assert(s1.contains(r2));
    if r1 != r2 {
        let i2 = choose|i: int| 0 <= i < s2.len() && s2[i] == r1;
        assert(compare_spec(s2[i2], r2) == Ordering::Less);
        let i1 = choose|i: int| 0 <= i < s1.len() && s1[i] == r2;
        assert(compare_spec(s1[i1], r1) == Ordering::Less);
        lemma_compare_swap(r1, r2);
        assert(false);
    }
}

} // verus!
