use numeric_order::compare::{compare, numeric_eq, NumericValue, Ordering};

fn rv(x: f32) -> NumericValue {
    NumericValue::Real(x.to_bits())
}

#[test]
fn same_variant_integers_follow_native_order() {
    let a = NumericValue::Integer(3);
    let b = NumericValue::Integer(7);
    assert_eq!(compare(a, b), Ordering::Less);
    assert_eq!(compare(b, a), Ordering::Greater);
    assert_eq!(
        compare(NumericValue::Integer(5), NumericValue::Integer(5)),
        Ordering::Equal
    );
    assert_eq!(
        compare(NumericValue::Integer(-4), NumericValue::Integer(2)),
        Ordering::Less
    );
}

#[test]
fn same_variant_reals_follow_native_order() {
    assert_eq!(compare(rv(2.5), rv(123.45)), Ordering::Less);
    assert_eq!(compare(rv(123.45), rv(2.5)), Ordering::Greater);
    assert_eq!(compare(rv(2.5), rv(2.5)), Ordering::Equal);
    assert_eq!(compare(rv(-1.5), rv(1.5)), Ordering::Less);
    assert_eq!(compare(rv(-1.5), rv(-2.5)), Ordering::Greater);
}

#[test]
fn nan_is_mutually_incomparable() {
    let nan = rv(f32::NAN);
    assert_eq!(compare(nan, rv(3.0)), Ordering::Incomparable);
    assert_eq!(compare(rv(3.0), nan), Ordering::Incomparable);
    assert_eq!(compare(nan, NumericValue::Integer(3)), Ordering::Incomparable);
    assert_eq!(compare(NumericValue::Integer(3), nan), Ordering::Incomparable);
    assert_eq!(compare(nan, nan), Ordering::Incomparable);
}

#[test]
fn swapping_operands_inverts_the_outcome() {
    let pairs = [
        (NumericValue::Integer(1), NumericValue::Integer(2)),
        (NumericValue::Integer(10), rv(10.0)),
        (rv(0.5), NumericValue::Integer(-3)),
        (rv(7.25), rv(-7.25)),
    ];
    for (a, b) in pairs {
        let fwd = compare(a, b);
        let bwd = compare(b, a);
        let expected = match fwd {
            Ordering::Less => Ordering::Greater,
            Ordering::Greater => Ordering::Less,
            other => other,
        };
        assert_eq!(bwd, expected);
    }
}

#[test]
fn cross_variant_chain_is_consistent() {
    assert_eq!(
        compare(NumericValue::Integer(10), rv(10.0)),
        Ordering::Equal
    );
    assert_eq!(compare(rv(10.0), NumericValue::Integer(11)), Ordering::Less);
    assert_eq!(
        compare(NumericValue::Integer(10), NumericValue::Integer(11)),
        Ordering::Less
    );
}

#[test]
fn mixed_comparison_promotes_either_side() {
    assert_eq!(compare(NumericValue::Integer(3), rv(2.5)), Ordering::Greater);
    assert_eq!(compare(rv(2.5), NumericValue::Integer(3)), Ordering::Less);
    assert_eq!(compare(NumericValue::Integer(-5), rv(-2.5)), Ordering::Less);
    assert_eq!(compare(rv(-2.5), NumericValue::Integer(-5)), Ordering::Greater);
}

#[test]
fn promotion_rounds_large_integers() {
    // 2^24 + 1 is not representable: the cast rounds it down to 2^24.
    assert_eq!(
        compare(NumericValue::Integer(16_777_217), rv(16_777_216.0)),
        Ordering::Equal
    );
    // 2^24 + 3 rounds up to 2^24 + 4 (nearest, ties to even).
    assert_eq!(
        compare(NumericValue::Integer(16_777_219), rv(16_777_220.0)),
        Ordering::Equal
    );
    assert_eq!(
        compare(NumericValue::Integer(16_777_219), rv(16_777_216.0)),
        Ordering::Greater
    );
    assert_eq!(
        compare(NumericValue::Integer(i32::MIN), rv(-2_147_483_648.0)),
        Ordering::Equal
    );
    assert_eq!(
        compare(NumericValue::Integer(i32::MAX), rv(2_147_483_648.0)),
        Ordering::Equal
    );
}

#[test]
fn zeroes_of_both_signs_are_equal() {
    assert_eq!(compare(rv(0.0), rv(-0.0)), Ordering::Equal);
    assert_eq!(compare(rv(-0.0), NumericValue::Integer(0)), Ordering::Equal);
}

#[test]
fn infinities_bound_every_finite_value() {
    assert_eq!(
        compare(rv(f32::INFINITY), NumericValue::Integer(i32::MAX)),
        Ordering::Greater
    );
    assert_eq!(
        compare(rv(f32::NEG_INFINITY), NumericValue::Integer(i32::MIN)),
        Ordering::Less
    );
    assert_eq!(
        compare(rv(f32::INFINITY), rv(f32::INFINITY)),
        Ordering::Equal
    );
    assert_eq!(
        compare(rv(f32::NEG_INFINITY), rv(f32::INFINITY)),
        Ordering::Less
    );
}

#[test]
fn numeric_eq_crosses_variants_but_rejects_nan() {
    assert!(numeric_eq(NumericValue::Integer(10), rv(10.0)));
    assert!(!numeric_eq(NumericValue::Integer(10), NumericValue::Integer(11)));
    assert!(!numeric_eq(rv(f32::NAN), rv(f32::NAN)));
}
