use numeric_order::compare::NumericValue;
use numeric_order::reduce::{max_of, MaxError};

fn rv(x: f32) -> NumericValue {
    NumericValue::Real(x.to_bits())
}

#[test]
fn mixed_list_yields_the_largest_value() {
    let list = vec![
        NumericValue::Integer(34),
        rv(2.5),
        rv(123.45),
        NumericValue::Integer(50),
    ];
    assert_eq!(max_of(&list), Ok(rv(123.45)));
}

#[test]
fn singleton_returns_its_only_element() {
    let list = vec![NumericValue::Integer(5)];
    assert_eq!(max_of(&list), Ok(NumericValue::Integer(5)));
}

#[test]
fn empty_input_is_reported() {
    let list: Vec<NumericValue> = vec![];
    assert_eq!(max_of(&list), Err(MaxError::EmptyInput));
}

#[test]
fn nan_never_wins_even_as_the_seed() {
    let list = vec![rv(f32::NAN), NumericValue::Integer(3)];
    assert_eq!(max_of(&list), Ok(NumericValue::Integer(3)));
}

#[test]
fn all_nan_input_returns_the_first_nan() {
    let list = vec![rv(f32::NAN), rv(f32::NAN)];
    assert_eq!(max_of(&list), Ok(rv(f32::NAN)));
}

#[test]
fn ties_keep_the_earliest_maximal_element() {
    let list = vec![NumericValue::Integer(1), rv(1.0), NumericValue::Integer(0)];
    assert_eq!(max_of(&list), Ok(NumericValue::Integer(1)));
    let list2 = vec![rv(1.0), NumericValue::Integer(1), NumericValue::Integer(0)];
    assert_eq!(max_of(&list2), Ok(rv(1.0)));
}

#[test]
fn result_is_invariant_under_permutation() {
    let a = NumericValue::Integer(34);
    let b = rv(2.5);
    let c = rv(123.45);
    let d = NumericValue::Integer(50);
    let expected = Ok(c);
    assert_eq!(max_of(&vec![a, b, c, d]), expected);
    assert_eq!(max_of(&vec![d, c, b, a]), expected);
    assert_eq!(max_of(&vec![c, a, d, b]), expected);
    assert_eq!(max_of(&vec![b, d, a, c]), expected);
}

#[test]
fn nan_in_the_middle_is_skipped() {
    let list = vec![
        NumericValue::Integer(3),
        rv(f32::NAN),
        rv(2.0),
        NumericValue::Integer(-7),
    ];
    assert_eq!(max_of(&list), Ok(NumericValue::Integer(3)));
}
