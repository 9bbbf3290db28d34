//! The reduction that extracts the maximum of a sequence of tagged
//! numeric values.
//!
//! A linear scan seeded with the first element: a later element replaces
//! the running maximum when it compares `Greater`, and also when the pair
//! is `Incomparable` and the later element is not the not-a-number side —
//! so a not-a-number never becomes the reported maximum unless every
//! element is one, in which case the first element is returned.  Ties keep
//! the earliest-seen maximal element.

use vstd::prelude::*;
use crate::compare::{compare, compare_spec, is_nan_value, value_is_nan, NumericValue, Ordering};

verus! {

/// The one reportable failure: the input sequence was empty.
#[derive(Clone, Copy, Debug, PartialEq, Eq, Structural)]
pub enum MaxError {
    EmptyInput,
}

/// Whether `item` displaces `cur` as the running maximum: it compares
/// `Greater`, or the pair is incomparable and `item` is not the
/// not-a-number side.
pub open spec fn wins(item: NumericValue, cur: NumericValue) -> bool {
    compare_spec(item, cur) == Ordering::Greater || (compare_spec(item, cur)
        == Ordering::Incomparable && !value_is_nan(item))
}

/// The left-to-right reduction of a non-empty sequence under `wins`.
pub open spec fn max_of_spec(s: Seq<NumericValue>) -> NumericValue
    recommends
        s.len() > 0,
    decreases s.len(),
{
    if s.len() <= 1 {
        s[0]
    } else {
        let prev = max_of_spec(s.drop_last());
        if wins(s.last(), prev) {
            s.last()
        } else {
            prev
        }
    }
}

/// Returns the maximum of the sequence under the comparison policy, or
/// `EmptyInput` exactly when the sequence is empty.
pub fn max_of(list: &Vec<NumericValue>) -> (r: Result<NumericValue, MaxError>)
    ensures
        list@.len() == 0 ==> r == Err::<NumericValue, MaxError>(MaxError::EmptyInput),
        list@.len() > 0 ==> r == Ok::<NumericValue, MaxError>(max_of_spec(list@)),
{
    if list.len() == 0 {
        return Err(MaxError::EmptyInput);
    }
    let mut cur: NumericValue = list[0];
    let mut idx: usize = 1;
    proof {
        assert(cur == max_of_spec(list@.take(1)));
    }
    while idx < list.len()
        invariant
            1 <= idx <= list@.len(),
            cur == max_of_spec(list@.take(idx as int)),
        decreases list@.len() - idx,
    {
        let item: NumericValue = list[idx];
        let outcome: Ordering = compare(item, cur);
        let replace: bool = match outcome {
            Ordering::Greater => true,
            Ordering::Incomparable => !is_nan_value(item),
            _ => false,
        };
        proof {
            let taken = list@.take(idx as int + 1);
            assert(taken.drop_last() =~= list@.take(idx as int));
            assert(taken.last() == list@[idx as int]);
            assert(replace == wins(item, cur));
        }
        if replace {
            cur = item;
        }
        idx = idx + 1;
    }
    proof {
        assert(list@.take(list@.len() as int) =~= list@);
    }
    Ok(cur)
}

} // verus!
