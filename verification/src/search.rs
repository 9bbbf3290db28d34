//! Linear search in a vector of integers.

use vstd::prelude::*;

verus! {

/// True exactly when `needle` occurs somewhere in `haystack`.
pub fn find_number(haystack: &Vec<i32>, needle: i32) -> (r: bool)
    ensures
        r == (exists|k: int| 0 <= k < haystack@.len() && haystack@[k] == needle),
{
    let mut idx: usize = 0;
    while idx < haystack.len()
        invariant
            idx <= haystack@.len(),
            forall|k: int| 0 <= k < idx ==> haystack@[k] != needle,
        decreases haystack@.len() - idx,
    {
        if haystack[idx] == needle {
            return true;
        }
        idx = idx + 1;
    }
    false
}

} // verus!
