//! Checking results against expected values: the comparisons, with the
//! reporting left to the caller.
use vstd::prelude::*;
use std::collections::HashMap;

verus! {

broadcast use vstd::std_specs::hash::group_hash_axioms;

/// Compares each actual value with the expected value at the same position;
/// the two lists must be equally long.
pub fn expect_vec(expected: &[i64], actual: &[i64]) -> (r: Vec<bool>)
    requires
        expected@.len() == actual@.len(),
    ensures
        r@.len() == expected@.len(),
        forall|i: int| 0 <= i < r@.len() ==> #[trigger] r@[i] == (expected@[i] == actual@[i]),
{
    let mut r: Vec<bool> = Vec::new();
    let mut i: usize = 0;
    while i < expected.len()
        invariant
            i <= expected@.len(),
            expected@.len() == actual@.len(),
            r@.len() == i,
            forall|k: int| 0 <= k < i ==> #[trigger] r@[k] == (expected@[k] == actual@[k]),
        decreases expected@.len() - i,
    {
        r.push(expected[i] == actual[i]);
        i = i + 1;
    }
    r
}

/// Whether the map holds the expected value for `item`, which it must hold.
pub fn expect_map(d: &HashMap<u64, i64>, item: u64, expected: i64) -> (r: bool)
    requires
        d@.contains_key(item),
    ensures
        r == (d@[item] == expected),
{
    match d.get(&item) {
        Some(v) => *v == expected,
        None => false,
    }
}

} // verus!
