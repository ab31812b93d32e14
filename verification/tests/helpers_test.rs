use aoc23::helpers::{expect_map, expect_vec};
use std::collections::HashMap;

#[test]
fn vectors_compared_pairwise() {
    assert_eq!(expect_vec(&[1, 2, 3], &[1, 5, 3]), vec![true, false, true]);
    assert_eq!(expect_vec(&[], &[]), Vec::<bool>::new());
}

#[test]
fn map_entry_compared() {
    let mut d: HashMap<u64, i64> = HashMap::new();
    d.insert(4, 9);
    assert!(expect_map(&d, 4, 9));
    assert!(!expect_map(&d, 4, 8));
}
