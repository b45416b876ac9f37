use std::collections::BTreeSet;

use test_generator::adder128;
use test_generator::adder_wide::{self, cross_with_carries, generate_test_pairs};
use test_generator::bit_vec::BitVec;
use test_generator::order::sort_dedup;

#[test]
fn sort_dedup_matches_btree_order_wide() {
    let pairs = generate_test_pairs::<70, 2>();
    let inputs = cross_with_carries(&pairs);
    let expected: Vec<adder_wide::AdderIn<70, 2>> = inputs.iter().copied().collect::<BTreeSet<_>>().into_iter().collect();
    let sorted = sort_dedup(inputs);
    assert_eq!(sorted, expected);
}

#[test]
fn sort_dedup_matches_btree_order_128() {
    let pairs = adder128::test_i128();
    let inputs = adder128::cross_with_carries(&pairs);
    let expected: Vec<adder128::AdderIn> = inputs.iter().copied().collect::<BTreeSet<_>>().into_iter().collect();
    let sorted = sort_dedup(inputs);
    assert_eq!(sorted, expected);
}

#[test]
fn sort_dedup_with_missing_values() {
    let b = BitVec::<8, 1>::from_u64(3);
    let items = vec![
        adder_wide::AdderIn::<8, 1> { a: Some(b), b: None, cin: Some(true) },
        adder_wide::AdderIn::<8, 1> { a: None, b: Some(b), cin: None },
        adder_wide::AdderIn::<8, 1> { a: Some(b), b: None, cin: Some(false) },
        adder_wide::AdderIn::<8, 1> { a: None, b: Some(b), cin: None },
        adder_wide::AdderIn::<8, 1> { a: Some(b), b: None, cin: None },
    ];
    let expected: Vec<_> = items.iter().copied().collect::<BTreeSet<_>>().into_iter().collect();
    let sorted = sort_dedup(items);
    assert_eq!(sorted.len(), 4);
    assert_eq!(sorted, expected);
}

#[test]
fn cross_with_carries_order() {
    let pairs = vec![(1i128, 2i128), (3, 4)];
    let inputs = adder128::cross_with_carries(&pairs);
    assert_eq!(inputs.len(), 4);
    assert_eq!(inputs[0], adder128::AdderIn::new(1, 2, true));
    assert_eq!(inputs[1], adder128::AdderIn::new(1, 2, false));
    assert_eq!(inputs[3], adder128::AdderIn::new(3, 4, false));
}
