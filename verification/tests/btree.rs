use std::collections::BTreeMap;

use hashtables::ordered_test_utils::{test_ordered_set_functionality, test_ordered_set_reference};

#[test]
fn test_std_functionality() {
    for size in [10, 99, 837, 48329, 384933] {
        test_ordered_set_functionality::<BTreeMap<u64, u64>>(size);
    }
}

#[test]
fn test_std_reference() {
    test_ordered_set_reference::<BTreeMap<u64, u64>>();
}
