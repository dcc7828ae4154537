use std::collections::HashMap;

use hashtables::test_utils::{test_hashmap_functionality, test_lookup_reference};

#[test]
fn test_functionality_std() {
    for size in [10, 99, 837, 48329, 384933] {
        test_hashmap_functionality::<HashMap<u64, u64>>(size);
    }
}

#[test]
fn test_reference_std() {
    for size in [10, 99, 837, 48329, 384933] {
        test_lookup_reference::<HashMap<u64, u64>>(size)
    }
}
