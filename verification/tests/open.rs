use hashtables::open_hashtable::OpenHashtable;
use hashtables::test_utils::{test_hashmap_functionality, test_lookup_reference};

#[test]
fn test_open_hashtable() {
    for size in [10, 99, 837, 48329, 384933] {
        test_hashmap_functionality::<OpenHashtable>(size);
    }
}

#[test]
fn test_reference_open() {
    for size in [10, 99, 837, 48329, 384933] {
        test_lookup_reference::<OpenHashtable>(size)
    }
}
