use hashtables::chaining_hashtable::ChainingHashtable;
use hashtables::test_utils::{test_hashmap_functionality, test_lookup_reference};

#[test]
fn test_chaining_hashtable() {
    for size in [10, 99, 837, 48329, 384933] {
        test_hashmap_functionality::<ChainingHashtable>(size);
    }
}

#[test]
fn test_reference_chaining() {
    for size in [10, 99, 837, 48329, 384933] {
        test_lookup_reference::<ChainingHashtable>(size)
    }
}
