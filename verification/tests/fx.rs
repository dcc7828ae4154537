use hashtables::fx_reference::FxWrapper;
use hashtables::test_utils::{test_hashmap_functionality, test_lookup_reference};

#[test]
fn test_functionality_fx() {
    for size in [10, 99, 837, 48329, 384933] {
        test_hashmap_functionality::<FxWrapper>(size);
    }
}

#[test]
fn test_reference_fx() {
    for size in [10, 99, 837, 48329, 384933] {
        test_lookup_reference::<FxWrapper>(size)
    }
}
