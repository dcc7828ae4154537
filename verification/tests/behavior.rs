use std::collections::HashMap;

use hashtables::chaining_hashtable::ChainingHashtable;
use hashtables::hashtable::{Rehash, SimpleHashtable};
use hashtables::open_hashtable::OpenHashtable;
use hashtables::test_utils::lookup_value;

#[test]
fn round_trip_chaining() {
    let mut map = ChainingHashtable::new(8);
    assert_eq!(map.insert(7, 700), None);
    assert_eq!(lookup_value(&mut map, 7), Some(700));
}

#[test]
fn round_trip_open() {
    let mut map = OpenHashtable::new(8);
    assert_eq!(map.insert(7, 700), None);
    assert_eq!(lookup_value(&mut map, 7), Some(700));
}

#[test]
fn overwrite_returns_prior_value() {
    let mut map = OpenHashtable::new(4);
    assert_eq!(map.insert(3, 30), None);
    assert_eq!(map.insert(3, 31), Some(30));
    assert_eq!(lookup_value(&mut map, 3), Some(31));

    let mut map = ChainingHashtable::new(4);
    assert_eq!(map.insert(3, 30), None);
    assert_eq!(map.insert(3, 31), Some(30));
    assert_eq!(lookup_value(&mut map, 3), Some(31));
}

#[test]
fn erase_twice_then_lookup() {
    let mut map = OpenHashtable::new(4);
    assert_eq!(map.insert(9, 90), None);
    assert!(map.erase(&9));
    assert!(!map.erase(&9));
    assert_eq!(lookup_value(&mut map, 9), None);

    let mut map = ChainingHashtable::new(4);
    assert_eq!(map.insert(9, 90), None);
    assert!(map.erase(&9));
    assert!(!map.erase(&9));
    assert_eq!(lookup_value(&mut map, 9), None);
}

#[test]
fn erase_absent_key_reports_false() {
    let mut map = OpenHashtable::new(4);
    assert!(!map.erase(&1));
    let mut map = ChainingHashtable::new(4);
    assert!(!map.erase(&1));
}

#[test]
fn mutation_through_lookup_reference_is_visible() {
    let mut map = OpenHashtable::new(4);
    assert_eq!(map.insert(0, 42), None);
    if let Some(r) = map.lookup(&0) {
        *r = 1337;
    } else {
        panic!("key missing after insert");
    }
    assert_eq!(lookup_value(&mut map, 0), Some(1337));
}

#[test]
fn rehash_across_implementations() {
    let mut chaining = ChainingHashtable::new(16);
    for k in 0..16u64 {
        assert_eq!(chaining.insert(k, k * k), None);
    }
    let mut open = OpenHashtable::new(16);
    chaining.rehash(&mut open);
    for k in 0..16u64 {
        assert_eq!(lookup_value(&mut open, k), Some(k * k));
        // the source was not consumed or changed
        assert_eq!(lookup_value(&mut chaining, k), Some(k * k));
    }

    let mut std_map: HashMap<u64, u64> = SimpleHashtable::new(16);
    open.rehash(&mut std_map);
    for k in 0..16u64 {
        assert_eq!(lookup_value(&mut std_map, k), Some(k * k));
    }
}

#[test]
fn open_capacity_rounds_up_to_power_of_two() {
    // a hint of 10 yields 16 slots, so 16 distinct keys fit without growth
    let mut map = OpenHashtable::new(10);
    for k in 0..16u64 {
        assert_eq!(map.insert(k, k + 1), None);
    }
    for k in 0..16u64 {
        assert_eq!(lookup_value(&mut map, k), Some(k + 1));
    }
}

#[test]
fn tombstone_keeps_probe_chains_unbroken() {
    // fill a small table so collisions are certain, erase some keys, and
    // check the remaining keys are still found past the erased slots
    let mut map = OpenHashtable::new(8);
    for k in 0..8u64 {
        assert_eq!(map.insert(k, 1000 + k), None);
    }
    for k in [0u64, 2, 4, 6] {
        assert!(map.erase(&k));
    }
    for k in [1u64, 3, 5, 7] {
        assert_eq!(lookup_value(&mut map, k), Some(1000 + k));
    }
    for k in [0u64, 2, 4, 6] {
        assert_eq!(lookup_value(&mut map, k), None);
    }
}

#[test]
fn zero_size_hint_still_holds_one_entry() {
    let mut map = OpenHashtable::new(0);
    assert_eq!(map.insert(5, 50), None);
    assert_eq!(lookup_value(&mut map, 5), Some(50));

    let mut map = ChainingHashtable::new(0);
    assert_eq!(map.insert(5, 50), None);
    assert_eq!(lookup_value(&mut map, 5), Some(50));
}
