//! The ordered-map contract implemented by std's balanced-tree map.

use vstd::prelude::*;
use std::collections::BTreeMap;
use crate::ordered_map::SimpleOrderedMap;

verus! {

broadcast use vstd::std_specs::btree::group_btree_axioms, vstd::laws_cmp::group_laws_cmp;

/// Relies on std's BTreeMap::get_mut: the mutable reference to the value
/// stored under `key`, if present.
#[verifier::external_body]
fn btree_get_mut<'a>(m: &'a mut BTreeMap<u64, u64>, key: &u64) -> (r: Option<&'a mut u64>)
    ensures
        !old(m)@.contains_key(*key) ==> r.is_none() && final(m)@ == old(m)@,
        old(m)@.contains_key(*key) ==> r.is_some() && *r.unwrap() == old(m)@[*key] && final(m)@
            == old(m)@.insert(*key, *final(r.unwrap())),
{
    m.get_mut(key)
}

impl SimpleOrderedMap for BTreeMap<u64, u64> {
    closed spec fn contents(&self) -> Map<u64, u64> {
        self@
    }

    closed spec fn inv(&self) -> bool {
        true
    }

    fn new() -> (r: Self) {
        BTreeMap::new()
    }

    fn lookup(&mut self, key: &u64) -> (r: Option<&mut u64>) {
        btree_get_mut(self, key)
    }

    fn insert(&mut self, key: u64, value: u64) -> (r: Option<u64>) {
        BTreeMap::insert(self, key, value)
    }
}

} // verus!
