//! The capability contract implemented by std's general-purpose hash map,
//! used as a correctness baseline for the hand-built tables.

use vstd::prelude::*;
use std::collections::HashMap;
use crate::hashtable::{insert_entries, Rehash, SimpleHashtable};

verus! {

broadcast use vstd::std_specs::hash::group_hash_axioms;

/// Relies on std's HashMap::get_mut: the mutable reference to the value
/// stored under `key`, if present.
#[verifier::external_body]
fn hashmap_get_mut<'a>(m: &'a mut HashMap<u64, u64>, key: &u64) -> (r: Option<&'a mut u64>)
    ensures
        !old(m)@.contains_key(*key) ==> r.is_none() && final(m)@ == old(m)@,
        old(m)@.contains_key(*key) ==> r.is_some() && *r.unwrap() == old(m)@[*key] && final(m)@
            == old(m)@.insert(*key, *final(r.unwrap())),
{
    m.get_mut(key)
}

/// Relies on std's HashMap iteration: every stored pair is listed exactly
/// once, in an unspecified order.
#[verifier::external_body]
fn hashmap_entries(m: &HashMap<u64, u64>) -> (es: Vec<(u64, u64)>)
    ensures
        forall|i: int|
            0 <= i < es@.len() ==> m@.contains_key(#[trigger] es@[i].0) && m@[es@[i].0]
                == es@[i].1,
        forall|k: u64|
            m@.contains_key(k) ==> exists|i: int| 0 <= i < es@.len() && #[trigger] es@[i].0 == k,
        forall|i: int, j: int| 0 <= i < j < es@.len() ==> es@[i].0 != es@[j].0,
{
    m.iter().map(|(k, v)| (*k, *v)).collect()
}

impl SimpleHashtable for HashMap<u64, u64> {
    closed spec fn contents(&self) -> Map<u64, u64> {
        self@
    }

    closed spec fn inv(&self) -> bool {
        self@.dom().finite()
    }

    closed spec fn capacity(&self) -> nat {
        usize::MAX as nat + 1
    }

    closed spec fn spare(&self) -> nat {
        usize::MAX as nat + 1
    }

    closed spec fn no_tombstones(&self) -> bool {
        true
    }

    closed spec fn may_insert(&self, key: u64) -> bool {
        true
    }

    open spec fn new_capacity(size: usize) -> nat {
        usize::MAX as nat + 1
    }

    proof fn lemma_fresh_key_may_insert(&self, key: u64) {
    }

    proof fn lemma_present_key_may_insert(&self, key: u64) {
    }

    proof fn lemma_contents_finite(&self) {
    }

    fn new(size: usize) -> (r: Self) {
        HashMap::with_capacity(size)
    }

    fn insert(&mut self, key: u64, value: u64) -> (r: Option<u64>) {
        HashMap::insert(self, key, value)
    }

    fn lookup(&mut self, key: &u64) -> (r: Option<&mut u64>) {
        hashmap_get_mut(self, key)
    }

    fn erase(&mut self, key: &u64) -> (r: bool) {
        self.remove(key).is_some()
    }

    fn entries(&self) -> (es: Vec<(u64, u64)>) {
        hashmap_entries(self)
    }
}

impl Rehash for HashMap<u64, u64> {
    fn rehash<T: SimpleHashtable>(&self, map: &mut T) {
        let es = self.entries();
        insert_entries(&es, Ghost(self.contents()), map);
    }
}

} // verus!
