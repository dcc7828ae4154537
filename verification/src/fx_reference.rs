//! The capability contract implemented by a fast-hash associative
//! container: std's hash map driven by rustc-hash's deterministic hasher,
//! used as a performance baseline.

use vstd::prelude::*;
use rustc_hash::FxHashMap;
use crate::hashtable::{insert_entries, Rehash, SimpleHashtable};

verus! {

/// Relies on std's HashMap::reserve: a capacity hint that stores nothing.
#[verifier::external_body]
fn fx_reserve(m: &mut FxHashMap<u64, u64>, size: usize)
    ensures
        final(m)@ == old(m)@,
{
    m.reserve(size)
}

/// Relies on std's HashMap::insert under rustc-hash's deterministic
/// build-hasher: the map gains `key -> value` and the previous value for
/// `key` comes back.
#[verifier::external_body]
fn fx_insert(m: &mut FxHashMap<u64, u64>, key: u64, value: u64) -> (r: Option<u64>)
    ensures
        final(m)@ == old(m)@.insert(key, value),
        r == (if old(m)@.contains_key(key) {
            Some(old(m)@[key])
        } else {
            None::<u64>
        }),
{
    m.insert(key, value)
}

/// Relies on std's HashMap::get_mut under rustc-hash's deterministic
/// build-hasher: the mutable reference to the value stored under `key`.
#[verifier::external_body]
fn fx_get_mut<'a>(m: &'a mut FxHashMap<u64, u64>, key: &u64) -> (r: Option<&'a mut u64>)
    ensures
        !old(m)@.contains_key(*key) ==> r.is_none() && final(m)@ == old(m)@,
        old(m)@.contains_key(*key) ==> r.is_some() && *r.unwrap() == old(m)@[*key] && final(m)@
            == old(m)@.insert(*key, *final(r.unwrap())),
{
    m.get_mut(key)
}

/// Relies on std's HashMap::remove under rustc-hash's deterministic
/// build-hasher: the map loses `key` and its value comes back.
#[verifier::external_body]
fn fx_remove(m: &mut FxHashMap<u64, u64>, key: &u64) -> (r: Option<u64>)
    ensures
        final(m)@ == old(m)@.remove(*key),
        r == (if old(m)@.contains_key(*key) {
            Some(old(m)@[*key])
        } else {
            None::<u64>
        }),
{
    m.remove(key)
}

/// Relies on std's HashMap iteration: every stored pair is listed exactly
/// once, in an unspecified order.
#[verifier::external_body]
fn fx_entries(m: &FxHashMap<u64, u64>) -> (es: Vec<(u64, u64)>)
    ensures
        forall|i: int|
            0 <= i < es@.len() ==> m@.contains_key(#[trigger] es@[i].0) && m@[es@[i].0]
                == es@[i].1,
        forall|k: u64|
            m@.contains_key(k) ==> exists|i: int| 0 <= i < es@.len() && #[trigger] es@[i].0 == k,
        forall|i: int, j: int| 0 <= i < j < es@.len() ==> es@[i].0 != es@[j].0,
{
    m.iter().map(|(k, v)| (*k, *v)).collect()
}

/// The fast-hash map behind the shared capability contract.
pub struct FxWrapper {
    map: FxHashMap<u64, u64>,
}

impl SimpleHashtable for FxWrapper {
    closed spec fn contents(&self) -> Map<u64, u64> {
        self.map@
    }

    closed spec fn inv(&self) -> bool {
        self.map@.dom().finite()
    }

    closed spec fn capacity(&self) -> nat {
        usize::MAX as nat + 1
    }

    closed spec fn spare(&self) -> nat {
        usize::MAX as nat + 1
    }

    closed spec fn no_tombstones(&self) -> bool {
        true
    }

    closed spec fn may_insert(&self, key: u64) -> bool {
        true
    }

    open spec fn new_capacity(size: usize) -> nat {
        usize::MAX as nat + 1
    }

    proof fn lemma_fresh_key_may_insert(&self, key: u64) {
    }

    proof fn lemma_present_key_may_insert(&self, key: u64) {
    }

    proof fn lemma_contents_finite(&self) {
    }

    fn new(size: usize) -> (r: Self) {
        let mut map = FxHashMap::default();
        fx_reserve(&mut map, size);
        FxWrapper { map }
    }

    fn insert(&mut self, key: u64, value: u64) -> (r: Option<u64>) {
        fx_insert(&mut self.map, key, value)
    }

    fn lookup(&mut self, key: &u64) -> (r: Option<&mut u64>) {
        fx_get_mut(&mut self.map, key)
    }

    fn erase(&mut self, key: &u64) -> (r: bool) {
        fx_remove(&mut self.map, key).is_some()
    }

    fn entries(&self) -> (es: Vec<(u64, u64)>) {
        fx_entries(&self.map)
    }
}

impl Rehash for FxWrapper {
    fn rehash<T: SimpleHashtable>(&self, map: &mut T) {
        let es = self.entries();
        insert_entries(&es, Ghost(self.contents()), map);
    }
}

#[verifier::external_type_specification]
#[verifier::external_body]
pub struct ExFxBuildHasher(rustc_hash::FxBuildHasher);

} // verus!
