//! The capability contract for the ordered-map baseline: construct, insert,
//! and lookup (mutable). A thin pass-through to an existing ordered
//! container; no original algorithmic content stands behind it.

use vstd::prelude::*;

verus! {

/// An unbounded map from keys to values, used as a reference container.
pub trait SimpleOrderedMap: Sized {
    /// The key-value relation the map currently holds.
    spec fn contents(&self) -> Map<u64, u64>;

    /// Structural well-formedness, preserved by every operation.
    spec fn inv(&self) -> bool;

    fn new() -> (r: Self)
        ensures
            r.inv(),
            r.contents() == Map::<u64, u64>::empty(),
    ;

    /// Obtain a mutable reference to the value associated with `key`, if it
    /// exists. A mutation through the reference is visible to subsequent
    /// lookups.
    fn lookup(&mut self, key: &u64) -> (r: Option<&mut u64>)
        requires
            old(self).inv(),
        ensures
            final(self).inv(),
            !old(self).contents().contains_key(*key) ==> r.is_none() && final(self).contents()
                == old(self).contents(),
            old(self).contents().contains_key(*key) ==> r.is_some() && *r.unwrap() == old(
                self,
            ).contents()[*key] && final(self).contents() == old(self).contents().insert(
                *key,
                *final(r.unwrap()),
            ),
    ;

    /// Insert `key` with `value`. If `key` was already present, return the
    /// previously associated value as `Some`, otherwise return `None`.
    fn insert(&mut self, key: u64, value: u64) -> (r: Option<u64>)
        requires
            old(self).inv(),
        ensures
            final(self).inv(),
            final(self).contents() == old(self).contents().insert(key, value),
            r == (if old(self).contents().contains_key(key) {
                Some(old(self).contents()[key])
            } else {
                None::<u64>
            }),
    ;
}

} // verus!
