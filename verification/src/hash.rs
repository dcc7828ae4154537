//! The 64-bit key hash that both hand-built tables share: fast,
//! deterministic, not security-sensitive.

use vstd::prelude::*;
use std::hash::Hasher;

verus! {

/// The hash of a key. The value is a pure function of the key alone; nothing
/// else is assumed about it.
pub uninterp spec fn hash_of(key: u64) -> u64;

/// Relies on rustc_hash::FxHasher (Default, write_u64, finish): a
/// deterministic, non-cryptographic hash whose result depends on the written
/// bytes alone.
#[verifier::external_body]
pub(crate) fn fx_hash(key: u64) -> (h: u64)
    ensures
        h == hash_of(key),
{
    let mut hasher = rustc_hash::FxHasher::default();
    hasher.write_u64(key);
    hasher.finish()
}

} // verus!
