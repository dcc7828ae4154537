//! Conformance routines, generic over any implementation of the capability
//! contract: every check the operation sequences demand is established
//! statically.

use vstd::prelude::*;
use crate::hashtable::{Rehash, SimpleHashtable};

verus! {

/// Look up `key` and hand back a copy of its value; the table is unchanged.
pub fn lookup_value<T: SimpleHashtable>(map: &mut T, key: u64) -> (r: Option<u64>)
    requires
        old(map).inv(),
    ensures
        final(map).inv(),
        final(map).contents() == old(map).contents(),
        final(map).capacity() == old(map).capacity(),
        final(map).spare() == old(map).spare(),
        old(map).no_tombstones() ==> final(map).no_tombstones(),
        r == (if old(map).contents().contains_key(key) {
            Some(old(map).contents()[key])
        } else {
            None::<u64>
        }),
{
    let res = map.lookup(&key);
    match res {
        Some(v) => {
            let val = *v;
            proof {
                assert(old(map).contents().insert(key, old(map).contents()[key]) =~= old(
                    map,
                ).contents());
            }
            Some(val)
        },
        None => None,
    }
}

/// Exercise one implementation through the full conformance sequence:
/// bulk insert, bulk update, lookup of present and absent keys, rehash into
/// a fresh instance, a partial erase pattern, re-erase, and final lookups.
/// Every expected result is proved, not sampled.
pub fn test_hashmap_functionality<T: Rehash>(size: usize)
    requires
        size <= usize::MAX / 2 + 1,
{
    let mut map = T::new(size);
    let size64: u64 = size as u64;

    // bulk insert values; no key has a previous value
    let mut i: u64 = 0;
    while i < size64
        invariant
            map.inv(),
            map.no_tombstones(),
            0 <= i <= size64,
            size64 == size as u64,
            map.spare() + i >= size as nat,
            map.contents() == Map::new(|k: u64| k < i, |k: u64| 42u64),
            map.contents().dom().len() == i as nat,
            map.contents().dom().finite(),
        decreases size64 - i,
    {
        proof {
            assert(!map.contents().contains_key(i));
            map.lemma_fresh_key_may_insert(i);
        }
        let ghost pre = map.contents();
        let r = map.insert(i, 42);
        assert(r.is_none());
        proof {
            vstd::set::axiom_set_insert_len(pre.dom(), i);
            assert(map.contents().dom() =~= pre.dom().insert(i));
            assert(map.contents() =~= Map::new(|k: u64| k < i + 1, |k: u64| 42u64));
        }
        i += 1;
    }

    // bulk update values; every previous value is exactly 42
    let mut i: u64 = 0;
    while i < size64
        invariant
            map.inv(),
            map.no_tombstones(),
            0 <= i <= size64,
            size64 == size as u64,
            map.contents() == Map::new(
                |k: u64| k < size64,
                |k: u64|
                    if k < i {
                        k
                    } else {
                        42u64
                    },
            ),
            map.contents().dom().len() == size as nat,
            map.contents().dom().finite(),
        decreases size64 - i,
    {
        proof {
            map.lemma_present_key_may_insert(i);
        }
        let ghost pre = map.contents();
        let r = map.insert(i, i);
        assert(r == Some(42u64));
        proof {
            assert(map.contents().dom() =~= pre.dom());
            assert(map.contents() =~= Map::new(
                |k: u64| k < size64,
                |k: u64|
                    if k < i + 1 {
                        k
                    } else {
                        42u64
                    },
            ));
        }
        i += 1;
    }
    proof {
        assert(map.contents() =~= Map::new(|k: u64| k < size64, |k: u64| k));
    }

    // lookup values; each holds the key itself
    let mut i: u64 = 0;
    while i < size64
        invariant
            map.inv(),
            map.no_tombstones(),
            0 <= i <= size64,
            size64 == size as u64,
            map.contents() == Map::new(|k: u64| k < size64, |k: u64| k),
            map.contents().dom().len() == size as nat,
            map.contents().dom().finite(),
        decreases size64 - i,
    {
        let r = lookup_value(&mut map, i);
        assert(r == Some(i));
        i += 1;
    }

    // rehash into a fresh instance of the same implementation
    let mut map2 = T::new(size);
    proof {
        map.lemma_contents_finite();
    }
    map.rehash(&mut map2);
    proof {
        assert(map2.contents() =~= Map::new(|k: u64| k < size64, |k: u64| k));
    }

    // the copy holds every entry of the source
    let mut i: u64 = 0;
    while i < size64
        invariant
            map2.inv(),
            0 <= i <= size64,
            size64 == size as u64,
            map2.contents() == Map::new(|k: u64| k < size64, |k: u64| k),
        decreases size64 - i,
    {
        let r = lookup_value(&mut map2, i);
        assert(r == Some(i));
        i += 1;
    }

    // erase every third element up to half of size; each deletion succeeds
    let half: u64 = size64 / 2;
    let mut i: u64 = 0;
    while i < half
        invariant
            map.inv(),
            0 <= i,
            i % 3 == 0,
            i < half + 3,
            size64 == size as u64,
            half == size64 / 2,
            map.contents() == Map::new(|k: u64| k < size64 && !(k % 3 == 0 && k < i), |k: u64| k),
        decreases half + 3 - i,
    {
        proof {
            assert(map.contents().contains_key(i));
        }
        let r = map.erase(&i);
        assert(r);
        proof {
            assert(map.contents() =~= Map::new(
                |k: u64| k < size64 && !(k % 3 == 0 && k < i + 3),
                |k: u64| k,
            ));
        }
        i += 3;
    }
    proof {
        assert(map.contents() =~= Map::new(
            |k: u64| k < size64 && !(k % 3 == 0 && k < half),
            |k: u64| k,
        ));
    }

    // erase the same elements again; each deletion now fails
    let mut i: u64 = 0;
    while i < half
        invariant
            map.inv(),
            0 <= i,
            i % 3 == 0,
            i < half + 3,
            size64 == size as u64,
            half == size64 / 2,
            map.contents() == Map::new(|k: u64| k < size64 && !(k % 3 == 0 && k < half), |k: u64| k),
        decreases half + 3 - i,
    {
        proof {
            assert(!map.contents().contains_key(i));
        }
        let ghost pre = map.contents();
        let r = map.erase(&i);
        assert(!r);
        proof {
            assert(map.contents() =~= pre);
        }
        i += 3;
    }

    // lookup first half: erased keys are gone, the rest unchanged
    let mut i: u64 = 0;
    while i < half
        invariant
            map.inv(),
            0 <= i <= half,
            size64 == size as u64,
            half == size64 / 2,
            map.contents() == Map::new(|k: u64| k < size64 && !(k % 3 == 0 && k < half), |k: u64| k),
        decreases half - i,
    {
        let r = lookup_value(&mut map, i);
        if i % 3 == 0 {
            assert(r.is_none());
        } else {
            assert(r == Some(i));
        }
        i += 1;
    }

    // erase the remaining elements of the first half
    let mut i: u64 = 0;
    while i < half
        invariant
            map.inv(),
            0 <= i <= half,
            size64 == size as u64,
            half == size64 / 2,
            map.contents() == Map::new(
                |k: u64| k < size64 && !(k % 3 == 0 && k < half) && !(k < i),
                |k: u64| k,
            ),
        decreases half - i,
    {
        let ghost pre = map.contents();
        let r = map.erase(&i);
        if i % 3 == 0 {
            assert(!r);
        } else {
            assert(r);
        }
        proof {
            assert(map.contents() =~= Map::new(
                |k: u64| k < size64 && !(k % 3 == 0 && k < half) && !(k < i + 1),
                |k: u64| k,
            ));
        }
        i += 1;
    }
}

/// The reference returned by lookup points at the entry itself: a mutation
/// through it is visible to the next lookup, on every implementation.
pub fn test_lookup_reference<T: SimpleHashtable>(size: usize)
    requires
        size <= usize::MAX / 2 + 1,
{
    let mut map = T::new(size);
    proof {
        map.lemma_fresh_key_may_insert(0);
    }
    let r = map.insert(0, 42);
    assert(r.is_none());

    let entry = map.lookup(&0);
    match entry {
        Some(e) => {
            assert(*e == 42);
            *e = 1337;
        },
        None => {
            proof {
                assert(false);
            }
        },
    }
    proof {
        assert(map.contents() =~= Map::<u64, u64>::empty().insert(0, 42).insert(0, 1337));
    }

    let r2 = lookup_value(&mut map, 0);
    assert(r2 == Some(1337u64));
}

} // verus!
