//! Conformance routines for the ordered-map contract: insertion of a
//! shuffled key range, updates, and lookups of present and absent keys, with
//! every expected result proved.

use vstd::prelude::*;
use rand::seq::SliceRandom;
use crate::ordered_map::SimpleOrderedMap;

verus! {

broadcast use vstd::seq_lib::group_to_multiset_ensures;

/// Relies on rand's SliceRandom::shuffle driven by thread_rng: an in-place
/// permutation of the elements; which permutation comes back depends on the
/// generator's state.
#[verifier::external_body]
fn shuffle(keys: &mut Vec<u64>)
    ensures
        final(keys)@.to_multiset() == old(keys)@.to_multiset(),
{
    keys.shuffle(&mut rand::thread_rng())
}

/// Look up `key` and hand back a copy of its value; the map is unchanged.
pub fn lookup_value<T: SimpleOrderedMap>(map: &mut T, key: u64) -> (r: Option<u64>)
    requires
        old(map).inv(),
    ensures
        final(map).inv(),
        final(map).contents() == old(map).contents(),
        r == (if old(map).contents().contains_key(key) {
            Some(old(map).contents()[key])
        } else {
            None::<u64>
        }),
{
    let res = map.lookup(&key);
    match res {
        Some(v) => {
            let val = *v;
            proof {
                assert(old(map).contents().insert(key, old(map).contents()[key]) =~= old(
                    map,
                ).contents());
            }
            Some(val)
        },
        None => None,
    }
}

/// Exercise one ordered-map implementation: insert a shuffled range of keys
/// with a fixed value (each insert reports absence), check them, update each
/// to its own key (each update reports the fixed value), then look up the
/// range and beyond it.
pub fn test_ordered_set_functionality<T: SimpleOrderedMap>(size: usize)
    requires
        size + 100 <= usize::MAX,
{
    let mut tree = T::new();
    let n: u64 = size as u64;

    // create keys and shuffle
    let mut keys: Vec<u64> = Vec::new();
    let mut i: u64 = 0;
    while i < n
        invariant
            0 <= i <= n,
            keys@.len() == i,
            forall|x: int| 0 <= x < i ==> keys@[x] == x,
        decreases n - i,
    {
        keys.push(i);
        i += 1;
    }
    let ghost orig = keys@;
    proof {
        assert(orig.no_duplicates());
        orig.lemma_multiset_has_no_duplicates();
    }
    shuffle(&mut keys);
    proof {
        assert(keys@.len() == keys@.to_multiset().len());
        assert(orig.len() == orig.to_multiset().len());
        assert(keys@.len() == n);
        keys@.lemma_multiset_has_no_duplicates_conv();
        assert forall|k: u64| #[trigger] keys@.contains(k) <==> k < n by {
            assert(keys@.contains(k) <==> keys@.to_multiset().count(k) > 0);
            assert(orig.contains(k) <==> orig.to_multiset().count(k) > 0);
            if k < n {
                assert(orig[k as int] == k);
                assert(orig.contains(k));
            }
            if keys@.to_multiset().count(k) > 0 {
                assert(orig.contains(k));
                let x = choose|x: int| 0 <= x < orig.len() && orig[x] == k;
                assert(orig[x] == x as u64);
            }
        }
    }

    // insert with fixed value, ensure there was no previous element
    let mut j: usize = 0;
    while j < keys.len()
        invariant
            tree.inv(),
            keys@.no_duplicates(),
            keys@.len() == n,
            size + 100 <= usize::MAX,
            n == size as u64,
            forall|k: u64| #[trigger] keys@.contains(k) <==> k < n,
            0 <= j <= keys@.len(),
            forall|k: u64|
                #[trigger] tree.contents().contains_key(k) <==> exists|x: int|
                    0 <= x < j && keys@[x] == k,
            forall|x: int| 0 <= x < j ==> tree.contents()[#[trigger] keys@[x]] == 42u64,
        decreases keys@.len() - j,
    {
        let key = keys[j];
        proof {
            if tree.contents().contains_key(key) {
                let x = choose|x: int| 0 <= x < j && keys@[x] == key;
                assert(keys@[x] == keys@[j as int]);
                assert(false);
            }
        }
        let r = tree.insert(key, 42);
        assert(r.is_none());
        j += 1;
    }

    // assure previous inserts were successful
    proof {
        assert forall|k: u64| #[trigger] tree.contents().contains_key(k) <==> k < n by {
            assert(tree.contents().contains_key(k) <==> keys@.contains(k));
        }
    }
    let mut j: usize = 0;
    while j < keys.len()
        invariant
            tree.inv(),
            keys@.len() == n,
            forall|k: u64| #[trigger] keys@.contains(k) <==> k < n,
            0 <= j <= keys@.len(),
            forall|k: u64| #[trigger] tree.contents().contains_key(k) <==> k < n,
            forall|x: int| 0 <= x < keys@.len() ==> tree.contents()[#[trigger] keys@[x]] == 42u64,
        decreases keys@.len() - j,
    {
        let key = keys[j];
        proof {
            assert(keys@[j as int] == key);
            assert(keys@.contains(key));
        }
        let r = lookup_value(&mut tree, key);
        assert(r == Some(42u64));
        j += 1;
    }

    // update and ensure that previous value was 42
    proof {
        assert forall|k: u64| tree.contents().contains_key(k) implies tree.contents()[k]
            == 42u64 by {
            assert(keys@.contains(k));
            let x = choose|x: int| 0 <= x < keys@.len() && keys@[x] == k;
            assert(tree.contents()[keys@[x]] == 42u64);
        }
    }
    let mut j: usize = 0;
    while j < keys.len()
        invariant
            tree.inv(),
            keys@.no_duplicates(),
            keys@.len() == n,
            n == size as u64,
            size + 100 <= usize::MAX,
            forall|k: u64| #[trigger] keys@.contains(k) <==> k < n,
            0 <= j <= keys@.len(),
            forall|k: u64| #[trigger] tree.contents().contains_key(k) <==> k < n,
            forall|x: int| 0 <= x < j ==> tree.contents()[#[trigger] keys@[x]] == keys@[x],
            forall|k: u64|
                tree.contents().contains_key(k) && !(exists|x: int| 0 <= x < j && keys@[x] == k)
                    ==> tree.contents()[k] == 42u64,
        decreases keys@.len() - j,
    {
        let key = keys[j];
        proof {
            assert(keys@.contains(key));
            if exists|x: int| 0 <= x < j && keys@[x] == key {
                let x = choose|x: int| 0 <= x < j && keys@[x] == key;
                assert(keys@[x] == keys@[j as int]);
                assert(false);
            }
        }
        let r = tree.insert(key, key);
        assert(r == Some(42u64));
        j += 1;
    }
    proof {
        assert forall|k: u64| k < n implies #[trigger] tree.contents()[k] == k by {
            assert(keys@.contains(k));
            let x = choose|x: int| 0 <= x < keys@.len() && keys@[x] == k;
            assert(tree.contents()[keys@[x]] == keys@[x]);
        }
    }

    // lookup the whole range and beyond it
    let mut k: u64 = 0;
    let limit: u64 = (size + 100) as u64;
    while k < limit
        invariant
            tree.inv(),
            0 <= k <= limit,
            n == size as u64,
            limit == n + 100,
            forall|kk: u64| #[trigger] tree.contents().contains_key(kk) <==> kk < n,
            forall|kk: u64| kk < n ==> #[trigger] tree.contents()[kk] == kk,
        decreases limit - k,
    {
        let r = lookup_value(&mut tree, k);
        if k < n {
            assert(r == Some(k));
        } else {
            assert(r.is_none());
        }
        k += 1;
    }
}

/// The reference returned by lookup points at the entry itself: a mutation
/// through it is visible to the next lookup.
pub fn test_ordered_set_reference<T: SimpleOrderedMap>() {
    let mut tree = T::new();

    let r = tree.insert(0, 42);
    assert(r.is_none());

    let result = tree.lookup(&0);
    match result {
        Some(e) => {
            assert(*e == 42);
            *e = 1337;
        },
        None => {
            proof {
                assert(false);
            }
        },
    }
    proof {
        assert(tree.contents() =~= Map::<u64, u64>::empty().insert(0, 42).insert(0, 1337));
    }

    let r2 = lookup_value(&mut tree, 0);
    assert(r2 == Some(1337u64));
}

} // verus!
