//! A separate-chaining hash table: a fixed power-of-two array of independent
//! collision lists; each key lives in the list of its home bucket.

use vstd::prelude::*;
use crate::hash::{fx_hash, hash_of};
use crate::hashtable::{insert_entries, Rehash, SimpleHashtable};
use crate::pow2::{is_pow2, next_pow2, next_power_of_two};

verus! {

/// An owned key-value pair in a collision list.
#[derive(Clone, Copy)]
struct Entry {
    key: u64,
    value: u64,
}

/// The home bucket of a key under the given mask.
spec fn home_of(k: u64, mask: u64) -> int {
    (hash_of(k) & mask) as int
}

proof fn lemma_and_le(x: u64, y: u64)
    ensures
        x & y <= y,
{
    assert(x & y <= y) by (bit_vector);
}

/// The key-value relation held by one collision list.
spec fn bucket_map(s: Seq<Entry>) -> Map<u64, u64>
    decreases s.len(),
{
    if s.len() == 0 {
        Map::empty()
    } else {
        bucket_map(s.drop_last()).insert(s.last().key, s.last().value)
    }
}

/// The key-value relation held by the whole bucket array.
spec fn buckets_map(t: Seq<Vec<Entry>>) -> Map<u64, u64>
    decreases t.len(),
{
    if t.len() == 0 {
        Map::empty()
    } else {
        buckets_map(t.drop_last()).union_prefer_right(bucket_map(t.last()@))
    }
}

/// Every entry of the list hashes home to bucket `b`, and no key repeats.
spec fn bucket_wf(s: Seq<Entry>, b: int, mask: u64) -> bool {
    &&& forall|e: int| 0 <= e < s.len() ==> home_of(#[trigger] s[e].key, mask) == b
    &&& forall|e1: int, e2: int| 0 <= e1 < e2 < s.len() ==> s[e1].key != s[e2].key
}

spec fn wf(t: Seq<Vec<Entry>>, mask: u64) -> bool {
    &&& t.len() == mask as int + 1
    &&& is_pow2(t.len() as nat)
    &&& forall|b: int| 0 <= b < t.len() ==> bucket_wf((#[trigger] t[b])@, b, mask)
}

proof fn lemma_bucket_map_finite(s: Seq<Entry>)
    ensures
        bucket_map(s).dom().finite(),
    decreases s.len(),
{
    if s.len() > 0 {
        lemma_bucket_map_finite(s.drop_last());
    }
}

proof fn lemma_buckets_map_finite(t: Seq<Vec<Entry>>)
    ensures
        buckets_map(t).dom().finite(),
    decreases t.len(),
{
    if t.len() > 0 {
        lemma_buckets_map_finite(t.drop_last());
        lemma_bucket_map_finite(t.last()@);
        assert(buckets_map(t).dom() =~= buckets_map(t.drop_last()).dom().union(
            bucket_map(t.last()@).dom(),
        ));
    }
}

proof fn lemma_bucket_map_contains(s: Seq<Entry>, k: u64)
    ensures
        bucket_map(s).contains_key(k) <==> exists|e: int| 0 <= e < s.len() && #[trigger] s[e].key
            == k,
    decreases s.len(),
{
    if s.len() > 0 {
        lemma_bucket_map_contains(s.drop_last(), k);
        let n = s.len() as int;
        if bucket_map(s).contains_key(k) {
            if s.last().key == k {
                assert(s[n - 1].key == k);
            } else {
                let e = choose|e: int|
                    0 <= e < s.drop_last().len() && #[trigger] s.drop_last()[e].key == k;
                assert(s[e].key == k);
            }
        }
        if exists|e: int| 0 <= e < s.len() && #[trigger] s[e].key == k {
            let e = choose|e: int| 0 <= e < s.len() && #[trigger] s[e].key == k;
            if e < n - 1 {
                assert(s.drop_last()[e].key == k);
            }
        }
    }
}

proof fn lemma_bucket_map_at(s: Seq<Entry>, e: int)
    requires
        forall|e1: int, e2: int| 0 <= e1 < e2 < s.len() ==> s[e1].key != s[e2].key,
        0 <= e < s.len(),
    ensures
        bucket_map(s).contains_key(s[e].key),
        bucket_map(s)[s[e].key] == s[e].value,
    decreases s.len(),
{
    let n = s.len() as int;
    if e < n - 1 {
        assert(forall|e1: int, e2: int|
            0 <= e1 < e2 < s.drop_last().len() ==> s.drop_last()[e1].key != s.drop_last()[e2].key);
        assert(s.drop_last()[e] == s[e]);
        lemma_bucket_map_at(s.drop_last(), e);
        assert(s[n - 1].key != s[e].key);
    }
}

proof fn lemma_bucket_map_set_v(s: Seq<Entry>, e: int, v: u64)
    requires
        forall|e1: int, e2: int| 0 <= e1 < e2 < s.len() ==> s[e1].key != s[e2].key,
        0 <= e < s.len(),
    ensures
        bucket_map(s.update(e, Entry { key: s[e].key, value: v })) == bucket_map(s).insert(
            s[e].key,
            v,
        ),
    decreases s.len(),
{
    let n = s.len() as int;
    let k = s[e].key;
    let s2 = s.update(e, Entry { key: k, value: v });
    if e == n - 1 {
        assert(s2.drop_last() =~= s.drop_last());
        assert(bucket_map(s2) =~= bucket_map(s).insert(k, v));
    } else {
        assert(forall|e1: int, e2: int|
            0 <= e1 < e2 < s.drop_last().len() ==> s.drop_last()[e1].key != s.drop_last()[e2].key);
        assert(s.drop_last()[e] == s[e]);
        lemma_bucket_map_set_v(s.drop_last(), e, v);
        assert(s2.drop_last() =~= s.drop_last().update(e, Entry { key: k, value: v }));
        assert(s2.last() == s.last());
        assert(s[n - 1].key != k);
        assert(bucket_map(s2) =~= bucket_map(s).insert(k, v));
    }
}

proof fn lemma_bucket_map_remove(s: Seq<Entry>, e: int)
    requires
        forall|e1: int, e2: int| 0 <= e1 < e2 < s.len() ==> s[e1].key != s[e2].key,
        0 <= e < s.len(),
    ensures
        bucket_map(s.remove(e)) == bucket_map(s).remove(s[e].key),
    decreases s.len(),
{
    let n = s.len() as int;
    let k = s[e].key;
    if e == n - 1 {
        assert(s.remove(e) =~= s.drop_last());
        lemma_bucket_map_contains(s.drop_last(), k);
        assert forall|x: int| 0 <= x < s.drop_last().len() implies s.drop_last()[x].key != k by {
            assert(s.drop_last()[x] == s[x]);
        }
        assert(!bucket_map(s.drop_last()).contains_key(k));
        assert(bucket_map(s.remove(e)) =~= bucket_map(s).remove(k));
    } else {
        assert(forall|e1: int, e2: int|
            0 <= e1 < e2 < s.drop_last().len() ==> s.drop_last()[e1].key != s.drop_last()[e2].key);
        assert(s.drop_last()[e] == s[e]);
        lemma_bucket_map_remove(s.drop_last(), e);
        assert(s.remove(e).drop_last() =~= s.drop_last().remove(e));
        assert(s.remove(e).last() == s.last());
        assert(s[n - 1].key != k);
        assert(bucket_map(s.remove(e)) =~= bucket_map(s).remove(k));
    }
}

/// With every key homed to its bucket, membership and value of the whole
/// table at `k` are those of `k`'s home bucket.
proof fn lemma_buckets_map_select(t: Seq<Vec<Entry>>, mask: u64, k: u64)
    requires
        forall|b: int| 0 <= b < t.len() ==> bucket_wf((#[trigger] t[b])@, b, mask),
    ensures
        buckets_map(t).contains_key(k) ==> 0 <= home_of(k, mask) < t.len(),
        buckets_map(t).contains_key(k) ==> bucket_map(t[home_of(k, mask)]@).contains_key(k)
            && buckets_map(t)[k] == bucket_map(t[home_of(k, mask)]@)[k],
        (0 <= home_of(k, mask) < t.len() && bucket_map(t[home_of(k, mask)]@).contains_key(k))
            ==> buckets_map(t).contains_key(k),
    decreases t.len(),
{
    if t.len() > 0 {
        let n = t.len() as int;
        let h = home_of(k, mask);
        assert(forall|b: int|
            0 <= b < t.drop_last().len() ==> bucket_wf((#[trigger] t.drop_last()[b])@, b, mask));
        lemma_buckets_map_select(t.drop_last(), mask, k);
        lemma_bucket_map_contains(t.last()@, k);
        if bucket_map(t.last()@).contains_key(k) {
            let e = choose|e: int| 0 <= e < t.last()@.len() && #[trigger] t.last()@[e].key == k;
            assert(bucket_wf(t[n - 1]@, n - 1, mask));
            assert(t.last() == t[n - 1]);
            assert(home_of(t[n - 1]@[e].key, mask) == n - 1);
            assert(h == n - 1);
        }
        if h == n - 1 {
            assert(!buckets_map(t.drop_last()).contains_key(k));
        }
    }
}

/// Replacing one bucket with a list that is still well-formed for that
/// bucket keeps the whole table well-formed.
proof fn lemma_wf_bucket_change(t: Seq<Vec<Entry>>, mask: u64, b: int, nb: Vec<Entry>)
    requires
        wf(t, mask),
        0 <= b < t.len(),
        bucket_wf(nb@, b, mask),
    ensures
        wf(t.update(b, nb), mask),
{
    let t2 = t.update(b, nb);
    assert forall|bb: int| 0 <= bb < t2.len() implies bucket_wf((#[trigger] t2[bb])@, bb, mask) by {
        if bb != b {
            assert(t2[bb] == t[bb]);
        }
    }
}

/// If the only bucket that changed is the home bucket of `k` and its map
/// gained exactly `k -> v`, the whole table's map gained exactly `k -> v`.
proof fn lemma_maps_eq_insert(t: Seq<Vec<Entry>>, t2: Seq<Vec<Entry>>, mask: u64, k: u64, v: u64)
    requires
        wf(t, mask),
        wf(t2, mask),
        t.len() == t2.len(),
        0 <= home_of(k, mask) < t.len(),
        forall|b: int| 0 <= b < t.len() && b != home_of(k, mask) ==> #[trigger] t2[b] == t[b],
        bucket_map(t2[home_of(k, mask)]@) == bucket_map(t[home_of(k, mask)]@).insert(k, v),
    ensures
        buckets_map(t2) == buckets_map(t).insert(k, v),
{
    assert forall|x: u64| true implies #[trigger] buckets_map(t2).contains_key(x) == buckets_map(
        t,
    ).insert(k, v).contains_key(x) && (buckets_map(t2).contains_key(x) ==> buckets_map(t2)[x]
        == buckets_map(t).insert(k, v)[x]) by {
        lemma_buckets_map_select(t, mask, x);
        lemma_buckets_map_select(t2, mask, x);
        let h = home_of(x, mask);
        if x == k {
        } else if 0 <= h < t.len() {
            if h == home_of(k, mask) {
                assert(bucket_map(t2[h]@).contains_key(x) == bucket_map(t[h]@).contains_key(x));
            } else {
                assert(t2[h] == t[h]);
            }
        }
    }
    assert(buckets_map(t2) =~= buckets_map(t).insert(k, v));
}

/// If the only bucket that changed is the home bucket of `k` and its map
/// lost exactly `k`, the whole table's map lost exactly `k`.
proof fn lemma_maps_eq_remove(t: Seq<Vec<Entry>>, t2: Seq<Vec<Entry>>, mask: u64, k: u64)
    requires
        wf(t, mask),
        wf(t2, mask),
        t.len() == t2.len(),
        0 <= home_of(k, mask) < t.len(),
        forall|b: int| 0 <= b < t.len() && b != home_of(k, mask) ==> #[trigger] t2[b] == t[b],
        bucket_map(t2[home_of(k, mask)]@) == bucket_map(t[home_of(k, mask)]@).remove(k),
    ensures
        buckets_map(t2) == buckets_map(t).remove(k),
{
    assert forall|x: u64| true implies #[trigger] buckets_map(t2).contains_key(x) == buckets_map(
        t,
    ).remove(k).contains_key(x) && (buckets_map(t2).contains_key(x) ==> buckets_map(t2)[x]
        == buckets_map(t).remove(k)[x]) by {
        lemma_buckets_map_select(t, mask, x);
        lemma_buckets_map_select(t2, mask, x);
        let h = home_of(x, mask);
        if x == k {
        } else if 0 <= h < t.len() {
            if h == home_of(k, mask) {
                assert(bucket_map(t2[h]@).contains_key(x) == bucket_map(t[h]@).contains_key(x));
            } else {
                assert(t2[h] == t[h]);
            }
        }
    }
    assert(buckets_map(t2) =~= buckets_map(t).remove(k));
}

/// Writing any value over the entry at `(b, e)` keeps the table well-formed
/// and updates its map at that entry's key alone, whatever list object
/// carries the written bucket.
proof fn lemma_lookup_write(t: Seq<Vec<Entry>>, mask: u64, b: int, e: int)
    requires
        wf(t, mask),
        0 <= b < t.len(),
        0 <= e < t[b]@.len(),
        home_of(t[b]@[e].key, mask) == b,
    ensures
        forall|nb: Vec<Entry>, v: u64|
            #![trigger t.update(b, nb), t[b]@.update(e, Entry { key: t[b]@[e].key, value: v })]
            nb@ == t[b]@.update(e, Entry { key: t[b]@[e].key, value: v }) ==> wf(
                t.update(b, nb),
                mask,
            ) && buckets_map(t.update(b, nb)) == buckets_map(t).insert(t[b]@[e].key, v),
{
    let k = t[b]@[e].key;
    assert forall|nb: Vec<Entry>, v: u64|
        #![trigger t.update(b, nb), t[b]@.update(e, Entry { key: t[b]@[e].key, value: v })]
        nb@ == t[b]@.update(e, Entry { key: t[b]@[e].key, value: v }) implies wf(
        t.update(b, nb),
        mask,
    ) && buckets_map(t.update(b, nb)) == buckets_map(t).insert(t[b]@[e].key, v) by {
        let t2 = t.update(b, nb);
        assert(bucket_wf(t[b]@, b, mask));
        assert forall|e1: int| 0 <= e1 < nb@.len() implies home_of(#[trigger] nb@[e1].key, mask)
            == b by {
            if e1 != e {
                assert(nb@[e1] == t[b]@[e1]);
            }
        }
        assert forall|e1: int, e2: int| 0 <= e1 < e2 < nb@.len() implies nb@[e1].key
            != nb@[e2].key by {
            if e1 != e && e2 != e {
                assert(nb@[e1] == t[b]@[e1] && nb@[e2] == t[b]@[e2]);
            } else if e1 == e {
                assert(nb@[e2] == t[b]@[e2]);
            } else {
                assert(nb@[e1] == t[b]@[e1]);
            }
        }
        lemma_wf_bucket_change(t, mask, b, nb);
        lemma_bucket_map_set_v(t[b]@, e, v);
        lemma_maps_eq_insert(t, t2, mask, k, v);
    }
}

/// Position `(pb, pe)` of the bucket array is listed in `qs`.
spec fn covered(qs: Seq<(int, int)>, pb: int, pe: int) -> bool {
    exists|i: int| 0 <= i < qs.len() && #[trigger] qs[i] == (pb, pe)
}

/// A fixed-size array of collision lists; every entry lives in the bucket
/// its hash selects.
pub struct ChainingHashtable {
    mask: u64,
    table: Vec<Vec<Entry>>,
}

impl ChainingHashtable {
    /// The home bucket index of `key`.
    fn hashmap_index(&self, key: u64) -> (b: usize)
        requires
            self.inv(),
        ensures
            b as int == home_of(key, self.mask),
            b < self.table@.len(),
    {
        let n = self.table.len();
        let h = fx_hash(key);
        proof {
            lemma_and_le(h, self.mask);
            assert(self.mask as int == n as int - 1);
        }
        (h & self.mask) as usize
    }

    /// The position of `key` in bucket `b`, if present.
    fn find_entry(&self, b: usize, key: u64) -> (r: Option<usize>)
        requires
            self.inv(),
            b < self.table@.len(),
        ensures
            match r {
                Some(e) => 0 <= e < self.table@[b as int]@.len()
                    && self.table@[b as int]@[e as int].key == key,
                None => forall|e: int|
                    0 <= e < self.table@[b as int]@.len() ==> self.table@[b as int]@[e as int].key
                        != key,
            },
    {
        let bucket = &self.table[b];
        let mut e: usize = 0;
        while e < bucket.len()
            invariant
                bucket@ == self.table@[b as int]@,
                0 <= e <= bucket@.len(),
                forall|x: int| 0 <= x < e ==> bucket@[x].key != key,
            decreases bucket@.len() - e,
        {
            if bucket[e].key == key {
                return Some(e);
            }
            e += 1;
        }
        None
    }
}

impl SimpleHashtable for ChainingHashtable {
    closed spec fn contents(&self) -> Map<u64, u64> {
        buckets_map(self.table@)
    }

    closed spec fn inv(&self) -> bool {
        wf(self.table@, self.mask)
    }

    closed spec fn capacity(&self) -> nat {
        self.table@.len() as nat
    }

    closed spec fn spare(&self) -> nat {
        u64::MAX as nat + 1
    }

    closed spec fn no_tombstones(&self) -> bool {
        true
    }

    closed spec fn may_insert(&self, key: u64) -> bool {
        true
    }

    open spec fn new_capacity(size: usize) -> nat {
        next_pow2(size as nat)
    }

    proof fn lemma_fresh_key_may_insert(&self, key: u64) {
    }

    proof fn lemma_present_key_may_insert(&self, key: u64) {
    }

    proof fn lemma_contents_finite(&self) {
        lemma_buckets_map_finite(self.table@);
    }

    fn new(size: usize) -> (r: Self) {
        let c = next_power_of_two(size);
        let mut table: Vec<Vec<Entry>> = Vec::new();
        while table.len() < c
            invariant
                table@.len() <= c,
                forall|b: int| 0 <= b < table@.len() ==> (#[trigger] table@[b])@.len() == 0,
                buckets_map(table@) == Map::<u64, u64>::empty(),
            decreases c - table@.len(),
        {
            let ghost pre = table@;
            table.push(Vec::new());
            proof {
                assert(table@.drop_last() =~= pre);
                assert(buckets_map(table@) =~= Map::<u64, u64>::empty());
            }
        }
        let r = ChainingHashtable { mask: (c - 1) as u64, table };
        proof {
            let t = r.table@;
            assert forall|b: int| 0 <= b < t.len() implies bucket_wf(
                (#[trigger] t[b])@,
                b,
                r.mask,
            ) by {
                assert(t[b]@.len() == 0);
            }
        }
        r
    }

    fn insert(&mut self, key: u64, value: u64) -> (r: Option<u64>) {
        let bi = self.hashmap_index(key);
        let found = self.find_entry(bi, key);
        let ghost t = self.table@;
        match found {
            Some(e) => {
                proof {
                    assert(bucket_wf(t[bi as int]@, bi as int, self.mask));
                    lemma_bucket_map_at(t[bi as int]@, e as int);
                    lemma_buckets_map_select(t, self.mask, key);
                    lemma_lookup_write(t, self.mask, bi as int, e as int);
                }
                let bref = &mut self.table[bi];
                let old_v = bref[e].value;
                let eref = &mut bref[e];
                *eref = Entry { key, value };
                proof {
                    let t2 = self.table@;
                    assert(t2 == t.update(bi as int, t2[bi as int]));
                    assert(t2[bi as int]@ == t[bi as int]@.update(e as int, Entry { key, value }));
                }
                Some(old_v)
            },
            None => {
                proof {
                    assert(bucket_wf(t[bi as int]@, bi as int, self.mask));
                    lemma_bucket_map_contains(t[bi as int]@, key);
                    lemma_buckets_map_select(t, self.mask, key);
                }
                let bref = &mut self.table[bi];
                bref.push(Entry { key, value });
                proof {
                    let t2 = self.table@;
                    assert(t2 == t.update(bi as int, t2[bi as int]));
                    assert(t2[bi as int]@ == t[bi as int]@.push(Entry { key, value }));
                    assert(t2[bi as int]@.drop_last() =~= t[bi as int]@);
                    assert(bucket_map(t2[bi as int]@) == bucket_map(t[bi as int]@).insert(
                        key,
                        value,
                    ));
                    let nb = t2[bi as int];
                    assert forall|e1: int| 0 <= e1 < nb@.len() implies home_of(
                        #[trigger] nb@[e1].key,
                        self.mask,
                    ) == bi as int by {
                        if e1 < nb@.len() - 1 {
                            assert(nb@[e1] == t[bi as int]@[e1]);
                        }
                    }
                    assert forall|e1: int, e2: int| 0 <= e1 < e2 < nb@.len() implies nb@[e1].key
                        != nb@[e2].key by {
                        if e2 < nb@.len() - 1 {
                            assert(nb@[e1] == t[bi as int]@[e1] && nb@[e2] == t[bi as int]@[e2]);
                        } else {
                            assert(nb@[e1] == t[bi as int]@[e1]);
                            assert(forall|x: int|
                                0 <= x < t[bi as int]@.len() ==> t[bi as int]@[x].key != key);
                        }
                    }
                    lemma_wf_bucket_change(t, self.mask, bi as int, nb);
                    lemma_maps_eq_insert(t, t2, self.mask, key, value);
                }
                None
            },
        }
    }

    fn lookup(&mut self, key: &u64) -> (r: Option<&mut u64>) {
        let k = *key;
        let bi = self.hashmap_index(k);
        let found = self.find_entry(bi, k);
        let ghost t = self.table@;
        match found {
            Some(e) => {
                proof {
                    assert(bucket_wf(t[bi as int]@, bi as int, self.mask));
                    lemma_bucket_map_at(t[bi as int]@, e as int);
                    lemma_buckets_map_select(t, self.mask, k);
                    lemma_lookup_write(t, self.mask, bi as int, e as int);
                }
                let bref = &mut self.table[bi];
                let eref = &mut bref[e];
                Some(&mut eref.value)
            },
            None => {
                proof {
                    assert(bucket_wf(t[bi as int]@, bi as int, self.mask));
                    lemma_bucket_map_contains(t[bi as int]@, k);
                    lemma_buckets_map_select(t, self.mask, k);
                }
                None
            },
        }
    }

    fn erase(&mut self, key: &u64) -> (r: bool) {
        let bi = self.hashmap_index(*key);
        let found = self.find_entry(bi, *key);
        let ghost t = self.table@;
        match found {
            Some(e) => {
                proof {
                    assert(bucket_wf(t[bi as int]@, bi as int, self.mask));
                    lemma_bucket_map_at(t[bi as int]@, e as int);
                    lemma_buckets_map_select(t, self.mask, *key);
                    lemma_bucket_map_remove(t[bi as int]@, e as int);
                }
                let bref = &mut self.table[bi];
                bref.remove(e);
                proof {
                    let t2 = self.table@;
                    assert(t2 == t.update(bi as int, t2[bi as int]));
                    assert(t2[bi as int]@ == t[bi as int]@.remove(e as int));
                    let nb = t2[bi as int];
                    let s = t[bi as int]@;
                    let e0 = e as int;
                    assert forall|e1: int, e2: int| 0 <= e1 < e2 < nb@.len() implies nb@[e1].key
                        != nb@[e2].key by {
                        let a1: int = if e1 < e0 {
                            e1
                        } else {
                            e1 + 1
                        };
                        let a2: int = if e2 < e0 {
                            e2
                        } else {
                            e2 + 1
                        };
                        assert(nb@[e1] == s[a1] && nb@[e2] == s[a2]);
                    }
                    assert forall|e1: int| 0 <= e1 < nb@.len() implies home_of(
                        #[trigger] nb@[e1].key,
                        self.mask,
                    ) == bi as int by {
                        let a1: int = if e1 < e0 {
                            e1
                        } else {
                            e1 + 1
                        };
                        assert(nb@[e1] == s[a1]);
                    }
                    lemma_wf_bucket_change(t, self.mask, bi as int, nb);
                    lemma_maps_eq_remove(t, t2, self.mask, *key);
                }
                true
            },
            None => {
                proof {
                    assert(bucket_wf(t[bi as int]@, bi as int, self.mask));
                    lemma_bucket_map_contains(t[bi as int]@, *key);
                    lemma_buckets_map_select(t, self.mask, *key);
                    assert(buckets_map(t).remove(*key) =~= buckets_map(t));
                }
                false
            },
        }
    }

    fn entries(&self) -> (es: Vec<(u64, u64)>) {
        let ghost t = self.table@;
        let mut es: Vec<(u64, u64)> = Vec::new();
        let ghost mut qs: Seq<(int, int)> = Seq::empty();
        let mut b: usize = 0;
        while b < self.table.len()
            invariant
                self.inv(),
                t == self.table@,
                0 <= b <= t.len(),
                qs.len() == es@.len(),
                forall|i: int|
                    0 <= i < qs.len() ==> {
                        let (pb, pe) = #[trigger] qs[i];
                        0 <= pb < b as int && 0 <= pe < t[pb]@.len() && t[pb]@[pe].key == es@[i].0
                            && t[pb]@[pe].value == es@[i].1
                    },
                forall|i: int, j: int|
                    0 <= i < j < qs.len() ==> (qs[i].0 < qs[j].0 || (qs[i].0 == qs[j].0 && qs[i].1
                        < qs[j].1)),
                forall|pb: int, pe: int|
                    0 <= pb < b as int && 0 <= pe < t[pb]@.len() ==> #[trigger] covered(
                        qs,
                        pb,
                        pe,
                    ),
            decreases t.len() - b,
        {
            let bucket = &self.table[b];
            let mut e: usize = 0;
            while e < bucket.len()
                invariant
                    self.inv(),
                    t == self.table@,
                    0 <= b < t.len(),
                    bucket@ == t[b as int]@,
                    0 <= e <= bucket@.len(),
                    qs.len() == es@.len(),
                    forall|i: int|
                        0 <= i < qs.len() ==> {
                            let (pb, pe) = #[trigger] qs[i];
                            0 <= pb <= b as int && 0 <= pe < t[pb]@.len() && (pb == b as int
                                ==> pe < e as int) && t[pb]@[pe].key == es@[i].0
                                && t[pb]@[pe].value == es@[i].1
                        },
                    forall|i: int, j: int|
                        0 <= i < j < qs.len() ==> (qs[i].0 < qs[j].0 || (qs[i].0 == qs[j].0
                            && qs[i].1 < qs[j].1)),
                    forall|pb: int, pe: int|
                        (0 <= pb < b as int && 0 <= pe < t[pb]@.len()) || (pb == b as int && 0
                            <= pe < e as int) ==> #[trigger] covered(qs, pb, pe),
                decreases bucket@.len() - e,
            {
                let en = bucket[e];
                let ghost qs_pre = qs;
                es.push((en.key, en.value));
                proof {
                    qs = qs.push((b as int, e as int));
                    assert forall|pb: int, pe: int|
                        (0 <= pb < b as int && 0 <= pe < t[pb]@.len()) || (pb == b as int && 0
                            <= pe < e as int + 1) implies #[trigger] covered(qs, pb, pe) by {
                        if pb == b as int && pe == e as int {
                            assert(qs[qs.len() - 1] == (pb, pe));
                        } else {
                            assert(covered(qs_pre, pb, pe));
                            let i = choose|i: int|
                                0 <= i < qs_pre.len() && #[trigger] qs_pre[i] == (pb, pe);
                            assert(qs[i] == (pb, pe));
                        }
                    }
                }
                e += 1;
            }
            b += 1;
        }
        proof {
            assert forall|i: int| 0 <= i < es@.len() implies buckets_map(t).contains_key(
                #[trigger] es@[i].0,
            ) && buckets_map(t)[es@[i].0] == es@[i].1 by {
                let (pb, pe) = qs[i];
                assert(bucket_wf(t[pb]@, pb, self.mask));
                lemma_bucket_map_at(t[pb]@, pe);
                lemma_buckets_map_select(t, self.mask, es@[i].0);
                assert(home_of(t[pb]@[pe].key, self.mask) == pb);
            }
            assert forall|k: u64| buckets_map(t).contains_key(k) implies exists|i: int|
                0 <= i < es@.len() && #[trigger] es@[i].0 == k by {
                lemma_buckets_map_select(t, self.mask, k);
                let h = home_of(k, self.mask);
                lemma_bucket_map_contains(t[h]@, k);
                let e = choose|e: int| 0 <= e < t[h]@.len() && #[trigger] t[h]@[e].key == k;
                assert(covered(qs, h, e));
                let i = choose|i: int| 0 <= i < qs.len() && #[trigger] qs[i] == (h, e);
                assert(es@[i].0 == k);
            }
            assert forall|i: int, j: int| 0 <= i < j < es@.len() implies es@[i].0 != es@[j].0 by {
                let (pb1, pe1) = qs[i];
                let (pb2, pe2) = qs[j];
                assert(bucket_wf(t[pb1]@, pb1, self.mask));
                assert(bucket_wf(t[pb2]@, pb2, self.mask));
                if pb1 == pb2 {
                    assert(t[pb1]@[pe1].key != t[pb2]@[pe2].key);
                } else {
                    assert(home_of(t[pb1]@[pe1].key, self.mask) == pb1);
                    assert(home_of(t[pb2]@[pe2].key, self.mask) == pb2);
                }
            }
        }
        es
    }
}

impl Rehash for ChainingHashtable {
    fn rehash<T: SimpleHashtable>(&self, map: &mut T) {
        let es = self.entries();
        insert_entries(&es, Ghost(self.contents()), map);
    }
}

} // verus!
